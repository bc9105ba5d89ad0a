//! Arguments, and the view of devices and of one process.

use vstd::prelude::*;
use vstd::string::*;
use vstd::utf8::encode_utf8;

use crate::binary64::{
    product, product_of_wholes, quotient, quotient_of_multiple, whole, whole_is_exact,
    whole_of_nothing, wholes_in_order, zero, Binary64, STEP,
};
use crate::diskstats::{
    self, active_when_a_counter_grows, all_fit, devices_are_paired_by_number, first_of_device,
    is_pseudo_device, pseudo, rate_views, rates, rates_between, DiskRate, DiskStats, RateView,
};
use crate::iotop::{string_views, TopOptions};
use crate::numeral::{decimal_reads_as_whole, fixed, float, format_fixed, parse_float};
use crate::proc_io::{self, ProcIo, ProcIoRate};
use crate::text::{
    at_left, at_right, chars_of, columns_have_their_width, decimal, decimal_of, decimal_reads_back,
    digit, joined, lemma_column, lemma_decimal, lemma_occurs_itself, lemma_occurs_within, occurs,
    parse_unsigned, push_decimal, push_left, push_right, same_text, starts_with, unsigned,
};

verus! {

// ---------------------------------------------------------------------------
// Arguments

/// How the view of devices is shown.
pub struct Args {
    pub interval: Binary64,
    pub count: Option<u64>,
    /// Show this process too.
    pub pid: Option<u32>,
    /// Show these devices only, where there are any.
    pub devices: Vec<String>,
    /// Show virtual and idle devices too.
    pub all: bool,
}

/// The interval that a text names, or what is wrong with it.
pub open spec fn interval_of(s: Seq<char>) -> Result<Binary64, Seq<char>> {
    match float(s) {
        Some(v) => if !v.finite() || v.at_most(zero()) {
            Err("间隔秒数必须为正数: "@ + s)
        } else {
            Ok(v)
        },
        None => Err("无效的间隔秒数: "@ + s),
    }
}

/// The interval that a text names: a positive number of seconds.
pub fn parse_interval(s: &str) -> (r: Result<Binary64, String>)
    ensures
        match interval_of(s@) {
            Ok(v) => r == Ok::<Binary64, String>(v),
            Err(e) => r matches Err(m) && m@ == e,
        },
{
    let cs = chars_of(s);
    match parse_float(cs.as_slice()) {
        Some(v) => if !v.is_finite() || v.le(&Binary64::from_bits(0)) {
            Err(joined("间隔秒数必须为正数: ", s))
        } else {
            Ok(v)
        },
        None => Err(joined("无效的间隔秒数: ", s)),
    }
}

/// The interval and the count that the arguments without options name, or what
/// is wrong with them. Without any the interval is two seconds.
pub open spec fn positional(rest: Seq<Seq<char>>) -> Result<(Binary64, Option<u64>), Seq<char>> {
    if rest.len() == 0 {
        Ok((whole(2), None))
    } else if rest.len() > 2 {
        Err("位置参数过多（"@ + decimal(rest.len() as int) + " 个），最多为: [间隔秒数] [次数]"@)
    } else {
        match interval_of(rest[0]) {
            Ok(v) => if rest.len() == 1 {
                Ok((v, None))
            } else {
                match unsigned(rest[1], u64::MAX as int) {
                    Some(n) => Ok((v, Some(n))),
                    None => Err("无效的次数: "@ + rest[1]),
                }
            },
            Err(e) => Err(e),
        }
    }
}

fn read_positional(rest: &Vec<String>) -> (r: Result<(Binary64, Option<u64>), String>)
    ensures
        match positional(string_views(rest@)) {
            Ok(v) => r matches Ok(x) && x == v,
            Err(e) => r matches Err(m) && m@ == e,
        },
{
    let ghost g = string_views(rest@);
    if rest.len() == 0 {
        return Ok((Binary64::from_u64(2), None));
    }
    if rest.len() > 2 {
        let mut e: String = String::new();
        e.append("位置参数过多（");
        push_decimal(&mut e, rest.len() as u64);
        e.append(" 个），最多为: [间隔秒数] [次数]");
        return Err(e);
    }
    assert(g[0] == rest@[0]@);
    let interval = match parse_interval(rest[0].as_str()) {
        Ok(v) => v,
        Err(e) => return Err(e),
    };
    if rest.len() == 1 {
        return Ok((interval, None));
    }
    assert(g[1] == rest@[1]@);
    let cs = chars_of(rest[1].as_str());
    match parse_unsigned(cs.as_slice(), u64::MAX) {
        Some(n) => Ok((interval, Some(n))),
        None => Err(joined("无效的次数: ", rest[1].as_str())),
    }
}

/// The options that were read so far, and the arguments that are none.
pub struct Flags {
    pub all: bool,
    pub pid: Option<u32>,
    pub devices: Seq<Seq<char>>,
    pub rest: Seq<Seq<char>>,
}

/// What reading the arguments came to.
pub enum Scanned<T> {
    Read(T),
    /// The user asks for help.
    Help,
    Fault(Seq<char>),
}

/// Reads the arguments from `i` on.
pub open spec fn scanned(args: Seq<Seq<char>>, i: int, f: Flags) -> Scanned<Flags>
    decreases args.len() - i,
{
    if i >= args.len() {
        Scanned::Read(f)
    } else {
        let a = args[i];
        if a == "-h"@ || a == "--help"@ {
            Scanned::Help
        } else if a == "-a"@ || a == "--all"@ {
            scanned(args, i + 1, Flags { all: true, ..f })
        } else if a == "-p"@ || a == "--pid"@ {
            if i + 1 >= args.len() {
                Scanned::Fault("-p/--pid 需要一个 PID 参数"@)
            } else {
                match unsigned(args[i + 1], u32::MAX as int) {
                    Some(n) => scanned(args, i + 2, Flags { pid: Some(n as u32), ..f }),
                    None => Scanned::Fault("无效的 PID: "@ + args[i + 1]),
                }
            }
        } else if a == "-d"@ || a == "--device"@ {
            if i + 1 >= args.len() {
                Scanned::Fault("-d/--device 需要一个设备名参数"@)
            } else {
                scanned(args, i + 2, Flags { devices: f.devices.push(args[i + 1]), ..f })
            }
        } else if "-"@.is_prefix_of(a) {
            Scanned::Fault("未知选项: "@ + a)
        } else {
            scanned(args, i + 1, Flags { rest: f.rest.push(a), ..f })
        }
    }
}

pub open spec fn no_flags() -> Flags {
    Flags { all: false, pid: None, devices: seq![], rest: seq![] }
}

/// Whether this is what the arguments of the view of devices say.
pub open spec fn args_say(args: Seq<Seq<char>>, r: Result<Option<Args>, String>) -> bool {
    match scanned(args, 0, no_flags()) {
        Scanned::Help => r matches Ok(None),
        Scanned::Fault(e) => r matches Err(m) && m@ == e,
        Scanned::Read(f) => match positional(f.rest) {
            Ok((interval, count)) => r matches Ok(Some(o)) && o.interval == interval && o.count
                == count && o.pid == f.pid && string_views(o.devices@) == f.devices && o.all == f.all,
            Err(e) => r matches Err(m) && m@ == e,
        },
    }
}

/// Reads the arguments of the view of devices. `None` stands for a call for
/// help.
pub fn parse_args(args: &[String]) -> (r: Result<Option<Args>, String>)
    ensures
        args_say(string_views(args@), r),
{
    let ghost g = string_views(args@);
    let mut all: bool = false;
    let mut pid: Option<u32> = None;
    let mut devices: Vec<String> = Vec::new();
    let mut rest: Vec<String> = Vec::new();
    let n = args.len();
    let mut i: usize = 0;
    assert(string_views(rest@) =~= seq![]);
    assert(string_views(devices@) =~= seq![]);
    while i < n
        invariant
            n == args@.len(),
            i <= n,
            g == string_views(args@),
            scanned(g, 0, no_flags()) == scanned(
                g,
                i as int,
                Flags {
                    all,
                    pid,
                    devices: string_views(devices@),
                    rest: string_views(rest@),
                },
            ),
        decreases n - i,
    {
        let cs = chars_of(args[i].as_str());
        let a = cs.as_slice();
        assert(g[i as int] == a@);
        if same_text(a, "-h") || same_text(a, "--help") {
            return Ok(None);
        }
        if same_text(a, "-a") || same_text(a, "--all") {
            all = true;
            i = i + 1;
        } else if same_text(a, "-p") || same_text(a, "--pid") {
            if i + 1 >= n {
                return Err("-p/--pid 需要一个 PID 参数".to_string());
            }
            assert(g[i + 1] == args@[i + 1]@);
            let vs = chars_of(args[i + 1].as_str());
            match parse_unsigned(vs.as_slice(), u32::MAX as u64) {
                Some(v) => {
                    pid = Some(v as u32);
                },
                None => return Err(joined("无效的 PID: ", args[i + 1].as_str())),
            }
            i = i + 2;
        } else if same_text(a, "-d") || same_text(a, "--device") {
            if i + 1 >= n {
                return Err("-d/--device 需要一个设备名参数".to_string());
            }
            assert(g[i + 1] == args@[i + 1]@);
            let ghost before = devices@;
            devices.push(args[i + 1].clone());
            assert(string_views(devices@) =~= string_views(before).push(g[i + 1]));
            i = i + 2;
        } else if starts_with(a, "-") {
            return Err(joined("未知选项: ", args[i].as_str()));
        } else {
            let ghost before = rest@;
            rest.push(args[i].clone());
            assert(string_views(rest@) =~= string_views(before).push(a@));
            i = i + 1;
        }
    }
    match read_positional(&rest) {
        Ok((interval, count)) => Ok(Some(Args { interval, count, pid, devices, all })),
        Err(e) => Err(e),
    }
}

/// The options of the ranking that were read so far.
pub struct TopFlags {
    pub per_process: bool,
    pub show_idle: bool,
    pub rows: Option<usize>,
    pub rest: Seq<Seq<char>>,
}

/// Reads the arguments of the ranking from `i` on.
pub open spec fn top_scanned(args: Seq<Seq<char>>, i: int, f: TopFlags) -> Scanned<TopFlags>
    decreases args.len() - i,
{
    if i >= args.len() {
        Scanned::Read(f)
    } else {
        let a = args[i];
        if a == "-h"@ || a == "--help"@ {
            Scanned::Help
        } else if a == "-P"@ || a == "--processes"@ {
            top_scanned(args, i + 1, TopFlags { per_process: true, ..f })
        } else if a == "-o"@ || a == "--only"@ {
            top_scanned(args, i + 1, TopFlags { show_idle: false, ..f })
        } else if a == "-a"@ || a == "--all"@ {
            top_scanned(args, i + 1, TopFlags { show_idle: true, ..f })
        } else if a == "-n"@ || a == "--lines"@ {
            if i + 1 >= args.len() {
                Scanned::Fault("-n/--lines 需要一个行数参数"@)
            } else {
                match unsigned(args[i + 1], usize::MAX as int) {
                    Some(n) => if n == 0 {
                        Scanned::Fault("行数必须大于 0"@)
                    } else {
                        top_scanned(args, i + 2, TopFlags { rows: Some(n as usize), ..f })
                    },
                    None => Scanned::Fault("无效的行数: "@ + args[i + 1]),
                }
            }
        } else if "-"@.is_prefix_of(a) {
            Scanned::Fault("未知选项: "@ + a)
        } else {
            top_scanned(args, i + 1, TopFlags { rest: f.rest.push(a), ..f })
        }
    }
}

pub open spec fn no_top_flags() -> TopFlags {
    TopFlags { per_process: false, show_idle: true, rows: None, rest: seq![] }
}

/// Whether these are the options that the arguments name. Without a number of
/// lines there are 20, and the terminal's height may change that.
pub open spec fn top_options(o: TopOptions, f: TopFlags, interval: Binary64, count: Option<u64>) -> bool {
    &&& o.interval == interval
    &&& o.count == count
    &&& o.per_process == f.per_process
    &&& o.show_idle == f.show_idle
    &&& o.rows == match f.rows {
        Some(n) => n as int,
        None => 20,
    }
    &&& o.rows_explicit == (f.rows is Some)
}

/// Whether this is what the arguments of the ranking say.
pub open spec fn top_args_say(args: Seq<Seq<char>>, r: Result<Option<TopOptions>, String>) -> bool {
    match top_scanned(args, 0, no_top_flags()) {
        Scanned::Help => r matches Ok(None),
        Scanned::Fault(e) => r matches Err(m) && m@ == e,
        Scanned::Read(f) => match positional(f.rest) {
            Ok((interval, count)) => r matches Ok(Some(o)) && top_options(o, f, interval, count),
            Err(e) => r matches Err(m) && m@ == e,
        },
    }
}

/// Reads the arguments of the ranking. `None` stands for a call for help.
pub fn parse_top_args(args: &[String]) -> (r: Result<Option<TopOptions>, String>)
    ensures
        top_args_say(string_views(args@), r),
{
    let ghost g = string_views(args@);
    let mut per_process: bool = false;
    let mut show_idle: bool = true;
    let mut lines: Option<usize> = None;
    let mut rest: Vec<String> = Vec::new();
    let n = args.len();
    let mut i: usize = 0;
    assert(string_views(rest@) =~= seq![]);
    while i < n
        invariant
            n == args@.len(),
            i <= n,
            g == string_views(args@),
            top_scanned(g, 0, no_top_flags()) == top_scanned(
                g,
                i as int,
                TopFlags { per_process, show_idle, rows: lines, rest: string_views(rest@) },
            ),
        decreases n - i,
    {
        let cs = chars_of(args[i].as_str());
        let a = cs.as_slice();
        assert(g[i as int] == a@);
        if same_text(a, "-h") || same_text(a, "--help") {
            return Ok(None);
        }
        if same_text(a, "-P") || same_text(a, "--processes") {
            per_process = true;
            i = i + 1;
        } else if same_text(a, "-o") || same_text(a, "--only") {
            show_idle = false;
            i = i + 1;
        } else if same_text(a, "-a") || same_text(a, "--all") {
            show_idle = true;
            i = i + 1;
        } else if same_text(a, "-n") || same_text(a, "--lines") {
            if i + 1 >= n {
                return Err("-n/--lines 需要一个行数参数".to_string());
            }
            assert(g[i + 1] == args@[i + 1]@);
            let vs = chars_of(args[i + 1].as_str());
            match parse_unsigned(vs.as_slice(), usize::MAX as u64) {
                Some(v) => {
                    if v == 0 {
                        return Err("行数必须大于 0".to_string());
                    }
                    lines = Some(v as usize);
                },
                None => return Err(joined("无效的行数: ", args[i + 1].as_str())),
            }
            i = i + 2;
        } else if starts_with(a, "-") {
            return Err(joined("未知选项: ", args[i].as_str()));
        } else {
            let ghost before = rest@;
            rest.push(args[i].clone());
            assert(string_views(rest@) =~= string_views(before).push(a@));
            i = i + 1;
        }
    }
    match read_positional(&rest) {
        Ok((interval, count)) => Ok(
            Some(
                TopOptions {
                    interval,
                    count,
                    per_process,
                    show_idle,
                    rows: match lines {
                        Some(v) => v,
                        None => 20,
                    },
                    rows_explicit: lines.is_some(),
                },
            ),
        ),
        Err(e) => Err(e),
    }
}

/// Whether there is one more sample to print.
pub open spec fn more_to_print(count: Option<u64>, printed: u64) -> bool {
    count matches Some(c) ==> printed < c
}

/// Whether one more sample is taken. Without a count they go on for ever.
pub fn goes_on(count: Option<u64>, printed: u64) -> (r: bool)
    ensures
        r == more_to_print(count, printed),
{
    match count {
        Some(c) => printed < c,
        None => true,
    }
}

// ---------------------------------------------------------------------------
// Devices

/// One sample.
pub struct Snapshot {
    pub disks: Vec<DiskStats>,
    /// What the process that is shown too has counted.
    pub proc_io: Option<ProcIo>,
    /// Clock ticks that it has waited for block IO, each of 10 milliseconds.
    pub blkio_ticks: Option<u64>,
}

/// Whether a name is among those given.
pub open spec fn named(names: Seq<String>, name: Seq<char>) -> bool {
    string_views(names).contains(name)
}

fn is_named(names: &Vec<String>, name: &str) -> (r: bool)
    ensures
        r == named(names@, name@),
{
    let cs = chars_of(name);
    let ghost g = string_views(names@);
    for i in 0..names.len()
        invariant
            cs@ == name@,
            g == string_views(names@),
            forall|j: int| 0 <= j < i ==> g[j] != name@,
    {
        assert(g[i as int] == names@[i as int]@);
        if same_text(cs.as_slice(), names[i].as_str()) {
            return true;
        }
    }
    false
}

/// Whether a device's counters are shown: one of those named, or where none is
/// named any that is not virtual.
pub open spec fn counters_shown(args: Args, d: DiskStats) -> bool {
    if args.devices@.len() > 0 {
        named(args.devices@, d.device@)
    } else {
        args.all || !pseudo(d.device@)
    }
}

/// The devices whose counters are shown.
pub open spec fn visible(disks: Seq<DiskStats>, args: Args) -> Seq<DiskStats> {
    disks.filter(|d: DiskStats| counters_shown(args, d))
}

/// The devices whose counters are shown.
pub fn visible_disks<'a>(disks: &'a [DiskStats], args: &Args) -> (r: Vec<&'a DiskStats>)
    ensures
        r@.len() == visible(disks@, *args).len(),
        forall|i: int| 0 <= i < r@.len() ==> *(#[trigger] r@[i]) == visible(disks@, *args)[i],
{
    let ghost pred = |d: DiskStats| counters_shown(*args, d);
    let mut out: Vec<&'a DiskStats> = Vec::new();
    proof {
        reveal(Seq::filter);
    }
    for i in 0..disks.len()
        invariant
            pred == (|d: DiskStats| counters_shown(*args, d)),
            out@.len() == disks@.take(i as int).filter(pred).len(),
            forall|j: int|
                0 <= j < out@.len() ==> *(#[trigger] out@[j]) == disks@.take(i as int).filter(
                    pred,
                )[j],
    {
        let d = &disks[i];
        assert(disks@.take(i as int + 1).drop_last() =~= disks@.take(i as int));
        proof {
            reveal(Seq::filter);
        }
        let show = if args.devices.len() > 0 {
            is_named(&args.devices, d.device.as_str())
        } else {
            args.all || !is_pseudo_device(d.device.as_str())
        };
        if show {
            out.push(d);
        }
    }
    assert(disks@.take(disks@.len() as int) =~= disks@);
    out
}

/// The bytes that a text takes in UTF-8.
pub open spec fn text_bytes(s: Seq<char>) -> usize {
    encode_utf8(s).len() as usize
}

/// The width of the column of names: the longest of them in bytes, and no less
/// than 6.
pub open spec fn name_width(names: Seq<Seq<char>>) -> int
    decreases names.len(),
{
    if names.len() == 0 {
        6
    } else {
        let w = name_width(names.drop_last());
        let n = text_bytes(names.last()) as int;
        if n > w {
            n
        } else {
            w
        }
    }
}

/// The names of devices.
pub open spec fn disk_names(d: Seq<DiskStats>) -> Seq<Seq<char>> {
    Seq::new(d.len(), |i: int| d[i].device@)
}

/// The names of devices with rates.
pub open spec fn rate_names(d: Seq<RateView>) -> Seq<Seq<char>> {
    Seq::new(d.len(), |i: int| d[i].device)
}

/// Sectors as MiB.
pub open spec fn mib(sectors: u64) -> Binary64 {
    quotient(product(whole(sectors as int), whole(512)), whole(1048576))
}

fn mib_of(sectors: u64) -> (r: Binary64)
    ensures
        r == mib(sectors),
{
    Binary64::from_u64(sectors).times(&Binary64::from_u64(512)).over(&Binary64::from_u64(1048576))
}

/// One device's counters.
pub open spec fn counter_line(d: DiskStats, width: int) -> Seq<char> {
    at_left(d.device@, width) + " "@ + at_right(decimal(d.reads_completed as int), 12) + " "@
        + at_right(fixed(mib(d.sectors_read), 1), 12) + " "@ + at_right(
        decimal(d.writes_completed as int),
        12,
    ) + " "@ + at_right(fixed(mib(d.sectors_written), 1), 12) + "\n"@
}

pub open spec fn counter_lines(d: Seq<DiskStats>, width: int) -> Seq<char>
    decreases d.len(),
{
    if d.len() == 0 {
        seq![]
    } else {
        counter_lines(d.drop_last(), width) + counter_line(d.last(), width)
    }
}

pub open spec fn counter_heading(width: int) -> Seq<char> {
    at_left("Device"@, width) + " "@ + at_right("reads"@, 12) + " "@ + at_right("read_MiB"@, 12)
        + " "@ + at_right("writes"@, 12) + " "@ + at_right("write_MiB"@, 12) + "\n"@
}

/// The counters of the process that is shown too.
pub open spec fn process_counters(s: Snapshot, pid: u32) -> Seq<char> {
    match s.proc_io {
        Some(io) => "\n进程 "@ + decimal(pid as int) + " 累计: 磁盘读 "@ + fixed(
            quotient(whole(io.read_bytes as int), whole(1048576)),
            1,
        ) + " MiB  磁盘写 "@ + fixed(
            quotient(whole(io.write_bytes as int), whole(1048576)),
            1,
        ) + " MiB  iodelay "@ + fixed(
            quotient(
                whole(
                    match s.blkio_ticks {
                        Some(t) => t as int,
                        None => 0,
                    },
                ),
                whole(100),
            ),
            1,
        ) + " s\n"@,
        None => seq![],
    }
}

/// What was counted since the system started.
pub open spec fn totals_text(s: Snapshot, args: Args) -> Seq<char> {
    let d = visible(s.disks@, args);
    let w = name_width(disk_names(d));
    "\n===== 自启动累计 =====\n"@ + (if d.len() == 0 {
        "（没有匹配的设备）\n"@
    } else {
        counter_heading(w) + counter_lines(d, w)
    }) + process_counters(s, args.pid->0)
}

fn push_counter_heading(out: &mut String, width: usize)
    ensures
        final(out)@ == old(out)@ + counter_heading(width as int),
{
    let mut line: String = String::new();
    push_left(&mut line, "Device", width);
    assert(line@ =~= at_left("Device"@, width as int));
    line.append(" ");
    push_right(&mut line, "reads", 12);
    line.append(" ");
    push_right(&mut line, "read_MiB", 12);
    line.append(" ");
    push_right(&mut line, "writes", 12);
    line.append(" ");
    push_right(&mut line, "write_MiB", 12);
    line.append("\n");
    out.append(line.as_str());
}

fn push_counter_line(out: &mut String, d: &DiskStats, width: usize)
    ensures
        final(out)@ == old(out)@ + counter_line(*d, width as int),
{
    let mut line: String = String::new();
    push_left(&mut line, d.device.as_str(), width);
    assert(line@ =~= at_left(d.device@, width as int));
    line.append(" ");
    push_right(&mut line, decimal_of(d.reads_completed).as_str(), 12);
    line.append(" ");
    push_right(&mut line, format_fixed(&mib_of(d.sectors_read), 1).as_str(), 12);
    line.append(" ");
    push_right(&mut line, decimal_of(d.writes_completed).as_str(), 12);
    line.append(" ");
    push_right(&mut line, format_fixed(&mib_of(d.sectors_written), 1).as_str(), 12);
    line.append("\n");
    out.append(line.as_str());
}

fn push_process_counters(out: &mut String, s: &Snapshot, pid: Option<u32>)
    requires
        s.proc_io is Some ==> pid is Some,
    ensures
        final(out)@ == old(out)@ + process_counters(*s, pid->0),
{
    if let (Some(io), Some(pid)) = (&s.proc_io, pid) {
        let mebi = Binary64::from_u64(1048576);
        let ticks: u64 = match s.blkio_ticks {
            Some(t) => t,
            None => 0,
        };
        let read = Binary64::from_u64(io.read_bytes).over(&mebi);
        let write = Binary64::from_u64(io.write_bytes).over(&mebi);
        let delay = Binary64::from_u64(ticks).over(&Binary64::from_u64(100));
        let mut line: String = String::new();
        line.append("\n进程 ");
        assert(line@ =~= "\n进程 "@);
        push_decimal(&mut line, pid as u64);
        line.append(" 累计: 磁盘读 ");
        line.append(format_fixed(&read, 1).as_str());
        line.append(" MiB  磁盘写 ");
        line.append(format_fixed(&write, 1).as_str());
        line.append(" MiB  iodelay ");
        line.append(format_fixed(&delay, 1).as_str());
        line.append(" s\n");
        out.append(line.as_str());
    } else {
        assert(out@ =~= old(out)@ + Seq::<char>::empty());
    }
}

/// Writes what was counted since the system started.
pub fn print_totals(s: &Snapshot, args: &Args) -> (r: String)
    requires
        s.proc_io is Some ==> args.pid is Some,
    ensures
        r@ == totals_text(*s, *args),
{
    let disks = visible_disks(s.disks.as_slice(), args);
    let ghost g = visible(s.disks@, *args);
    let ghost names = disk_names(g);
    let mut width: usize = 6;
    for i in 0..disks.len()
        invariant
            disks@.len() == g.len(),
            forall|j: int| 0 <= j < disks@.len() ==> *(#[trigger] disks@[j]) == g[j],
            names == disk_names(g),
            width == name_width(names.take(i as int)),
    {
        assert(names.take(i as int + 1).drop_last() =~= names.take(i as int));
        assert(names[i as int] == disks@[i as int].device@);
        let n = disks[i].device.as_str().len();
        if n > width {
            width = n;
        }
    }
    assert(names.take(names.len() as int) =~= names);
    let mut out: String = String::new();
    out.append("\n===== 自启动累计 =====\n");
    let ghost top = out@;
    if disks.len() == 0 {
        out.append("（没有匹配的设备）\n");
    } else {
        push_counter_heading(&mut out, width);
        let ghost start = out@;
        assert(start + counter_lines(g.take(0), width as int) =~= start);
        for i in 0..disks.len()
            invariant
                disks@.len() == g.len(),
                forall|j: int| 0 <= j < disks@.len() ==> *(#[trigger] disks@[j]) == g[j],
                out@ == start + counter_lines(g.take(i as int), width as int),
        {
            push_counter_line(&mut out, disks[i], width);
            assert(g.take(i as int + 1).drop_last() =~= g.take(i as int));
            assert(out@ =~= start + counter_lines(g.take(i as int + 1), width as int));
        }
        assert(g.take(g.len() as int) =~= g);
    }
    assert(out@ =~= top + (if g.len() == 0 {
        "（没有匹配的设备）\n"@
    } else {
        counter_heading(width as int) + counter_lines(g, width as int)
    }));
    push_process_counters(&mut out, s, args.pid);
    assert(top =~= "\n===== 自启动累计 =====\n"@);
    out
}

// ---------------------------------------------------------------------------
// Rates

/// Whether a device's rates are shown: not those of other devices than the
/// named ones, nor of a virtual or idle one unless all are asked for.
pub open spec fn rates_shown(args: Args, r: RateView) -> bool {
    &&& args.devices@.len() > 0 ==> named(args.devices@, r.device)
    &&& args.all || (!pseudo(r.device) && r.active)
}

/// One device's rates.
pub open spec fn rate_line(r: RateView, width: int) -> Seq<char> {
    at_left(r.device, width) + " "@ + at_right(fixed(r.r_s, 1), 8) + " "@ + at_right(
        fixed(r.w_s, 1),
        8,
    ) + " "@ + at_right(fixed(r.rk_bps, 1), 10) + " "@ + at_right(fixed(r.wk_bps, 1), 10) + " "@
        + at_right(fixed(r.aqu_sz, 2), 7) + " "@ + at_right(fixed(r.await_ms, 2), 8) + " "@
        + at_right(fixed(r.util_pct, 1), 7) + "\n"@
}

pub open spec fn rate_lines(r: Seq<RateView>, width: int) -> Seq<char>
    decreases r.len(),
{
    if r.len() == 0 {
        seq![]
    } else {
        rate_lines(r.drop_last(), width) + rate_line(r.last(), width)
    }
}

pub open spec fn rate_heading(width: int) -> Seq<char> {
    at_left("Device"@, width) + " "@ + at_right("r/s"@, 8) + " "@ + at_right("w/s"@, 8) + " "@
        + at_right("rkB/s"@, 10) + " "@ + at_right("wkB/s"@, 10) + " "@ + at_right("aqu-sz"@, 7)
        + " "@ + at_right("await"@, 8) + " "@ + at_right("%util"@, 7) + "\n"@
}

/// Clock ticks, none where they are not known.
pub open spec fn ticks_of(s: Snapshot) -> u64 {
    match s.blkio_ticks {
        Some(t) => t,
        None => 0,
    }
}

/// The rates of the process that is shown too.
pub open spec fn process_rates(prev: Snapshot, cur: Snapshot, elapsed: Binary64, pid: u32) -> Seq<char> {
    match (prev.proc_io, cur.proc_io) {
        (Some(p), Some(c)) => {
            let r = proc_io::rate_between(p, ticks_of(prev), c, ticks_of(cur), elapsed);
            "进程 "@ + decimal(pid as int) + ": rchar/s "@ + at_right(fixed(r.rchar_s, 0), 13)
                + "  wchar/s "@ + at_right(fixed(r.wchar_s, 0), 13) + "  磁盘读 "@ + at_right(
                fixed(r.read_kbps, 1),
                9,
            ) + " kB/s  磁盘写 "@ + at_right(fixed(r.write_kbps, 1), 9) + " kB/s  iodelay +"@
                + decimal(r.iodelay_ms as int) + " ms\n"@
        },
        _ => seq![],
    }
}

/// The rates between two samples.
pub open spec fn rates_text(prev: Snapshot, cur: Snapshot, elapsed: Binary64, args: Args) -> Seq<char> {
    let shown = rates_between(prev.disks@, cur.disks@, elapsed).filter(
        |r: RateView| rates_shown(args, r),
    );
    let w = name_width(rate_names(shown));
    "\n===== 最近 "@ + fixed(elapsed, 1) + "s =====\n"@ + (if shown.len() == 0 {
        "（本间隔内无匹配的设备活动）\n"@
    } else {
        rate_heading(w) + rate_lines(shown, w)
    }) + process_rates(prev, cur, elapsed, args.pid->0)
}

fn push_rate_heading(out: &mut String, width: usize)
    ensures
        final(out)@ == old(out)@ + rate_heading(width as int),
{
    let mut line: String = String::new();
    push_left(&mut line, "Device", width);
    assert(line@ =~= at_left("Device"@, width as int));
    line.append(" ");
    push_right(&mut line, "r/s", 8);
    line.append(" ");
    push_right(&mut line, "w/s", 8);
    line.append(" ");
    push_right(&mut line, "rkB/s", 10);
    line.append(" ");
    push_right(&mut line, "wkB/s", 10);
    line.append(" ");
    push_right(&mut line, "aqu-sz", 7);
    line.append(" ");
    push_right(&mut line, "await", 8);
    line.append(" ");
    push_right(&mut line, "%util", 7);
    line.append("\n");
    out.append(line.as_str());
}

fn push_rate_line(out: &mut String, r: &DiskRate, width: usize)
    ensures
        final(out)@ == old(out)@ + rate_line(r@, width as int),
{
    let mut line: String = String::new();
    push_left(&mut line, r.device.as_str(), width);
    assert(line@ =~= at_left(r.device@, width as int));
    line.append(" ");
    push_right(&mut line, format_fixed(&r.r_s, 1).as_str(), 8);
    line.append(" ");
    push_right(&mut line, format_fixed(&r.w_s, 1).as_str(), 8);
    line.append(" ");
    push_right(&mut line, format_fixed(&r.rk_bps, 1).as_str(), 10);
    line.append(" ");
    push_right(&mut line, format_fixed(&r.wk_bps, 1).as_str(), 10);
    line.append(" ");
    push_right(&mut line, format_fixed(&r.aqu_sz, 2).as_str(), 7);
    line.append(" ");
    push_right(&mut line, format_fixed(&r.await_ms, 2).as_str(), 8);
    line.append(" ");
    push_right(&mut line, format_fixed(&r.util_pct, 1).as_str(), 7);
    line.append("\n");
    out.append(line.as_str());
}

fn push_process_rates(out: &mut String, prev: &Snapshot, cur: &Snapshot, elapsed: Binary64, pid: Option<u32>)
    requires
        prev.proc_io is Some && cur.proc_io is Some ==> pid is Some,
    ensures
        final(out)@ == old(out)@ + process_rates(*prev, *cur, elapsed, pid->0),
{
    if let (Some(p), Some(c), Some(pid)) = (&prev.proc_io, &cur.proc_io, pid) {
        let before: u64 = match prev.blkio_ticks {
            Some(t) => t,
            None => 0,
        };
        let after: u64 = match cur.blkio_ticks {
            Some(t) => t,
            None => 0,
        };
        let r: ProcIoRate = proc_io::rate(p, before, c, after, elapsed);
        let mut line: String = String::new();
        line.append("进程 ");
        assert(line@ =~= "进程 "@);
        push_decimal(&mut line, pid as u64);
        line.append(": rchar/s ");
        push_right(&mut line, format_fixed(&r.rchar_s, 0).as_str(), 13);
        line.append("  wchar/s ");
        push_right(&mut line, format_fixed(&r.wchar_s, 0).as_str(), 13);
        line.append("  磁盘读 ");
        push_right(&mut line, format_fixed(&r.read_kbps, 1).as_str(), 9);
        line.append(" kB/s  磁盘写 ");
        push_right(&mut line, format_fixed(&r.write_kbps, 1).as_str(), 9);
        line.append(" kB/s  iodelay +");
        push_decimal(&mut line, r.iodelay_ms);
        line.append(" ms\n");
        out.append(line.as_str());
    } else {
        assert(out@ =~= old(out)@ + Seq::<char>::empty());
    }
}

/// The places of the rates that are shown.
fn pick_rates(all: &Vec<DiskRate>, args: &Args) -> (r: Vec<usize>)
    ensures
        ({
            let shown = rate_views(all@).filter(|x: RateView| rates_shown(*args, x));
            &&& r@.len() == shown.len()
            &&& forall|i: int|
                0 <= i < r@.len() ==> #[trigger] r@[i] < all@.len() && all@[r@[i] as int]@
                    == shown[i]
        }),
{
    let ghost g = rate_views(all@);
    let ghost pred = |x: RateView| rates_shown(*args, x);
    let mut out: Vec<usize> = Vec::new();
    proof {
        reveal(Seq::filter);
    }
    for i in 0..all.len()
        invariant
            g == rate_views(all@),
            pred == (|x: RateView| rates_shown(*args, x)),
            out@.len() == g.take(i as int).filter(pred).len(),
            forall|j: int|
                0 <= j < out@.len() ==> #[trigger] out@[j] < all@.len() && all@[out@[j] as int]@
                    == g.take(i as int).filter(pred)[j],
    {
        let r = &all[i];
        assert(g.take(i as int + 1).drop_last() =~= g.take(i as int));
        assert(g[i as int] == r@);
        proof {
            reveal(Seq::filter);
        }
        let named_ok = args.devices.len() == 0 || is_named(&args.devices, r.device.as_str());
        if named_ok && (args.all || (!is_pseudo_device(r.device.as_str()) && r.active)) {
            out.push(i);
        }
    }
    assert(g.take(g.len() as int) =~= g);
    out
}

/// Writes the rates between two samples.
pub fn print_rates(prev: &Snapshot, cur: &Snapshot, elapsed: Binary64, args: &Args) -> (r: String)
    requires
        all_fit(prev.disks@, cur.disks@),
        prev.proc_io is Some && cur.proc_io is Some ==> args.pid is Some,
    ensures
        r@ == rates_text(*prev, *cur, elapsed, *args),
{
    let all = rates(prev.disks.as_slice(), cur.disks.as_slice(), elapsed);
    let picked = pick_rates(&all, args);
    let ghost g = rates_between(prev.disks@, cur.disks@, elapsed).filter(
        |x: RateView| rates_shown(*args, x),
    );
    let ghost names = rate_names(g);
    let mut width: usize = 6;
    for i in 0..picked.len()
        invariant
            picked@.len() == g.len(),
            forall|j: int|
                0 <= j < picked@.len() ==> #[trigger] picked@[j] < all@.len()
                    && all@[picked@[j] as int]@ == g[j],
            names == rate_names(g),
            width == name_width(names.take(i as int)),
    {
        assert(names.take(i as int + 1).drop_last() =~= names.take(i as int));
        let n = all[picked[i]].device.as_str().len();
        assert(names[i as int] == all@[picked@[i as int] as int].device@);
        if n > width {
            width = n;
        }
    }
    assert(names.take(names.len() as int) =~= names);
    let mut out: String = String::new();
    out.append("\n===== 最近 ");
    out.append(format_fixed(&elapsed, 1).as_str());
    out.append("s =====\n");
    let ghost top = out@;
    if picked.len() == 0 {
        out.append("（本间隔内无匹配的设备活动）\n");
    } else {
        push_rate_heading(&mut out, width);
        let ghost start = out@;
        assert(start + rate_lines(g.take(0), width as int) =~= start);
        for i in 0..picked.len()
            invariant
                picked@.len() == g.len(),
                forall|j: int|
                    0 <= j < picked@.len() ==> #[trigger] picked@[j] < all@.len()
                        && all@[picked@[j] as int]@ == g[j],
                out@ == start + rate_lines(g.take(i as int), width as int),
        {
            push_rate_line(&mut out, &all[picked[i]], width);
            assert(g.take(i as int + 1).drop_last() =~= g.take(i as int));
            assert(out@ =~= start + rate_lines(g.take(i as int + 1), width as int));
        }
        assert(g.take(g.len() as int) =~= g);
    }
    assert(out@ =~= top + (if g.len() == 0 {
        "（本间隔内无匹配的设备活动）\n"@
    } else {
        rate_heading(width as int) + rate_lines(g, width as int)
    }));
    push_process_rates(&mut out, prev, cur, elapsed, args.pid);
    assert(top =~= "\n===== 最近 "@ + fixed(elapsed, 1) + "s =====\n"@);
    out
}

// ---------------------------------------------------------------------------
// What the view of devices shows

proof fn lemma_rate_line_occurs(rs: Seq<RateView>, width: int, k: int)
    requires
        0 <= k < rs.len(),
    ensures
        occurs(rate_line(rs[k], width), rate_lines(rs, width)),
    decreases rs.len(),
{
    let h = rs.drop_last();
    let t = rate_line(rs[k], width);
    let a = rate_lines(h, width);
    let b = rate_line(rs.last(), width);
    if k == rs.len() - 1 {
        lemma_occurs_itself(t);
        lemma_occurs_within(t, a, t, seq![]);
        assert(a + t + seq![] =~= a + t);
    } else {
        assert(h[k] == rs[k]);
        lemma_rate_line_occurs(h, width, k);
        lemma_occurs_within(t, seq![], a, b);
        assert(seq![] + a + b =~= a + b);
    }
}

/// Whether the line of a device's rates stands in a text, in a column of names
/// of some width.
pub open spec fn has_rate_line(r: RateView, text: Seq<char>) -> bool {
    exists|width: int| #[trigger] occurs(rate_line(r, width), text)
}

/// Whether the line of a device's counters stands in a text, in a column of
/// names of some width.
pub open spec fn has_counter_line(d: DiskStats, text: Seq<char>) -> bool {
    exists|width: int| #[trigger] occurs(counter_line(d, width), text)
}

/// The rates of a device that both samples hold are shown where it is asked for
/// and, unless all are, is real and counted anything.
pub proof fn active_devices_are_shown(
    prev: Snapshot,
    cur: Snapshot,
    elapsed: Binary64,
    args: Args,
    i: int,
    j: int,
)
    requires
        0 <= j < cur.disks@.len(),
        first_of_device(prev.disks@, cur.disks@[j], i),
        args.devices@.len() > 0 ==> exists|k: int|
            0 <= k < args.devices@.len() && (#[trigger] args.devices@[k])@ == cur.disks@[j].device@,
        args.all || {
            let p = prev.disks@[i];
            let c = cur.disks@[j];
            &&& !pseudo(c.device@)
            &&& {
                ||| p.reads_completed < c.reads_completed
                ||| p.writes_completed < c.writes_completed
                ||| p.sectors_read < c.sectors_read
                ||| p.sectors_written < c.sectors_written
            }
        },
    ensures
        has_rate_line(
            diskstats::rate_between(prev.disks@[i], cur.disks@[j], elapsed),
            rates_text(prev, cur, elapsed, args),
        ),
{
    let all = rates_between(prev.disks@, cur.disks@, elapsed);
    let r = diskstats::rate_between(prev.disks@[i], cur.disks@[j], elapsed);
    let pred = |x: RateView| rates_shown(args, x);
    let picked = all.filter(pred);
    devices_are_paired_by_number(prev.disks@, cur.disks@, elapsed);
    active_when_a_counter_grows(prev.disks@[i], cur.disks@[j], elapsed);
    if args.devices@.len() > 0 {
        let k = choose|k: int|
            0 <= k < args.devices@.len() && (#[trigger] args.devices@[k])@ == cur.disks@[j].device@;
        assert(string_views(args.devices@)[k] == r.device);
    }
    assert(all.contains(r));
    let k = choose|k: int| 0 <= k < all.len() && all[k] == r;
    all.lemma_filter_contains(pred, k);
    let n = choose|n: int| 0 <= n < picked.len() && picked[n] == r;
    let w = name_width(rate_names(picked));
    let t = rate_line(r, w);
    lemma_rate_line_occurs(picked, w, n);
    let a = "\n===== 最近 "@ + fixed(elapsed, 1) + "s =====\n"@;
    let b = rate_lines(picked, w);
    let c = process_rates(prev, cur, elapsed, args.pid->0);
    lemma_occurs_within(t, rate_heading(w), b, seq![]);
    assert(rate_heading(w) + b + seq![] =~= rate_heading(w) + b);
    lemma_occurs_within(t, a, rate_heading(w) + b, c);
}

/// A device that is idle or virtual is not among those whose rates are shown,
/// unless all are asked for, and one that is not named is not where others are.
pub proof fn idle_devices_are_hidden(args: Args, prev: DiskStats, cur: DiskStats, elapsed: Binary64)
    ensures
        ({
            let r = diskstats::rate_between(prev, cur, elapsed);
            let idle = cur.reads_completed <= prev.reads_completed && cur.writes_completed
                <= prev.writes_completed && cur.sectors_read <= prev.sectors_read
                && cur.sectors_written <= prev.sectors_written;
            &&& !args.all && (idle || pseudo(cur.device@)) ==> !rates_shown(args, r)
            &&& args.devices@.len() > 0 && (forall|k: int|
                0 <= k < args.devices@.len() ==> (#[trigger] args.devices@[k])@ != cur.device@)
                ==> !rates_shown(args, r)
        }),
{
    active_when_a_counter_grows(prev, cur, elapsed);
    let r = diskstats::rate_between(prev, cur, elapsed);
    if named(args.devices@, r.device) {
        let v = string_views(args.devices@);
        let k = choose|k: int| 0 <= k < v.len() && v[k] == r.device;
        assert(args.devices@[k]@ == cur.device@);
    }
}

/// Where no device has a line, the text says so.
pub proof fn nothing_to_show_is_said(prev: Snapshot, cur: Snapshot, elapsed: Binary64, args: Args)
    requires
        forall|k: int|
            0 <= k < rates_between(prev.disks@, cur.disks@, elapsed).len() ==> !rates_shown(
                args,
                #[trigger] rates_between(prev.disks@, cur.disks@, elapsed)[k],
            ),
    ensures
        occurs("（本间隔内无匹配的设备活动）\n"@, rates_text(prev, cur, elapsed, args)),
{
    let all = rates_between(prev.disks@, cur.disks@, elapsed);
    let pred = |x: RateView| rates_shown(args, x);
    let picked = all.filter(pred);
    if picked.len() > 0 {
        all.lemma_filter_pred(pred, 0);
        assert(picked.contains(picked[0]));
        all.lemma_filter_contains_rev(pred, picked[0]);
        let k = choose|k: int| 0 <= k < all.len() && all[k] == picked[0];
        assert(!rates_shown(args, all[k]));
    }
    let t = "（本间隔内无匹配的设备活动）\n"@;
    let a = "\n===== 最近 "@ + fixed(elapsed, 1) + "s =====\n"@;
    lemma_occurs_itself(t);
    lemma_occurs_within(t, a, t, process_rates(prev, cur, elapsed, args.pid->0));
}

proof fn lemma_counter_line_occurs(d: Seq<DiskStats>, width: int, k: int)
    requires
        0 <= k < d.len(),
    ensures
        occurs(counter_line(d[k], width), counter_lines(d, width)),
    decreases d.len(),
{
    let h = d.drop_last();
    let t = counter_line(d[k], width);
    let a = counter_lines(h, width);
    let b = counter_line(d.last(), width);
    if k == d.len() - 1 {
        lemma_occurs_itself(t);
        lemma_occurs_within(t, a, t, seq![]);
        assert(a + t + seq![] =~= a + t);
    } else {
        assert(h[k] == d[k]);
        lemma_counter_line_occurs(h, width, k);
        lemma_occurs_within(t, seq![], a, b);
        assert(seq![] + a + b =~= a + b);
    }
}

/// The counters of a device are shown where it is named, or where none is and it
/// is real or all are asked for.
pub proof fn asked_for_devices_are_counted(s: Snapshot, args: Args, i: int)
    requires
        0 <= i < s.disks@.len(),
        args.devices@.len() > 0 ==> exists|k: int|
            0 <= k < args.devices@.len() && (#[trigger] args.devices@[k])@ == s.disks@[i].device@,
        args.devices@.len() == 0 ==> args.all || !pseudo(s.disks@[i].device@),
    ensures
        has_counter_line(s.disks@[i], totals_text(s, args)),
{
    let d = s.disks@[i];
    let pred = |x: DiskStats| counters_shown(args, x);
    if args.devices@.len() > 0 {
        let k = choose|k: int|
            0 <= k < args.devices@.len() && (#[trigger] args.devices@[k])@ == d.device@;
        assert(string_views(args.devices@)[k] == d.device@);
    }
    s.disks@.lemma_filter_contains(pred, i);
    let v = visible(s.disks@, args);
    let n = choose|n: int| 0 <= n < v.len() && v[n] == d;
    let w = name_width(disk_names(v));
    let t = counter_line(d, w);
    lemma_counter_line_occurs(v, w, n);
    let b = counter_lines(v, w);
    lemma_occurs_within(t, counter_heading(w), b, seq![]);
    assert(counter_heading(w) + b + seq![] =~= counter_heading(w) + b);
    lemma_occurs_within(
        t,
        "\n===== 自启动累计 =====\n"@,
        counter_heading(w) + b,
        process_counters(s, args.pid->0),
    );
}

/// 2048 sectors are one MiB.
pub proof fn sectors_make_mib(k: int, sectors: u64)
    requires
        0 <= k,
        k * 1048576 <= 2 * STEP,
        sectors == k * 2048,
    ensures
        mib(sectors) == whole(k),
{
    product_of_wholes(sectors as int, 512);
    assert(sectors as int * 512 == k * 1048576);
    quotient_of_multiple(k, 1048576);
}

/// The process that is asked for is shown: what it has counted, in MiB and
/// seconds of waiting.
pub proof fn process_counters_are_told(s: Snapshot, args: Args, a: int, b: int, c: int)
    requires
        s.proc_io is Some,
        0 <= a,
        a * 1048576 <= 2 * STEP,
        0 <= b,
        b * 1048576 <= 2 * STEP,
        0 <= c,
        c * 100 <= 2 * STEP,
        s.proc_io->0.read_bytes == a * 1048576,
        s.proc_io->0.write_bytes == b * 1048576,
        s.blkio_ticks == Some((c * 100) as u64),
    ensures
        occurs(
            "\n进程 "@ + decimal(args.pid->0 as int) + " 累计: 磁盘读 "@ + fixed(whole(a), 1)
                + " MiB  磁盘写 "@ + fixed(whole(b), 1) + " MiB  iodelay "@ + fixed(whole(c), 1)
                + " s\n"@,
            totals_text(s, args),
        ),
{
    quotient_of_multiple(a, 1048576);
    quotient_of_multiple(b, 1048576);
    quotient_of_multiple(c, 100);
    let t = process_counters(s, args.pid->0);
    lemma_occurs_itself(t);
    let d = visible(s.disks@, args);
    let w = name_width(disk_names(d));
    let above = "\n===== 自启动累计 =====\n"@ + (if d.len() == 0 {
        "（没有匹配的设备）\n"@
    } else {
        counter_heading(w) + counter_lines(d, w)
    });
    lemma_occurs_within(t, above, t, seq![]);
    assert(above + t + seq![] =~= above + t);
}

/// The rates of the process that is asked for are shown.
pub proof fn process_rates_are_told(prev: Snapshot, cur: Snapshot, elapsed: Binary64, args: Args)
    requires
        prev.proc_io is Some,
        cur.proc_io is Some,
        prev.blkio_ticks is Some,
        cur.blkio_ticks is Some,
    ensures
        ({
            let r = proc_io::rate_between(
                prev.proc_io->0,
                prev.blkio_ticks->0,
                cur.proc_io->0,
                cur.blkio_ticks->0,
                elapsed,
            );
            occurs(
                "进程 "@ + decimal(args.pid->0 as int) + ": rchar/s "@ + at_right(
                    fixed(r.rchar_s, 0),
                    13,
                ) + "  wchar/s "@ + at_right(fixed(r.wchar_s, 0), 13) + "  磁盘读 "@ + at_right(
                    fixed(r.read_kbps, 1),
                    9,
                ) + " kB/s  磁盘写 "@ + at_right(fixed(r.write_kbps, 1), 9)
                    + " kB/s  iodelay +"@ + decimal(r.iodelay_ms as int) + " ms\n"@,
                rates_text(prev, cur, elapsed, args),
            )
        }),
{
    let t = process_rates(prev, cur, elapsed, args.pid->0);
    lemma_occurs_itself(t);
    let picked = rates_between(prev.disks@, cur.disks@, elapsed).filter(
        |x: RateView| rates_shown(args, x),
    );
    let w = name_width(rate_names(picked));
    let above = "\n===== 最近 "@ + fixed(elapsed, 1) + "s =====\n"@ + (if picked.len() == 0 {
        "（本间隔内无匹配的设备活动）\n"@
    } else {
        rate_heading(w) + rate_lines(picked, w)
    });
    lemma_occurs_within(t, above, t, seq![]);
    assert(above + t + seq![] =~= above + t);
}

/// The column of names is as wide as the widest of them, and at least 6.
pub proof fn names_fit_their_column(names: Seq<Seq<char>>)
    ensures
        name_width(names) >= 6,
        forall|i: int|
            0 <= i < names.len() ==> text_bytes(#[trigger] names[i]) <= name_width(names),
        name_width(names) > 6 ==> exists|i: int|
            0 <= i < names.len() && text_bytes(#[trigger] names[i]) == name_width(names),
    decreases names.len(),
{
    if names.len() > 0 {
        let h = names.drop_last();
        names_fit_their_column(h);
        assert forall|i: int| 0 <= i < names.len() implies text_bytes(#[trigger] names[i])
            <= name_width(names) by {
            if i < h.len() {
                assert(text_bytes(h[i]) <= name_width(h));
            }
        }
        if text_bytes(names.last()) > name_width(h) {
            assert(text_bytes(names[names.len() - 1]) == name_width(names));
        } else if name_width(h) > 6 {
            let i = choose|i: int|
                0 <= i < h.len() && text_bytes(#[trigger] h[i]) == name_width(h);
            assert(text_bytes(names[i]) == name_width(names));
        }
    }
}

// ---------------------------------------------------------------------------
// What arguments ask for

/// What follows arguments that were read is read after them.
proof fn lemma_read_on(args: Seq<Seq<char>>, more: Seq<Seq<char>>, i: int, f: Flags)
    requires
        0 <= i <= args.len(),
        scanned(args, i, f) is Read,
    ensures
        scanned(args + more, i, f) == scanned(
            args + more,
            args.len() as int,
            scanned(args, i, f)->Read_0,
        ),
    decreases args.len() - i,
{
    let all = args + more;
    if i < args.len() {
        assert(all[i] == args[i]);
        let a = args[i];
        if a == "-a"@ || a == "--all"@ {
            lemma_read_on(args, more, i + 1, Flags { all: true, ..f });
        } else if a == "-p"@ || a == "--pid"@ {
            assert(all[i + 1] == args[i + 1]);
            lemma_read_on(
                args,
                more,
                i + 2,
                Flags { pid: Some(unsigned(args[i + 1], u32::MAX as int)->0 as u32), ..f },
            );
        } else if a == "-d"@ || a == "--device"@ {
            assert(all[i + 1] == args[i + 1]);
            lemma_read_on(args, more, i + 2, Flags { devices: f.devices.push(args[i + 1]), ..f });
        } else {
            lemma_read_on(args, more, i + 1, Flags { rest: f.rest.push(a), ..f });
        }
    }
}

proof fn lemma_options_differ()
    ensures
        "-h"@ != "--help"@ && "-h"@ != "-a"@ && "-h"@ != "-p"@ && "-h"@ != "-d"@,
        "-a"@ != "--help"@ && "-a"@ != "-p"@ && "-a"@ != "-d"@,
        "-p"@ != "--help"@ && "-p"@ != "--all"@ && "-p"@ != "-d"@,
        "-d"@ != "--help"@ && "-d"@ != "--all"@ && "-d"@ != "--pid"@,
        "-P"@ != "-h"@ && "-P"@ != "--help"@ && "-P"@ != "-o"@ && "-P"@ != "-a"@ && "-P"@ != "-n"@,
        "-o"@ != "-h"@ && "-o"@ != "--help"@ && "-o"@ != "--processes"@ && "-o"@ != "-a"@ && "-o"@
            != "-n"@,
        "-a"@ != "--processes"@ && "-a"@ != "--only"@ && "-a"@ != "-n"@,
        "-n"@ != "-h"@ && "-n"@ != "--help"@ && "-n"@ != "--processes"@ && "-n"@ != "--only"@ && "-n"@
            != "--all"@,
        "-"@.is_prefix_of("-h"@) && "-"@.is_prefix_of("--help"@),
        "-"@.is_prefix_of("-a"@) && "-"@.is_prefix_of("--all"@),
        "-"@.is_prefix_of("-p"@) && "-"@.is_prefix_of("--pid"@),
        "-"@.is_prefix_of("-d"@) && "-"@.is_prefix_of("--device"@),
        "-"@.is_prefix_of("-P"@) && "-"@.is_prefix_of("--processes"@),
        "-"@.is_prefix_of("-o"@) && "-"@.is_prefix_of("--only"@),
        "-"@.is_prefix_of("-n"@) && "-"@.is_prefix_of("--lines"@),
{
    reveal_strlit("-");
    reveal_strlit("-h");
    reveal_strlit("--help");
    reveal_strlit("-a");
    reveal_strlit("--all");
    reveal_strlit("-p");
    reveal_strlit("--pid");
    reveal_strlit("-d");
    reveal_strlit("--device");
    reveal_strlit("-P");
    reveal_strlit("--processes");
    reveal_strlit("-o");
    reveal_strlit("--only");
    reveal_strlit("-n");
    reveal_strlit("--lines");
    assert("-h"@[1] == 'h' && "-a"@[1] == 'a' && "-p"@[1] == 'p' && "-d"@[1] == 'd' && "-P"@[1] == 'P'
        && "-o"@[1] == 'o' && "-n"@[1] == 'n');
    assert("-h"@.len() == 2 && "-a"@.len() == 2 && "-p"@.len() == 2 && "-d"@.len() == 2
        && "-P"@.len() == 2 && "-o"@.len() == 2 && "-n"@.len() == 2);
    assert("--help"@.len() == 6 && "--all"@.len() == 5 && "--pid"@.len() == 5 && "--device"@.len()
        == 8 && "--processes"@.len() == 11 && "--only"@.len() == 6 && "--lines"@.len() == 7);
}

/// Each option sets what it is for and nothing else, wherever it stands: a
/// process, one more device, or all devices. What is no option is kept for the
/// interval and the count.
pub proof fn options_set_what_they_are_for(
    args: Seq<Seq<char>>,
    f: Flags,
    pid: u32,
    device: Seq<char>,
    word: Seq<char>,
)
    requires
        scanned(args, 0, f) is Read,
        !"-"@.is_prefix_of(word),
    ensures
        ({
            let g = scanned(args, 0, f)->Read_0;
            &&& scanned(args + seq!["-a"@], 0, f) == Scanned::Read(Flags { all: true, ..g })
            &&& scanned(args + seq!["-p"@, decimal(pid as int)], 0, f) == Scanned::Read(
                Flags { pid: Some(pid), ..g },
            )
            &&& scanned(args + seq!["-d"@, device], 0, f) == Scanned::Read(
                Flags { devices: g.devices.push(device), ..g },
            )
            &&& scanned(args + seq![word], 0, f) == Scanned::Read(
                Flags { rest: g.rest.push(word), ..g },
            )
            &&& scanned(args + seq!["-h"@], 0, f) is Help
            &&& scanned(args + seq!["-p"@], 0, f) is Fault
            &&& scanned(args + seq!["-d"@], 0, f) is Fault
        }),
{
    lemma_options_differ();
    let n = args.len() as int;
    let g = scanned(args, 0, f)->Read_0;
    let d = decimal(pid as int);
    decimal_reads_back(pid as u64);
    lemma_decimal(pid as int);
    assert(digit(d[0]));
    assert(scanned(args + seq!["-a"@], 0, f) == Scanned::Read(Flags { all: true, ..g })) by {
        reveal_with_fuel(scanned, 2);
        lemma_read_on(args, seq!["-a"@], 0, f);
        assert((args + seq!["-a"@])[n] == "-a"@);
    }
    assert(scanned(args + seq!["-p"@, d], 0, f) == Scanned::Read(Flags { pid: Some(pid), ..g })) by {
        reveal_with_fuel(scanned, 2);
        lemma_read_on(args, seq!["-p"@, d], 0, f);
        assert((args + seq!["-p"@, d])[n] == "-p"@);
        assert((args + seq!["-p"@, d])[n + 1] == d);
    }
    assert(scanned(args + seq!["-d"@, device], 0, f) == Scanned::Read(Flags { devices: g.devices.push(device), ..g })) by {
        reveal_with_fuel(scanned, 2);
        lemma_read_on(args, seq!["-d"@, device], 0, f);
        assert((args + seq!["-d"@, device])[n] == "-d"@);
        assert((args + seq!["-d"@, device])[n + 1] == device);
    }
    assert(scanned(args + seq![word], 0, f) == Scanned::Read(Flags { rest: g.rest.push(word), ..g })) by {
        reveal_with_fuel(scanned, 2);
        lemma_read_on(args, seq![word], 0, f);
        assert((args + seq![word])[n] == word);
    }
    assert(scanned(args + seq!["-h"@], 0, f) is Help) by {
        reveal_with_fuel(scanned, 2);
        lemma_read_on(args, seq!["-h"@], 0, f);
        assert((args + seq!["-h"@])[n] == "-h"@);
    }
    assert(scanned(args + seq!["-p"@], 0, f) is Fault) by {
        reveal_with_fuel(scanned, 2);
        lemma_read_on(args, seq!["-p"@], 0, f);
        assert((args + seq!["-p"@])[n] == "-p"@);
    }
    assert(scanned(args + seq!["-d"@], 0, f) is Fault) by {
        reveal_with_fuel(scanned, 2);
        lemma_read_on(args, seq!["-d"@], 0, f);
        assert((args + seq!["-d"@])[n] == "-d"@);
    }
}

proof fn lemma_top_read_on(args: Seq<Seq<char>>, more: Seq<Seq<char>>, i: int, f: TopFlags)
    requires
        0 <= i <= args.len(),
        top_scanned(args, i, f) is Read,
    ensures
        top_scanned(args + more, i, f) == top_scanned(
            args + more,
            args.len() as int,
            top_scanned(args, i, f)->Read_0,
        ),
    decreases args.len() - i,
{
    let all = args + more;
    if i < args.len() {
        assert(all[i] == args[i]);
        let a = args[i];
        if a == "-P"@ || a == "--processes"@ {
            lemma_top_read_on(args, more, i + 1, TopFlags { per_process: true, ..f });
        } else if a == "-o"@ || a == "--only"@ {
            lemma_top_read_on(args, more, i + 1, TopFlags { show_idle: false, ..f });
        } else if a == "-a"@ || a == "--all"@ {
            lemma_top_read_on(args, more, i + 1, TopFlags { show_idle: true, ..f });
        } else if a == "-n"@ || a == "--lines"@ {
            assert(all[i + 1] == args[i + 1]);
            lemma_top_read_on(
                args,
                more,
                i + 2,
                TopFlags { rows: Some(unsigned(args[i + 1], usize::MAX as int)->0 as usize), ..f },
            );
        } else {
            lemma_top_read_on(args, more, i + 1, TopFlags { rest: f.rest.push(a), ..f });
        }
    }
}

/// Each option of the ranking sets what it is for and nothing else: processes,
/// only what has IO, all, or a number of lines.
pub proof fn top_options_set_what_they_are_for(
    args: Seq<Seq<char>>,
    f: TopFlags,
    lines: usize,
    word: Seq<char>,
)
    requires
        top_scanned(args, 0, f) is Read,
        !"-"@.is_prefix_of(word),
        lines > 0,
    ensures
        ({
            let g = top_scanned(args, 0, f)->Read_0;
            &&& top_scanned(args + seq!["-P"@], 0, f) == Scanned::Read(
                TopFlags { per_process: true, ..g },
            )
            &&& top_scanned(args + seq!["-o"@], 0, f) == Scanned::Read(
                TopFlags { show_idle: false, ..g },
            )
            &&& top_scanned(args + seq!["-a"@], 0, f) == Scanned::Read(
                TopFlags { show_idle: true, ..g },
            )
            &&& top_scanned(args + seq!["-n"@, decimal(lines as int)], 0, f) == Scanned::Read(
                TopFlags { rows: Some(lines), ..g },
            )
            &&& top_scanned(args + seq![word], 0, f) == Scanned::Read(
                TopFlags { rest: g.rest.push(word), ..g },
            )
            &&& top_scanned(args + seq!["-n"@, decimal(0)], 0, f) is Fault
            &&& top_scanned(args + seq!["-h"@], 0, f) is Help
        }),
{
    lemma_options_differ();
    let n = args.len() as int;
    let g = top_scanned(args, 0, f)->Read_0;
    let d = decimal(lines as int);
    let z = decimal(0);
    decimal_reads_back(lines as u64);
    lemma_decimal(lines as int);
    assert(digit(d[0]));
    decimal_reads_back(0);
    lemma_decimal(0);
    assert(digit(z[0]));
    assert(top_scanned(args + seq!["-P"@], 0, f) == Scanned::Read(TopFlags { per_process: true, ..g })) by {
        reveal_with_fuel(top_scanned, 2);
        lemma_top_read_on(args, seq!["-P"@], 0, f);
        assert((args + seq!["-P"@])[n] == "-P"@);
    }
    assert(top_scanned(args + seq!["-o"@], 0, f) == Scanned::Read(TopFlags { show_idle: false, ..g })) by {
        reveal_with_fuel(top_scanned, 2);
        lemma_top_read_on(args, seq!["-o"@], 0, f);
        assert((args + seq!["-o"@])[n] == "-o"@);
    }
    assert(top_scanned(args + seq!["-a"@], 0, f) == Scanned::Read(TopFlags { show_idle: true, ..g })) by {
        reveal_with_fuel(top_scanned, 2);
        lemma_top_read_on(args, seq!["-a"@], 0, f);
        assert((args + seq!["-a"@])[n] == "-a"@);
    }
    assert(top_scanned(args + seq!["-n"@, d], 0, f) == Scanned::Read(TopFlags { rows: Some(lines), ..g })) by {
        reveal_with_fuel(top_scanned, 2);
        lemma_top_read_on(args, seq!["-n"@, d], 0, f);
        assert((args + seq!["-n"@, d])[n] == "-n"@);
        assert((args + seq!["-n"@, d])[n + 1] == d);
    }
    assert(top_scanned(args + seq![word], 0, f) == Scanned::Read(TopFlags { rest: g.rest.push(word), ..g })) by {
        reveal_with_fuel(top_scanned, 2);
        lemma_top_read_on(args, seq![word], 0, f);
        assert((args + seq![word])[n] == word);
    }
    assert(top_scanned(args + seq!["-n"@, z], 0, f) is Fault) by {
        reveal_with_fuel(top_scanned, 2);
        lemma_top_read_on(args, seq!["-n"@, z], 0, f);
        assert((args + seq!["-n"@, z])[n] == "-n"@);
        assert((args + seq!["-n"@, z])[n + 1] == z);
    }
    assert(top_scanned(args + seq!["-h"@], 0, f) is Help) by {
        reveal_with_fuel(top_scanned, 2);
        lemma_top_read_on(args, seq!["-h"@], 0, f);
        assert((args + seq!["-h"@])[n] == "-h"@);
    }
}

/// What is no option is the interval in seconds and then the count; without them
/// the interval is two seconds and there is no end.
pub proof fn words_are_interval_and_count(seconds: int, count: u64)
    requires
        1 <= seconds <= 2 * STEP,
    ensures
        positional(seq![]) == Ok::<(Binary64, Option<u64>), Seq<char>>((whole(2), None)),
        positional(seq![decimal(seconds)]) == Ok::<(Binary64, Option<u64>), Seq<char>>(
            (whole(seconds), None),
        ),
        positional(seq![decimal(seconds), decimal(count as int)]) == Ok::<
            (Binary64, Option<u64>),
            Seq<char>,
        >((whole(seconds), Some(count))),
        positional(seq![decimal(0)]) is Err,
        positional(seq![decimal(seconds), decimal(count as int), decimal(0)]) is Err,
{
    decimal_reads_as_whole(seconds);
    decimal_reads_as_whole(0);
    decimal_reads_back(count);
    whole_is_exact(seconds);
    whole_of_nothing();
    wholes_in_order(0, seconds);
}

/// Arguments are read as what they name, the interval first and then the count;
/// without any, a sample of the active devices is taken every two seconds.
pub proof fn arguments_read_back(
    seconds: int,
    count: u64,
    pid: u32,
    device: Seq<char>,
    r: Result<Option<Args>, String>,
)
    requires
        1 <= seconds <= 2 * STEP,
    ensures
        args_say(
            seq![
                decimal(seconds),
                decimal(count as int),
                "-p"@,
                decimal(pid as int),
                "-d"@,
                device,
                "-a"@,
            ],
            r,
        ) ==> (r matches Ok(Some(o)) && o.interval == whole(seconds) && o.count == Some(count)
            && o.pid == Some(pid) && string_views(o.devices@) == seq![device] && o.all),
        args_say(seq![], r) ==> (r matches Ok(Some(o)) && o.interval == whole(2) && o.count is None
            && o.pid is None && o.devices@.len() == 0 && !o.all),
{
    let f = no_flags();
    let x = decimal(seconds);
    let y = decimal(count as int);
    let z = decimal(pid as int);
    lemma_no_option(seconds);
    lemma_no_option(count as int);
    let a0 = Seq::<Seq<char>>::empty();
    assert(scanned(a0, 0, f) == Scanned::Read(f));
    options_set_what_they_are_for(a0, f, pid, device, x);
    let a1 = a0 + seq![x];
    options_set_what_they_are_for(a1, f, pid, device, y);
    let a2 = a1 + seq![y];
    options_set_what_they_are_for(a2, f, pid, device, y);
    let a3 = a2 + seq!["-p"@, z];
    options_set_what_they_are_for(a3, f, pid, device, y);
    let a4 = a3 + seq!["-d"@, device];
    options_set_what_they_are_for(a4, f, pid, device, y);
    let a5 = a4 + seq!["-a"@];
    assert(a5 =~= seq![x, y, "-p"@, z, "-d"@, device, "-a"@]);
    words_are_interval_and_count(seconds, count);
    let g = scanned(a5, 0, f)->Read_0;
    assert(g.rest =~= seq![x, y]);
    assert(g.devices =~= seq![device]);
    assert(a0 =~= seq![]);
    assert(forall|o: Args| string_views(o.devices@) == f.devices ==> (#[trigger] o.devices@).len() == 0)
        by {
        assert forall|o: Args| string_views(o.devices@) == f.devices implies (#[trigger] o.devices@).len()
            == 0 by {
            assert(string_views(o.devices@).len() == o.devices@.len());
        }
    }
}

/// A number is no option.
proof fn lemma_no_option(n: int)
    requires
        0 <= n,
    ensures
        !"-"@.is_prefix_of(decimal(n)),
{
    reveal_strlit("-");
    lemma_decimal(n);
    assert(digit(decimal(n)[0]));
    if "-"@.is_prefix_of(decimal(n)) {
        assert("-"@[0] == decimal(n)[0]);
    }
}

/// Arguments of the ranking are read as what they name; without any there are 20
/// lines of threads every two seconds, idle ones among them.
pub proof fn top_arguments_read_back(
    seconds: int,
    count: u64,
    lines: usize,
    r: Result<Option<TopOptions>, String>,
)
    requires
        1 <= seconds <= 2 * STEP,
        lines > 0,
    ensures
        top_args_say(
            seq![
                decimal(seconds),
                decimal(count as int),
                "-P"@,
                "-o"@,
                "-n"@,
                decimal(lines as int),
            ],
            r,
        ) ==> (r matches Ok(Some(o)) && o.interval == whole(seconds) && o.count == Some(count)
            && o.per_process && !o.show_idle && o.rows == lines && o.rows_explicit),
        top_args_say(seq![], r) ==> (r matches Ok(Some(o)) && o.interval == whole(2) && o.count is None
            && !o.per_process && o.show_idle && o.rows == 20 && !o.rows_explicit),
{
    let f = no_top_flags();
    let x = decimal(seconds);
    let y = decimal(count as int);
    let z = decimal(lines as int);
    lemma_no_option(seconds);
    lemma_no_option(count as int);
    let a0 = Seq::<Seq<char>>::empty();
    assert(top_scanned(a0, 0, f) == Scanned::Read(f));
    top_options_set_what_they_are_for(a0, f, lines, x);
    let a1 = a0 + seq![x];
    top_options_set_what_they_are_for(a1, f, lines, y);
    let a2 = a1 + seq![y];
    top_options_set_what_they_are_for(a2, f, lines, y);
    let a3 = a2 + seq!["-P"@];
    top_options_set_what_they_are_for(a3, f, lines, y);
    let a4 = a3 + seq!["-o"@];
    top_options_set_what_they_are_for(a4, f, lines, y);
    let a5 = a4 + seq!["-n"@, z];
    assert(a5 =~= seq![x, y, "-P"@, "-o"@, "-n"@, z]);
    words_are_interval_and_count(seconds, count);
    let g = top_scanned(a5, 0, f)->Read_0;
    assert(g.rest =~= seq![x, y]);
    assert(a0 =~= seq![]);
}

/// As many samples are printed as were asked for: one more while fewer have been,
/// and none after.
pub proof fn as_many_as_asked_for(count: u64, printed: u64)
    ensures
        more_to_print(Some(count), printed) ==> printed + 1 <= count,
        !more_to_print(Some(count), printed) ==> count <= printed,
        more_to_print(None, printed),
{
}

/// Rates stand in columns, each under its name: those of reading before those of
/// writing.
pub proof fn rates_have_their_columns(r: RateView, width: int)
    requires
        r.device.len() <= width,
        6 <= width,
        fixed(r.r_s, 1).len() <= 8,
        fixed(r.w_s, 1).len() <= 8,
        fixed(r.rk_bps, 1).len() <= 10,
        fixed(r.wk_bps, 1).len() <= 10,
        fixed(r.aqu_sz, 2).len() <= 7,
        fixed(r.await_ms, 2).len() <= 8,
        fixed(r.util_pct, 1).len() <= 7,
    ensures
        ({
            let line = rate_line(r, width);
            let head = rate_heading(width);
            &&& line.subrange(0, width) == at_left(r.device, width)
            &&& line.subrange(width + 1, width + 9) == at_right(fixed(r.r_s, 1), 8)
            &&& head.subrange(width + 1, width + 9) == at_right("r/s"@, 8)
            &&& line.subrange(width + 10, width + 18) == at_right(fixed(r.w_s, 1), 8)
            &&& head.subrange(width + 10, width + 18) == at_right("w/s"@, 8)
            &&& line.subrange(width + 19, width + 29) == at_right(fixed(r.rk_bps, 1), 10)
            &&& head.subrange(width + 19, width + 29) == at_right("rkB/s"@, 10)
            &&& line.subrange(width + 30, width + 40) == at_right(fixed(r.wk_bps, 1), 10)
            &&& head.subrange(width + 30, width + 40) == at_right("wkB/s"@, 10)
            &&& line.subrange(width + 41, width + 48) == at_right(fixed(r.aqu_sz, 2), 7)
            &&& head.subrange(width + 41, width + 48) == at_right("aqu-sz"@, 7)
            &&& line.subrange(width + 49, width + 57) == at_right(fixed(r.await_ms, 2), 8)
            &&& head.subrange(width + 49, width + 57) == at_right("await"@, 8)
            &&& line.subrange(width + 58, width + 65) == at_right(fixed(r.util_pct, 1), 7)
            &&& head.subrange(width + 58, width + 65) == at_right("%util"@, 7)
        }),
{
    lemma_rate_line(r, width);
    lemma_rate_head(width);
}

proof fn lemma_rate_line(r: RateView, width: int)
    requires
        r.device.len() <= width,
        6 <= width,
        fixed(r.r_s, 1).len() <= 8,
        fixed(r.w_s, 1).len() <= 8,
        fixed(r.rk_bps, 1).len() <= 10,
        fixed(r.wk_bps, 1).len() <= 10,
        fixed(r.aqu_sz, 2).len() <= 7,
        fixed(r.await_ms, 2).len() <= 8,
        fixed(r.util_pct, 1).len() <= 7,
    ensures
        ({
            let line = rate_line(r, width);
            &&& line.subrange(0, width) == at_left(r.device, width)
            &&& line.subrange(width + 1, width + 9) == at_right(fixed(r.r_s, 1), 8)
            &&& line.subrange(width + 10, width + 18) == at_right(fixed(r.w_s, 1), 8)
            &&& line.subrange(width + 19, width + 29) == at_right(fixed(r.rk_bps, 1), 10)
            &&& line.subrange(width + 30, width + 40) == at_right(fixed(r.wk_bps, 1), 10)
            &&& line.subrange(width + 41, width + 48) == at_right(fixed(r.aqu_sz, 2), 7)
            &&& line.subrange(width + 49, width + 57) == at_right(fixed(r.await_ms, 2), 8)
            &&& line.subrange(width + 58, width + 65) == at_right(fixed(r.util_pct, 1), 7)
        }),
{
    let line = rate_line(r, width);
    columns_have_their_width(r.device, width);
    columns_have_their_width(fixed(r.r_s, 1), 8);
    columns_have_their_width(fixed(r.w_s, 1), 8);
    columns_have_their_width(fixed(r.rk_bps, 1), 10);
    columns_have_their_width(fixed(r.wk_bps, 1), 10);
    columns_have_their_width(fixed(r.aqu_sz, 2), 7);
    columns_have_their_width(fixed(r.await_ms, 2), 8);
    columns_have_their_width(fixed(r.util_pct, 1), 7);
    reveal_strlit(" ");
    reveal_strlit("\n");
    let p0 = at_left(r.device, width);
    let p1 = p0 + " "@;
    let p2 = p1 + at_right(fixed(r.r_s, 1), 8);
    let p3 = p2 + " "@;
    let p4 = p3 + at_right(fixed(r.w_s, 1), 8);
    let p5 = p4 + " "@;
    let p6 = p5 + at_right(fixed(r.rk_bps, 1), 10);
    let p7 = p6 + " "@;
    let p8 = p7 + at_right(fixed(r.wk_bps, 1), 10);
    let p9 = p8 + " "@;
    let p10 = p9 + at_right(fixed(r.aqu_sz, 2), 7);
    let p11 = p10 + " "@;
    let p12 = p11 + at_right(fixed(r.await_ms, 2), 8);
    let p13 = p12 + " "@;
    let p14 = p13 + at_right(fixed(r.util_pct, 1), 7);
    let p15 = p14 + "\n"@;
    assert(p15 == line);
    assert(p15.is_prefix_of(line));
    lemma_column(p14, "\n"@, line);
    lemma_column(p13, at_right(fixed(r.util_pct, 1), 7), line);
    lemma_column(p12, " "@, line);
    lemma_column(p11, at_right(fixed(r.await_ms, 2), 8), line);
    lemma_column(p10, " "@, line);
    lemma_column(p9, at_right(fixed(r.aqu_sz, 2), 7), line);
    lemma_column(p8, " "@, line);
    lemma_column(p7, at_right(fixed(r.wk_bps, 1), 10), line);
    lemma_column(p6, " "@, line);
    lemma_column(p5, at_right(fixed(r.rk_bps, 1), 10), line);
    lemma_column(p4, " "@, line);
    lemma_column(p3, at_right(fixed(r.w_s, 1), 8), line);
    lemma_column(p2, " "@, line);
    lemma_column(p1, at_right(fixed(r.r_s, 1), 8), line);
    lemma_column(p0, " "@, line);
    assert(p0.is_prefix_of(Seq::<char>::empty() + p0));
    assert(Seq::<char>::empty() + p0 =~= p0);
    lemma_column(Seq::<char>::empty(), p0, line);
    assert(Seq::<char>::empty() + p0 =~= p0);
}

proof fn lemma_rate_head(width: int)
    requires
        6 <= width,
    ensures
        ({
            let head = rate_heading(width);
            &&& head.subrange(width + 1, width + 9) == at_right("r/s"@, 8)
            &&& head.subrange(width + 10, width + 18) == at_right("w/s"@, 8)
            &&& head.subrange(width + 19, width + 29) == at_right("rkB/s"@, 10)
            &&& head.subrange(width + 30, width + 40) == at_right("wkB/s"@, 10)
            &&& head.subrange(width + 41, width + 48) == at_right("aqu-sz"@, 7)
            &&& head.subrange(width + 49, width + 57) == at_right("await"@, 8)
            &&& head.subrange(width + 58, width + 65) == at_right("%util"@, 7)
        }),
{
    let head = rate_heading(width);
    reveal_strlit("Device");
    reveal_strlit("r/s");
    reveal_strlit("w/s");
    reveal_strlit("rkB/s");
    reveal_strlit("wkB/s");
    reveal_strlit("aqu-sz");
    reveal_strlit("await");
    reveal_strlit("%util");
    columns_have_their_width("Device"@, width);
    columns_have_their_width("r/s"@, 8);
    columns_have_their_width("w/s"@, 8);
    columns_have_their_width("rkB/s"@, 10);
    columns_have_their_width("wkB/s"@, 10);
    columns_have_their_width("aqu-sz"@, 7);
    columns_have_their_width("await"@, 8);
    columns_have_their_width("%util"@, 7);
    reveal_strlit(" ");
    reveal_strlit("\n");
    let p0 = at_left("Device"@, width);
    let p1 = p0 + " "@;
    let p2 = p1 + at_right("r/s"@, 8);
    let p3 = p2 + " "@;
    let p4 = p3 + at_right("w/s"@, 8);
    let p5 = p4 + " "@;
    let p6 = p5 + at_right("rkB/s"@, 10);
    let p7 = p6 + " "@;
    let p8 = p7 + at_right("wkB/s"@, 10);
    let p9 = p8 + " "@;
    let p10 = p9 + at_right("aqu-sz"@, 7);
    let p11 = p10 + " "@;
    let p12 = p11 + at_right("await"@, 8);
    let p13 = p12 + " "@;
    let p14 = p13 + at_right("%util"@, 7);
    let p15 = p14 + "\n"@;
    assert(p15 == head);
    assert(p15.is_prefix_of(head));
    lemma_column(p14, "\n"@, head);
    lemma_column(p13, at_right("%util"@, 7), head);
    lemma_column(p12, " "@, head);
    lemma_column(p11, at_right("await"@, 8), head);
    lemma_column(p10, " "@, head);
    lemma_column(p9, at_right("aqu-sz"@, 7), head);
    lemma_column(p8, " "@, head);
    lemma_column(p7, at_right("wkB/s"@, 10), head);
    lemma_column(p6, " "@, head);
    lemma_column(p5, at_right("rkB/s"@, 10), head);
    lemma_column(p4, " "@, head);
    lemma_column(p3, at_right("w/s"@, 8), head);
    lemma_column(p2, " "@, head);
    lemma_column(p1, at_right("r/s"@, 8), head);
    lemma_column(p0, " "@, head);
}

/// Counters stand in columns, each under its name: those of reading before those of
/// writing.
pub proof fn counters_have_their_columns(d: DiskStats, width: int)
    requires
        d.device@.len() <= width,
        6 <= width,
        decimal(d.reads_completed as int).len() <= 12,
        fixed(mib(d.sectors_read), 1).len() <= 12,
        decimal(d.writes_completed as int).len() <= 12,
        fixed(mib(d.sectors_written), 1).len() <= 12,
    ensures
        ({
            let line = counter_line(d, width);
            let head = counter_heading(width);
            &&& line.subrange(0, width) == at_left(d.device@, width)
            &&& line.subrange(width + 1, width + 13) == at_right(decimal(d.reads_completed as int), 12)
            &&& head.subrange(width + 1, width + 13) == at_right("reads"@, 12)
            &&& line.subrange(width + 14, width + 26) == at_right(fixed(mib(d.sectors_read), 1), 12)
            &&& head.subrange(width + 14, width + 26) == at_right("read_MiB"@, 12)
            &&& line.subrange(width + 27, width + 39) == at_right(decimal(d.writes_completed as int), 12)
            &&& head.subrange(width + 27, width + 39) == at_right("writes"@, 12)
            &&& line.subrange(width + 40, width + 52) == at_right(fixed(mib(d.sectors_written), 1), 12)
            &&& head.subrange(width + 40, width + 52) == at_right("write_MiB"@, 12)
        }),
{
    lemma_counter_line(d, width);
    lemma_counter_head(width);
}

proof fn lemma_counter_line(d: DiskStats, width: int)
    requires
        d.device@.len() <= width,
        6 <= width,
        decimal(d.reads_completed as int).len() <= 12,
        fixed(mib(d.sectors_read), 1).len() <= 12,
        decimal(d.writes_completed as int).len() <= 12,
        fixed(mib(d.sectors_written), 1).len() <= 12,
    ensures
        ({
            let line = counter_line(d, width);
            &&& line.subrange(0, width) == at_left(d.device@, width)
            &&& line.subrange(width + 1, width + 13) == at_right(decimal(d.reads_completed as int), 12)
            &&& line.subrange(width + 14, width + 26) == at_right(fixed(mib(d.sectors_read), 1), 12)
            &&& line.subrange(width + 27, width + 39) == at_right(decimal(d.writes_completed as int), 12)
            &&& line.subrange(width + 40, width + 52) == at_right(fixed(mib(d.sectors_written), 1), 12)
        }),
{
    let line = counter_line(d, width);
    columns_have_their_width(d.device@, width);
    columns_have_their_width(decimal(d.reads_completed as int), 12);
    columns_have_their_width(fixed(mib(d.sectors_read), 1), 12);
    columns_have_their_width(decimal(d.writes_completed as int), 12);
    columns_have_their_width(fixed(mib(d.sectors_written), 1), 12);
    reveal_strlit(" ");
    reveal_strlit("\n");
    let p0 = at_left(d.device@, width);
    let p1 = p0 + " "@;
    let p2 = p1 + at_right(decimal(d.reads_completed as int), 12);
    let p3 = p2 + " "@;
    let p4 = p3 + at_right(fixed(mib(d.sectors_read), 1), 12);
    let p5 = p4 + " "@;
    let p6 = p5 + at_right(decimal(d.writes_completed as int), 12);
    let p7 = p6 + " "@;
    let p8 = p7 + at_right(fixed(mib(d.sectors_written), 1), 12);
    let p9 = p8 + "\n"@;
    assert(p9 == line);
    assert(p9.is_prefix_of(line));
    lemma_column(p8, "\n"@, line);
    lemma_column(p7, at_right(fixed(mib(d.sectors_written), 1), 12), line);
    lemma_column(p6, " "@, line);
    lemma_column(p5, at_right(decimal(d.writes_completed as int), 12), line);
    lemma_column(p4, " "@, line);
    lemma_column(p3, at_right(fixed(mib(d.sectors_read), 1), 12), line);
    lemma_column(p2, " "@, line);
    lemma_column(p1, at_right(decimal(d.reads_completed as int), 12), line);
    lemma_column(p0, " "@, line);
    assert(p0.is_prefix_of(Seq::<char>::empty() + p0));
    assert(Seq::<char>::empty() + p0 =~= p0);
    lemma_column(Seq::<char>::empty(), p0, line);
    assert(Seq::<char>::empty() + p0 =~= p0);
}

proof fn lemma_counter_head(width: int)
    requires
        6 <= width,
    ensures
        ({
            let head = counter_heading(width);
            &&& head.subrange(width + 1, width + 13) == at_right("reads"@, 12)
            &&& head.subrange(width + 14, width + 26) == at_right("read_MiB"@, 12)
            &&& head.subrange(width + 27, width + 39) == at_right("writes"@, 12)
            &&& head.subrange(width + 40, width + 52) == at_right("write_MiB"@, 12)
        }),
{
    let head = counter_heading(width);
    reveal_strlit("Device");
    reveal_strlit("reads");
    reveal_strlit("read_MiB");
    reveal_strlit("writes");
    reveal_strlit("write_MiB");
    columns_have_their_width("Device"@, width);
    columns_have_their_width("reads"@, 12);
    columns_have_their_width("read_MiB"@, 12);
    columns_have_their_width("writes"@, 12);
    columns_have_their_width("write_MiB"@, 12);
    reveal_strlit(" ");
    reveal_strlit("\n");
    let p0 = at_left("Device"@, width);
    let p1 = p0 + " "@;
    let p2 = p1 + at_right("reads"@, 12);
    let p3 = p2 + " "@;
    let p4 = p3 + at_right("read_MiB"@, 12);
    let p5 = p4 + " "@;
    let p6 = p5 + at_right("writes"@, 12);
    let p7 = p6 + " "@;
    let p8 = p7 + at_right("write_MiB"@, 12);
    let p9 = p8 + "\n"@;
    assert(p9 == head);
    assert(p9.is_prefix_of(head));
    lemma_column(p8, "\n"@, head);
    lemma_column(p7, at_right("write_MiB"@, 12), head);
    lemma_column(p6, " "@, head);
    lemma_column(p5, at_right("writes"@, 12), head);
    lemma_column(p4, " "@, head);
    lemma_column(p3, at_right("read_MiB"@, 12), head);
    lemma_column(p2, " "@, head);
    lemma_column(p1, at_right("reads"@, 12), head);
    lemma_column(p0, " "@, head);
}

} // verus!
