//! The page that a browser shows: options, devices, requests and answers.

use vstd::arithmetic::power2::lemma_pow2_pos;
use vstd::prelude::*;
use vstd::slice::slice_subrange;

use crate::binary64::{
    closest, common_factor_cancels, half_is_exact, part_of_one, product, product_of_half,
    product_of_wholes, quotient, quotient_by_one, quotient_of_wholes, sum, sum_of_wholes, unit,
    whole, whole_is_exact, whole_is_unsigned, whole_of_nothing, wholes_in_order, zero, Binary64,
    STEP,
};
use crate::diskstats::{
    all_fit, is_pseudo_device, pseudo, rate_between, rate_views, rates, rates_between, rates_fit,
    DiskRate, DiskStats, RateView,
};
use crate::index::{lemma_place, place, Index};
use crate::iotop::{
    falling, falling_key, first_of, lossy, lossy_text, string_views, thousandth, IoFrame, ProcRate,
};
use crate::json::{
    all_spell, array_text, close_object, comma_joined, integer_spells, lemma_joined_push, named,
    number_spells, number_text, object, object_reads_back, object_text, open_object, push_string,
    put_integer, put_number, put_string, put_text, put_truth, reread, spells, string_text,
    truth_text, Datum,
};
use crate::numeral::{float, parse_float};
use crate::order::{
    arranged, arranged_in_order, arranged_keeps_all, key_views, less_from, ordering, places,
    sort_order,
};
use crate::records::accounts::once;
use crate::records::amounts::{clamp, within};
use crate::records::book::{ingested, moves, retuned, threshold_is_taken, AlertBook, Saves};
use crate::records::disk::str_view;
use crate::records::lines::{field, lemma_field};
use crate::records::query::{answer_fields, query_from, query_to, times_fit};
use crate::records::types::{minute_views, snap_views, ProcSnap, SnapView};
use crate::text::{
    chars_of, code, decimal, decimal_reads_back, digit, digits_only, fields, fields_of,
    fields_read_back, first_solid, halves, halves_back, halves_read_back, is_digit, is_word, joined,
    lemma_decimal, lemma_decimal_is_word, lemma_occurs_itself, lemma_occurs_within, lines, lines_of,
    lines_read_back, occurs, parse_unsigned, push_decimal, rsplit_once, same_text, separated,
    solid_end, space, spaces_around_are_cut, split_once, starts_with, string_of, trim, trimmed,
    trimmed_stays, unsigned, views, words, words_of, words_read_back,
};

verus! {

/// How many lines of the ranking a frame holds.
pub const ROW_LIMIT: usize = 200;

/// How many connections are served at a time.
pub const MAX_CONNECTIONS: usize = 64;

/// How many devices a frame holds.
pub const DEVICE_LIMIT: usize = 12;

/// How long a request's head may be.
pub const HEAD_LIMIT: usize = 65536;

// ---------------------------------------------------------------------------
// Options

pub struct WebOptions {
    pub addr: String,
    pub interval: Binary64,
}

/// What is wrong with a port, if anything is.
pub open spec fn port_fault(port: Seq<char>) -> Option<Seq<char>> {
    match unsigned(port, u16::MAX as int) {
        Some(p) => if p == 0 {
            Some("端口不能为 0"@)
        } else {
            None
        },
        None => Some("无效的端口: "@ + port),
    }
}

/// A port's number.
pub fn parse_port(port: &str) -> (r: Result<u16, String>)
    ensures
        match r {
            Ok(p) => port_fault(port@) is None && unsigned(port@, u16::MAX as int) == Some(p as u64),
            Err(e) => port_fault(port@) == Some(e@),
        },
{
    let cs = chars_of(port);
    match parse_unsigned(cs.as_slice(), u16::MAX as u64) {
        Some(p) => if p == 0 {
            Err("端口不能为 0".to_string())
        } else {
            Ok(p as u16)
        },
        None => Err(joined("无效的端口: ", port)),
    }
}

/// Whether an address is only a port, and which.
pub open spec fn bare_port(raw: Seq<char>) -> Option<Seq<char>> {
    if raw.len() > 0 && raw[0] == ':' {
        Some(raw.subrange(1, raw.len() as int))
    } else if digits_only(raw) {
        Some(raw)
    } else {
        None
    }
}

/// The address that is listened on, or what is wrong with it. One that is only
/// a port is that port of this machine alone.
pub open spec fn address(raw: Seq<char>) -> Result<Seq<char>, Seq<char>> {
    match bare_port(raw) {
        Some(port) => match port_fault(port) {
            Some(e) => Err(e),
            None => Ok("127.0.0.1:"@ + port),
        },
        None => match halves_back(raw, ':') {
            Some((host, port)) => if host.len() == 0 {
                Err("地址缺少主机名: "@ + raw)
            } else {
                match port_fault(port) {
                    Some(e) => Err(e),
                    None => Ok(raw),
                }
            },
            None => Err("地址需要带端口: "@ + raw),
        },
    }
}

/// What a result of texts holds.
pub open spec fn text_result(r: Result<String, String>) -> Result<Seq<char>, Seq<char>> {
    match r {
        Ok(s) => Ok(s@),
        Err(e) => Err(e@),
    }
}

fn only_digits(s: &[char]) -> (r: bool)
    ensures
        r == digits_only(s@),
{
    for i in 0..s.len()
        invariant
            forall|j: int| 0 <= j < i ==> digit(#[trigger] s@[j]),
    {
        if !is_digit(s[i]) {
            assert(!digit(s@[i as int]));
            return false;
        }
    }
    true
}

/// The address that is listened on.
pub fn normalize_addr(raw: &str) -> (r: Result<String, String>)
    ensures
        text_result(r) == address(raw@),
{
    let cs = chars_of(raw);
    let s = cs.as_slice();
    let colon = s.len() > 0 && s[0] == ':';
    if colon || only_digits(s) {
        let port = if colon {
            string_of(slice_subrange(s, 1, s.len()))
        } else {
            string_of(s)
        };
        return match parse_port(port.as_str()) {
            Ok(_) => Ok(joined("127.0.0.1:", port.as_str())),
            Err(e) => Err(e),
        };
    }
    match rsplit_once(s, ':') {
        Some((host, port)) => {
            if host.len() == 0 {
                return Err(joined("地址缺少主机名: ", raw));
            }
            let port = string_of(port);
            match parse_port(port.as_str()) {
                Ok(_) => Ok(raw.to_string()),
                Err(e) => Err(e),
            }
        },
        None => Err(joined("地址需要带端口: ", raw)),
    }
}

/// What reading the arguments came to so far.
pub enum Scanned {
    /// The address, and the arguments that are no options.
    Read(Seq<char>, Seq<Seq<char>>),
    /// The user asks for help.
    Help,
    Fault(Seq<char>),
}

/// Reads the arguments from `i` on.
pub open spec fn scanned(
    args: Seq<Seq<char>>,
    i: int,
    addr: Seq<char>,
    rest: Seq<Seq<char>>,
) -> Scanned
    decreases args.len() - i,
{
    if i >= args.len() {
        Scanned::Read(addr, rest)
    } else {
        let a = args[i];
        if a == "-h"@ || a == "--help"@ {
            Scanned::Help
        } else if a == "-l"@ || a == "--listen"@ {
            if i + 1 >= args.len() {
                Scanned::Fault("-l/--listen 需要一个地址，如 127.0.0.1:8080"@)
            } else {
                match address(args[i + 1]) {
                    Ok(v) => scanned(args, i + 2, v, rest),
                    Err(e) => Scanned::Fault(e),
                }
            }
        } else if "-"@.is_prefix_of(a) {
            Scanned::Fault("未知选项: "@ + a)
        } else {
            scanned(args, i + 1, addr, rest.push(a))
        }
    }
}

/// The interval that the arguments name, if they name any, or what is wrong.
pub open spec fn web_interval(rest: Seq<Seq<char>>) -> Result<Binary64, Seq<char>> {
    if rest.len() > 1 {
        Err("位置参数过多，最多一个间隔秒数"@)
    } else if rest.len() == 0 {
        Ok(whole(1))
    } else {
        match float(rest[0]) {
            Some(v) => if !v.finite() || v.below(quotient(whole(1), whole(2))) {
                Err("间隔秒数至少为 0.5（全量扫描线程很贵）"@)
            } else {
                Ok(v)
            },
            None => Err("无效的间隔秒数: "@ + rest[0]),
        }
    }
}

/// Whether this is what the arguments say.
pub open spec fn args_say(args: Seq<Seq<char>>, r: Result<Option<WebOptions>, String>) -> bool {
    match scanned(args, 0, "127.0.0.1:8080"@, seq![]) {
        Scanned::Help => r matches Ok(None),
        Scanned::Fault(e) => r matches Err(m) && m@ == e,
        Scanned::Read(addr, rest) => match web_interval(rest) {
            Ok(v) => r matches Ok(Some(o)) && o.addr@ == addr && o.interval == v,
            Err(e) => r matches Err(m) && m@ == e,
        },
    }
}

/// Reads the arguments of the page's command. `None` stands for a call for
/// help.
pub fn parse_args(args: &[String]) -> (r: Result<Option<WebOptions>, String>)
    ensures
        args_say(string_views(args@), r),
{
    let ghost g = string_views(args@);
    let mut addr: String = "127.0.0.1:8080".to_string();
    let mut rest: Vec<String> = Vec::new();
    let n = args.len();
    let mut i: usize = 0;
    assert(string_views(rest@) =~= seq![]);
    while i < n
        invariant
            n == args@.len(),
            i <= n,
            g == string_views(args@),
            scanned(g, 0, "127.0.0.1:8080"@, seq![]) == scanned(
                g,
                i as int,
                addr@,
                string_views(rest@),
            ),
        decreases n - i,
    {
        let cs = chars_of(args[i].as_str());
        let a = cs.as_slice();
        assert(g[i as int] == a@);
        if same_text(a, "-h") || same_text(a, "--help") {
            return Ok(None);
        }
        if same_text(a, "-l") || same_text(a, "--listen") {
            if i + 1 >= n {
                return Err("-l/--listen 需要一个地址，如 127.0.0.1:8080".to_string());
            }
            assert(g[i + 1] == args@[i + 1]@);
            match normalize_addr(args[i + 1].as_str()) {
                Ok(v) => {
                    addr = v;
                },
                Err(e) => return Err(e),
            }
            i = i + 2;
        } else if starts_with(a, "-") {
            return Err(joined("未知选项: ", args[i].as_str()));
        } else {
            let ghost before = rest@;
            rest.push(args[i].clone());
            assert(string_views(rest@) =~= string_views(before).push(a@));
            i = i + 1;
        }
    }
    if rest.len() > 1 {
        return Err("位置参数过多，最多一个间隔秒数".to_string());
    }
    if rest.len() == 0 {
        return Ok(Some(WebOptions { addr, interval: Binary64::from_u64(1) }));
    }
    assert(string_views(rest@)[0] == rest@[0]@);
    let cs = chars_of(rest[0].as_str());
    match parse_float(cs.as_slice()) {
        Some(v) => {
            let half = Binary64::from_u64(1).over(&Binary64::from_u64(2));
            if !v.is_finite() || v.lt(&half) {
                Err("间隔秒数至少为 0.5（全量扫描线程很贵）".to_string())
            } else {
                Ok(Some(WebOptions { addr, interval: v }))
            }
        },
        None => Err(joined("无效的间隔秒数: ", rest[0].as_str())),
    }
}

/// Where to point a browser.
pub open spec fn browse_text(addr: Seq<char>) -> Seq<char> {
    match halves_back(addr, ':') {
        Some((host, port)) => if host == "0.0.0.0"@ || host == "::"@ {
            "http://127.0.0.1:"@ + port
        } else {
            "http://"@ + addr
        },
        None => "http://"@ + addr,
    }
}

/// Where to point a browser. All addresses of a machine stand for its own.
pub fn browse_hint(addr: &str) -> (r: String)
    ensures
        r@ == browse_text(addr@),
{
    let cs = chars_of(addr);
    if let Some((host, port)) = rsplit_once(cs.as_slice(), ':') {
        if same_text(host, "0.0.0.0") || same_text(host, "::") {
            let port = string_of(port);
            return joined("http://127.0.0.1:", port.as_str());
        }
    }
    joined("http://", addr)
}

/// The name in the kernel's file; without it the machine is this one.
pub open spec fn host_text(content: Option<Seq<char>>) -> Seq<char> {
    match content {
        Some(s) => trimmed(s),
        None => "localhost"@,
    }
}

/// The machine's name, by the text of the kernel's file.
pub fn hostname(content: Option<&str>) -> (r: String)
    ensures
        r@ == host_text(str_view(content)),
{
    match content {
        Some(s) => {
            let cs = chars_of(s);
            string_of(trim(cs.as_slice()))
        },
        None => "localhost".to_string(),
    }
}

// ---------------------------------------------------------------------------
// Devices

/// A device's rates, as a frame holds them.
pub struct DeviceRate {
    pub name: String,
    pub r_s: Binary64,
    pub w_s: Binary64,
    pub read_bps: Binary64,
    pub write_bps: Binary64,
    pub await_ms: Binary64,
    pub util_pct: Binary64,
}

/// What a `DeviceRate` holds.
pub struct DeviceView {
    pub name: Seq<char>,
    pub r_s: Binary64,
    pub w_s: Binary64,
    pub read: Binary64,
    pub write: Binary64,
    pub await_ms: Binary64,
    pub util: Binary64,
}

impl View for DeviceRate {
    type V = DeviceView;

    open spec fn view(&self) -> DeviceView {
        DeviceView {
            name: self.name@,
            r_s: self.r_s,
            w_s: self.w_s,
            read: self.read_bps,
            write: self.write_bps,
            await_ms: self.await_ms,
            util: self.util_pct,
        }
    }
}

impl Clone for DeviceRate {
    fn clone(&self) -> (r: DeviceRate)
        ensures
            r == *self,
    {
        DeviceRate {
            name: self.name.clone(),
            r_s: self.r_s,
            w_s: self.w_s,
            read_bps: self.read_bps,
            write_bps: self.write_bps,
            await_ms: self.await_ms,
            util_pct: self.util_pct,
        }
    }
}

pub open spec fn device_views(v: Seq<DeviceRate>) -> Seq<DeviceView> {
    Seq::new(v.len(), |i: int| v[i]@)
}

/// A rate as a frame holds it: bytes in place of KiB.
pub open spec fn device_of(r: RateView) -> DeviceView {
    DeviceView {
        name: r.device,
        r_s: r.r_s,
        w_s: r.w_s,
        read: product(r.rk_bps, whole(1024)),
        write: product(r.wk_bps, whole(1024)),
        await_ms: r.await_ms,
        util: r.util_pct,
    }
}

/// The devices that are not virtual.
pub open spec fn real_devices(rates: Seq<RateView>) -> Seq<DeviceView>
    decreases rates.len(),
{
    if rates.len() == 0 {
        seq![]
    } else {
        let before = real_devices(rates.drop_last());
        if pseudo(rates.last().device) {
            before
        } else {
            before.push(device_of(rates.last()))
        }
    }
}

/// The characters of a name, as numbers.
pub open spec fn name_key(name: Seq<char>) -> Seq<u64> {
    Seq::new(name.len(), |i: int| name[i] as u64)
}

/// What devices are ranked by: the busiest first, then the one with the most
/// bytes, then by name.
pub open spec fn device_keys(d: Seq<DeviceView>) -> Seq<Seq<u64>> {
    Seq::new(
        d.len(),
        |i: int|
            seq![falling(d[i].util), falling(sum(d[i].read, d[i].write))] + name_key(d[i].name),
    )
}

/// The busiest devices.
pub open spec fn busiest(rates: Seq<RateView>) -> Seq<DeviceView> {
    let d = real_devices(rates);
    first_of(arranged(d, device_keys(d)), DEVICE_LIMIT as int)
}

fn pick_devices(rates: &Vec<DiskRate>) -> (r: Vec<DeviceRate>)
    ensures
        device_views(r@) == busiest(rate_views(rates@)),
{
    let ghost rg = rate_views(rates@);
    let kib = Binary64::from_u64(1024);
    let mut all: Vec<DeviceRate> = Vec::new();
    assert(device_views(all@) =~= seq![]);
    for i in 0..rates.len()
        invariant
            kib == whole(1024),
            rg == rate_views(rates@),
            device_views(all@) == real_devices(rg.take(i as int)),
    {
        let r = &rates[i];
        let ghost before = all@;
        assert(rg.take(i as int + 1).drop_last() =~= rg.take(i as int));
        assert(rg[i as int] == r@);
        if !is_pseudo_device(r.device.as_str()) {
            let d = DeviceRate {
                name: r.device.clone(),
                r_s: r.r_s,
                w_s: r.w_s,
                read_bps: r.rk_bps.times(&kib),
                write_bps: r.wk_bps.times(&kib),
                await_ms: r.await_ms,
                util_pct: r.util_pct,
            };
            assert(d@ == device_of(r@));
            all.push(d);
            assert(device_views(all@) =~= device_views(before).push(device_of(r@)));
        }
    }
    assert(rg.take(rg.len() as int) =~= rg);
    let ghost g = device_views(all@);
    let mut keys: Vec<Vec<u64>> = Vec::new();
    for i in 0..all.len()
        invariant
            g == device_views(all@),
            keys@.len() == i,
            forall|j: int| 0 <= j < i ==> (#[trigger] keys@[j])@ == device_keys(g)[j],
    {
        let d = &all[i];
        assert(g[i as int] == d@);
        let mut key: Vec<u64> = vec![
            falling_key(&d.util_pct),
            falling_key(&d.read_bps.plus(&d.write_bps)),
        ];
        let ghost head = key@;
        let cs = chars_of(d.name.as_str());
        for j in 0..cs.len()
            invariant
                key@ == head + name_key(cs@).take(j as int),
        {
            key.push(code(cs[j]) as u64);
            assert(name_key(cs@).take(j as int + 1) =~= name_key(cs@).take(j as int).push(
                name_key(cs@)[j as int],
            ));
        }
        assert(name_key(cs@).take(cs@.len() as int) =~= name_key(cs@));
        assert(key@ =~= device_keys(g)[i as int]);
        keys.push(key);
    }
    assert(key_views(keys@) =~= device_keys(g));
    let order = sort_order(&keys);
    let n: usize = if order.len() < DEVICE_LIMIT {
        order.len()
    } else {
        DEVICE_LIMIT
    };
    let mut out: Vec<DeviceRate> = Vec::new();
    for i in 0..n
        invariant
            g == device_views(all@),
            n <= order@.len(),
            order@.len() == g.len(),
            places(order@) == ordering(device_keys(g)),
            forall|j: int| 0 <= j < order@.len() ==> #[trigger] order@[j] < g.len(),
            out@.len() == i,
            forall|j: int|
                0 <= j < i ==> (#[trigger] out@[j])@ == arranged(g, device_keys(g))[j],
    {
        out.push(all[order[i]].clone());
        assert(places(order@)[i as int] == order@[i as int]);
    }
    assert(device_views(out@) =~= busiest(rg));
    out
}

/// What the counters of the devices were.
pub struct DiskSample {
    pub disks: Vec<DiskStats>,
}

/// Whether rates can be told between two samples, where there are two.
pub open spec fn sample_ok(prev: Option<DiskSample>, cur: Option<Vec<DiskStats>>) -> bool {
    match (prev, cur) {
        (Some(p), Some(c)) => all_fit(p.disks@, c@),
        _ => true,
    }
}

/// Whether a sample of the devices gives the rates `r` and leaves the sample
/// `after`.
pub open spec fn sampled(
    before: Option<DiskSample>,
    after: Option<DiskSample>,
    cur: Option<Vec<DiskStats>>,
    elapsed_s: Binary64,
    r: Seq<DeviceView>,
) -> bool {
    match cur {
        Some(c) => {
            &&& after == Some(DiskSample { disks: c })
            &&& match before {
                Some(p) => r == busiest(
                    rates_between(p.disks@, c@, elapsed_s.greater(thousandth())),
                ),
                None => r.len() == 0,
            }
        },
        None => r.len() == 0 && after == before,
    }
}

/// Takes the next sample of the devices, made `elapsed_s` seconds after the one
/// before. The first has no rates, and one that could not be read is as if it
/// had not been made.
pub fn sample_devices(
    prev: &mut Option<DiskSample>,
    cur: Option<Vec<DiskStats>>,
    elapsed_s: Binary64,
) -> (r: Vec<DeviceRate>)
    requires
        sample_ok(*old(prev), cur),
    ensures
        sampled(*old(prev), *final(prev), cur, elapsed_s, device_views(r@)),
{
    match cur {
        None => Vec::new(),
        Some(c) => {
            let out = match &*prev {
                None => Vec::new(),
                Some(p) => {
                    let elapsed = elapsed_s.max(
                        &Binary64::from_u64(1).over(&Binary64::from_u64(1000)),
                    );
                    let rs = rates(p.disks.as_slice(), c.as_slice(), elapsed);
                    pick_devices(&rs)
                },
            };
            *prev = Some(DiskSample { disks: c });
            out
        },
    }
}

/// Whether `sample_devices` can be asked.
pub fn sample_fits(prev: &Option<DiskSample>, cur: &Option<Vec<DiskStats>>) -> (r: bool)
    ensures
        r == sample_ok(*prev, *cur),
{
    match (prev, cur) {
        (Some(p), Some(c)) => rates_fit(p.disks.as_slice(), c.as_slice()),
        _ => true,
    }
}

// ---------------------------------------------------------------------------
// Processes

/// A process before its threads are added up.
pub open spec fn new_snap(row: ProcRate) -> SnapView {
    SnapView {
        pid: row.pid,
        user: row.user@,
        command: row.command@,
        io: zero(),
        read: zero(),
        write: zero(),
    }
}

/// A process with one more thread. It goes by the command of its first thread,
/// or of any where it has none.
pub open spec fn with_thread(p: SnapView, row: ProcRate) -> SnapView {
    let named = row.tid == row.pid || p.command.len() == 0;
    SnapView {
        pid: p.pid,
        user: if named {
            row.user@
        } else {
            p.user
        },
        command: if named {
            row.command@
        } else {
            p.command
        },
        io: sum(p.io, row.io_pct).lesser(whole(100)),
        read: sum(p.read, row.read_bps),
        write: sum(p.write, row.write_bps),
    }
}

pub open spec fn snap_pids(s: Seq<SnapView>) -> Seq<u64> {
    Seq::new(s.len(), |i: int| s[i].pid as u64)
}

/// The processes of the threads, in the order of first appearance.
pub open spec fn added_up(rows: Seq<ProcRate>) -> Seq<SnapView>
    decreases rows.len(),
{
    if rows.len() == 0 {
        seq![]
    } else {
        let before = added_up(rows.drop_last());
        let row = rows.last();
        let i = place(snap_pids(before), row.pid as u64);
        if i < before.len() {
            before.update(i, with_thread(before[i], row))
        } else {
            before.push(with_thread(new_snap(row), row))
        }
    }
}

fn add_thread(p: &ProcSnap, row: &ProcRate) -> (r: ProcSnap)
    ensures
        r@ == with_thread(p@, *row),
{
    let named = row.tid == row.pid || p.command.as_str().is_empty();
    ProcSnap {
        pid: p.pid,
        user: if named {
            row.user.clone()
        } else {
            p.user.clone()
        },
        command: if named {
            row.command.clone()
        } else {
            p.command.clone()
        },
        io: p.io.plus(&row.io_pct).min(&Binary64::from_u64(100)),
        read: p.read.plus(&row.read_bps),
        write: p.write.plus(&row.write_bps),
    }
}

/// Adds up the threads of each process. A share of time is at most 100.
pub fn aggregate_procs(rows: &[ProcRate]) -> (r: Vec<ProcSnap>)
    ensures
        snap_views(r@) == added_up(rows@),
{
    let mut out: Vec<ProcSnap> = Vec::new();
    let mut index = Index::new();
    assert(snap_views(out@) =~= seq![]);
    assert(snap_pids(snap_views(out@)) =~= seq![]);
    for i in 0..rows.len()
        invariant
            snap_views(out@) == added_up(rows@.take(i as int)),
            index.of(snap_pids(snap_views(out@))),
    {
        let row = &rows[i];
        let ghost before = snap_views(out@);
        let ghost keys = snap_pids(before);
        let ghost after = added_up(rows@.take(i as int + 1));
        assert(rows@.take(i as int + 1).drop_last() =~= rows@.take(i as int));
        match index.find(row.pid as u64, Ghost(keys)) {
            Some(k) => {
                assert(before[k as int] == out@[k as int]@);
                let p = add_thread(&out[k], row);
                out.set(k, p);
                assert(snap_views(out@) =~= after);
                assert(snap_pids(snap_views(out@)) =~= keys);
            },
            None => {
                let none = Binary64::from_bits(0);
                let fresh = ProcSnap {
                    pid: row.pid,
                    user: row.user.clone(),
                    command: row.command.clone(),
                    io: none,
                    read: none,
                    write: none,
                };
                assert(fresh@ == new_snap(*row));
                let n = out.len();
                let p = add_thread(&fresh, row);
                out.push(p);
                index.append(row.pid as u64, n, Ghost(keys));
                assert(snap_views(out@) =~= after);
                assert(snap_pids(snap_views(out@)) =~= keys.push(row.pid as u64));
            },
        }
    }
    assert(rows@.take(rows@.len() as int) =~= rows@);
    out
}

// ---------------------------------------------------------------------------
// Requests

/// Whether one more connection is served beside those that are.
pub fn has_room(live: usize) -> (r: bool)
    ensures
        r == (live < MAX_CONNECTIONS),
{
    live < MAX_CONNECTIONS
}

/// The first place at or after `i` where `w` stands; the length where it does
/// not.
pub open spec fn find_run<T>(s: Seq<T>, w: Seq<T>, i: int) -> int
    decreases s.len() - i,
{
    if i + w.len() > s.len() || i >= s.len() {
        s.len() as int
    } else if s.subrange(i, i + w.len()) == w {
        i
    } else {
        find_run(s, w, i + 1)
    }
}

/// The empty line that ends a request's head, in bytes.
pub open spec fn blank_bytes() -> Seq<u8> {
    seq![13u8, 10, 13, 10]
}

/// The empty line that ends a request's head.
pub open spec fn blank_line() -> Seq<char> {
    seq!['\r', '\n', '\r', '\n']
}

/// Where a request's head ends.
pub open spec fn head_end(buf: Seq<u8>) -> int {
    find_run(buf, blank_bytes(), 0)
}

/// Where a request's head ends, if it is all there.
pub fn find_head_end(buf: &[u8]) -> (r: Option<usize>)
    ensures
        match r {
            Some(i) => i == head_end(buf@) && i + 4 <= buf@.len(),
            None => head_end(buf@) == buf@.len(),
        },
{
    let n = buf.len();
    let mut i: usize = 0;
    while n >= 4 && i <= n - 4
        invariant
            n == buf@.len(),
            i <= n,
            head_end(buf@) == find_run(buf@, blank_bytes(), i as int),
        decreases n - i,
    {
        let ghost w = buf@.subrange(i as int, i + 4);
        if buf[i] == 13 && buf[i + 1] == 10 && buf[i + 2] == 13 && buf[i + 3] == 10 {
            assert(w =~= blank_bytes());
            return Some(i);
        }
        assert(w[0] == buf@[i as int] && w[1] == buf@[i + 1] && w[2] == buf@[i + 2] && w[3]
            == buf@[i + 3]);
        assert(w != blank_bytes()) by {
            let b = blank_bytes();
            assert(b[0] == 13 && b[1] == 10 && b[2] == 13 && b[3] == 10);
        }
        i = i + 1;
    }
    None
}

/// Whether more of a request has to be read for its head. A head that is too
/// long is taken as it is.
pub fn wants_head(buf: &[u8]) -> (r: bool)
    ensures
        r == (head_end(buf@) == buf@.len() && buf@.len() <= HEAD_LIMIT),
{
    find_head_end(buf).is_none() && buf.len() <= HEAD_LIMIT
}

/// The first of the lines from `i` on that tells the length of the body.
pub open spec fn length_line(ls: Seq<Seq<char>>, i: int) -> int
    decreases ls.len() - i,
{
    if i >= ls.len() {
        ls.len() as int
    } else if "Content-Length:"@.is_prefix_of(ls[i]) || "content-length:"@.is_prefix_of(ls[i]) {
        i
    } else {
        length_line(ls, i + 1)
    }
}

/// The length of the body that a head tells.
pub open spec fn told_length(head: Seq<char>) -> Option<u64> {
    let ls = lines(head);
    let i = length_line(ls, 0);
    if i < ls.len() {
        unsigned(trimmed(ls[i].subrange(15, ls[i].len() as int)), usize::MAX as int)
    } else {
        None
    }
}

/// The length of the body that a head tells.
pub fn content_length(head: &str) -> (r: Option<usize>)
    ensures
        match r {
            Some(n) => told_length(head@) == Some(n as u64),
            None => told_length(head@) is None,
        },
{
    let cs = chars_of(head);
    let ls = lines_of(cs.as_slice());
    let ghost g = lines(head@);
    proof {
        reveal_strlit("Content-Length:");
        reveal_strlit("content-length:");
    }
    for i in 0..ls.len()
        invariant
            g == views(ls@),
            g == lines(head@),
            "Content-Length:"@.len() == 15,
            "content-length:"@.len() == 15,
            length_line(g, 0) == length_line(g, i as int),
    {
        let line = ls[i];
        assert(g[i as int] == line@);
        if starts_with(line, "Content-Length:") || starts_with(line, "content-length:") {
            let rest = slice_subrange(line, 15, line.len());
            return match parse_unsigned(trim(rest), usize::MAX as u64) {
                Some(n) => Some(n as usize),
                None => None,
            };
        }
    }
    None
}

/// The body's length, where the head tells none.
pub open spec fn body_length(head: Seq<char>) -> int {
    match told_length(head) {
        Some(n) => n as int,
        None => 0,
    }
}

/// Whether a request of `len` bytes lacks a part of the body that its head,
/// which ends at `end`, tells of.
pub fn body_short(len: usize, end: usize, head: &str) -> (r: bool)
    requires
        end + 4 <= len,
    ensures
        r == (len < end + 4 + body_length(head@)),
{
    let want: usize = match content_length(head) {
        Some(n) => n,
        None => 0,
    };
    len - end - 4 < want
}

/// Whether more of a request has to be read for its body.
pub fn wants_body(buf: &[u8]) -> (r: bool)
    ensures
        r == (head_end(buf@) < buf@.len() && buf@.len() < head_end(buf@) + 4 + body_length(
            lossy(buf@.subrange(0, head_end(buf@))),
        )),
{
    match find_head_end(buf) {
        Some(end) => {
            let head = lossy_text(slice_subrange(buf, 0, end));
            body_short(buf.len(), end, head.as_str())
        },
        None => false,
    }
}

/// A request as text.
pub fn request_text(buf: &[u8]) -> (r: String)
    ensures
        r@ == lossy(buf@),
{
    lossy_text(buf)
}

/// The value of the first parameter from `i` on with this name. One without an
/// equals sign has an empty value.
pub open spec fn param_from(parts: Seq<Seq<char>>, key: Seq<char>, i: int) -> Option<Seq<char>>
    decreases parts.len() - i,
{
    if i >= parts.len() {
        None
    } else {
        let (name, value) = match halves(parts[i], '=') {
            Some(p) => p,
            None => (parts[i], seq![]),
        };
        if name == key {
            Some(value)
        } else {
            param_from(parts, key, i + 1)
        }
    }
}

/// The value of a parameter in a request's target.
pub open spec fn query_value(raw: Seq<char>, key: Seq<char>) -> Option<Seq<char>> {
    match halves(raw, '?') {
        Some((_, query)) => param_from(fields(query, '&'), key, 0),
        None => None,
    }
}

/// As `param_from`, with spaces around names and values left out.
pub open spec fn trimmed_param_from(parts: Seq<Seq<char>>, key: Seq<char>, i: int) -> Option<Seq<char>>
    decreases parts.len() - i,
{
    if i >= parts.len() {
        None
    } else {
        let (name, value) = match halves(parts[i], '=') {
            Some(p) => p,
            None => (parts[i], seq![]),
        };
        if trimmed(name) == key {
            Some(trimmed(value))
        } else {
            trimmed_param_from(parts, key, i + 1)
        }
    }
}

/// The value of a parameter in a request's body.
pub open spec fn body_value(req: Seq<char>, key: Seq<char>) -> Option<Seq<char>> {
    let i = find_run(req, blank_line(), 0);
    if i < req.len() {
        trimmed_param_from(fields(req.subrange(i + 4, req.len() as int), '&'), key, 0)
    } else {
        None
    }
}

pub open spec fn string_option(s: Option<String>) -> Option<Seq<char>> {
    match s {
        Some(t) => Some(t@),
        None => None,
    }
}

/// The value of a parameter in a request's target.
pub fn query_param(raw: &str, key: &str) -> (r: Option<String>)
    ensures
        string_option(r) == query_value(raw@, key@),
{
    let cs = chars_of(raw);
    let query = match split_once(cs.as_slice(), '?') {
        Some((_, q)) => q,
        None => return None,
    };
    let parts = fields_of(query, '&');
    let ghost g = fields(query@, '&');
    for i in 0..parts.len()
        invariant
            g == views(parts@),
            param_from(g, key@, 0) == param_from(g, key@, i as int),
            query_value(raw@, key@) == param_from(g, key@, 0),
    {
        assert(g[i as int] == parts@[i as int]@);
        match split_once(parts[i], '=') {
            Some((name, value)) => {
                if same_text(name, key) {
                    return Some(string_of(value));
                }
            },
            None => {
                if same_text(parts[i], key) {
                    let none: String = String::new();
                    assert(none@ =~= seq![]);
                    return Some(none);
                }
            },
        }
    }
    None
}

fn find_blank_line(s: &[char]) -> (r: Option<usize>)
    ensures
        match r {
            Some(i) => i == find_run(s@, blank_line(), 0) && i + 4 <= s@.len(),
            None => find_run(s@, blank_line(), 0) == s@.len(),
        },
{
    let n = s.len();
    let mut i: usize = 0;
    while n >= 4 && i <= n - 4
        invariant
            n == s@.len(),
            i <= n,
            find_run(s@, blank_line(), 0) == find_run(s@, blank_line(), i as int),
        decreases n - i,
    {
        let ghost w = s@.subrange(i as int, i + 4);
        if s[i] == '\r' && s[i + 1] == '\n' && s[i + 2] == '\r' && s[i + 3] == '\n' {
            assert(w =~= blank_line());
            return Some(i);
        }
        assert(w[0] == s@[i as int] && w[1] == s@[i + 1] && w[2] == s@[i + 2] && w[3] == s@[i + 3]);
        assert(w != blank_line()) by {
            let b = blank_line();
            assert(b[0] == '\r' && b[1] == '\n' && b[2] == '\r' && b[3] == '\n');
        }
        i = i + 1;
    }
    None
}

/// The value of a parameter in a request's body, such as `threshold=20`.
pub fn body_param(req: &str, key: &str) -> (r: Option<String>)
    ensures
        string_option(r) == body_value(req@, key@),
{
    let cs = chars_of(req);
    let s = cs.as_slice();
    let n = s.len();
    let body = match find_blank_line(s) {
        Some(i) => slice_subrange(s, i + 4, n),
        None => return None,
    };
    let parts = fields_of(body, '&');
    let ghost g = fields(body@, '&');
    for i in 0..parts.len()
        invariant
            g == views(parts@),
            trimmed_param_from(g, key@, 0) == trimmed_param_from(g, key@, i as int),
            body_value(req@, key@) == trimmed_param_from(g, key@, 0),
    {
        assert(g[i as int] == parts@[i as int]@);
        match split_once(parts[i], '=') {
            Some((name, value)) => {
                if same_text(trim(name), key) {
                    return Some(string_of(trim(value)));
                }
            },
            None => {
                if same_text(trim(parts[i]), key) {
                    let none: String = String::new();
                    assert(none@ =~= seq![]);
                    assert(trimmed(seq![]) =~= seq![]);
                    return Some(none);
                }
            },
        }
    }
    None
}

/// What a request is for.
pub enum Route {
    /// The page.
    Page,
    /// The latest frame.
    Live,
    /// The records of a time, after a change of the threshold where there is
    /// one.
    Records { threshold: Option<Binary64>, from: u64, to: u64 },
    /// A change of the threshold by a request that is only meant to read.
    Refused,
    Unknown,
}

/// The words of a request's first line.
pub open spec fn request_words(req: Seq<char>) -> Seq<Seq<char>> {
    let ls = lines(req);
    if ls.len() > 0 {
        words(ls[0])
    } else {
        seq![]
    }
}

pub open spec fn method_of(req: Seq<char>) -> Seq<char> {
    if request_words(req).len() > 0 {
        request_words(req)[0]
    } else {
        "GET"@
    }
}

/// What a request is directed at.
pub open spec fn target_of(req: Seq<char>) -> Seq<char> {
    if request_words(req).len() > 1 {
        request_words(req)[1]
    } else {
        "/"@
    }
}

/// A time in a request's target; zero where it tells none.
pub open spec fn time_param(raw: Seq<char>, key: Seq<char>) -> u64 {
    match query_value(raw, key) {
        Some(v) => match unsigned(v, u64::MAX as int) {
            Some(n) => n,
            None => 0,
        },
        None => 0,
    }
}

/// What a request is for. Only a POST changes the threshold.
pub open spec fn routed(req: Seq<char>) -> Route {
    let raw = target_of(req);
    let path = fields(raw, '?')[0];
    if path == "/"@ || path == "/index.html"@ || path == "/records"@ {
        Route::Page
    } else if path == "/api/live"@ {
        Route::Live
    } else if path == "/api/records"@ {
        if method_of(req) != "POST"@ && query_value(raw, "threshold"@) is Some {
            Route::Refused
        } else {
            Route::Records {
                threshold: if method_of(req) == "POST"@ {
                    match body_value(req, "threshold"@) {
                        Some(v) => float(v),
                        None => None,
                    }
                } else {
                    None
                },
                from: time_param(raw, "from"@),
                to: time_param(raw, "to"@),
            }
        }
    } else {
        Route::Unknown
    }
}

fn time_of(raw: &str, key: &str) -> (r: u64)
    ensures
        r == time_param(raw@, key@),
{
    match query_param(raw, key) {
        Some(v) => {
            let cs = chars_of(v.as_str());
            match parse_unsigned(cs.as_slice(), u64::MAX) {
                Some(n) => n,
                None => 0,
            }
        },
        None => 0,
    }
}

/// What a request is for.
pub fn route(req: &str) -> (r: Route)
    ensures
        r == routed(req@),
{
    let cs = chars_of(req);
    let ls = lines_of(cs.as_slice());
    let ghost g = lines(req@);
    let empty: Vec<char> = Vec::new();
    let first = if ls.len() > 0 {
        assert(g[0] == ls@[0]@);
        ls[0]
    } else {
        empty.as_slice()
    };
    let w = words_of(first);
    let ghost wg = request_words(req@);
    proof {
        if ls@.len() == 0 {
            assert(words(first@) =~= seq![]);
        }
        assert(wg == views(w@));
    }
    let slash: Vec<char> = chars_of("/");
    let raw_chars: &[char] = if w.len() > 1 {
        assert(wg[1] == w@[1]@);
        w[1]
    } else {
        slash.as_slice()
    };
    let raw = string_of(raw_chars);
    let post = if w.len() > 0 {
        assert(wg[0] == w@[0]@);
        same_text(w[0], "POST")
    } else {
        false
    };
    proof {
        reveal_strlit("GET");
        reveal_strlit("POST");
        assert("GET"@.len() != "POST"@.len());
        assert(post == (method_of(req@) == "POST"@));
        assert(raw@ == target_of(req@));
    }
    let parts = fields_of(raw_chars, '?');
    let path = parts[0];
    assert(fields(raw@, '?')[0] == path@);
    if same_text(path, "/") || same_text(path, "/index.html") || same_text(path, "/records") {
        return Route::Page;
    }
    if same_text(path, "/api/live") {
        return Route::Live;
    }
    if !same_text(path, "/api/records") {
        return Route::Unknown;
    }
    let mut threshold: Option<Binary64> = None;
    if !post {
        if query_param(raw.as_str(), "threshold").is_some() {
            return Route::Refused;
        }
    } else if let Some(v) = body_param(req, "threshold") {
        let vs = chars_of(v.as_str());
        threshold = parse_float(vs.as_slice());
    }
    Route::Records {
        threshold,
        from: time_of(raw.as_str(), "from"),
        to: time_of(raw.as_str(), "to"),
    }
}

/// The head of an answer with a body of `len` bytes.
pub open spec fn answer_head(status: Seq<char>, ctype: Seq<char>, len: int) -> Seq<char> {
    "HTTP/1.1 "@ + status + "\r\nContent-Type: "@ + ctype + "\r\nContent-Length: "@ + decimal(len)
        + "\r\nCache-Control: no-store\r\nConnection: close\r\n\r\n"@
}

pub fn write_resp(status: &str, ctype: &str, len: usize) -> (r: String)
    ensures
        r@ == answer_head(status@, ctype@, len as int),
{
    let mut out: String = String::new();
    out.append("HTTP/1.1 ");
    out.append(status);
    out.append("\r\nContent-Type: ");
    out.append(ctype);
    out.append("\r\nContent-Length: ");
    push_decimal(&mut out, len as u64);
    out.append("\r\nCache-Control: no-store\r\nConnection: close\r\n\r\n");
    assert(out@ =~= answer_head(status@, ctype@, len as int));
    out
}

// ---------------------------------------------------------------------------
// Frames

pub fn json_pending() -> (r: String)
    ensures
        r@ == "{\"ok\":true,\"seq\":0,\"ready\":false,\"error\":null,\"host\":\"\",\"interval_s\":0,\"elapsed_s\":0,\"delayacct\":true,\"skipped\":0,\"threads\":0,\"alerts\":0,\"total_read\":0,\"total_write\":0,\"actual_read\":0,\"actual_write\":0,\"devices\":[],\"rows\":[]}"@,
{
    "{\"ok\":true,\"seq\":0,\"ready\":false,\"error\":null,\"host\":\"\",\"interval_s\":0,\"elapsed_s\":0,\"delayacct\":true,\"skipped\":0,\"threads\":0,\"alerts\":0,\"total_read\":0,\"total_write\":0,\"actual_read\":0,\"actual_write\":0,\"devices\":[],\"rows\":[]}".to_string()
}

/// A frame that only tells what went wrong.
pub open spec fn error_text(seq: u64, message: Seq<char>) -> Seq<char> {
    "{\"ok\":false,\"seq\":"@ + decimal(seq as int) + ",\"ready\":false,\"error\":"@ + string_text(
        message,
    )
        + ",\"host\":\"\",\"interval_s\":0,\"elapsed_s\":0,\"delayacct\":false,\"skipped\":0,\"threads\":0,\"alerts\":0,\"total_read\":0,\"total_write\":0,\"actual_read\":0,\"actual_write\":0,\"devices\":[],\"rows\":[]}"@
}

pub fn json_error(seq: u64, message: &str) -> (r: String)
    ensures
        r@ == error_text(seq, message@),
{
    let mut out: String = String::new();
    out.append("{\"ok\":false,\"seq\":");
    push_decimal(&mut out, seq);
    out.append(",\"ready\":false,\"error\":");
    push_string(&mut out, message);
    out.append(
        ",\"host\":\"\",\"interval_s\":0,\"elapsed_s\":0,\"delayacct\":false,\"skipped\":0,\"threads\":0,\"alerts\":0,\"total_read\":0,\"total_write\":0,\"actual_read\":0,\"actual_write\":0,\"devices\":[],\"rows\":[]}",
    );
    assert(out@ =~= error_text(seq, message@));
    out
}

pub open spec fn device_fields(d: DeviceView) -> Seq<(Seq<char>, Seq<char>)> {
    seq![
        ("name"@, string_text(d.name)),
        ("r_s"@, number_text(d.r_s)),
        ("w_s"@, number_text(d.w_s)),
        ("read_bps"@, number_text(d.read)),
        ("write_bps"@, number_text(d.write)),
        ("await_ms"@, number_text(d.await_ms)),
        ("util_pct"@, number_text(d.util)),
    ]
}

pub open spec fn device_texts(d: Seq<DeviceView>) -> Seq<Seq<char>> {
    Seq::new(d.len(), |i: int| object_text(device_fields(d[i])))
}

pub open spec fn row_fields(r: ProcRate) -> Seq<(Seq<char>, Seq<char>)> {
    seq![
        ("tid"@, decimal(r.tid as int)),
        ("pid"@, decimal(r.pid as int)),
        ("prio"@, string_text(r.prio@)),
        ("user"@, string_text(r.user@)),
        ("read_bps"@, number_text(r.read_bps)),
        ("write_bps"@, number_text(r.write_bps)),
        ("swapin_pct"@, number_text(r.swapin_pct)),
        ("io_pct"@, number_text(r.io_pct)),
        ("command"@, string_text(r.command@)),
    ]
}

pub open spec fn row_texts(rows: Seq<ProcRate>) -> Seq<Seq<char>> {
    Seq::new(rows.len(), |i: int| object_text(row_fields(rows[i])))
}

/// A frame.
pub open spec fn frame_fields(
    seq: u64,
    interval: Binary64,
    host: Seq<char>,
    frame: IoFrame,
    devices: Seq<DeviceView>,
    alerts: int,
) -> Seq<(Seq<char>, Seq<char>)> {
    seq![
        ("ok"@, "true"@),
        ("seq"@, decimal(seq as int)),
        ("ready"@, truth_text(frame.ready)),
        ("error"@, "null"@),
        ("host"@, string_text(host)),
        ("interval_s"@, number_text(interval)),
        ("elapsed_s"@, number_text(frame.elapsed_s)),
        ("delayacct"@, truth_text(frame.delayacct)),
        ("skipped"@, decimal(frame.skipped as int)),
        ("threads"@, decimal(frame.threads as int)),
        ("alerts"@, decimal(alerts)),
        ("total_read"@, number_text(frame.total_read)),
        ("total_write"@, number_text(frame.total_write)),
        ("actual_read"@, number_text(frame.actual_read)),
        ("actual_write"@, number_text(frame.actual_write)),
        ("devices"@, array_text(device_texts(devices))),
        ("rows"@, array_text(row_texts(frame.rows@))),
    ]
}

fn push_device(out: &mut String, d: &DeviceRate)
    ensures
        final(out)@ == old(out)@ + object_text(device_fields(d@)),
{
    let ghost s = out@;
    let ghost f = device_fields(d@);
    open_object(out);
    assert(f.take(0) =~= seq![]);
    put_string(out, true, "name", d.name.as_str(), Ghost(s), Ghost(f.take(0)));
    assert(f.take(1) =~= f.take(0).push(f[0]));
    put_number(out, false, "r_s", &d.r_s, Ghost(s), Ghost(f.take(1)));
    assert(f.take(2) =~= f.take(1).push(f[1]));
    put_number(out, false, "w_s", &d.w_s, Ghost(s), Ghost(f.take(2)));
    assert(f.take(3) =~= f.take(2).push(f[2]));
    put_number(out, false, "read_bps", &d.read_bps, Ghost(s), Ghost(f.take(3)));
    assert(f.take(4) =~= f.take(3).push(f[3]));
    put_number(out, false, "write_bps", &d.write_bps, Ghost(s), Ghost(f.take(4)));
    assert(f.take(5) =~= f.take(4).push(f[4]));
    put_number(out, false, "await_ms", &d.await_ms, Ghost(s), Ghost(f.take(5)));
    assert(f.take(6) =~= f.take(5).push(f[5]));
    put_number(out, false, "util_pct", &d.util_pct, Ghost(s), Ghost(f.take(6)));
    assert(f =~= f.take(6).push(f[6]));
    close_object(out, Ghost(s), Ghost(f));
}

fn push_row(out: &mut String, r: &ProcRate)
    ensures
        final(out)@ == old(out)@ + object_text(row_fields(*r)),
{
    let ghost s = out@;
    let ghost f = row_fields(*r);
    open_object(out);
    assert(f.take(0) =~= seq![]);
    put_integer(out, true, "tid", r.tid as u64, Ghost(s), Ghost(f.take(0)));
    assert(f.take(1) =~= f.take(0).push(f[0]));
    put_integer(out, false, "pid", r.pid as u64, Ghost(s), Ghost(f.take(1)));
    assert(f.take(2) =~= f.take(1).push(f[1]));
    put_string(out, false, "prio", r.prio.as_str(), Ghost(s), Ghost(f.take(2)));
    assert(f.take(3) =~= f.take(2).push(f[2]));
    put_string(out, false, "user", r.user.as_str(), Ghost(s), Ghost(f.take(3)));
    assert(f.take(4) =~= f.take(3).push(f[3]));
    put_number(out, false, "read_bps", &r.read_bps, Ghost(s), Ghost(f.take(4)));
    assert(f.take(5) =~= f.take(4).push(f[4]));
    put_number(out, false, "write_bps", &r.write_bps, Ghost(s), Ghost(f.take(5)));
    assert(f.take(6) =~= f.take(5).push(f[5]));
    put_number(out, false, "swapin_pct", &r.swapin_pct, Ghost(s), Ghost(f.take(6)));
    assert(f.take(7) =~= f.take(6).push(f[6]));
    put_number(out, false, "io_pct", &r.io_pct, Ghost(s), Ghost(f.take(7)));
    assert(f.take(8) =~= f.take(7).push(f[7]));
    put_string(out, false, "command", r.command.as_str(), Ghost(s), Ghost(f.take(8)));
    assert(f =~= f.take(8).push(f[8]));
    close_object(out, Ghost(s), Ghost(f));
}

fn device_array(v: &[DeviceRate]) -> (r: String)
    ensures
        r@ == array_text(device_texts(device_views(v@))),
{
    let ghost items = device_texts(device_views(v@));
    let mut out: String = String::new();
    out.push('[');
    assert(items.take(0) =~= seq![]);
    assert(out@ =~= seq!['['] + comma_joined(items.take(0)));
    for i in 0..v.len()
        invariant
            items == device_texts(device_views(v@)),
            out@ == seq!['['] + comma_joined(items.take(i as int)),
    {
        if i > 0 {
            out.push(',');
        }
        push_device(&mut out, &v[i]);
        proof {
            lemma_joined_push(items.take(i as int), items[i as int]);
            assert(items.take(i as int + 1) =~= items.take(i as int).push(items[i as int]));
            assert(out@ =~= seq!['['] + comma_joined(items.take(i as int + 1)));
        }
    }
    assert(items.take(items.len() as int) =~= items);
    out.push(']');
    assert(out@ =~= array_text(items));
    out
}

fn row_array(v: &Vec<ProcRate>) -> (r: String)
    ensures
        r@ == array_text(row_texts(v@)),
{
    let ghost items = row_texts(v@);
    let mut out: String = String::new();
    out.push('[');
    assert(items.take(0) =~= seq![]);
    assert(out@ =~= seq!['['] + comma_joined(items.take(0)));
    for i in 0..v.len()
        invariant
            items == row_texts(v@),
            out@ == seq!['['] + comma_joined(items.take(i as int)),
    {
        if i > 0 {
            out.push(',');
        }
        push_row(&mut out, &v[i]);
        proof {
            lemma_joined_push(items.take(i as int), items[i as int]);
            assert(items.take(i as int + 1) =~= items.take(i as int).push(items[i as int]));
            assert(out@ =~= seq!['['] + comma_joined(items.take(i as int + 1)));
        }
    }
    assert(items.take(items.len() as int) =~= items);
    out.push(']');
    assert(out@ =~= array_text(items));
    out
}

/// Writes a frame.
pub fn json_frame(
    seq: u64,
    interval: Binary64,
    host: &str,
    frame: &IoFrame,
    devices: &[DeviceRate],
    alerts: usize,
) -> (r: String)
    ensures
        r@ == object_text(
            frame_fields(seq, interval, host@, *frame, device_views(devices@), alerts as int),
        ),
{
    let devices_text = device_array(devices);
    let rows_text = row_array(&frame.rows);
    let mut out: String = String::new();
    let ghost s = out@;
    let ghost f = frame_fields(
        seq,
        interval,
        host@,
        *frame,
        device_views(devices@),
        alerts as int,
    );
    open_object(&mut out);
    assert(f.take(0) =~= seq![]);
    put_text(&mut out, true, "ok", "true", Ghost(s), Ghost(f.take(0)));
    assert(f.take(1) =~= f.take(0).push(f[0]));
    put_integer(&mut out, false, "seq", seq, Ghost(s), Ghost(f.take(1)));
    assert(f.take(2) =~= f.take(1).push(f[1]));
    put_truth(&mut out, false, "ready", frame.ready, Ghost(s), Ghost(f.take(2)));
    assert(f.take(3) =~= f.take(2).push(f[2]));
    put_text(&mut out, false, "error", "null", Ghost(s), Ghost(f.take(3)));
    assert(f.take(4) =~= f.take(3).push(f[3]));
    put_string(&mut out, false, "host", host, Ghost(s), Ghost(f.take(4)));
    assert(f.take(5) =~= f.take(4).push(f[4]));
    put_number(&mut out, false, "interval_s", &interval, Ghost(s), Ghost(f.take(5)));
    assert(f.take(6) =~= f.take(5).push(f[5]));
    put_number(&mut out, false, "elapsed_s", &frame.elapsed_s, Ghost(s), Ghost(f.take(6)));
    assert(f.take(7) =~= f.take(6).push(f[6]));
    put_truth(&mut out, false, "delayacct", frame.delayacct, Ghost(s), Ghost(f.take(7)));
    assert(f.take(8) =~= f.take(7).push(f[7]));
    put_integer(&mut out, false, "skipped", frame.skipped as u64, Ghost(s), Ghost(f.take(8)));
    assert(f.take(9) =~= f.take(8).push(f[8]));
    put_integer(&mut out, false, "threads", frame.threads as u64, Ghost(s), Ghost(f.take(9)));
    assert(f.take(10) =~= f.take(9).push(f[9]));
    put_integer(&mut out, false, "alerts", alerts as u64, Ghost(s), Ghost(f.take(10)));
    assert(f.take(11) =~= f.take(10).push(f[10]));
    put_number(&mut out, false, "total_read", &frame.total_read, Ghost(s), Ghost(f.take(11)));
    assert(f.take(12) =~= f.take(11).push(f[11]));
    put_number(&mut out, false, "total_write", &frame.total_write, Ghost(s), Ghost(f.take(12)));
    assert(f.take(13) =~= f.take(12).push(f[12]));
    put_number(&mut out, false, "actual_read", &frame.actual_read, Ghost(s), Ghost(f.take(13)));
    assert(f.take(14) =~= f.take(13).push(f[13]));
    put_number(&mut out, false, "actual_write", &frame.actual_write, Ghost(s), Ghost(f.take(14)));
    assert(f.take(15) =~= f.take(14).push(f[14]));
    put_text(&mut out, false, "devices", devices_text.as_str(), Ghost(s), Ghost(f.take(15)));
    assert(f.take(16) =~= f.take(15).push(f[15]));
    put_text(&mut out, false, "rows", rows_text.as_str(), Ghost(s), Ghost(f.take(16)));
    assert(f =~= f.take(16).push(f[16]));
    close_object(&mut out, Ghost(s), Ghost(f));
    assert(s + object_text(f) =~= object_text(f));
    out
}

// ---------------------------------------------------------------------------
// What the page serves

/// The body of an answer.
pub enum Body {
    /// The page itself.
    Page,
    Text(String),
}

pub struct Response {
    pub status: String,
    pub content_type: String,
    pub body: Body,
}

/// Whether an answer is the given text.
pub open spec fn says(r: Response, status: Seq<char>, ctype: Seq<char>, body: Seq<char>) -> bool {
    &&& r.status@ == status
    &&& r.content_type@ == ctype
    &&& r.body matches Body::Text(t) && t@ == body
}

fn text_response(status: &str, ctype: &str, body: String) -> (r: Response)
    ensures
        says(r, status@, ctype@, body@),
{
    Response { status: status.to_string(), content_type: ctype.to_string(), body: Body::Text(body) }
}

/// What sampler and requests share.
pub struct Hub {
    /// The latest frame.
    pub live: String,
    pub book: AlertBook,
    /// The threshold that was asked for last.
    pub threshold: Binary64,
    pub host: String,
    pub interval: Binary64,
    pub delayacct: bool,
}

/// Whether a request can be answered: the times of the minutes that it asks for
/// fit in 64 bits.
pub open spec fn answerable(hub: Hub, route: Route, now: u64) -> bool {
    match route {
        Route::Records { threshold, from, to } => times_fit(
            minute_views(hub.book.minutes@),
            query_to(now, from, to),
        ),
        _ => true,
    }
}

/// What sampler and requests share, once a threshold was asked for.
pub open spec fn with_threshold(hub: Hub, threshold: Option<Binary64>) -> Hub {
    match threshold {
        Some(v) => {
            let held = within(v, whole(1), whole(100));
            Hub { threshold: held, book: retuned(hub.book, held), ..hub }
        },
        None => hub,
    }
}

/// The records that a request asks for.
pub open spec fn records_text(hub: Hub, now: u64, from: u64, to: u64) -> Seq<char> {
    object_text(
        answer_fields(
            hub.book,
            hub.delayacct,
            hub.host@,
            hub.interval,
            now,
            query_from(now, from),
            query_to(now, from, to),
        ),
    )
}

/// Whether `r` answers a request, and leaves what is shared as `after`.
pub open spec fn responded(before: Hub, after: Hub, route: Route, now: u64, r: (Response, bool)) -> bool {
    match route {
        Route::Page => {
            &&& r.0.status@ == "200 OK"@
            &&& r.0.content_type@ == "text/html; charset=utf-8"@
            &&& r.0.body is Page
            &&& !r.1
            &&& after == before
        },
        Route::Live => {
            &&& says(
                r.0,
                "200 OK"@,
                "application/json; charset=utf-8"@,
                before.live@,
            )
            &&& !r.1
            &&& after == before
        },
        Route::Refused => {
            &&& says(
                r.0,
                "405 Method Not Allowed"@,
                "text/plain; charset=utf-8"@,
                "use POST to change threshold"@,
            )
            &&& !r.1
            &&& after == before
        },
        Route::Records { threshold, from, to } => {
            &&& after == with_threshold(before, threshold)
            &&& r.1 == (threshold matches Some(v) && moves(
                before.book.threshold,
                within(v, whole(1), whole(100)),
            ))
            &&& says(
                r.0,
                "200 OK"@,
                "application/json; charset=utf-8"@,
                records_text(after, now, from, to),
            )
        },
        Route::Unknown => {
            &&& says(r.0, "404 Not Found"@, "text/plain; charset=utf-8"@, "not found"@)
            &&& !r.1
            &&& after == before
        },
    }
}

/// Whether a frame and the devices' rates, made at the time `now`, leave what is
/// shared as `after`, with `r` to be written to disk.
pub open spec fn published(
    before: Hub,
    after: Hub,
    seq: u64,
    host: Seq<char>,
    frame: IoFrame,
    devices: Seq<DeviceView>,
    now: u64,
    r: (bool, Option<Saves>),
) -> bool {
    let book = retuned(before.book, before.threshold);
    &&& r.0 == moves(before.book.threshold, before.threshold)
    &&& match r.1 {
        Some(saves) => frame.ready && ingested(
            book,
            after.book,
            saves,
            now,
            frame.elapsed_s,
            frame.actual_read,
            frame.actual_write,
            added_up(frame.rows@),
        ),
        None => !frame.ready && after.book == book,
    }
    &&& before.book.wf() ==> after.book.wf()
    &&& after.delayacct == frame.delayacct
    &&& after.live@ == object_text(
        frame_fields(
            seq,
            before.interval,
            host,
            frame,
            devices,
            after.book.open@.len() as int,
        ),
    )
    &&& after.threshold == before.threshold
    &&& after.host == before.host
    &&& after.interval == before.interval
}

impl Hub {
    /// Whether a request can be answered.
    pub fn can_answer(&self, route: &Route, now: u64) -> (r: bool)
        ensures
            r == answerable(*self, *route, now),
    {
        match route {
            Route::Records { threshold, from, to } => self.book.query_fits(now, *from, *to),
            _ => true,
        }
    }

    /// Answers a request, and tells whether the threshold has to be written to
    /// disk.
    pub fn respond(&mut self, route: Route, now: u64) -> (r: (Response, bool))
        requires
            answerable(*old(self), route, now),
        ensures
            responded(*old(self), *final(self), route, now, r),
    {
        match route {
            Route::Page => (
                Response {
                    status: "200 OK".to_string(),
                    content_type: "text/html; charset=utf-8".to_string(),
                    body: Body::Page,
                },
                false,
            ),
            Route::Live => (
                text_response("200 OK", "application/json; charset=utf-8", self.live.clone()),
                false,
            ),
            Route::Refused => (
                text_response(
                    "405 Method Not Allowed",
                    "text/plain; charset=utf-8",
                    "use POST to change threshold".to_string(),
                ),
                false,
            ),
            Route::Records { threshold, from, to } => {
                let mut moved: bool = false;
                if let Some(v) = threshold {
                    let held = clamp(&v, &Binary64::from_u64(1), &Binary64::from_u64(100));
                    self.threshold = held;
                    moved = self.book.set_threshold(held);
                }
                let body = self.book.to_json(
                    self.delayacct,
                    self.host.as_str(),
                    self.interval,
                    now,
                    from,
                    to,
                );
                (text_response("200 OK", "application/json; charset=utf-8", body), moved)
            },
            Route::Unknown => (
                text_response("404 Not Found", "text/plain; charset=utf-8", "not found".to_string()),
                false,
            ),
        }
    }

    /// Takes in a frame and the devices' rates, made at the time `now`, and
    /// writes what the page shows. Gives whether the threshold has to be written
    /// to disk, and the records that have to be, where the frame is ready.
    pub fn publish(
        &mut self,
        seq: u64,
        host: &str,
        frame: &IoFrame,
        devices: &[DeviceRate],
        now: u64,
    ) -> (r: (bool, Option<Saves>))
        ensures
            published(
                *old(self),
                *final(self),
                seq,
                host@,
                *frame,
                device_views(devices@),
                now,
                r,
            ),
    {
        let threshold = self.threshold;
        let moved = self.book.set_threshold(threshold);
        let saves = if frame.ready {
            let snaps = aggregate_procs(frame.rows.as_slice());
            Some(
                self.book.ingest(
                    now,
                    frame.elapsed_s,
                    frame.actual_read,
                    frame.actual_write,
                    snaps.as_slice(),
                ),
            )
        } else {
            None
        };
        self.delayacct = frame.delayacct;
        self.live = json_frame(seq, self.interval, host, frame, devices, self.book.open_count());
        (moved, saves)
    }
}

// ---------------------------------------------------------------------------
// What holds of requests and processes

/// Only a POST changes the threshold.
pub proof fn only_post_changes(req: Seq<char>)
    ensures
        routed(req) matches Route::Records { threshold, from, to } ==> threshold is Some
            ==> method_of(req) == "POST"@,
        method_of(req) != "POST"@ && fields(target_of(req), '?')[0] == "/api/records"@
            && query_value(target_of(req), "threshold"@) is Some ==> routed(req) is Refused,
{
    reveal_strlit("/");
    reveal_strlit("/index.html");
    reveal_strlit("/records");
    reveal_strlit("/api/live");
    reveal_strlit("/api/records");
    assert("/api/records"@.len() == 12);
    assert("/index.html"@.len() == 11);
    assert("/records"@.len() == 8);
    assert("/api/live"@.len() == 9);
    assert("/"@.len() == 1);
}

/// An address that is only a port is one of this machine alone.
pub proof fn bare_ports_stay_local(raw: Seq<char>)
    requires
        bare_port(raw) is Some,
    ensures
        address(raw) matches Ok(a) ==> "127.0.0.1:"@.is_prefix_of(a),
{
    match address(raw) {
        Ok(a) => {
            assert(a.subrange(0, "127.0.0.1:"@.len() as int) =~= "127.0.0.1:"@);
        },
        Err(_) => {},
    }
}

/// Each process is added up once, and its share of time is at most 100.
pub proof fn processes_are_added_up_once(rows: Seq<ProcRate>)
    ensures
        snap_pids(added_up(rows)).no_duplicates(),
        once(added_up(rows)),
        forall|i: int|
            0 <= i < added_up(rows).len() ==> (#[trigger] added_up(rows)[i]).io.at_most(whole(100)),
    decreases rows.len(),
{
    let all = added_up(rows);
    if rows.len() > 0 {
        let h = rows.drop_last();
        let row = rows.last();
        processes_are_added_up_once(h);
        let before = added_up(h);
        let keys = snap_pids(before);
        let k = place(keys, row.pid as u64);
        lemma_place(keys, row.pid as u64);
        whole_is_unsigned(100);
        if k < before.len() {
            assert(snap_pids(all) =~= keys);
        } else {
            assert(snap_pids(all) =~= keys.push(row.pid as u64));
        }
        assert forall|i: int| 0 <= i < all.len() implies (#[trigger] all[i]).io.at_most(whole(100)) by {
            if i < before.len() && i != k {
                assert(before[i].io.at_most(whole(100)));
            }
        }
        let pids = snap_pids(all);
        assert forall|i: int, j: int| 0 <= i < j < all.len() implies (#[trigger] all[i]).pid != (
        #[trigger] all[j]).pid by {
            assert(pids[i] != pids[j]);
        }
    }
}

// ---------------------------------------------------------------------------
// What a frame tells of devices

/// A device's rates are in bytes in a second: each KiB, read or written, is 1024
/// of them.
pub proof fn kib_are_1024_bytes(r: RateView, k: int)
    requires
        0 <= k <= 2 * STEP,
    ensures
        r.rk_bps == whole(k) ==> device_of(r).read == whole(k * 1024),
        r.wk_bps == whole(k) ==> device_of(r).write == whole(k * 1024),
        device_of(r).name == r.device,
        device_of(r).r_s == r.r_s,
        device_of(r).w_s == r.w_s,
        device_of(r).await_ms == r.await_ms,
        device_of(r).util == r.util_pct,
{
    product_of_wholes(k, 1024);
}

/// Reads and writes are told alike.
pub proof fn reads_and_writes_are_told_alike(a: RateView, b: RateView)
    ensures
        a.rk_bps == b.wk_bps ==> device_of(a).read == device_of(b).write,
        a.rk_bps == b.rk_bps ==> device_of(a).read == device_of(b).read,
        a.wk_bps == b.wk_bps ==> device_of(a).write == device_of(b).write,
{
}

/// A sector is 512 bytes, read or written.
pub proof fn sectors_are_512_bytes(prev: DiskStats, cur: DiskStats, n: int)
    requires
        0 <= n,
        n * 512 <= 2 * STEP,
    ensures
        cur.sectors_read == prev.sectors_read + n ==> device_of(
            rate_between(prev, cur, whole(1)),
        ).read == whole(n * 512),
        cur.sectors_written == prev.sectors_written + n ==> device_of(
            rate_between(prev, cur, whole(1)),
        ).write == whole(n * 512),
{
    product_of_wholes(n, 512);
    quotient_of_wholes(n * 512, 1024);
    lemma_pow2_pos(1074);
    let u = unit();
    assert((n * 512) * u == (n * u) * 512 && n * u >= 0) by (nonlinear_arith)
        requires
            n >= 0,
            u > 0,
    ;
    common_factor_cancels(n * u, 2, 512);
    half_is_exact(n);
    let x = closest(n, 2);
    quotient_by_one(x);
    product_of_half(x, n, 512);
}

/// Whether a device of a frame is one of these rates.
pub open spec fn is_rate_of(d: DeviceView, rates: Seq<RateView>) -> bool {
    exists|i: int|
        0 <= i < rates.len() && !pseudo((#[trigger] rates[i]).device) && d == device_of(rates[i])
}

/// The devices of a frame are those that are not virtual, and all of them.
pub proof fn virtual_devices_are_left_out(rates: Seq<RateView>)
    ensures
        forall|k: int|
            0 <= k < real_devices(rates).len() ==> is_rate_of(#[trigger] real_devices(rates)[k], rates),
        forall|i: int|
            0 <= i < rates.len() && !pseudo((#[trigger] rates[i]).device) ==> real_devices(
                rates,
            ).contains(device_of(rates[i])),
    decreases rates.len(),
{
    if rates.len() > 0 {
        let h = rates.drop_last();
        virtual_devices_are_left_out(h);
        let all = real_devices(rates);
        let before = real_devices(h);
        assert forall|k: int| 0 <= k < all.len() implies is_rate_of(#[trigger] all[k], rates) by {
            if k < before.len() {
                assert(all[k] == before[k]);
                let i = choose|i: int|
                    0 <= i < h.len() && !pseudo((#[trigger] h[i]).device) && before[k] == device_of(
                        h[i],
                    );
                assert(rates[i] == h[i]);
            } else {
                assert(!pseudo(rates[rates.len() - 1].device));
            }
        }
        assert forall|i: int|
            0 <= i < rates.len() && !pseudo((#[trigger] rates[i]).device) implies all.contains(
            device_of(rates[i]),
        ) by {
            let d = device_of(rates[i]);
            if i < h.len() {
                assert(h[i] == rates[i]);
                assert(before.contains(d));
                let k = choose|k: int| 0 <= k < before.len() && before[k] == d;
                assert(all[k] == d);
            } else {
                assert(all[before.len() as int] == d);
            }
        }
    }
}

/// Whether one device stands before another: the busier one, then the one with
/// more bytes.
pub open spec fn busier(a: DeviceView, b: DeviceView) -> bool {
    let x = sum(a.read, a.write).rank();
    let y = sum(b.read, b.write).rank();
    ||| a.util.rank() > b.util.rank()
    ||| a.util.rank() == b.util.rank() && x >= y
}

/// A frame holds at most twelve devices, the busiest first, and leaves out none
/// that is busier than one that it holds.
pub proof fn busiest_devices_are_held(rates: Seq<RateView>, d: DeviceView)
    requires
        real_devices(rates).contains(d),
    ensures
        busiest(rates).len() <= 12,
        busiest(rates).contains(d) || (busiest(rates).len() == 12 && forall|i: int|
            0 <= i < 12 ==> busier(#[trigger] busiest(rates)[i], d)),
        forall|i: int, j: int|
            0 <= i < j < busiest(rates).len() ==> busier(
                #[trigger] busiest(rates)[i],
                #[trigger] busiest(rates)[j],
            ),
        forall|i: int|
            0 <= i < busiest(rates).len() ==> real_devices(rates).contains(
                #[trigger] busiest(rates)[i],
            ),
{
    let all = real_devices(rates);
    let keys = device_keys(all);
    let r = arranged(all, keys);
    let s = busiest(rates);
    arranged_keeps_all(all, keys);
    assert forall|i: int, j: int| 0 <= i < j < r.len() implies busier(
        #[trigger] r[i],
        #[trigger] r[j],
    ) by {
        arranged_in_order(all, keys, i, j);
        let p = ordering(keys)[i];
        let q = ordering(keys)[j];
        let a = all[p];
        let b = all[q];
        assert(keys[p][0] == falling(a.util) && keys[q][0] == falling(b.util));
        assert(keys[p][1] == falling(sum(a.read, a.write)) && keys[q][1] == falling(
            sum(b.read, b.write),
        ));
        reveal_with_fuel(less_from, 4);
    }
    let k = choose|k: int| 0 <= k < r.len() && r[k] == d;
    if k < s.len() {
        assert(s[k] == d);
    } else {
        assert forall|i: int| 0 <= i < 12 implies busier(#[trigger] s[i], d) by {
            assert(s[i] == r[i]);
            assert(busier(r[i], r[k]));
        }
    }
    assert forall|i: int, j: int| 0 <= i < j < s.len() implies busier(
        #[trigger] s[i],
        #[trigger] s[j],
    ) by {
        assert(busier(r[i], r[j]));
    }
    assert forall|i: int| 0 <= i < s.len() implies all.contains(#[trigger] s[i]) by {
        assert(r.contains(r[i]));
        assert(all.contains(r[i]));
    }
}

// ---------------------------------------------------------------------------
// What a process adds up to

/// The sum over the threads of a process.
pub open spec fn sum_for(rows: Seq<ProcRate>, ns: Seq<int>, pid: u32) -> int
    decreases rows.len(),
{
    if rows.len() == 0 {
        0
    } else {
        sum_for(rows.drop_last(), ns, pid) + if rows.last().pid == pid {
            ns[rows.len() - 1]
        } else {
            0
        }
    }
}

/// Whether these are the shares and rates of the threads, as natural numbers.
pub open spec fn counts(rows: Seq<ProcRate>, io: Seq<int>, read: Seq<int>, write: Seq<int>) -> bool {
    &&& io.len() >= rows.len() && read.len() >= rows.len() && write.len() >= rows.len()
    &&& forall|i: int| 0 <= i < rows.len() ==> counts_one(#[trigger] rows[i], io[i], read[i], write[i])
}

/// Whether these are the share and the rates of a thread.
pub open spec fn counts_one(row: ProcRate, io: int, read: int, write: int) -> bool {
    &&& 0 <= io <= 100 && 0 <= read && 0 <= write
    &&& row.io_pct == whole(io) && row.read_bps == whole(read) && row.write_bps == whole(write)
}

/// Whether a process adds up its threads: its rates are their sums, and its share
/// is their sum up to 100.
pub open spec fn sums_its_threads(
    p: SnapView,
    rows: Seq<ProcRate>,
    io: Seq<int>,
    read: Seq<int>,
    write: Seq<int>,
) -> bool {
    &&& p.read == whole(sum_for(rows, read, p.pid))
    &&& p.write == whole(sum_for(rows, write, p.pid))
    &&& p.io == whole(
        if sum_for(rows, io, p.pid) < 100 {
            sum_for(rows, io, p.pid)
        } else {
            100
        },
    )
}

/// The sums of rates that are held exactly.
pub open spec fn sums_are_exact(rows: Seq<ProcRate>, read: Seq<int>, write: Seq<int>) -> bool {
    forall|k: int, pid: u32|
        0 <= k <= rows.len() ==> #[trigger] sum_for(rows.take(k), read, pid) <= 2 * STEP && sum_for(
            rows.take(k),
            write,
            pid,
        ) <= 2 * STEP
}

proof fn lemma_sum_for(rows: Seq<ProcRate>, ns: Seq<int>, pid: u32)
    requires
        ns.len() >= rows.len(),
        forall|i: int| 0 <= i < rows.len() ==> 0 <= #[trigger] ns[i],
    ensures
        0 <= sum_for(rows, ns, pid),
        (forall|i: int| 0 <= i < rows.len() ==> (#[trigger] rows[i]).pid != pid) ==> sum_for(
            rows,
            ns,
            pid,
        ) == 0,
    decreases rows.len(),
{
    if rows.len() > 0 {
        let h = rows.drop_last();
        lemma_sum_for(h, ns, pid);
        assert(ns[rows.len() - 1] >= 0);
        if forall|i: int| 0 <= i < rows.len() ==> (#[trigger] rows[i]).pid != pid {
            assert forall|i: int| 0 <= i < h.len() implies (#[trigger] h[i]).pid != pid by {
                assert(h[i] == rows[i]);
            }
            assert(rows[rows.len() - 1].pid != pid);
        }
    }
}

proof fn lemma_thread_added(p: SnapView, row: ProcRate, a: (int, int, int), b: (int, int, int))
    requires
        0 <= a.0 && 0 <= a.1 && 0 <= a.2,
        0 <= b.0 <= 100 && 0 <= b.1 && 0 <= b.2,
        a.1 + b.1 <= 2 * STEP,
        a.2 + b.2 <= 2 * STEP,
        p.io == whole(
            if a.0 < 100 {
                a.0
            } else {
                100
            },
        ),
        p.read == whole(a.1),
        p.write == whole(a.2),
        row.io_pct == whole(b.0),
        row.read_bps == whole(b.1),
        row.write_bps == whole(b.2),
    ensures
        with_thread(p, row).io == whole(
            if a.0 + b.0 < 100 {
                a.0 + b.0
            } else {
                100
            },
        ),
        with_thread(p, row).read == whole(a.1 + b.1),
        with_thread(p, row).write == whole(a.2 + b.2),
        with_thread(p, row).pid == p.pid,
{
    let c = if a.0 < 100 {
        a.0
    } else {
        100
    };
    sum_of_wholes(c, b.0);
    sum_of_wholes(a.1, b.1);
    sum_of_wholes(a.2, b.2);
    whole_is_exact(c + b.0);
    whole_is_exact(100);
    if c + b.0 <= 100 {
        wholes_in_order(c + b.0, 100);
    } else {
        wholes_in_order(100, c + b.0);
    }
}

/// The threads of a process are added up: rates without a bound, shares up to
/// 100. Each process of a thread is there.
pub proof fn processes_add_up_their_threads(
    rows: Seq<ProcRate>,
    io: Seq<int>,
    read: Seq<int>,
    write: Seq<int>,
)
    requires
        counts(rows, io, read, write),
        sums_are_exact(rows, read, write),
    ensures
        forall|k: int|
            0 <= k < added_up(rows).len() ==> sums_its_threads(
                #[trigger] added_up(rows)[k],
                rows,
                io,
                read,
                write,
            ),
        forall|i: int|
            0 <= i < rows.len() ==> snap_pids(added_up(rows)).contains((#[trigger] rows[i]).pid as u64),
    decreases rows.len(),
{
    if rows.len() > 0 {
        let h = rows.drop_last();
        let n = rows.len() - 1;
        let row = rows[n];
        assert forall|i: int| 0 <= i < h.len() implies counts_one(
            #[trigger] h[i],
            io[i],
            read[i],
            write[i],
        ) by {
            assert(h[i] == rows[i]);
        }
        assert forall|k: int, pid: u32| 0 <= k <= h.len() implies #[trigger] sum_for(
            h.take(k),
            read,
            pid,
        ) <= 2 * STEP && sum_for(h.take(k), write, pid) <= 2 * STEP by {
            assert(h.take(k) =~= rows.take(k));
            assert(sum_for(rows.take(k), read, pid) <= 2 * STEP);
        }
        processes_add_up_their_threads(h, io, read, write);
        processes_are_added_up_once(h);
        let before = added_up(h);
        let all = added_up(rows);
        let keys = snap_pids(before);
        let p = place(keys, row.pid as u64);
        lemma_place(keys, row.pid as u64);
        assert forall|i: int| 0 <= i < rows.len() implies 0 <= #[trigger] io[i] by {
            assert(counts_one(rows[i], io[i], read[i], write[i]));
        }
        assert forall|i: int| 0 <= i < rows.len() implies 0 <= #[trigger] read[i] by {
            assert(counts_one(rows[i], io[i], read[i], write[i]));
        }
        assert forall|i: int| 0 <= i < rows.len() implies 0 <= #[trigger] write[i] by {
            assert(counts_one(rows[i], io[i], read[i], write[i]));
        }
        lemma_sum_for(h, io, row.pid);
        lemma_sum_for(h, read, row.pid);
        lemma_sum_for(h, write, row.pid);
        assert(rows.take(rows.len() as int) =~= rows);
        assert(sum_for(rows.take(rows.len() as int), read, row.pid) <= 2 * STEP);
        let a = (sum_for(h, io, row.pid), sum_for(h, read, row.pid), sum_for(h, write, row.pid));
        let b = (io[n], read[n], write[n]);
        assert(counts_one(rows[n], io[n], read[n], write[n]));
        if p < before.len() {
            assert(keys[p] == before[p].pid as u64);
            assert(sums_its_threads(before[p], h, io, read, write));
            lemma_thread_added(before[p], row, a, b);
        } else {
            assert forall|i: int| 0 <= i < h.len() implies (#[trigger] h[i]).pid != row.pid by {
                if h[i].pid == row.pid {
                    assert(keys.contains(h[i].pid as u64));
                    let q = choose|q: int| 0 <= q < keys.len() && keys[q] == row.pid as u64;
                    assert(keys[q] != row.pid as u64);
                }
            }
            whole_of_nothing();
            lemma_thread_added(new_snap(row), row, a, b);
        }
        assert forall|k: int| 0 <= k < all.len() implies sums_its_threads(
            #[trigger] all[k],
            rows,
            io,
            read,
            write,
        ) by {
            if k < before.len() && k != p {
                assert(all[k] == before[k]);
                assert(keys[k] == before[k].pid as u64);
                assert(sums_its_threads(before[k], h, io, read, write));
            }
        }
        let after = snap_pids(all);
        assert forall|i: int| 0 <= i < rows.len() implies after.contains(
            (#[trigger] rows[i]).pid as u64,
        ) by {
            if i < h.len() {
                assert(h[i] == rows[i]);
                assert(keys.contains(h[i].pid as u64));
                let q = choose|q: int| 0 <= q < keys.len() && keys[q] == rows[i].pid as u64;
                assert(before[q].pid == rows[i].pid);
                assert(all[q].pid == before[q].pid);
                assert(after[q] == rows[i].pid as u64);
            } else if p < before.len() {
                assert(after[p] == row.pid as u64);
            } else {
                assert(after[before.len() as int] == row.pid as u64);
            }
        }
    }
}

/// A process goes by the command and the user of the thread that has its number.
pub proof fn process_is_named_by_its_leader(p: SnapView, row: ProcRate)
    ensures
        row.tid == row.pid ==> with_thread(p, row).command == row.command@ && with_thread(
            p,
            row,
        ).user == row.user@,
        row.tid != row.pid && p.command.len() > 0 ==> with_thread(p, row).command == p.command
            && with_thread(p, row).user == p.user,
{
}

// ---------------------------------------------------------------------------
// What is asked is what is read

/// The first line of a request: its method, what it is directed at and its
/// version.
pub open spec fn request_line(method: Seq<char>, target: Seq<char>, version: Seq<char>) -> Seq<char> {
    separated(seq![method, target, version], ' ')
}

/// A request has the method and the target of its first line.
pub proof fn requests_read_back(
    method: Seq<char>,
    target: Seq<char>,
    version: Seq<char>,
    rest: Seq<char>,
)
    requires
        is_word(method),
        is_word(target),
        is_word(version),
    ensures
        method_of(request_line(method, target, version) + seq!['\r', '\n'] + rest) == method,
        target_of(request_line(method, target, version) + seq!['\r', '\n'] + rest) == target,
{
    let parts = seq![method, target, version];
    let line = request_line(method, target, version);
    assert(parts.drop_first() =~= seq![target, version]);
    assert(parts.drop_first().drop_first() =~= seq![version]);
    assert(line =~= method + seq![' '] + (target + seq![' '] + version)) by {
        reveal_with_fuel(separated, 4);
    }
    assert(forall|i: int| 0 <= i < parts.len() ==> is_word(#[trigger] parts[i]));
    words_read_back(parts);
    assert(!line.contains('\n')) by {
        if line.contains('\n') {
            let j = choose|j: int| 0 <= j < line.len() && line[j] == '\n';
            let a = method.len() as int;
            let b = a + 1 + target.len();
            assert(space('\n'));
            if j < a {
                assert(!space(method[j]));
            } else if a < j < b {
                assert(!space(target[j - a - 1]));
            } else if b < j {
                assert(!space(version[j - b - 1]));
            }
        }
    }
    assert(line.last() == version[version.len() - 1]);
    assert(!space(version[version.len() - 1]));
    lines_read_back(line, rest);
    let req = line + seq!['\r', '\n'] + rest;
    assert(lines(req)[0] == line);
    assert(request_words(req) == parts);
}

/// Whether these are the parameters of a request.
pub open spec fn is_parameters(
    parts: Seq<Seq<char>>,
    names: Seq<Seq<char>>,
    values: Seq<Seq<char>>,
) -> bool {
    &&& names.len() == parts.len() && values.len() == parts.len()
    &&& forall|i: int|
        0 <= i < parts.len() ==> !names[i].contains('=') && (#[trigger] parts[i]) == names[i] + seq![
            '=',
        ] + values[i]
}

proof fn lemma_param_from(
    parts: Seq<Seq<char>>,
    names: Seq<Seq<char>>,
    values: Seq<Seq<char>>,
    key: Seq<char>,
    i: int,
    k: int,
)
    requires
        is_parameters(parts, names, values),
        0 <= i <= k <= parts.len(),
        k < parts.len() ==> names[k] == key,
        forall|j: int| i <= j < k ==> #[trigger] names[j] != key,
    ensures
        param_from(parts, key, i) == if k < parts.len() {
            Some(values[k])
        } else {
            None
        },
    decreases k - i,
{
    if i < parts.len() {
        assert(parts[i] == names[i] + seq!['='] + values[i]);
        halves_read_back(names[i], '=', values[i]);
        if i < k {
            assert(names[i] != key);
            lemma_param_from(parts, names, values, key, i + 1, k);
        }
    }
}

/// A parameter of a target is the value behind the first of its name, and there
/// is none without that name.
pub proof fn parameters_read_back(
    path: Seq<char>,
    parts: Seq<Seq<char>>,
    names: Seq<Seq<char>>,
    values: Seq<Seq<char>>,
    key: Seq<char>,
    k: int,
)
    requires
        !path.contains('?'),
        parts.len() > 0,
        is_parameters(parts, names, values),
        forall|i: int| 0 <= i < parts.len() ==> !(#[trigger] parts[i]).contains('&'),
        0 <= k <= parts.len(),
        k < parts.len() ==> names[k] == key,
        forall|j: int| 0 <= j < k ==> #[trigger] names[j] != key,
    ensures
        query_value(path + seq!['?'] + separated(parts, '&'), key) == if k < parts.len() {
            Some(values[k])
        } else {
            None
        },
{
    halves_read_back(path, '?', separated(parts, '&'));
    fields_read_back(parts, '&');
    lemma_param_from(parts, names, values, key, 0, k);
}

/// The target that asks for the records of a time.
pub open spec fn records_target(from: u64, to: u64) -> Seq<char> {
    "/api/records"@ + seq!['?'] + separated(records_parameters(from, to), '&')
}

pub open spec fn records_parameters(from: u64, to: u64) -> Seq<Seq<char>> {
    seq![
        "from"@ + seq!['='] + decimal(from as int),
        "to"@ + seq!['='] + decimal(to as int),
    ]
}

/// Whether a character is a letter, a digit, a slash or an equals sign.
spec fn plain_char(c: char) -> bool {
    ||| digit(c)
    ||| 'a' <= c && c <= 'z'
    ||| c == '/'
    ||| c == '='
}

spec fn plain_text(s: Seq<char>) -> bool {
    forall|i: int| 0 <= i < s.len() ==> plain_char(#[trigger] s[i])
}

proof fn lemma_plain_lacks(s: Seq<char>, c: char)
    requires
        plain_text(s),
        !plain_char(c),
    ensures
        !s.contains(c),
{
    if s.contains(c) {
        let i = choose|i: int| 0 <= i < s.len() && s[i] == c;
        assert(plain_char(s[i]));
    }
}

proof fn lemma_records_words()
    ensures
        plain_text("/api/records"@),
        plain_text("from"@),
        plain_text("to"@),
        !"from"@.contains('='),
        !"to"@.contains('='),
        "from"@ != "to"@,
        "from"@ != "threshold"@,
        "to"@ != "threshold"@,
        "/api/records"@ != "/"@,
        "/api/records"@ != "/index.html"@,
        "/api/records"@ != "/records"@,
        "/api/records"@ != "/api/live"@,
        "/api/records"@.len() > 0,
        is_word("GET"@),
        is_word("POST"@),
        "GET"@ != "POST"@,
{
    reveal_strlit("/api/records");
    reveal_strlit("from");
    reveal_strlit("to");
    reveal_strlit("threshold");
    reveal_strlit("/");
    reveal_strlit("/index.html");
    reveal_strlit("/records");
    reveal_strlit("/api/live");
    reveal_strlit("GET");
    reveal_strlit("POST");
    assert("from"@.len() == 4 && "to"@.len() == 2 && "threshold"@.len() == 9);
    assert("/api/records"@.len() == 12 && "/"@.len() == 1 && "/index.html"@.len() == 11
        && "/records"@.len() == 8 && "/api/live"@.len() == 9);
    assert("GET"@.len() == 3 && "POST"@.len() == 4);
    assert(!"from"@.contains('=')) by {
        assert(forall|i: int| 0 <= i < 4 ==> "from"@[i] != '=');
    }
    assert(!"to"@.contains('=')) by {
        assert(forall|i: int| 0 <= i < 2 ==> "to"@[i] != '=');
    }
}

proof fn lemma_records_target(from: u64, to: u64)
    ensures
        is_word(records_target(from, to)),
        fields(records_target(from, to), '?')[0] == "/api/records"@,
        query_value(records_target(from, to), "from"@) == Some(decimal(from as int)),
        query_value(records_target(from, to), "to"@) == Some(decimal(to as int)),
        query_value(records_target(from, to), "threshold"@) is None,
{
    lemma_records_words();
    let path = "/api/records"@;
    let parts = records_parameters(from, to);
    let names = seq!["from"@, "to"@];
    let a = decimal(from as int);
    let b = decimal(to as int);
    let values = seq![a, b];
    lemma_decimal(from as int);
    lemma_decimal(to as int);
    let p = parts[0];
    let q = parts[1];
    assert(plain_text(p)) by {
        assert forall|i: int| 0 <= i < p.len() implies plain_char(#[trigger] p[i]) by {
            if i < "from"@.len() {
                assert(plain_char("from"@[i]));
            } else if i > "from"@.len() {
                assert(digit(a[i - "from"@.len() - 1]));
            }
        }
    }
    assert(plain_text(q)) by {
        assert forall|i: int| 0 <= i < q.len() implies plain_char(#[trigger] q[i]) by {
            if i < "to"@.len() {
                assert(plain_char("to"@[i]));
            } else if i > "to"@.len() {
                assert(digit(b[i - "to"@.len() - 1]));
            }
        }
    }
    lemma_plain_lacks(path, '?');
    lemma_plain_lacks(p, '?');
    lemma_plain_lacks(q, '?');
    lemma_plain_lacks(p, '&');
    lemma_plain_lacks(q, '&');
    assert(is_parameters(parts, names, values)) by {
        assert(names[0] == "from"@ && names[1] == "to"@);
    }
    parameters_read_back(path, parts, names, values, "from"@, 0);
    parameters_read_back(path, parts, names, values, "to"@, 1);
    parameters_read_back(path, parts, names, values, "threshold"@, 2);
    let query = separated(parts, '&');
    assert(query =~= p + seq!['&'] + q) by {
        reveal_with_fuel(separated, 3);
        assert(parts.drop_first() =~= seq![q]);
    }
    assert(!query.contains('?')) by {
        if query.contains('?') {
            let i = choose|i: int| 0 <= i < query.len() && query[i] == '?';
            if i < p.len() {
                assert(p.contains(p[i]));
            } else if i > p.len() {
                assert(q.contains(q[i - p.len() - 1]));
            }
        }
    }
    let both = seq![path, query];
    assert(separated(both, '?') =~= records_target(from, to)) by {
        reveal_with_fuel(separated, 3);
        assert(both.drop_first() =~= seq![query]);
    }
    assert(forall|i: int| 0 <= i < both.len() ==> !(#[trigger] both[i]).contains('?'));
    fields_read_back(both, '?');
    let t = records_target(from, to);
    assert forall|i: int| 0 <= i < t.len() implies !space(#[trigger] t[i]) by {
        let n = path.len() as int;
        let m = n + 1 + p.len();
        if i < n {
            assert(plain_char(path[i]));
        } else if n < i < m {
            assert(t[i] == p[i - n - 1]);
            assert(plain_char(p[i - n - 1]));
        } else if i > m {
            assert(t[i] == q[i - m - 1]);
            assert(plain_char(q[i - m - 1]));
        }
    }
}

/// A request for the records of a time is read as one for that time, and changes
/// no threshold.
pub proof fn records_requests_read_back(from: u64, to: u64, version: Seq<char>, rest: Seq<char>)
    requires
        is_word(version),
    ensures
        routed(
            request_line("GET"@, records_target(from, to), version) + seq!['\r', '\n'] + rest,
        ) == (Route::Records { threshold: None, from, to }),
{
    lemma_records_words();
    lemma_records_target(from, to);
    requests_read_back("GET"@, records_target(from, to), version, rest);
    decimal_reads_back(from);
    decimal_reads_back(to);
}

proof fn lemma_find_run_is<T>(s: Seq<T>, w: Seq<T>, i: int, k: int)
    requires
        0 <= i <= k,
        0 < w.len(),
        k + w.len() <= s.len(),
        s.subrange(k, k + w.len()) == w,
        forall|j: int| i <= j < k ==> #[trigger] s.subrange(j, j + w.len()) != w,
    ensures
        find_run(s, w, i) == k,
    decreases k - i,
{
    if i < k {
        assert(s.subrange(i, i + w.len()) != w);
        lemma_find_run_is(s, w, i + 1, k);
    }
}

/// Whether `head` ends where the first empty line of the request begins.
pub open spec fn is_head(head: Seq<char>, body: Seq<char>) -> bool {
    let req = head + blank_line() + body;
    forall|j: int| 0 <= j < head.len() ==> #[trigger] req.subrange(j, j + 4) != blank_line()
}

/// A POST of a threshold is read as that threshold, whatever its head holds.
pub proof fn posted_thresholds_read_back(n: u64, version: Seq<char>, headers: Seq<char>)
    requires
        is_word(version),
        is_head(
            request_line("POST"@, "/api/records"@, version) + seq!['\r', '\n'] + headers,
            "threshold"@ + seq!['='] + decimal(n as int),
        ),
    ensures
        routed(
            request_line("POST"@, "/api/records"@, version) + seq!['\r', '\n'] + headers
                + blank_line() + ("threshold"@ + seq!['='] + decimal(n as int)),
        ) == (Route::Records { threshold: Some(whole(n as int)), from: 0, to: 0 }),
{
    lemma_records_words();
    let target = "/api/records"@;
    let line = request_line("POST"@, target, version);
    let head = line + seq!['\r', '\n'] + headers;
    let d = decimal(n as int);
    let name = "threshold"@;
    let body = name + seq!['='] + d;
    let req = head + blank_line() + body;
    lemma_decimal(n as int);
    assert forall|i: int| 0 <= i < target.len() implies !space(#[trigger] target[i]) by {
        assert(plain_char(target[i]));
    }
    requests_read_back("POST"@, target, version, headers + blank_line() + body);
    assert(line + seq!['\r', '\n'] + (headers + blank_line() + body) =~= req);
    lemma_plain_lacks(target, '?');
    halves_read_back(target, '?', seq![]);
    let one = seq![target];
    assert(separated(one, '?') == target);
    assert(forall|i: int| 0 <= i < one.len() ==> !(#[trigger] one[i]).contains('?'));
    fields_read_back(one, '?');
    // the body
    let k = head.len() as int;
    assert(req.subrange(k, k + 4) =~= blank_line());
    lemma_find_run_is(req, blank_line(), 0, k);
    assert(req.subrange(k + 4, req.len() as int) =~= body);
    reveal_strlit("threshold");
    assert(name.len() == 9);
    assert(plain_text(name));
    assert(!name.contains('=')) by {
        assert(forall|i: int| 0 <= i < 9 ==> "threshold"@[i] != '=');
    }
    assert(plain_text(body)) by {
        assert forall|i: int| 0 <= i < body.len() implies plain_char(#[trigger] body[i]) by {
            if i < name.len() {
                assert(plain_char(name[i]));
            } else if i > name.len() {
                assert(digit(d[i - name.len() - 1]));
            }
        }
    }
    lemma_plain_lacks(body, '&');
    let parts = seq![body];
    assert(separated(parts, '&') == body);
    assert(forall|i: int| 0 <= i < parts.len() ==> !(#[trigger] parts[i]).contains('&'));
    fields_read_back(parts, '&');
    halves_read_back(name, '=', d);
    assert(digit(d[0]) && digit(d.last()));
    trimmed_stays(name);
    trimmed_stays(d);
    crate::numeral::decimal_reads_as_whole(n as int);
}

/// A threshold that is asked for, in whole percent, is that of the book and of
/// all that is shared from then on, and nothing else changes.
pub proof fn asked_for_threshold_holds(hub: Hub, a: int, b: int)
    requires
        1 <= a <= 100,
        1 <= b <= 100,
        hub.book.threshold == whole(a),
    ensures
        with_threshold(hub, Some(whole(b))).threshold == whole(b),
        with_threshold(hub, Some(whole(b))).book == (AlertBook { threshold: whole(b), ..hub.book }),
        with_threshold(hub, Some(whole(b))).live == hub.live,
        with_threshold(hub, None) == hub,
{
    wholes_in_order(1, b);
    wholes_in_order(b, 100);
    threshold_is_taken(hub.book, a, b);
}

/// A head of `n` bytes that tells of a body is followed by that many more.
pub proof fn bodies_have_their_length(n: u64)
    requires
        n <= usize::MAX,
    ensures
        told_length("Content-Length:"@ + seq![' '] + decimal(n as int)) == Some(n),
        told_length("content-length:"@ + seq![' '] + decimal(n as int)) == Some(n),
{
    lemma_told_length("Content-Length:"@, n);
    lemma_told_length("content-length:"@, n);
}

proof fn lemma_told_length(name: Seq<char>, n: u64)
    requires
        n <= usize::MAX,
        name == "Content-Length:"@ || name == "content-length:"@,
    ensures
        told_length(name + seq![' '] + decimal(n as int)) == Some(n),
{
    reveal_strlit("Content-Length:");
    reveal_strlit("content-length:");
    let d = decimal(n as int);
    let s = name + seq![' '] + d;
    lemma_decimal(n as int);
    assert(name.len() == 15);
    assert(digit(d[0]) && digit(d.last()));
    assert(!s.contains('\n')) by {
        if s.contains('\n') {
            let i = choose|i: int| 0 <= i < s.len() && s[i] == '\n';
            if i < 15 {
                assert(forall|j: int| 0 <= j < 15 ==> "Content-Length:"@[j] != '\n');
                assert(forall|j: int| 0 <= j < 15 ==> "content-length:"@[j] != '\n');
            } else if i > 15 {
                assert(digit(d[i - 16]));
            }
        }
    }
    assert(s.last() == d.last());
    lines_read_back(s, seq![]);
    assert(s.subrange(0, 15) =~= name);
    assert(name.is_prefix_of(s));
    let r = s.subrange(15, s.len() as int);
    assert(r =~= seq![' '] + d);
    assert(first_solid(r, 1) == 1);
    assert(first_solid(r, 0) == 1);
    assert(solid_end(r, 1, r.len() as int) == r.len());
    assert(r.subrange(1, r.len() as int) =~= d);
    decimal_reads_back(n);
    assert(d[0] != '+');
}

/// What follows arguments that were read is read after them.
proof fn lemma_read_on(
    args: Seq<Seq<char>>,
    more: Seq<Seq<char>>,
    i: int,
    addr: Seq<char>,
    rest: Seq<Seq<char>>,
)
    requires
        0 <= i <= args.len(),
        scanned(args, i, addr, rest) is Read,
    ensures
        ({
            let r = scanned(args, i, addr, rest);
            scanned(args + more, i, addr, rest) == scanned(
                args + more,
                args.len() as int,
                r->Read_0,
                r->Read_1,
            )
        }),
    decreases args.len() - i,
{
    let all = args + more;
    if i < args.len() {
        assert(all[i] == args[i]);
        let a = args[i];
        if a == "-l"@ || a == "--listen"@ {
            assert(all[i + 1] == args[i + 1]);
            lemma_read_on(args, more, i + 2, address(args[i + 1])->Ok_0, rest);
        } else {
            lemma_read_on(args, more, i + 1, addr, rest.push(a));
        }
    }
}

/// The option to listen sets the address, wherever it stands, and a port alone
/// is one of this machine; what is no option is the interval.
pub proof fn listening_sets_the_address(
    args: Seq<Seq<char>>,
    addr: Seq<char>,
    rest: Seq<Seq<char>>,
    port: u16,
    word: Seq<char>,
)
    requires
        scanned(args, 0, addr, rest) is Read,
        port > 0,
        !"-"@.is_prefix_of(word),
    ensures
        ({
            let r = scanned(args, 0, addr, rest);
            &&& scanned(args + seq!["-l"@, decimal(port as int)], 0, addr, rest) == Scanned::Read(
                "127.0.0.1:"@ + decimal(port as int),
                r->Read_1,
            )
            &&& scanned(
                args + seq!["-l"@, "0.0.0.0"@ + seq![':'] + decimal(port as int)],
                0,
                addr,
                rest,
            ) == Scanned::Read("0.0.0.0"@ + seq![':'] + decimal(port as int), r->Read_1)
            &&& scanned(args + seq![word], 0, addr, rest) == Scanned::Read(
                r->Read_0,
                r->Read_1.push(word),
            )
            &&& scanned(args + seq!["-h"@], 0, addr, rest) is Help
        }),
{
    reveal_strlit("-");
    reveal_strlit("-l");
    reveal_strlit("-h");
    reveal_strlit("--help");
    reveal_strlit("--listen");
    reveal_strlit("0.0.0.0");
    assert("-l"@[1] == 'l' && "-h"@[1] == 'h');
    assert("-l"@.len() == 2 && "-h"@.len() == 2 && "--help"@.len() == 6 && "--listen"@.len() == 8);
    assert("-"@.is_prefix_of("--listen"@) && "-"@.is_prefix_of("-l"@) && "-"@.is_prefix_of("-h"@)
        && "-"@.is_prefix_of("--help"@));
    let n = args.len() as int;
    let d = decimal(port as int);
    let full = "0.0.0.0"@ + seq![':'] + d;
    decimal_reads_back(port as u64);
    lemma_decimal(port as int);
    assert(digit(d[0]));
    assert(!d.contains(':')) by {
        if d.contains(':') {
            let i = choose|i: int| 0 <= i < d.len() && d[i] == ':';
            assert(digit(d[i]));
        }
    }
    halves_read_back("0.0.0.0"@, ':', d);
    assert("0.0.0.0"@.len() == 7 && "0.0.0.0"@[1] == '.');
    assert(full[0] == "0.0.0.0"@[0] && full[1] == '.');
    assert(!digits_only(full)) by {
        assert(!digit(full[1]));
    }
    let r = scanned(args, 0, addr, rest);
    assert(scanned(args + seq!["-l"@, d], 0, addr, rest) == Scanned::Read("127.0.0.1:"@ + d, r->Read_1)) by {
        reveal_with_fuel(scanned, 2);
        lemma_read_on(args, seq!["-l"@, d], 0, addr, rest);
        assert((args + seq!["-l"@, d])[n] == "-l"@);
        assert((args + seq!["-l"@, d])[n + 1] == d);
    }
    assert(scanned(args + seq!["-l"@, full], 0, addr, rest) == Scanned::Read(full, r->Read_1)) by {
        reveal_with_fuel(scanned, 2);
        lemma_read_on(args, seq!["-l"@, full], 0, addr, rest);
        assert((args + seq!["-l"@, full])[n] == "-l"@);
        assert((args + seq!["-l"@, full])[n + 1] == full);
    }
    assert(scanned(args + seq![word], 0, addr, rest) == Scanned::Read(r->Read_0, r->Read_1.push(word))) by {
        reveal_with_fuel(scanned, 2);
        lemma_read_on(args, seq![word], 0, addr, rest);
        assert((args + seq![word])[n] == word);
    }
    assert(scanned(args + seq!["-h"@], 0, addr, rest) is Help) by {
        reveal_with_fuel(scanned, 2);
        lemma_read_on(args, seq!["-h"@], 0, addr, rest);
        assert((args + seq!["-h"@])[n] == "-h"@);
    }
}

/// The interval is a second unless another is named, which is half a second at
/// least.
pub proof fn intervals_are_half_a_second_at_least(seconds: int)
    requires
        1 <= seconds <= 2 * STEP,
    ensures
        web_interval(seq![]) == Ok::<Binary64, Seq<char>>(whole(1)),
        web_interval(seq![decimal(seconds)]) == Ok::<Binary64, Seq<char>>(whole(seconds)),
        web_interval(seq![decimal(0)]) is Err,
        web_interval(seq![decimal(seconds), decimal(seconds)]) is Err,
{
    crate::numeral::decimal_reads_as_whole(seconds);
    crate::numeral::decimal_reads_as_whole(0);
    whole_is_exact(seconds);
    whole_is_exact(0);
    whole_of_nothing();
    part_of_one(2);
    wholes_in_order(1, seconds);
}

/// A browser is pointed at this machine where all of its addresses are listened
/// on, and otherwise at the address itself.
pub proof fn browsers_are_pointed_at_the_address(host: Seq<char>, port: Seq<char>)
    requires
        !port.contains(':'),
    ensures
        host == "0.0.0.0"@ || host == "::"@ ==> browse_text(host + seq![':'] + port)
            == "http://127.0.0.1:"@ + port,
        host != "0.0.0.0"@ && host != "::"@ ==> browse_text(host + seq![':'] + port) == "http://"@ + (
        host + seq![':'] + port),
{
    halves_read_back(host, ':', port);
}

// ---------------------------------------------------------------------------
// What frames and answers hold

/// A device in a frame is read back with each rate under its own name.
pub proof fn devices_read_back(d: DeviceView)
    ensures
        ({
            let f = object(object_text(device_fields(d)));
            &&& f is Some
            &&& field(f->0, "name"@, 0) == Some(Datum::Text(d.name))
            &&& field(f->0, "r_s"@, 0) == Some(Datum::Number(reread(d.r_s)))
            &&& field(f->0, "w_s"@, 0) == Some(Datum::Number(reread(d.w_s)))
            &&& field(f->0, "read_bps"@, 0) == Some(Datum::Number(reread(d.read)))
            &&& field(f->0, "write_bps"@, 0) == Some(Datum::Number(reread(d.write)))
            &&& field(f->0, "await_ms"@, 0) == Some(Datum::Number(reread(d.await_ms)))
            &&& field(f->0, "util_pct"@, 0) == Some(Datum::Number(reread(d.util)))
        }),
{
    reveal(all_spell);
    let t = device_fields(d);
    let v = seq![
        Datum::Text(d.name),
        Datum::Number(reread(d.r_s)),
        Datum::Number(reread(d.w_s)),
        Datum::Number(reread(d.read)),
        Datum::Number(reread(d.write)),
        Datum::Number(reread(d.await_ms)),
        Datum::Number(reread(d.util)),
    ];
    number_spells(d.r_s);
    number_spells(d.w_s);
    number_spells(d.read);
    number_spells(d.write);
    number_spells(d.await_ms);
    number_spells(d.util);
    assert(spells(t[0].1, v[0]) && spells(t[1].1, v[1]) && spells(t[2].1, v[2]));
    assert(spells(t[3].1, v[3]) && spells(t[4].1, v[4]) && spells(t[5].1, v[5]));
    assert(spells(t[6].1, v[6]));
    object_reads_back(t, v);
    let f = named(t, v);
    lemma_field_names();
    lemma_field(f, "name"@, 0, 0);
    lemma_field(f, "r_s"@, 0, 1);
    lemma_field(f, "w_s"@, 0, 2);
    lemma_field(f, "read_bps"@, 0, 3);
    lemma_field(f, "write_bps"@, 0, 4);
    lemma_field(f, "await_ms"@, 0, 5);
    lemma_field(f, "util_pct"@, 0, 6);
}

proof fn lemma_field_names()
    ensures
        "name"@.len() == 4 && "name"@[0] == 'n',
        "r_s"@.len() == 3 && "r_s"@[0] == 'r',
        "w_s"@.len() == 3 && "w_s"@[0] == 'w',
        "read_bps"@.len() == 8 && "read_bps"@[0] == 'r',
        "write_bps"@.len() == 9 && "write_bps"@[0] == 'w',
        "await_ms"@.len() == 8 && "await_ms"@[0] == 'a',
        "util_pct"@.len() == 8 && "util_pct"@[0] == 'u',
        "tid"@.len() == 3 && "tid"@[0] == 't',
        "pid"@.len() == 3 && "pid"@[0] == 'p',
        "prio"@.len() == 4 && "prio"@[0] == 'p',
        "user"@.len() == 4 && "user"@[0] == 'u',
        "swapin_pct"@.len() == 10,
        "io_pct"@.len() == 6,
        "command"@.len() == 7,
{
    reveal_strlit("name");
    reveal_strlit("r_s");
    reveal_strlit("w_s");
    reveal_strlit("read_bps");
    reveal_strlit("write_bps");
    reveal_strlit("await_ms");
    reveal_strlit("util_pct");
    reveal_strlit("tid");
    reveal_strlit("pid");
    reveal_strlit("prio");
    reveal_strlit("user");
    reveal_strlit("swapin_pct");
    reveal_strlit("io_pct");
    reveal_strlit("command");
}

/// A line of a frame is read back with each part under its own name.
pub proof fn rows_read_back(r: ProcRate)
    ensures
        ({
            let f = object(object_text(row_fields(r)));
            &&& f is Some
            &&& field(f->0, "tid"@, 0) == Some(Datum::Number(whole(r.tid as int)))
            &&& field(f->0, "pid"@, 0) == Some(Datum::Number(whole(r.pid as int)))
            &&& field(f->0, "prio"@, 0) == Some(Datum::Text(r.prio@))
            &&& field(f->0, "user"@, 0) == Some(Datum::Text(r.user@))
            &&& field(f->0, "read_bps"@, 0) == Some(Datum::Number(reread(r.read_bps)))
            &&& field(f->0, "write_bps"@, 0) == Some(Datum::Number(reread(r.write_bps)))
            &&& field(f->0, "swapin_pct"@, 0) == Some(Datum::Number(reread(r.swapin_pct)))
            &&& field(f->0, "io_pct"@, 0) == Some(Datum::Number(reread(r.io_pct)))
            &&& field(f->0, "command"@, 0) == Some(Datum::Text(r.command@))
        }),
{
    reveal(all_spell);
    let t = row_fields(r);
    let v = seq![
        Datum::Number(whole(r.tid as int)),
        Datum::Number(whole(r.pid as int)),
        Datum::Text(r.prio@),
        Datum::Text(r.user@),
        Datum::Number(reread(r.read_bps)),
        Datum::Number(reread(r.write_bps)),
        Datum::Number(reread(r.swapin_pct)),
        Datum::Number(reread(r.io_pct)),
        Datum::Text(r.command@),
    ];
    integer_spells(r.tid as int);
    integer_spells(r.pid as int);
    number_spells(r.read_bps);
    number_spells(r.write_bps);
    number_spells(r.swapin_pct);
    number_spells(r.io_pct);
    assert(spells(t[0].1, v[0]) && spells(t[1].1, v[1]) && spells(t[2].1, v[2]));
    assert(spells(t[3].1, v[3]) && spells(t[4].1, v[4]) && spells(t[5].1, v[5]));
    assert(spells(t[6].1, v[6]) && spells(t[7].1, v[7]) && spells(t[8].1, v[8]));
    object_reads_back(t, v);
    let f = named(t, v);
    lemma_field_names();
    lemma_field(f, "tid"@, 0, 0);
    lemma_field(f, "pid"@, 0, 1);
    lemma_field(f, "prio"@, 0, 2);
    lemma_field(f, "user"@, 0, 3);
    lemma_field(f, "read_bps"@, 0, 4);
    lemma_field(f, "write_bps"@, 0, 5);
    lemma_field(f, "swapin_pct"@, 0, 6);
    lemma_field(f, "io_pct"@, 0, 7);
    lemma_field(f, "command"@, 0, 8);
}

/// The page's latest frame is the one published last, until the next: it tells
/// the frame's totals and rates of storage, its threads, and how many episodes are
/// open. Asking for it changes nothing.
pub proof fn live_answer_is_the_latest_frame(
    a: Hub,
    b: Hub,
    c: Hub,
    seq: u64,
    host: Seq<char>,
    frame: IoFrame,
    devices: Seq<DeviceView>,
    then: u64,
    now: u64,
    saved: (bool, Option<Saves>),
    r: (Response, bool),
)
    requires
        published(a, b, seq, host, frame, devices, then, saved),
        responded(b, c, Route::Live, now, r),
    ensures
        c == b,
        !r.1,
        exists|f: Seq<(Seq<char>, Seq<char>)>|
            (r.0.body matches Body::Text(t) && t@ == #[trigger] object_text(f))
                && f.contains(("seq"@, decimal(seq as int)))
                && f.contains(("threads"@, decimal(frame.threads as int)))
                && f.contains(("skipped"@, decimal(frame.skipped as int)))
                && f.contains(("ready"@, truth_text(frame.ready)))
                && f.contains(("host"@, string_text(host)))
                && f.contains(("interval_s"@, number_text(a.interval)))
                && f.contains(("elapsed_s"@, number_text(frame.elapsed_s)))
                && f.contains(("delayacct"@, truth_text(frame.delayacct)))
                && f.contains(("alerts"@, decimal(b.book.open@.len() as int)))
                && f.contains(("total_read"@, number_text(frame.total_read)))
                && f.contains(("total_write"@, number_text(frame.total_write)))
                && f.contains(("actual_read"@, number_text(frame.actual_read)))
                && f.contains(("actual_write"@, number_text(frame.actual_write)))
                && f.contains(("devices"@, array_text(device_texts(devices))))
                && f.contains(("rows"@, array_text(row_texts(frame.rows@)))),
{
    let f = frame_fields(seq, a.interval, host, frame, devices, b.book.open@.len() as int);
    assert(f.len() == 17);
    assert(f.contains(f[1]) && f.contains(f[2]) && f.contains(f[4]) && f.contains(f[5])
        && f.contains(f[6]) && f.contains(f[7]) && f.contains(f[8]) && f.contains(f[9])
        && f.contains(f[10]) && f.contains(f[11]) && f.contains(f[12]) && f.contains(f[13])
        && f.contains(f[14]) && f.contains(f[15]) && f.contains(f[16]));
    assert(r.0.body->Text_0@ == object_text(f));
}

/// Only a request that names a threshold changes what is shared, and only what is
/// known is answered with success.
pub proof fn only_thresholds_change_what_is_shared(
    before: Hub,
    after: Hub,
    route: Route,
    now: u64,
    r: (Response, bool),
)
    requires
        responded(before, after, route, now, r),
    ensures
        !(route matches Route::Records { threshold, from, to } && threshold is Some) ==> after
            == before && !r.1,
        after.live == before.live && after.host == before.host && after.interval == before.interval,
        r.0.status@ == "200 OK"@ <==> !(route is Refused) && !(route is Unknown),
        r.0.body is Page <==> route is Page,
{
    reveal_strlit("200 OK");
    reveal_strlit("405 Method Not Allowed");
    reveal_strlit("404 Not Found");
    assert("200 OK"@.len() == 6);
    assert("405 Method Not Allowed"@.len() == 22);
    assert("404 Not Found"@.len() == 13);
}

/// Rates of devices go from one sample that was read to the next, though one in
/// between could not be; the first sample has none. A second or more counts as it
/// is.
pub proof fn rates_go_from_sample_to_sample(
    a: Option<DiskSample>,
    b: Option<DiskSample>,
    c: Option<DiskSample>,
    d: Option<DiskSample>,
    first: Vec<DiskStats>,
    second: Vec<DiskStats>,
    elapsed: Binary64,
    seconds: int,
    r: Seq<DeviceView>,
    none: Seq<DeviceView>,
    s: Seq<DeviceView>,
)
    requires
        sampled(a, b, Some(first), elapsed, r),
        sampled(b, c, None, elapsed, none),
        sampled(c, d, Some(second), whole(seconds), s),
        1 <= seconds <= 2 * STEP,
    ensures
        a is None ==> r.len() == 0,
        none.len() == 0,
        s == busiest(rates_between(first@, second@, whole(seconds))),
{
    part_of_one(1000);
    whole_is_exact(seconds);
    whole_is_exact(1);
    if seconds > 1 {
        wholes_in_order(1, seconds);
    }
}

/// The machine's name is read without the line's end; without a file it is the
/// name of this machine.
pub proof fn names_are_read_without_line_ends(name: Seq<char>)
    requires
        is_word(name),
    ensures
        host_text(Some(name + seq!['\n'])) == name,
        host_text(Some(name)) == name,
        host_text(None) == "localhost"@,
{
    assert(!space(name[0]) && !space(name[name.len() - 1]));
    spaces_around_are_cut(seq![], name, seq!['\n']);
    assert(Seq::<char>::empty() + name + seq!['\n'] =~= name + seq!['\n']);
    trimmed_stays(name);
}

/// Ports are the numbers from 1 up to 65535.
pub proof fn ports_have_sixteen_bits(n: int)
    requires
        0 <= n,
    ensures
        port_fault(decimal(n)) is None <==> 1 <= n <= 65535,
{
    lemma_decimal(n);
    assert(digit(decimal(n)[0]));
}

/// Arguments are read as what they name; without any, the page is served every
/// second on port 8080 of this machine alone.
pub proof fn arguments_read_back(port: u16, seconds: int, r: Result<Option<WebOptions>, String>)
    requires
        1 <= seconds <= 2 * STEP,
        port > 0,
    ensures
        args_say(seq![decimal(seconds), "-l"@, decimal(port as int)], r) ==> (r matches Ok(Some(o))
            && o.addr@ == "127.0.0.1:"@ + decimal(port as int) && o.interval == whole(seconds)),
        args_say(seq![], r) ==> (r matches Ok(Some(o)) && o.addr@ == "127.0.0.1:"@ + decimal(8080)
            && o.interval == whole(1)),
{
    let addr = "127.0.0.1:8080"@;
    let x = decimal(seconds);
    let none = Seq::<Seq<char>>::empty();
    reveal_strlit("-");
    lemma_decimal(seconds);
    assert(digit(x[0]));
    assert(!"-"@.is_prefix_of(x)) by {
        if "-"@.is_prefix_of(x) {
            assert("-"@[0] == x[0]);
        }
    }
    assert(scanned(none, 0, addr, none) == Scanned::Read(addr, none));
    listening_sets_the_address(none, addr, none, port, x);
    let a = none + seq![x];
    listening_sets_the_address(a, addr, none, port, x);
    let b = a + seq!["-l"@, decimal(port as int)];
    assert(b =~= seq![x, "-l"@, decimal(port as int)]);
    assert(none.push(x) =~= seq![x]);
    intervals_are_half_a_second_at_least(seconds);
    reveal_strlit("127.0.0.1:8080");
    reveal_strlit("127.0.0.1:");
    reveal_with_fuel(decimal, 5);
    assert(decimal(8080) =~= seq!['8', '0', '8', '0']);
    assert(addr =~= "127.0.0.1:"@ + decimal(8080));
    assert(none =~= seq![]);
}

/// The head of a request ends at the first empty line.
pub proof fn heads_end_at_the_first_empty_line(buf: Seq<u8>, i: int)
    requires
        0 <= i < head_end(buf),
    ensures
        head_end(buf) <= buf.len(),
        head_end(buf) < buf.len() ==> head_end(buf) + 4 <= buf.len() && buf[head_end(buf)] == 13
            && buf[head_end(buf) + 1] == 10 && buf[head_end(buf) + 2] == 13 && buf[head_end(buf) + 3]
            == 10,
        i + 4 <= buf.len() ==> !(buf[i] == 13 && buf[i + 1] == 10 && buf[i + 2] == 13 && buf[i + 3]
            == 10),
{
    lemma_run(buf, 0);
    assert(!empty_line_at(buf, i));
}

/// Whether an empty line begins here.
spec fn empty_line_at(buf: Seq<u8>, i: int) -> bool {
    i + 4 <= buf.len() && buf[i] == 13 && buf[i + 1] == 10 && buf[i + 2] == 13 && buf[i + 3] == 10
}

proof fn lemma_run(buf: Seq<u8>, k: int)
    requires
        0 <= k <= buf.len(),
    ensures
        k <= find_run(buf, blank_bytes(), k) <= buf.len(),
        find_run(buf, blank_bytes(), k) < buf.len() ==> empty_line_at(
            buf,
            find_run(buf, blank_bytes(), k),
        ),
        forall|j: int| k <= j < find_run(buf, blank_bytes(), k) ==> !#[trigger] empty_line_at(buf, j),
    decreases buf.len() - k,
{
    let w = blank_bytes();
    if k + 4 <= buf.len() {
        let s = buf.subrange(k, k + 4);
        if s == w {
            assert(s[0] == 13 && s[1] == 10 && s[2] == 13 && s[3] == 10);
        } else {
            if empty_line_at(buf, k) {
                assert(s =~= w);
            }
            lemma_run(buf, k + 1);
        }
    }
}

/// The head of an answer is read as it was written: its status, the kind and the
/// length of its body, each on a line of its own, and an empty line at the end.
pub proof fn answers_read_back(status: Seq<char>, ctype: Seq<char>, len: u64)
    requires
        !status.contains('\n'),
        !ctype.contains('\n'),
        status.len() > 0 && status.last() != '\r',
        ctype.len() > 0 && ctype.last() != '\r',
        len <= usize::MAX,
    ensures
        lines(answer_head(status, ctype, len as int)).len() == 6,
        lines(answer_head(status, ctype, len as int))[0] == "HTTP/1.1 "@ + status,
        lines(answer_head(status, ctype, len as int))[1] == "Content-Type: "@ + ctype,
        lines(answer_head(status, ctype, len as int))[2] == "Content-Length: "@ + decimal(len as int),
        lines(answer_head(status, ctype, len as int))[5] == Seq::<char>::empty(),
{
    reveal_strlit("HTTP/1.1 ");
    reveal_strlit("\r\nContent-Type: ");
    reveal_strlit("Content-Type: ");
    reveal_strlit("\r\nContent-Length: ");
    reveal_strlit("Content-Length: ");
    reveal_strlit("\r\nCache-Control: no-store\r\nConnection: close\r\n\r\n");
    let crlf = seq!['\r', '\n'];
    let d = decimal(len as int);
    lemma_decimal(len as int);
    lemma_decimal_is_word(len as int);
    let a = "HTTP/1.1 "@ + status;
    let b = "Content-Type: "@ + ctype;
    let c = "Content-Length: "@ + d;
    let last = "\r\nCache-Control: no-store\r\nConnection: close\r\n\r\n"@;
    let tail = last.subrange(2, last.len() as int);
    let e = tail.subrange(0, 23);
    let f = tail.subrange(25, 42);
    lemma_after("HTTP/1.1 "@, status);
    lemma_after("Content-Type: "@, ctype);
    assert(digit(d[d.len() - 1]));
    lemma_after("Content-Length: "@, d);
    let s = answer_head(status, ctype, len as int);
    let s3 = tail;
    let s2 = c + crlf + s3;
    let s1 = b + crlf + s2;
    assert(s =~= a + crlf + s1);
    lines_read_back(a, s1);
    lines_read_back(b, s2);
    lines_read_back(c, s3);
    let g = crlf;
    let none = Seq::<char>::empty();
    assert(s3 =~= e + crlf + (f + crlf + (none + crlf + none)));
    lines_read_back(e, f + crlf + (none + crlf + none));
    lines_read_back(f, none + crlf + none);
    lines_read_back(none, none);
    assert(lines(none) =~= seq![]);
    assert(lines(s) =~= seq![a, b, c, e, f, none]);
}

proof fn lemma_after(name: Seq<char>, s: Seq<char>)
    requires
        !s.contains('\n'),
        s.len() > 0 && s.last() != '\r',
        forall|i: int| 0 <= i < name.len() ==> #[trigger] name[i] != '\n',
    ensures
        !(name + s).contains('\n'),
        (name + s).last() != '\r',
        (name + s).len() > 0,
{
    let t = name + s;
    assert(t.last() == s.last());
    assert forall|i: int| 0 <= i < t.len() implies t[i] != '\n' by {
        if i >= name.len() {
            assert(s.contains(s[i - name.len()]));
        } else {
            assert(t[i] == name[i]);
        }
    }
}

/// An error is told with its message.
pub proof fn errors_tell_their_message(seq: u64, message: Seq<char>)
    ensures
        occurs(",\"error\":"@ + string_text(message), error_text(seq, message)),
        occurs("\"seq\":"@ + decimal(seq as int), error_text(seq, message)),
        "{\"ok\":false,"@.is_prefix_of(error_text(seq, message)),
{
    reveal_strlit("{\"ok\":false,\"seq\":");
    reveal_strlit("{\"ok\":false,");
    reveal_strlit(",\"ready\":false,\"error\":");
    reveal_strlit(",\"error\":");
    reveal_strlit("\"seq\":");
    let t = error_text(seq, message);
    let d = decimal(seq as int);
    let x = string_text(message);
    let head = "{\"ok\":false,\"seq\":"@;
    let mid = ",\"ready\":false,\"error\":"@;
    let rest = ",\"host\":\"\",\"interval_s\":0,\"elapsed_s\":0,\"delayacct\":false,\"skipped\":0,\"threads\":0,\"alerts\":0,\"total_read\":0,\"total_write\":0,\"actual_read\":0,\"actual_write\":0,\"devices\":[],\"rows\":[]}"@;
    let e = ",\"error\":"@ + x;
    assert(t =~= (head + d + mid.subrange(0, 14)) + e + rest);
    lemma_occurs_itself(e);
    lemma_occurs_within(e, head + d + mid.subrange(0, 14), e, rest);
    let q = "\"seq\":"@ + d;
    assert(t =~= head.subrange(0, 12) + q + (mid + x + rest));
    lemma_occurs_itself(q);
    lemma_occurs_within(q, head.subrange(0, 12), q, mid + x + rest);
    assert(t.subrange(0, 12) =~= "{\"ok\":false,"@);
}

/// Devices that are equally busy come in the order of their names.
pub proof fn alike_devices_come_by_name(rates: Seq<RateView>, i: int, j: int, k: int)
    requires
        0 <= i < j < busiest(rates).len(),
        ({
            let a = busiest(rates)[i];
            let b = busiest(rates)[j];
            &&& a.util.rank() == b.util.rank()
            &&& sum(a.read, a.write).rank() == sum(b.read, b.write).rank()
            &&& 0 <= k < a.name.len() && k < b.name.len()
            &&& forall|m: int| 0 <= m < k ==> a.name[m] == b.name[m]
        }),
    ensures
        busiest(rates)[i].name[k] as u64 <= busiest(rates)[j].name[k] as u64,
{
    let all = real_devices(rates);
    let keys = device_keys(all);
    arranged_keeps_all(all, keys);
    arranged_in_order(all, keys, i, j);
    let p = ordering(keys)[i];
    let q = ordering(keys)[j];
    let a = all[p];
    let b = all[q];
    let x = keys[p];
    let y = keys[q];
    assert(busiest(rates)[i] == a && busiest(rates)[j] == b);
    assert(x[0] == falling(a.util) && y[0] == falling(b.util));
    assert(x[1] == falling(sum(a.read, a.write)) && y[1] == falling(sum(b.read, b.write)));
    assert forall|m: int| 0 <= m < k + 2 implies x[m] == y[m] by {
        if m >= 2 {
            assert(x[m] == a.name[m - 2] as u64 && y[m] == b.name[m - 2] as u64);
        }
    }
    assert(x[k + 2] == a.name[k] as u64 && y[k + 2] == b.name[k] as u64);
    if x != y {
        lemma_less_at(x, y, 0, k + 2);
    }
}

proof fn lemma_less_at(x: Seq<u64>, y: Seq<u64>, i: int, n: int)
    requires
        0 <= i <= n < x.len(),
        n < y.len(),
        forall|m: int| i <= m < n ==> x[m] == y[m],
        less_from(x, y, i),
    ensures
        x[n] <= y[n],
    decreases n - i,
{
    if i < n {
        lemma_less_at(x, y, i + 1, n);
    }
}

/// What a request asks for goes by its path alone: the page has three, and each of
/// the two sources one; what follows a question mark does not matter, and other
/// paths are unknown.
pub proof fn paths_have_their_route(req: Seq<char>, path: Seq<char>, query: Seq<char>)
    requires
        !path.contains('?') && !query.contains('?'),
        target_of(req) == path || target_of(req) == separated(seq![path, query], '?'),
    ensures
        path == "/"@ || path == "/index.html"@ || path == "/records"@ ==> routed(req) is Page,
        path == "/api/live"@ ==> routed(req) is Live,
        path == "/api/records"@ ==> routed(req) is Records || routed(req) is Refused,
        path != "/"@ && path != "/index.html"@ && path != "/records"@ && path != "/api/live"@ && path
            != "/api/records"@ ==> routed(req) is Unknown,
{
    let one = seq![path];
    let two = seq![path, query];
    assert(!one[0].contains('?'));
    fields_read_back(one, '?');
    assert(separated(one, '?') == path);
    assert(!two[0].contains('?') && !two[1].contains('?'));
    fields_read_back(two, '?');
    assert(fields(target_of(req), '?')[0] == path);
    reveal_strlit("/");
    reveal_strlit("/index.html");
    reveal_strlit("/records");
    reveal_strlit("/api/live");
    reveal_strlit("/api/records");
    assert("/"@.len() == 1 && "/index.html"@.len() == 11 && "/records"@.len() == 8 && "/api/live"@.len()
        == 9 && "/api/records"@.len() == 12);
}

} // verus!
