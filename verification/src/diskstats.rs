//! `/proc/diskstats`: the counters of each block device, and their rates.
//!
//! The fields are those of the kernel's `Documentation/admin-guide/iostats.rst`.

use vstd::prelude::*;

use crate::binary64::{
    closest, nothing_per_second, product, product_is_not_below_zero, product_of_wholes, quotient,
    quotient_is_not_below_zero, quotient_of_multiple, quotient_of_wholes, whole, whole_is_exact,
    whole_is_unsigned, whole_of_nothing, wholes_in_order, zero, Binary64, STEP,
};
use crate::text::{
    chars_of, decimal, lines, lines_of, parse_unsigned, push_chars, push_decimal, starts_with,
    string_of, trim, trimmed, unsigned, views, words, words_of,
};

verus! {

/// What a block device has counted since the system started.
#[derive(Debug, Clone, PartialEq, Eq)]
pub struct DiskStats {
    pub major: u32,
    pub minor: u32,
    pub device: String,
    pub reads_completed: u64,
    pub reads_merged: u64,
    pub sectors_read: u64,
    pub time_reading_ms: u64,
    pub writes_completed: u64,
    pub writes_merged: u64,
    pub sectors_written: u64,
    pub time_writing_ms: u64,
    pub in_flight: u64,
    pub io_time_ms: u64,
    pub weighted_io_time_ms: u64,
}

/// The words that a line must have.
pub const FIELDS: usize = 14;

/// The number in word `i`.
pub open spec fn field(w: Seq<Seq<char>>, i: int) -> Option<u64> {
    unsigned(w[i], u64::MAX as int)
}

/// The first word from `i` on that should be a number and is none. The third
/// word is the device's name.
pub open spec fn first_bad(w: Seq<Seq<char>>, i: int) -> int
    decreases FIELDS - i,
{
    if i >= FIELDS {
        FIELDS as int
    } else if i != 2 && field(w, i) is None {
        i
    } else {
        first_bad(w, i + 1)
    }
}

pub open spec fn short_line(n: int) -> Seq<char> {
    "字段数不足: "@ + decimal(n) + "（至少需要 14 个）"@
}

pub open spec fn bad_number(i: int, word: Seq<char>) -> Seq<char> {
    "第 "@ + decimal(i + 1) + " 个字段不是有效数字: \""@ + word + "\""@
}

/// Why a line is refused, if it is.
pub open spec fn line_fault(line: Seq<char>) -> Option<Seq<char>> {
    let w = words(line);
    let i = first_bad(w, 0);
    if w.len() < FIELDS {
        Some(short_line(w.len() as int))
    } else if i < FIELDS {
        Some(bad_number(i, w[i]))
    } else {
        None
    }
}

/// Whether `d` holds what the line's words say. A device number keeps the low
/// 32 bits of the number that is written.
pub open spec fn holds(d: DiskStats, line: Seq<char>) -> bool {
    let w = words(line);
    &&& d.major as int == field(w, 0)->0 as int % 0x1_0000_0000
    &&& d.minor as int == field(w, 1)->0 as int % 0x1_0000_0000
    &&& d.device@ == w[2]
    &&& Some(d.reads_completed) == field(w, 3)
    &&& Some(d.reads_merged) == field(w, 4)
    &&& Some(d.sectors_read) == field(w, 5)
    &&& Some(d.time_reading_ms) == field(w, 6)
    &&& Some(d.writes_completed) == field(w, 7)
    &&& Some(d.writes_merged) == field(w, 8)
    &&& Some(d.sectors_written) == field(w, 9)
    &&& Some(d.time_writing_ms) == field(w, 10)
    &&& Some(d.in_flight) == field(w, 11)
    &&& Some(d.io_time_ms) == field(w, 12)
    &&& Some(d.weighted_io_time_ms) == field(w, 13)
}

/// Parses one line.
pub fn parse_line(line: &str) -> (r: Result<DiskStats, String>)
    ensures
        match r {
            Ok(d) => line_fault(line@) is None && holds(d, line@),
            Err(e) => line_fault(line@) == Some(e@),
        },
{
    let cs = chars_of(line);
    parse_chars(cs.as_slice())
}

fn parse_chars(line: &[char]) -> (r: Result<DiskStats, String>)
    ensures
        match r {
            Ok(d) => line_fault(line@) is None && holds(d, line@),
            Err(e) => line_fault(line@) == Some(e@),
        },
{
    let w = words_of(line);
    let ghost g = words(line@);
    assert(g.len() == w@.len());
    if w.len() < FIELDS {
        let mut e: String = String::new();
        e.append("字段数不足: ");
        push_decimal(&mut e, w.len() as u64);
        e.append("（至少需要 14 个）");
        return Err(e);
    }
    let mut n: Vec<u64> = Vec::new();
    for i in 0..FIELDS
        invariant
            g == views(w@),
            g == words(line@),
            w@.len() >= FIELDS,
            n@.len() == i,
            first_bad(g, 0) == first_bad(g, i as int),
            forall|j: int| 0 <= j < i && j != 2 ==> Some(#[trigger] n@[j]) == field(g, j),
    {
        assert(g[i as int] == w@[i as int]@);
        if i == 2 {
            n.push(0);
        } else {
            match parse_unsigned(w[i], u64::MAX) {
                Some(v) => n.push(v),
                None => {
                    let mut e: String = String::new();
                    e.append("第 ");
                    push_decimal(&mut e, i as u64 + 1);
                    e.append(" 个字段不是有效数字: \"");
                    push_chars(&mut e, w[i]);
                    e.append("\"");
                    return Err(e);
                },
            }
        }
    }
    assert(g[2] == w@[2]@);
    Ok(
        DiskStats {
            major: (n[0] % 0x1_0000_0000) as u32,
            minor: (n[1] % 0x1_0000_0000) as u32,
            device: string_of(w[2]),
            reads_completed: n[3],
            reads_merged: n[4],
            sectors_read: n[5],
            time_reading_ms: n[6],
            writes_completed: n[7],
            writes_merged: n[8],
            sectors_written: n[9],
            time_writing_ms: n[10],
            in_flight: n[11],
            io_time_ms: n[12],
            weighted_io_time_ms: n[13],
        },
    )
}

/// Whether a line says nothing.
pub open spec fn blank(line: Seq<char>) -> bool {
    trimmed(line).len() == 0
}

/// The lines that say something.
pub open spec fn filled(ls: Seq<Seq<char>>) -> Seq<Seq<char>> {
    ls.filter(|l: Seq<char>| !blank(l))
}

/// The first line from `i` on that is refused.
pub open spec fn first_fault(ls: Seq<Seq<char>>, i: int) -> int
    decreases ls.len() - i,
{
    if i >= ls.len() {
        ls.len() as int
    } else if !blank(ls[i]) && line_fault(ls[i]) is Some {
        i
    } else {
        first_fault(ls, i + 1)
    }
}

/// What is said of the text's first faulty line.
pub open spec fn fault(ls: Seq<Seq<char>>) -> Option<Seq<char>> {
    let i = first_fault(ls, 0);
    if i < ls.len() {
        Some("第 "@ + decimal(i + 1) + " 行: "@ + line_fault(ls[i])->0)
    } else {
        None
    }
}

/// Parses the whole of `/proc/diskstats`, one device a line.
pub fn parse(content: &str) -> (r: Result<Vec<DiskStats>, String>)
    ensures
        match r {
            Ok(v) => {
                &&& fault(lines(content@)) is None
                &&& v@.len() == filled(lines(content@)).len()
                &&& forall|i: int|
                    0 <= i < v@.len() ==> holds(#[trigger] v@[i], filled(lines(content@))[i])
            },
            Err(e) => fault(lines(content@)) == Some(e@),
        },
{
    let cs = chars_of(content);
    let ls = lines_of(cs.as_slice());
    let ghost g = lines(content@);
    let mut out: Vec<DiskStats> = Vec::new();
    proof {
        reveal(Seq::filter);
    }
    for i in 0..ls.len()
        invariant
            g == views(ls@),
            g == lines(content@),
            first_fault(g, 0) == first_fault(g, i as int),
            out@.len() == filled(g.take(i as int)).len(),
            forall|j: int|
                0 <= j < out@.len() ==> holds(#[trigger] out@[j], filled(g.take(i as int))[j]),
    {
        let line = ls[i];
        assert(g[i as int] == line@);
        assert(g.take(i as int + 1).drop_last() =~= g.take(i as int));
        proof {
            reveal(Seq::filter);
        }
        if trim(line).len() > 0 {
            match parse_chars(line) {
                Ok(d) => out.push(d),
                Err(e) => {
                    let mut m: String = String::new();
                    m.append("第 ");
                    push_decimal(&mut m, i as u64 + 1);
                    m.append(" 行: ");
                    m.append(e.as_str());
                    return Err(m);
                },
            }
        }
    }
    assert(g.take(g.len() as int) =~= g);
    Ok(out)
}

/// Whether a device's name is that of a virtual one, which the default view hides.
pub open spec fn pseudo(name: Seq<char>) -> bool {
    ||| "loop"@.is_prefix_of(name)
    ||| "ram"@.is_prefix_of(name)
    ||| "zram"@.is_prefix_of(name)
    ||| "sr"@.is_prefix_of(name)
}

/// Whether a device is virtual, such as `loop0` or `ram1`.
pub fn is_pseudo_device(name: &str) -> (r: bool)
    ensures
        r == pseudo(name@),
{
    let cs = chars_of(name);
    let n = cs.as_slice();
    starts_with(n, "loop") || starts_with(n, "ram") || starts_with(n, "zram") || starts_with(
        n,
        "sr",
    )
}

/// A device's rates over one interval.
pub struct DiskRate {
    pub device: String,
    /// Reads completed in a second.
    pub r_s: Binary64,
    /// Writes completed in a second.
    pub w_s: Binary64,
    /// KiB read in a second; a sector is 512 bytes.
    pub rk_bps: Binary64,
    pub wk_bps: Binary64,
    /// Average length of the queue.
    pub aqu_sz: Binary64,
    /// Average time of one request, in milliseconds.
    pub await_ms: Binary64,
    /// Share of the interval in which the device was busy.
    pub util_pct: Binary64,
    /// Whether anything was counted in the interval.
    pub active: bool,
}

/// How far a counter went up. A counter that went back counts as standing still.
pub open spec fn growth(before: u64, after: u64) -> int {
    if after > before {
        after - before
    } else {
        0
    }
}

/// Requests completed between two samples.
pub open spec fn requests(prev: DiskStats, cur: DiskStats) -> int {
    growth(prev.reads_completed, cur.reads_completed) + growth(
        prev.writes_completed,
        cur.writes_completed,
    )
}

/// Milliseconds spent on requests between two samples.
pub open spec fn request_ms(prev: DiskStats, cur: DiskStats) -> int {
    growth(prev.time_reading_ms, cur.time_reading_ms) + growth(
        prev.time_writing_ms,
        cur.time_writing_ms,
    )
}

/// Requests and sectors counted between two samples.
pub open spec fn activity(prev: DiskStats, cur: DiskStats) -> int {
    requests(prev, cur) + growth(prev.sectors_read, cur.sectors_read) + growth(
        prev.sectors_written,
        cur.sectors_written,
    )
}

/// Whether the sums that a rate is made of fit in 64 bits.
pub open spec fn sums_fit(prev: DiskStats, cur: DiskStats) -> bool {
    &&& activity(prev, cur) <= u64::MAX
    &&& requests(prev, cur) > 0 ==> request_ms(prev, cur) <= u64::MAX
}

/// `n` sectors in KiB.
pub open spec fn sectors_kib(n: int) -> Binary64 {
    quotient(product(whole(n), whole(512)), whole(1024))
}

/// What a `DiskRate` holds.
pub struct RateView {
    pub device: Seq<char>,
    pub r_s: Binary64,
    pub w_s: Binary64,
    pub rk_bps: Binary64,
    pub wk_bps: Binary64,
    pub aqu_sz: Binary64,
    pub await_ms: Binary64,
    pub util_pct: Binary64,
    pub active: bool,
}

impl View for DiskRate {
    type V = RateView;

    open spec fn view(&self) -> RateView {
        RateView {
            device: self.device@,
            r_s: self.r_s,
            w_s: self.w_s,
            rk_bps: self.rk_bps,
            wk_bps: self.wk_bps,
            aqu_sz: self.aqu_sz,
            await_ms: self.await_ms,
            util_pct: self.util_pct,
            active: self.active,
        }
    }
}

pub open spec fn rate_views(v: Seq<DiskRate>) -> Seq<RateView> {
    Seq::new(v.len(), |i: int| v[i]@)
}

/// The rates between two samples of a device.
pub open spec fn rate_between(prev: DiskStats, cur: DiskStats, elapsed_s: Binary64) -> RateView {
    RateView {
        device: cur.device@,
        r_s: quotient(whole(growth(prev.reads_completed, cur.reads_completed)), elapsed_s),
        w_s: quotient(whole(growth(prev.writes_completed, cur.writes_completed)), elapsed_s),
        rk_bps: quotient(sectors_kib(growth(prev.sectors_read, cur.sectors_read)), elapsed_s),
        wk_bps: quotient(sectors_kib(growth(prev.sectors_written, cur.sectors_written)), elapsed_s),
        aqu_sz: quotient(
            quotient(whole(growth(prev.weighted_io_time_ms, cur.weighted_io_time_ms)), whole(1000)),
            elapsed_s,
        ),
        await_ms: if requests(prev, cur) > 0 {
            quotient(whole(request_ms(prev, cur)), whole(requests(prev, cur)))
        } else {
            zero()
        },
        util_pct: product(
            quotient(
                whole(growth(prev.io_time_ms, cur.io_time_ms)),
                product(elapsed_s, whole(1000)),
            ),
            whole(100),
        ),
        active: activity(prev, cur) > 0,
    }
}

/// A device's rates between two samples.
pub fn rate(prev: &DiskStats, cur: &DiskStats, elapsed_s: Binary64) -> (r: DiskRate)
    requires
        sums_fit(*prev, *cur),
    ensures
        r@ == rate_between(*prev, *cur, elapsed_s),
{
    let d_reads = cur.reads_completed.saturating_sub(prev.reads_completed);
    let d_sect_r = cur.sectors_read.saturating_sub(prev.sectors_read);
    let d_writes = cur.writes_completed.saturating_sub(prev.writes_completed);
    let d_sect_w = cur.sectors_written.saturating_sub(prev.sectors_written);
    let d_read_ms = cur.time_reading_ms.saturating_sub(prev.time_reading_ms);
    let d_write_ms = cur.time_writing_ms.saturating_sub(prev.time_writing_ms);
    let d_io_ms = cur.io_time_ms.saturating_sub(prev.io_time_ms);
    let d_weighted_ms = cur.weighted_io_time_ms.saturating_sub(prev.weighted_io_time_ms);
    let ios = d_reads + d_writes;
    let sector = Binary64::from_u64(512);
    let kib = Binary64::from_u64(1024);
    let thousand = Binary64::from_u64(1000);
    DiskRate {
        device: cur.device.clone(),
        r_s: Binary64::from_u64(d_reads).over(&elapsed_s),
        w_s: Binary64::from_u64(d_writes).over(&elapsed_s),
        rk_bps: Binary64::from_u64(d_sect_r).times(&sector).over(&kib).over(&elapsed_s),
        wk_bps: Binary64::from_u64(d_sect_w).times(&sector).over(&kib).over(&elapsed_s),
        aqu_sz: Binary64::from_u64(d_weighted_ms).over(&thousand).over(&elapsed_s),
        await_ms: if ios > 0 {
            Binary64::from_u64(d_read_ms + d_write_ms).over(&Binary64::from_u64(ios))
        } else {
            Binary64::from_bits(0)
        },
        util_pct: Binary64::from_u64(d_io_ms).over(&elapsed_s.times(&thousand)).times(
            &Binary64::from_u64(100),
        ),
        active: d_reads + d_writes + d_sect_r + d_sect_w > 0,
    }
}

/// The first sample from `i` on of the device with these numbers.
pub open spec fn partner(prev: Seq<DiskStats>, c: DiskStats, i: int) -> int
    decreases prev.len() - i,
{
    if i >= prev.len() {
        prev.len() as int
    } else if prev[i].major == c.major && prev[i].minor == c.minor {
        i
    } else {
        partner(prev, c, i + 1)
    }
}

/// The devices that both samples hold, in the order of the second.
pub open spec fn paired(prev: Seq<DiskStats>, cur: Seq<DiskStats>) -> Seq<(DiskStats, DiskStats)>
    decreases cur.len(),
{
    if cur.len() == 0 {
        seq![]
    } else {
        let before = paired(prev, cur.drop_last());
        let k = partner(prev, cur.last(), 0);
        if 0 <= k < prev.len() {
            before.push((prev[k], cur.last()))
        } else {
            before
        }
    }
}

/// The rates of the devices that both samples hold.
pub open spec fn rates_between(
    prev: Seq<DiskStats>,
    cur: Seq<DiskStats>,
    elapsed_s: Binary64,
) -> Seq<RateView> {
    let p = paired(prev, cur);
    Seq::new(p.len(), |i: int| rate_between(p[i].0, p[i].1, elapsed_s))
}

/// Whether the sums fit for every pair.
pub open spec fn all_fit(prev: Seq<DiskStats>, cur: Seq<DiskStats>) -> bool {
    forall|i: int|
        0 <= i < paired(prev, cur).len() ==> sums_fit(
            (#[trigger] paired(prev, cur)[i]).0,
            paired(prev, cur)[i].1,
        )
}

fn find_partner(prev: &[DiskStats], c: &DiskStats) -> (r: usize)
    ensures
        r == partner(prev@, *c, 0),
        r <= prev@.len(),
{
    let mut i: usize = 0;
    while i < prev.len() && !(prev[i].major == c.major && prev[i].minor == c.minor)
        invariant
            i <= prev@.len(),
            partner(prev@, *c, 0) == partner(prev@, *c, i as int),
        decreases prev@.len() - i,
    {
        i = i + 1;
    }
    i
}

proof fn lemma_paired_grows(prev: Seq<DiskStats>, cur: Seq<DiskStats>, n: int)
    requires
        0 <= n <= cur.len(),
    ensures
        paired(prev, cur.take(n)).is_prefix_of(paired(prev, cur)),
    decreases cur.len(),
{
    if n < cur.len() {
        assert(cur.drop_last().take(n) =~= cur.take(n));
        lemma_paired_grows(prev, cur.drop_last(), n);
    } else {
        assert(cur.take(n) =~= cur);
    }
}

/// Pairs the devices of two samples by number and gives the rates of each. A
/// device in only one of them is left out.
pub fn rates(prev: &[DiskStats], cur: &[DiskStats], elapsed_s: Binary64) -> (r: Vec<DiskRate>)
    requires
        all_fit(prev@, cur@),
    ensures
        rate_views(r@) == rates_between(prev@, cur@, elapsed_s),
{
    let mut out: Vec<DiskRate> = Vec::new();
    for i in 0..cur.len()
        invariant
            all_fit(prev@, cur@),
            out@.len() == paired(prev@, cur@.take(i as int)).len(),
            forall|j: int|
                0 <= j < out@.len() ==> (#[trigger] out@[j])@ == rate_between(
                    paired(prev@, cur@.take(i as int))[j].0,
                    paired(prev@, cur@.take(i as int))[j].1,
                    elapsed_s,
                ),
    {
        let c = &cur[i];
        let k = find_partner(prev, c);
        let ghost before = paired(prev@, cur@.take(i as int));
        let ghost after = paired(prev@, cur@.take(i as int + 1));
        assert(cur@.take(i as int + 1).drop_last() =~= cur@.take(i as int));
        if k < prev.len() {
            proof {
                lemma_paired_grows(prev@, cur@, i as int + 1);
                assert(after == before.push((prev@[k as int], cur@[i as int])));
                assert(after[before.len() as int] == paired(prev@, cur@)[before.len() as int]);
            }
            out.push(rate(&prev[k], c, elapsed_s));
        }
    }
    assert(cur@.take(cur@.len() as int) =~= cur@);
    assert(rate_views(out@) =~= rates_between(prev@, cur@, elapsed_s));
    out
}

fn sum_fits(a: u64, b: u64, c: u64, d: u64) -> (r: bool)
    ensures
        r == (a + b + c + d <= u64::MAX),
{
    a as u128 + b as u128 + c as u128 + d as u128 <= u64::MAX as u128
}

/// Whether `rates` can be asked of two samples.
pub fn rates_fit(prev: &[DiskStats], cur: &[DiskStats]) -> (r: bool)
    ensures
        r == all_fit(prev@, cur@),
{
    let mut ok: bool = true;
    for i in 0..cur.len()
        invariant
            ok == all_fit(prev@, cur@.take(i as int)),
    {
        let c = &cur[i];
        let k = find_partner(prev, c);
        let ghost before = paired(prev@, cur@.take(i as int));
        let ghost after = paired(prev@, cur@.take(i as int + 1));
        assert(cur@.take(i as int + 1).drop_last() =~= cur@.take(i as int));
        if k < prev.len() {
            let p = &prev[k];
            let reads = c.reads_completed.saturating_sub(p.reads_completed);
            let writes = c.writes_completed.saturating_sub(p.writes_completed);
            let sums = sum_fits(
                reads,
                writes,
                c.sectors_read.saturating_sub(p.sectors_read),
                c.sectors_written.saturating_sub(p.sectors_written),
            );
            let times = sum_fits(
                c.time_reading_ms.saturating_sub(p.time_reading_ms),
                c.time_writing_ms.saturating_sub(p.time_writing_ms),
                0,
                0,
            );
            let fits = sums && (times || (reads == 0 && writes == 0));
            proof {
                assert(after == before.push((prev@[k as int], cur@[i as int])));
                assert(fits == sums_fit(*p, *c));
                assert(after[before.len() as int] == (prev@[k as int], cur@[i as int]));
                assert forall|j: int| 0 <= j < before.len() implies after[j] == before[j] by {}
                if all_fit(prev@, cur@.take(i as int + 1)) {
                    assert forall|j: int| 0 <= j < before.len() implies sums_fit(
                        (#[trigger] before[j]).0,
                        before[j].1,
                    ) by {
                        assert(before[j] == after[j]);
                    }
                }
            }
            ok = ok && fits;
        } else {
            assert(after == before);
        }
    }
    assert(cur@.take(cur@.len() as int) =~= cur@);
    ok
}

/// No rate of a device is below zero, also where its counters went back.
pub proof fn rates_are_not_below_zero(prev: DiskStats, cur: DiskStats, elapsed_s: Binary64)
    requires
        !elapsed_s.negative(),
    ensures
        ({
            let r = rate_between(prev, cur, elapsed_s);
            &&& !r.r_s.below(zero())
            &&& !r.w_s.below(zero())
            &&& !r.rk_bps.below(zero())
            &&& !r.wk_bps.below(zero())
            &&& !r.aqu_sz.below(zero())
            &&& !r.await_ms.below(zero())
            &&& !r.util_pct.below(zero())
        }),
{
    whole_is_unsigned(512);
    whole_is_unsigned(1024);
    whole_is_unsigned(1000);
    whole_is_unsigned(100);
    let reads = growth(prev.reads_completed, cur.reads_completed);
    let writes = growth(prev.writes_completed, cur.writes_completed);
    let read = growth(prev.sectors_read, cur.sectors_read);
    let written = growth(prev.sectors_written, cur.sectors_written);
    let weighted = growth(prev.weighted_io_time_ms, cur.weighted_io_time_ms);
    let busy = growth(prev.io_time_ms, cur.io_time_ms);
    lemma_rate_of_count(reads, elapsed_s);
    lemma_rate_of_count(writes, elapsed_s);
    lemma_rate_of_sectors(read, elapsed_s);
    lemma_rate_of_sectors(written, elapsed_s);
    whole_is_unsigned(weighted);
    quotient_is_not_below_zero(whole(weighted), whole(1000));
    quotient_is_not_below_zero(quotient(whole(weighted), whole(1000)), elapsed_s);
    whole_is_unsigned(request_ms(prev, cur));
    whole_is_unsigned(requests(prev, cur));
    quotient_is_not_below_zero(whole(request_ms(prev, cur)), whole(requests(prev, cur)));
    whole_is_unsigned(busy);
    product_is_not_below_zero(elapsed_s, whole(1000));
    quotient_is_not_below_zero(whole(busy), product(elapsed_s, whole(1000)));
    product_is_not_below_zero(
        quotient(whole(busy), product(elapsed_s, whole(1000))),
        whole(100),
    );
}

proof fn lemma_rate_of_count(n: int, elapsed_s: Binary64)
    requires
        0 <= n,
        !elapsed_s.negative(),
    ensures
        !quotient(whole(n), elapsed_s).below(zero()),
{
    whole_is_unsigned(n);
    quotient_is_not_below_zero(whole(n), elapsed_s);
}

proof fn lemma_rate_of_sectors(n: int, elapsed_s: Binary64)
    requires
        0 <= n,
        !elapsed_s.negative(),
    ensures
        !quotient(sectors_kib(n), elapsed_s).below(zero()),
{
    whole_is_unsigned(n);
    whole_is_unsigned(512);
    whole_is_unsigned(1024);
    product_is_not_below_zero(whole(n), whole(512));
    quotient_is_not_below_zero(product(whole(n), whole(512)), whole(1024));
    quotient_is_not_below_zero(sectors_kib(n), elapsed_s);
}

// ---------------------------------------------------------------------------
// What the rates stand for

/// The counters of a device are the words of its line behind the name, in order.
pub proof fn counters_stand_in_order(d: DiskStats, line: Seq<char>, k: int)
    requires
        holds(d, line),
        0 <= k < 11,
    ensures
        Some(
            seq![
                d.reads_completed,
                d.reads_merged,
                d.sectors_read,
                d.time_reading_ms,
                d.writes_completed,
                d.writes_merged,
                d.sectors_written,
                d.time_writing_ms,
                d.in_flight,
                d.io_time_ms,
                d.weighted_io_time_ms,
            ][k],
        ) == unsigned(words(line)[k + 3], u64::MAX as int),
        d.device@ == words(line)[2],
{
}

/// A device is active exactly when a count of requests or sectors is greater in
/// the second sample.
pub proof fn active_when_a_counter_grows(prev: DiskStats, cur: DiskStats, elapsed_s: Binary64)
    ensures
        rate_between(prev, cur, elapsed_s).active <==> {
            ||| prev.reads_completed < cur.reads_completed
            ||| prev.writes_completed < cur.writes_completed
            ||| prev.sectors_read < cur.sectors_read
            ||| prev.sectors_written < cur.sectors_written
        },
        rate_between(prev, cur, elapsed_s).device == cur.device@,
{
}

/// Requests in a second: the number closest to the ratio of what was counted and
/// the seconds that passed, and nothing for a counter that did not grow.
pub proof fn requests_are_counted_by_the_second(prev: DiskStats, cur: DiskStats, t: int)
    requires
        0 < t <= 2 * STEP,
    ensures
        ({
            let r = rate_between(prev, cur, whole(t));
            &&& 0 <= cur.reads_completed - prev.reads_completed <= 2 * STEP ==> r.r_s == closest(
                cur.reads_completed - prev.reads_completed,
                t,
            )
            &&& 0 <= cur.writes_completed - prev.writes_completed <= 2 * STEP ==> r.w_s == closest(
                cur.writes_completed - prev.writes_completed,
                t,
            )
            &&& cur.reads_completed <= prev.reads_completed ==> r.r_s == zero()
            &&& cur.writes_completed <= prev.writes_completed ==> r.w_s == zero()
        }),
{
    lemma_seconds(t);
    nothing_per_second(whole(t));
    let a = growth(prev.reads_completed, cur.reads_completed);
    let b = growth(prev.writes_completed, cur.writes_completed);
    if a <= 2 * STEP {
        quotient_of_wholes(a, t);
    }
    if b <= 2 * STEP {
        quotient_of_wholes(b, t);
    }
}

proof fn lemma_seconds(t: int)
    requires
        0 < t <= 2 * STEP,
    ensures
        zero().below(whole(t)),
        whole(t).finite(),
{
    wholes_in_order(0, t);
    whole_of_nothing();
    whole_is_exact(t);
}

proof fn lemma_kib_per_second(k: int, t: int)
    requires
        0 <= k,
        0 < t <= 2 * STEP,
        1024 * (k * t) <= 2 * STEP,
    ensures
        quotient(sectors_kib(2 * (k * t)), whole(t)) == whole(k),
{
    let n = k * t;
    assert(n >= 0) by (nonlinear_arith)
        requires
            n == k * t,
            k >= 0,
            t > 0,
    ;
    product_of_wholes(2 * n, 512);
    assert((2 * n) * 512 == n * 1024);
    quotient_of_multiple(n, 1024);
    quotient_of_multiple(k, t);
}

/// Sectors of 512 bytes: two of them in a second are one KiB in a second, read
/// or written.
pub proof fn sectors_are_half_a_kib(prev: DiskStats, cur: DiskStats, k: int, t: int)
    requires
        0 <= k,
        0 < t <= 2 * STEP,
        1024 * (k * t) <= 2 * STEP,
    ensures
        cur.sectors_read == prev.sectors_read + 2 * (k * t) ==> rate_between(
            prev,
            cur,
            whole(t),
        ).rk_bps == whole(k),
        cur.sectors_written == prev.sectors_written + 2 * (k * t) ==> rate_between(
            prev,
            cur,
            whole(t),
        ).wk_bps == whole(k),
{
    assert(k * t >= 0) by (nonlinear_arith)
        requires
            k >= 0,
            t > 0,
    ;
    lemma_kib_per_second(k, t);
}

/// The time of a request: the number closest to the ratio of the milliseconds
/// spent on reads and writes and their number, and nothing without requests.
pub proof fn requests_share_their_time(prev: DiskStats, cur: DiskStats, elapsed_s: Binary64)
    requires
        prev.reads_completed <= cur.reads_completed,
        prev.writes_completed <= cur.writes_completed,
        prev.time_reading_ms <= cur.time_reading_ms,
        prev.time_writing_ms <= cur.time_writing_ms,
    ensures
        ({
            let r = rate_between(prev, cur, elapsed_s);
            let n = (cur.reads_completed - prev.reads_completed) + (cur.writes_completed
                - prev.writes_completed);
            let ms = (cur.time_reading_ms - prev.time_reading_ms) + (cur.time_writing_ms
                - prev.time_writing_ms);
            &&& n == 0 ==> r.await_ms == zero()
            &&& 0 < n <= 2 * STEP && ms <= 2 * STEP ==> r.await_ms == closest(ms, n)
        }),
{
    let n = requests(prev, cur);
    let ms = request_ms(prev, cur);
    if 0 < n <= 2 * STEP && ms <= 2 * STEP {
        quotient_of_wholes(ms, n);
    }
}

/// The queue: a second of every second that requests wait is a length of one.
pub proof fn queue_is_time_over_time(prev: DiskStats, cur: DiskStats, k: int, t: int)
    requires
        0 <= k,
        0 < t <= 2 * STEP,
        1000 * (k * t) <= 2 * STEP,
        cur.weighted_io_time_ms == prev.weighted_io_time_ms + 1000 * (k * t),
    ensures
        rate_between(prev, cur, whole(t)).aqu_sz == whole(k),
{
    assert(k * t >= 0) by (nonlinear_arith)
        requires
            k >= 0,
            t > 0,
    ;
    assert((k * t) * 1000 == 1000 * (k * t));
    quotient_of_multiple(k * t, 1000);
    quotient_of_multiple(k, t);
}

/// The load: a device that is busy for all of the time has 100 percent, and one
/// that is not at all has none.
pub proof fn load_is_busy_time(prev: DiskStats, cur: DiskStats, k: int, t: int)
    requires
        0 <= k <= 1000,
        0 < t,
        1000 * t <= 2 * STEP,
        k * (1000 * t) <= 2 * STEP,
        cur.io_time_ms == prev.io_time_ms + k * (1000 * t),
    ensures
        rate_between(prev, cur, whole(t)).util_pct == whole(100 * k),
{
    assert(k * (1000 * t) >= 0) by (nonlinear_arith)
        requires
            k >= 0,
            t > 0,
    ;
    product_of_wholes(t, 1000);
    assert(t * 1000 == 1000 * t);
    quotient_of_multiple(k, 1000 * t);
    product_of_wholes(k, 100);
    assert(k * 100 == 100 * k);
}

/// Whether `prev[i]` is the first sample of the device that `c` is of.
pub open spec fn first_of_device(prev: Seq<DiskStats>, c: DiskStats, i: int) -> bool {
    &&& 0 <= i < prev.len()
    &&& prev[i].major == c.major && prev[i].minor == c.minor
    &&& forall|j: int|
        0 <= j < i ==> (#[trigger] prev[j]).major != c.major || prev[j].minor != c.minor
}

proof fn lemma_partner_first(prev: Seq<DiskStats>, c: DiskStats, i: int)
    requires
        0 <= i <= prev.len(),
        forall|j: int|
            0 <= j < i ==> (#[trigger] prev[j]).major != c.major || prev[j].minor != c.minor,
    ensures
        i <= partner(prev, c, i) <= prev.len(),
        partner(prev, c, i) < prev.len() ==> first_of_device(prev, c, partner(prev, c, i)),
        partner(prev, c, i) == prev.len() ==> forall|j: int|
            0 <= j < prev.len() ==> (#[trigger] prev[j]).major != c.major || prev[j].minor
                != c.minor,
    decreases prev.len() - i,
{
    if i < prev.len() && !(prev[i].major == c.major && prev[i].minor == c.minor) {
        lemma_partner_first(prev, c, i + 1);
    }
}

/// Whether `r` is the rate of device `j` of the second sample.
pub open spec fn rate_of_device(
    prev: Seq<DiskStats>,
    cur: Seq<DiskStats>,
    elapsed_s: Binary64,
    r: RateView,
    j: int,
) -> bool {
    0 <= j < cur.len() && exists|i: int| #[trigger]
        first_of_device(prev, cur[j], i) && r == rate_between(prev[i], cur[j], elapsed_s)
}

/// Whether `r` is the rate of some device of the second sample.
pub open spec fn has_device(
    prev: Seq<DiskStats>,
    cur: Seq<DiskStats>,
    elapsed_s: Binary64,
    r: RateView,
) -> bool {
    exists|j: int| rate_of_device(prev, cur, elapsed_s, r, j)
}

/// Devices are told apart by their numbers: those that both samples hold have a
/// rate between the two, and no others.
pub proof fn devices_are_paired_by_number(
    prev: Seq<DiskStats>,
    cur: Seq<DiskStats>,
    elapsed_s: Binary64,
)
    ensures
        forall|k: int|
            0 <= k < rates_between(prev, cur, elapsed_s).len() ==> has_device(
                prev,
                cur,
                elapsed_s,
                #[trigger] rates_between(prev, cur, elapsed_s)[k],
            ),
        forall|i: int, j: int|
            0 <= j < cur.len() && #[trigger] first_of_device(prev, cur[j], i)
                ==> rates_between(prev, cur, elapsed_s).contains(
                rate_between(prev[i], cur[j], elapsed_s),
            ),
        rates_between(prev, cur, elapsed_s).len() <= cur.len(),
    decreases cur.len(),
{
    let all = rates_between(prev, cur, elapsed_s);
    if cur.len() > 0 {
        let h = cur.drop_last();
        let c = cur.last();
        devices_are_paired_by_number(prev, h, elapsed_s);
        let before = rates_between(prev, h, elapsed_s);
        lemma_partner_first(prev, c, 0);
        let p = partner(prev, c, 0);
        if p < prev.len() {
            assert(all =~= before.push(rate_between(prev[p], c, elapsed_s)));
        } else {
            assert(all =~= before);
        }
        assert forall|k: int| 0 <= k < all.len() implies has_device(
            prev,
            cur,
            elapsed_s,
            #[trigger] all[k],
        ) by {
            if k < before.len() {
                assert(all[k] == before[k]);
                let j = choose|j: int| rate_of_device(prev, h, elapsed_s, before[k], j);
                assert(h[j] == cur[j]);
                assert(rate_of_device(prev, cur, elapsed_s, all[k], j));
            } else {
                assert(first_of_device(prev, cur[cur.len() - 1], p));
                assert(rate_of_device(prev, cur, elapsed_s, all[k], cur.len() - 1));
            }
        }
        assert forall|i: int, j: int|
            0 <= j < cur.len() && #[trigger] first_of_device(
                prev,
                cur[j],
                i,
            ) implies all.contains(rate_between(prev[i], cur[j], elapsed_s)) by {
            let r = rate_between(prev[i], cur[j], elapsed_s);
            if j < h.len() {
                assert(h[j] == cur[j]);
                assert(first_of_device(prev, h[j], i));
                assert(before.contains(r));
                let k = choose|k: int| 0 <= k < before.len() && before[k] == r;
                assert(all[k] == r);
            } else {
                assert(p == i) by {
                    if p == prev.len() || p < i {
                        assert(prev[i].major == c.major);
                    } else if i < p {
                        assert(prev[i].major == c.major);
                    }
                }
                assert(all[before.len() as int] == r);
            }
        }
    }
}

/// Every line that says anything is read, and no other.
pub proof fn every_line_counts(ls: Seq<Seq<char>>, l: Seq<char>)
    ensures
        filled(ls).contains(l) <==> ls.contains(l) && trimmed(l).len() > 0,
{
    let pred = |x: Seq<char>| !blank(x);
    if ls.contains(l) && !blank(l) {
        let i = choose|i: int| 0 <= i < ls.len() && ls[i] == l;
        ls.lemma_filter_contains(pred, i);
    }
    if filled(ls).contains(l) {
        let i = choose|i: int| 0 <= i < filled(ls).len() && filled(ls)[i] == l;
        ls.lemma_filter_pred(pred, i);
        ls.lemma_filter_contains_rev(pred, l);
    }
}

/// A text is refused exactly when one of its lines that say anything has too few
/// words or a word that is no number where one should stand.
pub proof fn faulty_lines_are_refused(ls: Seq<Seq<char>>)
    ensures
        fault(ls) is None <==> forall|i: int|
            0 <= i < ls.len() ==> blank(#[trigger] ls[i]) || well_formed(ls[i]),
{
    lemma_first_fault(ls, 0);
    let f = first_fault(ls, 0);
    assert forall|i: int| 0 <= i < ls.len() implies (line_fault(#[trigger] ls[i]) is None
        <==> well_formed(ls[i])) by {
        lemma_first_bad(words(ls[i]), 0);
    }
    if f < ls.len() {
        assert(!blank(ls[f]) && !well_formed(ls[f]));
    }
}

/// Whether a line has its words: numbers, and a name in the third place.
pub open spec fn well_formed(line: Seq<char>) -> bool {
    &&& words(line).len() >= 14
    &&& forall|i: int|
        0 <= i < 14 && i != 2 ==> unsigned(#[trigger] words(line)[i], u64::MAX as int) is Some
}

proof fn lemma_first_bad(w: Seq<Seq<char>>, i: int)
    requires
        0 <= i <= FIELDS,
    ensures
        i <= first_bad(w, i) <= FIELDS,
        first_bad(w, i) == FIELDS <==> forall|j: int|
            i <= j < FIELDS && j != 2 ==> unsigned(#[trigger] w[j], u64::MAX as int) is Some,
    decreases FIELDS - i,
{
    if i < FIELDS {
        if i != 2 && field(w, i) is None {
            assert(unsigned(w[i], u64::MAX as int) is None);
        } else {
            lemma_first_bad(w, i + 1);
        }
    }
}

proof fn lemma_first_fault(ls: Seq<Seq<char>>, i: int)
    requires
        0 <= i <= ls.len(),
    ensures
        i <= first_fault(ls, i) <= ls.len(),
        first_fault(ls, i) < ls.len() ==> !blank(ls[first_fault(ls, i)]) && line_fault(
            ls[first_fault(ls, i)],
        ) is Some,
        forall|j: int|
            i <= j < first_fault(ls, i) ==> blank(#[trigger] ls[j]) || line_fault(ls[j]) is None,
    decreases ls.len() - i,
{
    if i < ls.len() && !(!blank(ls[i]) && line_fault(ls[i]) is Some) {
        lemma_first_fault(ls, i + 1);
    }
}

/// Loop devices, memory disks and optical drives are not counted as devices,
/// whatever follows in their names; names that begin otherwise are.
pub proof fn names_tell_pseudo_devices(rest: Seq<char>, name: Seq<char>)
    requires
        name.len() > 0 ==> name[0] != 'l' && name[0] != 'r' && name[0] != 'z' && name[0] != 's',
    ensures
        pseudo("loop"@ + rest),
        pseudo("ram"@ + rest),
        pseudo("zram"@ + rest),
        pseudo("sr"@ + rest),
        !pseudo(name),
        !pseudo("sd"@ + rest),
{
    reveal_strlit("loop");
    reveal_strlit("ram");
    reveal_strlit("zram");
    reveal_strlit("sr");
    reveal_strlit("sd");
    assert(("loop"@ + rest).subrange(0, 4) =~= "loop"@);
    assert(("ram"@ + rest).subrange(0, 3) =~= "ram"@);
    assert(("zram"@ + rest).subrange(0, 4) =~= "zram"@);
    assert(("sr"@ + rest).subrange(0, 2) =~= "sr"@);
    let d = "sd"@ + rest;
    assert(d[0] == 's' && d[1] == 'd');
    assert("loop"@[0] == 'l' && "ram"@[0] == 'r' && "zram"@[0] == 'z' && "sr"@[0] == 's' && "sr"@[1]
        == 'r');
    if "loop"@.is_prefix_of(name) {
        assert(name.subrange(0, 4)[0] == name[0]);
    }
    if "ram"@.is_prefix_of(name) {
        assert(name.subrange(0, 3)[0] == name[0]);
    }
    if "zram"@.is_prefix_of(name) {
        assert(name.subrange(0, 4)[0] == name[0]);
    }
    if "sr"@.is_prefix_of(name) {
        assert(name.subrange(0, 2)[0] == name[0]);
    }
    if "loop"@.is_prefix_of(d) {
        assert(d.subrange(0, 4)[0] == d[0]);
    }
    if "ram"@.is_prefix_of(d) {
        assert(d.subrange(0, 3)[0] == d[0]);
    }
    if "zram"@.is_prefix_of(d) {
        assert(d.subrange(0, 4)[0] == d[0]);
    }
    if "sr"@.is_prefix_of(d) {
        assert(d.subrange(0, 2)[1] == d[1]);
    }
}

} // verus!
