//! The ranking of threads or processes by IO.
//!
//! A scan holds what each thread, or each process, has counted since it
//! started. Two scans give the rates between them. Writes that were cancelled
//! do not count. The share of time spent waiting comes from `taskstats` where
//! the kernel gives it, and from clock ticks where it does not.

use std::collections::HashMap;
use vstd::arithmetic::power2::lemma_pow2_pos;
use vstd::prelude::*;
use vstd::slice::slice_subrange;
use vstd::std_specs::hash::*;
use vstd::utf8::{decode_utf8, valid_utf8};

use crate::binary64::{
    closest, integer_part, lemma_scaled_natural, nothing_per_second, part_of_one, product,
    product_is_not_below_zero, product_of_wholes, quotient, quotient_is_not_below_zero,
    quotient_of_multiple, quotient_of_wholes, scaled, sum, sum_of_wholes, unit, whole,
    whole_is_exact, whole_is_unsigned, whole_of_nothing, wholes_in_order, zero, Binary64, STEP,
};
use crate::diskstats::growth;
use crate::index::{lemma_place, place, Index};
use crate::ioprio::{has_class, priority, read_ioprio};
use crate::numeral::{fixed, format_fixed, wholes_have_zeros};
use crate::order::{
    arranged, arranged_in_order, arranged_keeps_all, key_views, less_from, ordering, places,
    sort_order,
};
use crate::proc_io::{capped_product, saturating_product, ProcIo, ProcStat};
use crate::records::disk::str_view;
use crate::syscall::priority_reply;
use crate::taskstats::Delays;
use crate::text::{
    at_left, at_right, chars_of, columns_have_their_width, decimal, decimal_of, digit, digits_only,
    fields, fields_of, is_digit, is_word, lemma_column, lemma_decimal, lemma_decimal_is_word,
    lemma_occurs_itself, lemma_occurs_within, lemma_words_within, lines, lines_of, lines_read_back,
    occurs, parse_unsigned, push_decimal, push_left, push_right, same_text, separated, space,
    spaces_around_are_cut, starts_with, string_of, trim, trimmed, trimmed_has_no_spaces_around,
    unsigned, views, words, words_of, words_read_back,
};

verus! {

// ---------------------------------------------------------------------------
// What a line of the ranking is about

/// Whom a line is about: one thread, or a process with all its threads.
pub struct Ident {
    /// The thread's number, or the process's in the view of processes.
    pub id: u32,
    /// The thread's name.
    pub comm: String,
    /// The command line in one line; empty for a thread of the kernel.
    pub cmdline: String,
    /// The process that the thread belongs to.
    pub pid: u32,
    /// The real user; `u32::MAX` where it could not be read.
    pub uid: u32,
    /// The IO priority, such as `be/4`.
    pub prio: String,
}

/// What an `Ident` holds.
pub struct Who {
    pub id: u32,
    pub comm: Seq<char>,
    pub cmdline: Seq<char>,
    pub pid: u32,
    pub uid: u32,
    pub prio: Seq<char>,
}

impl View for Ident {
    type V = Who;

    open spec fn view(&self) -> Who {
        Who {
            id: self.id,
            comm: self.comm@,
            cmdline: self.cmdline@,
            pid: self.pid,
            uid: self.uid,
            prio: self.prio@,
        }
    }
}

impl Clone for Ident {
    fn clone(&self) -> (r: Ident)
        ensures
            r == *self,
    {
        Ident {
            id: self.id,
            comm: self.comm.clone(),
            cmdline: self.cmdline.clone(),
            pid: self.pid,
            uid: self.uid,
            prio: self.prio.clone(),
        }
    }
}

/// What a thread or process has counted since it started.
pub struct Agg {
    pub read_bytes: u64,
    pub write_bytes: u64,
    pub cancelled_write_bytes: u64,
    /// Nanoseconds spent waiting for block IO.
    pub blkio_delay_ns: u64,
    /// Nanoseconds spent waiting for pages to be swapped in.
    pub swapin_delay_ns: u64,
    pub ident: Ident,
}

/// What an `Agg` holds.
pub struct Tally {
    pub read: u64,
    pub write: u64,
    pub cancelled: u64,
    pub blkio: u64,
    pub swapin: u64,
    pub who: Who,
}

impl View for Agg {
    type V = Tally;

    open spec fn view(&self) -> Tally {
        Tally {
            read: self.read_bytes,
            write: self.write_bytes,
            cancelled: self.cancelled_write_bytes,
            blkio: self.blkio_delay_ns,
            swapin: self.swapin_delay_ns,
            who: self.ident@,
        }
    }
}

/// One scan of all threads.
pub struct Scan {
    /// The counts by thread or process, in the order of first appearance.
    pub aggs: Vec<(u32, Agg)>,
    /// How many threads could not be read.
    pub skipped: usize,
    /// Bytes that `/proc/vmstat` counts; `None` where it could not be read.
    pub vm_read: Option<u64>,
    pub vm_write: Option<u64>,
}

/// The counts of a list by number.
pub open spec fn tallies(aggs: Seq<(u32, Agg)>) -> Seq<(u32, Tally)> {
    Seq::new(aggs.len(), |i: int| (aggs[i].0, aggs[i].1@))
}

/// The numbers of a list.
pub open spec fn numbers(t: Seq<(u32, Tally)>) -> Seq<u64> {
    Seq::new(t.len(), |i: int| t[i].0 as u64)
}

/// One thread, as its files show it.
pub struct Thread {
    pub pid: u32,
    pub tid: u32,
    pub uid: u32,
    pub cmdline: String,
    /// `None` where the file could not be read.
    pub io: Option<ProcIo>,
    pub stat: Option<ProcStat>,
    /// What `taskstats` say, where they say anything.
    pub delays: Option<Delays>,
    /// The kernel's reply to `ioprio_get`.
    pub prio: Option<isize>,
}

// ---------------------------------------------------------------------------
// Reading

/// The names that are numbers, as numbers.
pub open spec fn numeric_names(names: Seq<Seq<char>>) -> Seq<u32>
    decreases names.len(),
{
    if names.len() == 0 {
        seq![]
    } else {
        let before = numeric_names(names.drop_last());
        let n = names.last();
        match unsigned(n, u32::MAX as int) {
            Some(v) => if digits_only(n) {
                before.push(v as u32)
            } else {
                before
            },
            None => before,
        }
    }
}

/// What a list of strings holds.
pub open spec fn string_views(v: Seq<String>) -> Seq<Seq<char>> {
    Seq::new(v.len(), |i: int| v[i]@)
}

/// The numbers among a directory's names: processes under `/proc`, threads
/// under a process's `task`.
pub fn list_numeric_dirs(names: &[String]) -> (r: Vec<u32>)
    ensures
        r@ == numeric_names(string_views(names@)),
{
    let mut out: Vec<u32> = Vec::new();
    let ghost g = string_views(names@);
    for i in 0..names.len()
        invariant
            g == string_views(names@),
            out@ == numeric_names(g.take(i as int)),
    {
        let cs = chars_of(names[i].as_str());
        let name = cs.as_slice();
        assert(g.take(i as int + 1).drop_last() =~= g.take(i as int));
        assert(g.take(i as int + 1).last() == name@);
        let mut all: bool = true;
        for j in 0..name.len()
            invariant
                all == (forall|k: int| 0 <= k < j ==> digit(#[trigger] name@[k])),
        {
            if !is_digit(name[j]) {
                all = false;
            }
        }
        if all {
            if let Some(v) = parse_unsigned(name, u32::MAX as u64) {
                out.push(v as u32);
            }
        }
    }
    assert(g.take(g.len() as int) =~= g);
    out
}

/// The first of the lines from `i` on that begins with `Uid:`.
pub open spec fn uid_line(ls: Seq<Seq<char>>, i: int) -> int
    decreases ls.len() - i,
{
    if i >= ls.len() {
        ls.len() as int
    } else if "Uid:"@.is_prefix_of(ls[i]) {
        i
    } else {
        uid_line(ls, i + 1)
    }
}

/// The real user that `/proc/<pid>/status` names.
pub open spec fn uid_in(content: Seq<char>) -> Option<u64> {
    let ls = lines(content);
    let i = uid_line(ls, 0);
    if i < ls.len() {
        let w = words(ls[i].subrange(4, ls[i].len() as int));
        if w.len() > 0 {
            unsigned(w[0], u32::MAX as int)
        } else {
            None
        }
    } else {
        None
    }
}

/// The real user in the text of `/proc/<pid>/status`.
pub fn read_uid(content: &str) -> (r: Option<u32>)
    ensures
        match r {
            Some(u) => uid_in(content@) == Some(u as u64),
            None => uid_in(content@) is None,
        },
{
    let cs = chars_of(content);
    let ls = lines_of(cs.as_slice());
    let ghost g = lines(content@);
    proof {
        reveal_strlit("Uid:");
    }
    for i in 0..ls.len()
        invariant
            g == views(ls@),
            g == lines(content@),
            "Uid:"@.len() == 4,
            uid_line(g, 0) == uid_line(g, i as int),
    {
        let line = ls[i];
        assert(g[i as int] == line@);
        if starts_with(line, "Uid:") {
            let rest = slice_subrange(line, 4, line.len());
            let w = words_of(rest);
            let ghost wg = words(rest@);
            assert(wg == views(w@));
            if w.len() == 0 {
                return None;
            }
            assert(wg[0] == w@[0]@);
            return match parse_unsigned(w[0], u32::MAX as u64) {
                Some(u) => Some(u as u32),
                None => None,
            };
        }
    }
    None
}

/// What `String::from_utf8_lossy` makes of bytes.
pub uninterp spec fn lossy(bytes: Seq<u8>) -> Seq<char>;

/// `String::from_utf8_lossy` gives a text that depends on the bytes alone.
/// Bytes that are valid UTF-8 give the text that they encode; what stands for
/// other bytes is left unsaid.
#[verifier::external_body]
pub(crate) fn lossy_text(bytes: &[u8]) -> (r: String)
    ensures
        r@ == lossy(bytes@),
        valid_utf8(bytes@) ==> r@ == decode_utf8(bytes@),
{
    String::from_utf8_lossy(bytes).into_owned()
}

/// The end of a text once the zero characters at its end are dropped.
pub open spec fn zeros_end(s: Seq<char>, n: int) -> int
    decreases n,
{
    if n <= 0 || s[n - 1] != '\0' {
        n
    } else {
        zeros_end(s, n - 1)
    }
}

/// A command line, whose arguments end with zero characters, in one line.
pub open spec fn one_line(s: Seq<char>) -> Seq<char> {
    let kept = s.take(zeros_end(s, s.len() as int));
    trimmed(
        Seq::new(
            kept.len(),
            |i: int|
                if kept[i] == '\0' {
                    ' '
                } else {
                    kept[i]
                },
        ),
    )
}

/// A command line as text, in one line.
pub fn one_line_of(text: &str) -> (r: String)
    ensures
        r@ == one_line(text@),
{
    let cs = chars_of(text);
    let mut n: usize = cs.len();
    while n > 0 && cs[n - 1] == '\0'
        invariant
            n <= cs@.len(),
            zeros_end(cs@, cs@.len() as int) == zeros_end(cs@, n as int),
        decreases n,
    {
        n = n - 1;
    }
    let ghost kept = cs@.take(n as int);
    let ghost want = Seq::new(
        kept.len(),
        |i: int|
            if kept[i] == '\0' {
                ' '
            } else {
                kept[i]
            },
    );
    let mut out: Vec<char> = Vec::new();
    for i in 0..n
        invariant
            n <= cs@.len(),
            kept == cs@.take(n as int),
            out@.len() == i,
            forall|j: int|
                0 <= j < i ==> #[trigger] out@[j] == if kept[j] == '\0' {
                    ' '
                } else {
                    kept[j]
                },
    {
        if cs[i] == '\0' {
            out.push(' ');
        } else {
            out.push(cs[i]);
        }
    }
    assert(out@ =~= want);
    string_of(trim(out.as_slice()))
}

/// The bytes of `/proc/<pid>/cmdline` in one line; empty for a thread of the
/// kernel.
pub fn fmt_cmdline(bytes: &[u8]) -> (r: String)
    ensures
        r@ == one_line(lossy(bytes@)),
        valid_utf8(bytes@) ==> r@ == one_line(decode_utf8(bytes@)),
{
    let text = lossy_text(bytes);
    one_line_of(text.as_str())
}

/// Whether a text of `task_delayacct` says that delays are counted. Without one
/// they are.
pub open spec fn counts_delays(content: Option<Seq<char>>) -> bool {
    match content {
        Some(s) => trimmed(s) != "0"@,
        None => true,
    }
}

/// Whether the kernel counts delays, by the text of `task_delayacct`. A kernel
/// without that file always does.
pub fn delayacct_enabled(content: Option<&str>) -> (r: bool)
    ensures
        r == counts_delays(str_view(content)),
{
    match content {
        Some(s) => {
            let cs = chars_of(s);
            !same_text(trim(cs.as_slice()), "0")
        },
        None => true,
    }
}

// ---------------------------------------------------------------------------
// Scanning

/// Whether both of a thread's files were read.
pub open spec fn readable(t: Thread) -> bool {
    t.io is Some && t.stat is Some
}

/// The number that a thread counts under.
pub open spec fn number_of(per_process: bool, t: Thread) -> u32 {
    if per_process {
        t.pid
    } else {
        t.tid
    }
}

/// Whom a thread's counts are about.
pub open spec fn who_of(per_process: bool, t: Thread) -> Who {
    Who {
        id: number_of(per_process, t),
        comm: t.stat->0.comm@,
        cmdline: t.cmdline@,
        pid: t.pid,
        uid: t.uid,
        prio: priority(priority_reply(t.prio), t.stat->0.nice as int, t.stat->0.policy),
    }
}

/// Nanoseconds that a thread has waited for block IO and for swapping in. A
/// clock tick is 10 milliseconds.
pub open spec fn waits(t: Thread) -> (int, int) {
    match t.delays {
        Some(d) => (d.blkio_ns as int, d.swapin_ns as int),
        None => (capped_product(t.stat->0.blkio_ticks as int, 10_000_000), 0),
    }
}

/// Counts of zero.
pub open spec fn nothing_yet(who: Who) -> Tally {
    Tally { read: 0, write: 0, cancelled: 0, blkio: 0, swapin: 0, who }
}

/// The counts under a thread's number before the thread is taken in.
pub open spec fn held(aggs: Seq<(u32, Tally)>, per_process: bool, t: Thread) -> Tally {
    let i = place(numbers(aggs), number_of(per_process, t) as u64);
    if i < aggs.len() {
        aggs[i].1
    } else {
        nothing_yet(who_of(per_process, t))
    }
}

/// Counts with a thread taken in. A process goes by the name of its first
/// thread, the one that has its number.
pub open spec fn raised(old_tally: Tally, per_process: bool, t: Thread) -> Tally {
    Tally {
        read: (old_tally.read + t.io->0.read_bytes) as u64,
        write: (old_tally.write + t.io->0.write_bytes) as u64,
        cancelled: (old_tally.cancelled + t.io->0.cancelled_write_bytes) as u64,
        blkio: (old_tally.blkio + waits(t).0) as u64,
        swapin: (old_tally.swapin + waits(t).1) as u64,
        who: if t.tid == t.pid {
            who_of(per_process, t)
        } else {
            old_tally.who
        },
    }
}

/// The counts with one more thread taken in. One that could not be read leaves
/// them as they are.
pub open spec fn taken(aggs: Seq<(u32, Tally)>, per_process: bool, t: Thread) -> Seq<(u32, Tally)> {
    let n = number_of(per_process, t);
    let i = place(numbers(aggs), n as u64);
    let new_tally = raised(held(aggs, per_process, t), per_process, t);
    if !readable(t) {
        aggs
    } else if i < aggs.len() {
        aggs.update(i, (n, new_tally))
    } else {
        aggs.push((n, new_tally))
    }
}

/// The counts of all threads.
pub open spec fn counted(per_process: bool, threads: Seq<Thread>) -> Seq<(u32, Tally)>
    decreases threads.len(),
{
    if threads.len() == 0 {
        seq![]
    } else {
        taken(counted(per_process, threads.drop_last()), per_process, threads.last())
    }
}

/// How many threads could not be read.
pub open spec fn unreadable(threads: Seq<Thread>) -> int
    decreases threads.len(),
{
    if threads.len() == 0 {
        0
    } else {
        unreadable(threads.drop_last()) + if readable(threads.last()) {
            0int
        } else {
            1int
        }
    }
}

/// Whether a thread can be taken in: the sums fit in 64 bits, and a priority
/// can be told.
pub open spec fn takeable(aggs: Seq<(u32, Tally)>, per_process: bool, t: Thread) -> bool {
    readable(t) ==> {
        let h = held(aggs, per_process, t);
        &&& h.read + t.io->0.read_bytes <= u64::MAX
        &&& h.write + t.io->0.write_bytes <= u64::MAX
        &&& h.cancelled + t.io->0.cancelled_write_bytes <= u64::MAX
        &&& h.blkio + waits(t).0 <= u64::MAX
        &&& h.swapin + waits(t).1 <= u64::MAX
        &&& has_class(priority_reply(t.prio)) || t.stat->0.nice <= i64::MAX - 20
    }
}

/// Whether all threads can be taken in, one after another.
pub open spec fn all_takeable(per_process: bool, threads: Seq<Thread>) -> bool
    decreases threads.len(),
{
    threads.len() == 0 || {
        &&& all_takeable(per_process, threads.drop_last())
        &&& takeable(counted(per_process, threads.drop_last()), per_process, threads.last())
    }
}

/// Whether a scan holds the counts of these threads.
pub open spec fn scan_of(s: Scan, per_process: bool, threads: Seq<Thread>, vm: Option<(u64, u64)>) -> bool {
    &&& tallies(s.aggs@) == counted(per_process, threads)
    &&& s.skipped == unreadable(threads)
    &&& s.vm_read == match vm {
        Some((r, w)) => Some(r),
        None => None,
    }
    &&& s.vm_write == match vm {
        Some((r, w)) => Some(w),
        None => None,
    }
}

/// Numbers occur once each in a scan.
pub proof fn numbers_are_unique(per_process: bool, threads: Seq<Thread>)
    ensures
        numbers(counted(per_process, threads)).no_duplicates(),
    decreases threads.len(),
{
    if threads.len() > 0 {
        let h = threads.drop_last();
        let t = threads.last();
        numbers_are_unique(per_process, h);
        let before = counted(per_process, h);
        let after = counted(per_process, threads);
        let n = number_of(per_process, t);
        lemma_place(numbers(before), n as u64);
        if readable(t) {
            if place(numbers(before), n as u64) < before.len() {
                assert(numbers(after) =~= numbers(before));
            } else {
                assert(numbers(after) =~= numbers(before).push(n as u64));
            }
        }
    }
}

fn waits_of(t: &Thread, ticks: u64) -> (r: (u64, u64))
    requires
        t.stat is Some,
        ticks == t.stat->0.blkio_ticks,
    ensures
        r.0 == waits(*t).0,
        r.1 == waits(*t).1,
{
    match &t.delays {
        Some(d) => (d.blkio_ns, d.swapin_ns),
        None => (saturating_product(ticks, 10_000_000), 0),
    }
}

fn sum_within(a: u64, b: u64) -> (r: bool)
    ensures
        r == (a + b <= u64::MAX),
{
    a <= u64::MAX - b
}

/// One scan, from what the files of all threads show, in the order in which
/// they were listed. `None` where a sum does not fit in 64 bits.
pub fn scan_checked(per_process: bool, threads: &[Thread], vm: Option<(u64, u64)>) -> (r: Option<Scan>)
    ensures
        match r {
            Some(s) => all_takeable(per_process, threads@) && scan_of(s, per_process, threads@, vm),
            None => !all_takeable(per_process, threads@),
        },
{
    let mut aggs: Vec<(u32, Agg)> = Vec::new();
    let mut index = Index::new();
    let mut skipped: usize = 0;
    assert(tallies(aggs@) =~= seq![]);
    assert(numbers(tallies(aggs@)) =~= seq![]);
    for i in 0..threads.len()
        invariant
            index.of(numbers(tallies(aggs@))),
            tallies(aggs@) == counted(per_process, threads@.take(i as int)),
            skipped == unreadable(threads@.take(i as int)),
            skipped <= i,
            all_takeable(per_process, threads@.take(i as int)),
    {
        let t = &threads[i];
        let ghost head = threads@.take(i as int);
        let ghost so_far = tallies(aggs@);
        let ghost keys = numbers(so_far);
        assert(threads@.take(i as int + 1).drop_last() =~= head);
        assert(threads@.take(i as int + 1).last() == *t);
        match (&t.io, &t.stat) {
            (Some(io), Some(stat)) => {
                if !crate::ioprio::ioprio_fits(t.prio, stat.nice) {
                    proof {
                        lemma_untakeable(per_process, threads@, i as int);
                    }
                    return None;
                }
                let (blkio_ns, swapin_ns) = waits_of(t, stat.blkio_ticks);
                let key: u32 = if per_process {
                    t.pid
                } else {
                    t.tid
                };
                let ident = Ident {
                    id: key,
                    comm: stat.comm.clone(),
                    cmdline: t.cmdline.clone(),
                    pid: t.pid,
                    uid: t.uid,
                    prio: read_ioprio(t.prio, stat.nice, stat.policy),
                };
                assert(ident@ == who_of(per_process, *t));
                let found = index.find(key as u64, Ghost(keys));
                let (read0, write0, cancelled0, blkio0, swapin0): (u64, u64, u64, u64, u64) =
                    match found {
                    Some(k) => {
                        assert(so_far[k as int].1 == aggs@[k as int].1@);
                        (
                            aggs[k].1.read_bytes,
                            aggs[k].1.write_bytes,
                            aggs[k].1.cancelled_write_bytes,
                            aggs[k].1.blkio_delay_ns,
                            aggs[k].1.swapin_delay_ns,
                        )
                    },
                    None => (0, 0, 0, 0, 0),
                };
                let ghost h = held(so_far, per_process, *t);
                assert(h.read == read0 && h.write == write0 && h.cancelled == cancelled0 && h.blkio
                    == blkio0 && h.swapin == swapin0);
                if !(sum_within(read0, io.read_bytes) && sum_within(write0, io.write_bytes)
                    && sum_within(cancelled0, io.cancelled_write_bytes) && sum_within(
                    blkio0,
                    blkio_ns,
                ) && sum_within(swapin0, swapin_ns)) {
                    proof {
                        lemma_untakeable(per_process, threads@, i as int);
                    }
                    return None;
                }
                let whom: Ident = match found {
                    Some(k) => if t.tid == t.pid {
                        ident
                    } else {
                        aggs[k].1.ident.clone()
                    },
                    None => ident,
                };
                let agg = Agg {
                    read_bytes: read0 + io.read_bytes,
                    write_bytes: write0 + io.write_bytes,
                    cancelled_write_bytes: cancelled0 + io.cancelled_write_bytes,
                    blkio_delay_ns: blkio0 + blkio_ns,
                    swapin_delay_ns: swapin0 + swapin_ns,
                    ident: whom,
                };
                assert(agg@ == raised(h, per_process, *t));
                match found {
                    Some(k) => {
                        aggs.set(k, (key, agg));
                        assert(tallies(aggs@) =~= taken(so_far, per_process, *t));
                        assert(numbers(tallies(aggs@)) =~= keys);
                    },
                    None => {
                        let n = aggs.len();
                        aggs.push((key, agg));
                        index.append(key as u64, n, Ghost(keys));
                        assert(tallies(aggs@) =~= taken(so_far, per_process, *t));
                        assert(numbers(tallies(aggs@)) =~= keys.push(key as u64));
                    },
                }
            },
            _ => {
                skipped = skipped + 1;
            },
        }
    }
    assert(threads@.take(threads@.len() as int) =~= threads@);
    let (vm_read, vm_write) = match vm {
        Some((r, w)) => (Some(r), Some(w)),
        None => (None, None),
    };
    Some(Scan { aggs, skipped, vm_read, vm_write })
}

proof fn lemma_untakeable(per_process: bool, threads: Seq<Thread>, n: int)
    requires
        0 <= n < threads.len(),
        !takeable(counted(per_process, threads.take(n)), per_process, threads[n]),
    ensures
        !all_takeable(per_process, threads),
    decreases threads.len(),
{
    if n == threads.len() - 1 {
        assert(threads.drop_last() =~= threads.take(n));
    } else {
        assert(threads.drop_last().take(n) =~= threads.take(n));
        lemma_untakeable(per_process, threads.drop_last(), n);
    }
}

/// One scan, from what the files of all threads show. A thread that could not
/// be read is counted and passed over.
pub fn scan(per_process: bool, threads: &[Thread], vm: Option<(u64, u64)>) -> (r: Scan)
    requires
        all_takeable(per_process, threads@),
    ensures
        scan_of(r, per_process, threads@, vm),
{
    match scan_checked(per_process, threads, vm) {
        Some(s) => s,
        None => Scan { aggs: Vec::new(), skipped: 0, vm_read: None, vm_write: None },
    }
}

// ---------------------------------------------------------------------------
// Rates

/// One line of the ranking.
pub struct Row {
    pub read_bps: Binary64,
    pub write_bps: Binary64,
    pub swapin_pct: Binary64,
    /// Share of the interval spent waiting for block IO, at most 100.
    pub io_pct: Binary64,
    pub ident: Ident,
}

/// What a `Row` holds.
pub struct Rates {
    pub read: Binary64,
    pub write: Binary64,
    pub swapin: Binary64,
    pub io: Binary64,
    pub who: Who,
}

impl View for Row {
    type V = Rates;

    open spec fn view(&self) -> Rates {
        Rates {
            read: self.read_bps,
            write: self.write_bps,
            swapin: self.swapin_pct,
            io: self.io_pct,
            who: self.ident@,
        }
    }
}

impl Clone for Row {
    fn clone(&self) -> (r: Row)
        ensures
            r == *self,
    {
        Row {
            read_bps: self.read_bps,
            write_bps: self.write_bps,
            swapin_pct: self.swapin_pct,
            io_pct: self.io_pct,
            ident: self.ident.clone(),
        }
    }
}

pub open spec fn row_views(rows: Seq<Row>) -> Seq<Rates> {
    Seq::new(rows.len(), |i: int| rows[i]@)
}

/// Nanoseconds as a percentage of seconds, at most 100.
pub open spec fn delay_share(delta_ns: int, elapsed_s: Binary64) -> Binary64 {
    if zero().below(elapsed_s) {
        quotient(whole(delta_ns), product(elapsed_s, whole(10_000_000))).lesser(whole(100))
    } else {
        zero()
    }
}

/// Nanoseconds as a percentage of the interval, at most 100. An interval that
/// is not positive has no share.
pub fn delay_pct(delta_ns: u64, elapsed_s: Binary64) -> (r: Binary64)
    ensures
        r == delay_share(delta_ns as int, elapsed_s),
{
    if !Binary64::from_bits(0).lt(&elapsed_s) {
        return Binary64::from_bits(0);
    }
    Binary64::from_u64(delta_ns).over(&elapsed_s.times(&Binary64::from_u64(10_000_000))).min(
        &Binary64::from_u64(100),
    )
}

/// Bytes written and not cancelled between two counts.
pub open spec fn net_writes(p: Tally, c: Tally) -> int {
    let written = growth(p.write, c.write);
    let cancelled = growth(p.cancelled, c.cancelled);
    if written > cancelled {
        written - cancelled
    } else {
        0
    }
}

/// The rates between two counts.
pub open spec fn rates_of(p: Tally, c: Tally, elapsed_s: Binary64) -> Rates {
    Rates {
        read: quotient(whole(growth(p.read, c.read)), elapsed_s),
        write: quotient(whole(net_writes(p, c)), elapsed_s),
        swapin: delay_share(growth(p.swapin, c.swapin), elapsed_s),
        io: delay_share(growth(p.blkio, c.blkio), elapsed_s),
        who: c.who,
    }
}

/// The rates of all that both scans hold, in the order of the second.
pub open spec fn differences(
    prev: Seq<(u32, Tally)>,
    cur: Seq<(u32, Tally)>,
    elapsed_s: Binary64,
) -> Seq<Rates>
    decreases cur.len(),
{
    if cur.len() == 0 {
        seq![]
    } else {
        let before = differences(prev, cur.drop_last(), elapsed_s);
        let i = place(numbers(prev), cur.last().0 as u64);
        if i < prev.len() {
            before.push(rates_of(prev[i].1, cur.last().1, elapsed_s))
        } else {
            before
        }
    }
}

/// The rates between two scans. What only one of them holds has none.
pub fn diff(prev: &Scan, cur: &Scan, elapsed_s: Binary64) -> (r: Vec<Row>)
    ensures
        row_views(r@) == differences(tallies(prev.aggs@), tallies(cur.aggs@), elapsed_s),
{
    let ghost p = tallies(prev.aggs@);
    let ghost c = tallies(cur.aggs@);
    let mut index = Index::new();
    assert(numbers(p).take(0) =~= seq![]);
    for i in 0..prev.aggs.len()
        invariant
            p == tallies(prev.aggs@),
            index.of(numbers(p).take(i as int)),
    {
        index.append(prev.aggs[i].0 as u64, i, Ghost(numbers(p).take(i as int)));
        assert(numbers(p).take(i as int + 1) =~= numbers(p).take(i as int).push(
            numbers(p)[i as int],
        ));
    }
    assert(numbers(p).take(p.len() as int) =~= numbers(p));
    let mut out: Vec<Row> = Vec::new();
    assert(row_views(out@) =~= seq![]);
    for i in 0..cur.aggs.len()
        invariant
            p == tallies(prev.aggs@),
            c == tallies(cur.aggs@),
            index.of(numbers(p)),
            row_views(out@) == differences(p, c.take(i as int), elapsed_s),
    {
        assert(c.take(i as int + 1).drop_last() =~= c.take(i as int));
        let ghost before = out@;
        let now = &cur.aggs[i].1;
        assert(c[i as int] == (cur.aggs@[i as int].0, now@));
        if let Some(k) = index.find(cur.aggs[i].0 as u64, Ghost(numbers(p))) {
            let was = &prev.aggs[k].1;
            assert(p[k as int].1 == was@);
            let written = now.write_bytes.saturating_sub(was.write_bytes);
            let cancelled = now.cancelled_write_bytes.saturating_sub(was.cancelled_write_bytes);
            let row = Row {
                read_bps: Binary64::from_u64(now.read_bytes.saturating_sub(was.read_bytes)).over(
                    &elapsed_s,
                ),
                write_bps: Binary64::from_u64(written.saturating_sub(cancelled)).over(&elapsed_s),
                swapin_pct: delay_pct(
                    now.swapin_delay_ns.saturating_sub(was.swapin_delay_ns),
                    elapsed_s,
                ),
                io_pct: delay_pct(now.blkio_delay_ns.saturating_sub(was.blkio_delay_ns), elapsed_s),
                ident: now.ident.clone(),
            };
            assert(row@ == rates_of(was@, now@, elapsed_s));
            out.push(row);
            assert(row_views(out@) =~= row_views(before).push(row@));
        }
    }
    assert(c.take(c.len() as int) =~= c);
    out
}

/// A number for which a greater one comes first.
pub open spec fn falling(x: Binary64) -> u64 {
    (u64::MAX - x.rank()) as u64
}

pub fn falling_key(x: &Binary64) -> (r: u64)
    ensures
        r == falling(*x),
{
    u64::MAX - x.order_key()
}

/// What a line is ranked by: bytes read and written, the share of time spent on
/// block IO and on swapping in, each with the greater first, then the number.
pub open spec fn rank_key(r: Rates) -> Seq<u64> {
    seq![
        falling(sum(r.read, r.write)),
        falling(r.io),
        falling(r.swapin),
        r.who.id as u64,
    ]
}

pub open spec fn rank_keys(rows: Seq<Rates>) -> Seq<Seq<u64>> {
    Seq::new(rows.len(), |i: int| rank_key(rows[i]))
}

/// The lines in the order of the ranking.
pub open spec fn ranked(rows: Seq<Rates>) -> Seq<Rates> {
    arranged(rows, rank_keys(rows))
}

/// Puts the lines in the order of the ranking.
pub fn order(rows: &mut Vec<Row>)
    ensures
        row_views(final(rows)@) == ranked(row_views(old(rows)@)),
{
    let ghost start = rows@;
    let ghost g = row_views(start);
    let mut keys: Vec<Vec<u64>> = Vec::new();
    for i in 0..rows.len()
        invariant
            rows@ == start,
            keys@.len() == i,
            forall|j: int| 0 <= j < i ==> (#[trigger] keys@[j])@ == rank_key(start[j]@),
    {
        let r = &rows[i];
        let key: Vec<u64> = vec![
            falling_key(&r.read_bps.plus(&r.write_bps)),
            falling_key(&r.io_pct),
            falling_key(&r.swapin_pct),
            r.ident.id as u64,
        ];
        assert(key@ =~= rank_key(start[i as int]@));
        keys.push(key);
    }
    assert(key_views(keys@) =~= rank_keys(g));
    let p = sort_order(&keys);
    let mut out: Vec<Row> = Vec::new();
    for i in 0..p.len()
        invariant
            rows@ == start,
            g == row_views(start),
            p@.len() == start.len(),
            forall|j: int| 0 <= j < p@.len() ==> #[trigger] p@[j] < start.len(),
            places(p@) == ordering(rank_keys(g)),
            out@.len() == i,
            forall|j: int| 0 <= j < i ==> (#[trigger] out@[j])@ == ranked(g)[j],
    {
        out.push(rows[p[i]].clone());
        assert(places(p@)[i as int] == p@[i as int]);
    }
    *rows = out;
    assert(row_views(rows@) =~= ranked(g));
}

/// Bytes to and from storage in a second, by what `/proc/vmstat` counts. There
/// is no rate where a count is missing or no time has passed.
pub open spec fn storage_rates(prev: Scan, cur: Scan, elapsed_s: Binary64) -> (Binary64, Binary64) {
    match (prev.vm_read, prev.vm_write, cur.vm_read, cur.vm_write) {
        (Some(pr), Some(pw), Some(cr), Some(cw)) => if zero().below(elapsed_s) {
            (quotient(whole(growth(pr, cr)), elapsed_s), quotient(whole(growth(pw, cw)), elapsed_s))
        } else {
            (zero(), zero())
        },
        _ => (zero(), zero()),
    }
}

pub fn actual_bps(prev: &Scan, cur: &Scan, elapsed_s: Binary64) -> (r: (Binary64, Binary64))
    ensures
        r == storage_rates(*prev, *cur, elapsed_s),
{
    let none = Binary64::from_bits(0);
    match (prev.vm_read, prev.vm_write, cur.vm_read, cur.vm_write) {
        (Some(pr), Some(pw), Some(cr), Some(cw)) => {
            if none.lt(&elapsed_s) {
                (
                    Binary64::from_u64(cr.saturating_sub(pr)).over(&elapsed_s),
                    Binary64::from_u64(cw.saturating_sub(pw)).over(&elapsed_s),
                )
            } else {
                (none, none)
            }
        },
        _ => (none, none),
    }
}

/// The sums of all lines' reads and writes, added from the first line on.
pub open spec fn totals(rows: Seq<Rates>) -> (Binary64, Binary64)
    decreases rows.len(),
{
    if rows.len() == 0 {
        (zero(), zero())
    } else {
        let before = totals(rows.drop_last());
        (sum(before.0, rows.last().read), sum(before.1, rows.last().write))
    }
}

pub fn add_up(rows: &Vec<Row>) -> (r: (Binary64, Binary64))
    ensures
        r == totals(row_views(rows@)),
{
    let mut read = Binary64::from_bits(0);
    let mut write = Binary64::from_bits(0);
    let ghost g = row_views(rows@);
    for i in 0..rows.len()
        invariant
            g == row_views(rows@),
            (read, write) == totals(g.take(i as int)),
    {
        assert(g.take(i as int + 1).drop_last() =~= g.take(i as int));
        read = read.plus(&rows[i].read_bps);
        write = write.plus(&rows[i].write_bps);
    }
    assert(g.take(g.len() as int) =~= g);
    (read, write)
}

// ---------------------------------------------------------------------------
// Texts

/// How the ranking is shown.
pub struct TopOptions {
    pub interval: Binary64,
    pub count: Option<u64>,
    /// Add up the threads of a process.
    pub per_process: bool,
    /// Show lines without any IO too.
    pub show_idle: bool,
    /// How many lines to show at most.
    pub rows: usize,
    /// The user has set that number, so the height of the terminal does not.
    pub rows_explicit: bool,
}

/// How many lines fit, and how many characters of a command. A terminal of
/// unknown size, and what is no terminal, count as having no rows and columns.
pub open spec fn limits(opts: TopOptions, size: Option<(usize, usize)>) -> (int, int) {
    let rows = match size {
        Some((r, c)) => r as int,
        None => 0,
    };
    let cols = match size {
        Some((r, c)) => c as int,
        None => 0,
    };
    let n = if opts.rows_explicit || rows <= 5 {
        opts.rows as int
    } else {
        rows - 5
    };
    let w = if cols > 80 {
        cols - 66
    } else {
        72
    };
    (at_least(n, 1), at_least(w, 16))
}

pub open spec fn at_least(n: int, low: int) -> int {
    if n > low {
        n
    } else {
        low
    }
}

pub fn view_limits(opts: &TopOptions, size: Option<(usize, usize)>) -> (r: (usize, usize))
    ensures
        r.0 == limits(*opts, size).0,
        r.1 == limits(*opts, size).1,
{
    let (rows, cols): (usize, usize) = match size {
        Some(s) => s,
        None => (0, 0),
    };
    let n: usize = if opts.rows_explicit {
        opts.rows
    } else if rows > 5 {
        rows - 5
    } else {
        opts.rows
    };
    let cmd: usize = if cols > 80 {
        cols - 66
    } else {
        72
    };
    (
        if n > 1 {
            n
        } else {
            1
        },
        if cmd > 16 {
            cmd
        } else {
            16
        },
    )
}

/// A rate in the largest of five units of which it has at least one, from unit
/// `u` on.
pub open spec fn in_unit(v: Binary64, u: int) -> (Binary64, int)
    decreases 4 - u,
{
    if u < 4 && whole(1024).at_most(v) {
        in_unit(quotient(v, whole(1024)), u + 1)
    } else {
        (v, u)
    }
}

pub open spec fn unit_letter(u: int) -> char {
    if u == 0 {
        'B'
    } else if u == 1 {
        'K'
    } else if u == 2 {
        'M'
    } else if u == 3 {
        'G'
    } else {
        'T'
    }
}

/// Bytes in a second, such as `1.50 K/s`.
pub open spec fn bps_text(bps: Binary64) -> Seq<char> {
    let (v, u) = in_unit(bps, 0);
    fixed(v, 2) + seq![' ', unit_letter(u), '/', 's']
}

/// Writes bytes in a second, in units of 1024.
pub fn fmt_bps(bps: &Binary64) -> (r: String)
    ensures
        r@ == bps_text(*bps),
{
    let mut v = *bps;
    let mut u: usize = 0;
    let kib = Binary64::from_u64(1024);
    while u < 4 && kib.le(&v)
        invariant
            u <= 4,
            kib == whole(1024),
            in_unit(*bps, 0) == in_unit(v, u as int),
        decreases 4 - u,
    {
        v = v.over(&kib);
        u = u + 1;
    }
    let mut out = format_fixed(&v, 2);
    out.push(' ');
    out.push(
        if u == 0 {
            'B'
        } else if u == 1 {
            'K'
        } else if u == 2 {
            'M'
        } else if u == 3 {
            'G'
        } else {
            'T'
        },
    );
    out.push('/');
    out.push('s');
    assert(out@ =~= bps_text(*bps));
    out
}

/// A percentage, such as ` 12.50 %`.
pub open spec fn pct_text(pct: Binary64) -> Seq<char> {
    at_right(fixed(pct, 2), 6) + " %"@
}

pub fn fmt_pct(pct: &Binary64) -> (r: String)
    ensures
        r@ == pct_text(*pct),
{
    let t = format_fixed(pct, 2);
    let mut out: String = String::new();
    push_right(&mut out, t.as_str(), 6);
    out.append(" %");
    assert(out@ =~= pct_text(*pct));
    out
}

/// A text of at most `n` characters; a longer one is cut and ends in `~`, where
/// there is room for that.
pub open spec fn cut(s: Seq<char>, n: int) -> Seq<char> {
    if s.len() <= n {
        s
    } else if n <= 0 {
        seq![]
    } else {
        s.take(n - 1).push('~')
    }
}

pub fn truncate_chars(s: &str, n: usize) -> (r: String)
    ensures
        r@ == cut(s@, n as int),
{
    let cs = chars_of(s);
    if cs.len() <= n {
        string_of(cs.as_slice())
    } else if n == 0 {
        let none: String = String::new();
        assert(none@ =~= seq![]);
        none
    } else {
        let mut out = string_of(slice_subrange(cs.as_slice(), 0, n - 1));
        out.push('~');
        assert(cs@.take(n - 1) =~= cs@.subrange(0, n - 1));
        out
    }
}

/// The name that the first `n` lines of `/etc/passwd` give to a user: the first
/// of them that has the user's number in its third field.
pub open spec fn name_in(ls: Seq<Seq<char>>, n: int, uid: u32) -> Option<Seq<char>>
    decreases n,
{
    if n <= 0 {
        None
    } else {
        match name_in(ls, n - 1, uid) {
            Some(name) => Some(name),
            None => {
                let f = fields(ls[n - 1], ':');
                if f.len() >= 3 && unsigned(f[2], u32::MAX as int) == Some(uid as u64) {
                    Some(f[0])
                } else {
                    None
                }
            },
        }
    }
}

/// Whether a map holds the names of the first `n` lines.
pub open spec fn names_held(m: Map<u32, String>, ls: Seq<Seq<char>>, n: int) -> bool {
    &&& forall|u: u32| #[trigger] m.contains_key(u) <==> name_in(ls, n, u) is Some
    &&& forall|u: u32| #[trigger] m.contains_key(u) ==> Some(m[u]@) == name_in(ls, n, u)
}

/// The users' names in the text of `/etc/passwd`. A number keeps the first name
/// that it is given.
pub fn parse_passwd(content: &str) -> (r: HashMap<u32, String>)
    ensures
        names_held(r@, lines(content@), lines(content@).len() as int),
{
    broadcast use group_hash_axioms;

    let cs = chars_of(content);
    let ls = lines_of(cs.as_slice());
    let ghost g = lines(content@);
    let mut map: HashMap<u32, String> = HashMap::new();
    for i in 0..ls.len()
        invariant
            g == views(ls@),
            g == lines(content@),
            names_held(map@, g, i as int),
    {
        broadcast use group_hash_axioms;

        let f = fields_of(ls[i], ':');
        assert(g[i as int] == ls@[i as int]@);
        let ghost fg = fields(g[i as int], ':');
        assert(fg == views(f@));
        if f.len() >= 3 {
            assert(fg[0] == f@[0]@ && fg[2] == f@[2]@);
            if let Some(v) = parse_unsigned(f[2], u32::MAX as u64) {
                let uid = v as u32;
                if !map.contains_key(&uid) {
                    let name = string_of(f[0]);
                    map.insert(uid, name);
                }
            }
        }
        proof {
            assert forall|u: u32| #[trigger]
                map@.contains_key(u) <==> name_in(g, i as int + 1, u) is Some by {}
            assert forall|u: u32| #[trigger] map@.contains_key(u) implies Some(map@[u]@) == name_in(
                g,
                i as int + 1,
                u,
            ) by {}
        }
    }
    map
}

/// A user's name, or the number where there is none.
pub open spec fn user_text(uid: u32, names: Map<u32, String>, max_chars: int) -> Seq<char> {
    if uid == u32::MAX {
        "?"@
    } else if names.contains_key(uid) {
        cut(names[uid]@, max_chars)
    } else {
        decimal(uid as int)
    }
}

pub fn user_name(uid: u32, passwd: &HashMap<u32, String>, max_chars: usize) -> (r: String)
    ensures
        r@ == user_text(uid, passwd@, max_chars as int),
{
    broadcast use group_hash_axioms;

    if uid == u32::MAX {
        return "?".to_string();
    }
    match passwd.get(&uid) {
        Some(n) => truncate_chars(n.as_str(), max_chars),
        None => decimal_of(uid as u64),
    }
}

/// The command that is shown: the command line, or the thread's name in
/// brackets where there is none.
pub open spec fn command_text(who: Who, width: int) -> Seq<char> {
    if who.cmdline.len() == 0 {
        seq!['['] + who.comm + seq![']']
    } else {
        cut(who.cmdline, width)
    }
}

pub fn cmd_of(ident: &Ident, width: usize) -> (r: String)
    ensures
        r@ == command_text(ident@, width as int),
{
    if ident.cmdline.as_str().is_empty() {
        let mut out: String = String::new();
        out.push('[');
        out.append(ident.comm.as_str());
        out.push(']');
        assert(out@ =~= command_text(ident@, width as int));
        out
    } else {
        truncate_chars(ident.cmdline.as_str(), width)
    }
}

// ---------------------------------------------------------------------------
// The screen

/// Whether a line is shown where only lines with IO are.
pub open spec fn busy(r: Rates) -> bool {
    ||| zero().below(r.read)
    ||| zero().below(r.write)
    ||| zero().below(r.io)
    ||| zero().below(r.swapin)
}

/// The first `n` items.
pub open spec fn first_of<T>(s: Seq<T>, n: int) -> Seq<T> {
    if s.len() <= n {
        s
    } else {
        s.take(n)
    }
}

/// The lines that are shown.
pub open spec fn shown(rows: Seq<Rates>, show_idle: bool, limit: int) -> Seq<Rates> {
    first_of(rows.filter(|r: Rates| show_idle || busy(r)), limit)
}

/// Two rates beside each other, each with what it is.
pub open spec fn pair_line(
    read_name: Seq<char>,
    read: Binary64,
    write_name: Seq<char>,
    write: Binary64,
) -> Seq<char> {
    read_name + at_right(bps_text(read), 13) + write_name + at_right(bps_text(write), 13) + "\n"@
}

pub open spec fn heading(per_process: bool) -> Seq<char> {
    at_right(
        if per_process {
            "PID"@
        } else {
            "TID"@
        },
        7,
    ) + " PRIO "@ + at_left("USER"@, 8) + " "@ + at_right("DISK READ"@, 11) + " "@ + at_right(
        "DISK WRITE"@,
        11,
    ) + " "@ + at_right("SWAPIN"@, 8) + " "@ + at_right("IO>"@, 8) + "  COMMAND\n"@
}

/// One line of the ranking.
pub open spec fn row_line(r: Rates, names: Map<u32, String>, width: int) -> Seq<char> {
    at_right(decimal(r.who.id as int), 7) + " "@ + at_right(r.who.prio, 4) + " "@ + at_left(
        user_text(r.who.uid, names, 8),
        8,
    ) + " "@ + at_right(bps_text(r.read), 11) + " "@ + at_right(bps_text(r.write), 11) + " "@
        + at_right(pct_text(r.swapin), 8) + " "@ + at_right(pct_text(r.io), 8) + "  "@
        + command_text(r.who, width) + "\n"@
}

pub open spec fn row_lines(rows: Seq<Rates>, names: Map<u32, String>, width: int) -> Seq<char>
    decreases rows.len(),
{
    if rows.len() == 0 {
        seq![]
    } else {
        row_lines(rows.drop_last(), names, width) + row_line(rows.last(), names, width)
    }
}

/// What stands above the lines of the ranking.
pub open spec fn head(
    rows: Seq<Rates>,
    actual: (Binary64, Binary64),
    skipped: int,
    per_process: bool,
    tty: bool,
    delayacct: bool,
) -> Seq<char> {
    let total = totals(rows);
    (if tty {
        "\x1b[H\x1b[2J"@
    } else {
        seq![]
    }) + pair_line("Total DISK READ : "@, total.0, " | Total DISK WRITE: "@, total.1) + pair_line(
        "Actual DISK READ: "@,
        actual.0,
        " | Actual DISK WRITE: "@,
        actual.1,
    ) + (if delayacct {
        seq![]
    } else {
        "（kernel.task_delayacct=0，IO% 与 SWAPIN 恒为 0；开启: echo 1 > /proc/sys/kernel/task_delayacct）\n"@
    }) + (if skipped > 0 {
        "（另有 "@ + decimal(skipped) + " 个线程因退出或权限未纳入统计）\n"@
    } else {
        seq![]
    }) + heading(per_process)
}

/// The lines of the ranking, or a line that says that there are none.
pub open spec fn body(
    rows: Seq<Rates>,
    per_process: bool,
    names: Map<u32, String>,
    width: int,
) -> Seq<char> {
    if rows.len() == 0 {
        "（本间隔内无 IO 活动的"@ + (if per_process {
            "进程"@
        } else {
            "线程"@
        }) + "）\n"@
    } else {
        row_lines(rows, names, width)
    }
}

fn push_pair_line(out: &mut String, read_name: &str, read: &Binary64, write_name: &str, write: &Binary64)
    ensures
        final(out)@ == old(out)@ + pair_line(read_name@, *read, write_name@, *write),
{
    let mut line: String = String::new();
    line.append(read_name);
    assert(line@ =~= read_name@);
    push_right(&mut line, fmt_bps(read).as_str(), 13);
    line.append(write_name);
    push_right(&mut line, fmt_bps(write).as_str(), 13);
    line.append("\n");
    out.append(line.as_str());
}

fn push_heading(out: &mut String, per_process: bool)
    ensures
        final(out)@ == old(out)@ + heading(per_process),
{
    let mut line: String = String::new();
    push_right(&mut line,
        if per_process {
            "PID"
        } else {
            "TID"
        },
        7,
    );
    assert(line@ =~= at_right(
        if per_process {
            "PID"@
        } else {
            "TID"@
        },
        7,
    ));
    line.append(" PRIO ");
    push_left(&mut line, "USER", 8);
    line.append(" ");
    push_right(&mut line, "DISK READ", 11);
    line.append(" ");
    push_right(&mut line, "DISK WRITE", 11);
    line.append(" ");
    push_right(&mut line, "SWAPIN", 8);
    line.append(" ");
    push_right(&mut line, "IO>", 8);
    line.append("  COMMAND\n");
    out.append(line.as_str());
}

fn push_row_line(out: &mut String, r: &Row, passwd: &HashMap<u32, String>, width: usize)
    ensures
        final(out)@ == old(out)@ + row_line(r@, passwd@, width as int),
{
    let mut line: String = String::new();
    push_right(&mut line, decimal_of(r.ident.id as u64).as_str(), 7);
    assert(line@ =~= at_right(decimal(r.ident.id as int), 7));
    line.append(" ");
    push_right(&mut line, r.ident.prio.as_str(), 4);
    line.append(" ");
    push_left(&mut line, user_name(r.ident.uid, passwd, 8).as_str(), 8);
    line.append(" ");
    push_right(&mut line, fmt_bps(&r.read_bps).as_str(), 11);
    line.append(" ");
    push_right(&mut line, fmt_bps(&r.write_bps).as_str(), 11);
    line.append(" ");
    push_right(&mut line, fmt_pct(&r.swapin_pct).as_str(), 8);
    line.append(" ");
    push_right(&mut line, fmt_pct(&r.io_pct).as_str(), 8);
    line.append("  ");
    line.append(cmd_of(&r.ident, width).as_str());
    line.append("\n");
    out.append(line.as_str());
}

fn is_busy(r: &Row) -> (b: bool)
    ensures
        b == busy(r@),
{
    let none = Binary64::from_bits(0);
    none.lt(&r.read_bps) || none.lt(&r.write_bps) || none.lt(&r.io_pct) || none.lt(&r.swapin_pct)
}

/// The places of the lines that are shown.
fn pick_shown(rows: &Vec<Row>, show_idle: bool, limit: usize) -> (r: Vec<usize>)
    ensures
        r@.len() == shown(row_views(rows@), show_idle, limit as int).len(),
        forall|i: int|
            0 <= i < r@.len() ==> #[trigger] r@[i] < rows@.len() && rows@[r@[i] as int]@ == shown(
                row_views(rows@),
                show_idle,
                limit as int,
            )[i],
{
    let ghost g = row_views(rows@);
    let ghost pred = |r: Rates| show_idle || busy(r);
    let ghost all = g.filter(pred);
    let mut out: Vec<usize> = Vec::new();
    proof {
        reveal(Seq::filter);
    }
    for i in 0..rows.len()
        invariant
            g == row_views(rows@),
            pred == (|r: Rates| show_idle || busy(r)),
            out@.len() == g.take(i as int).filter(pred).len(),
            forall|j: int|
                0 <= j < out@.len() ==> #[trigger] out@[j] < rows@.len() && rows@[out@[j] as int]@
                    == g.take(i as int).filter(pred)[j],
    {
        assert(g.take(i as int + 1).drop_last() =~= g.take(i as int));
        proof {
            reveal(Seq::filter);
        }
        if show_idle || is_busy(&rows[i]) {
            out.push(i);
        }
    }
    assert(g.take(g.len() as int) =~= g);
    if out.len() > limit {
        out.truncate(limit);
    }
    out
}

/// Draws what stands above the lines.
fn draw_head(
    rows: &Vec<Row>,
    actual: (Binary64, Binary64),
    skipped: usize,
    per_process: bool,
    tty: bool,
    delayacct: bool,
) -> (r: String)
    ensures
        r@ == head(row_views(rows@), actual, skipped as int, per_process, tty, delayacct),
{
    let total = add_up(rows);
    let mut out: String = String::new();
    if tty {
        out.append("\x1b[H\x1b[2J");
    }
    let ghost a = out@;
    assert(a =~= if tty {
        "\x1b[H\x1b[2J"@
    } else {
        seq![]
    });
    push_pair_line(&mut out, "Total DISK READ : ", &total.0, " | Total DISK WRITE: ", &total.1);
    push_pair_line(&mut out, "Actual DISK READ: ", &actual.0, " | Actual DISK WRITE: ", &actual.1);
    let ghost b = out@;
    if !delayacct {
        out.append(
            "（kernel.task_delayacct=0，IO% 与 SWAPIN 恒为 0；开启: echo 1 > /proc/sys/kernel/task_delayacct）\n",
        );
    }
    let ghost c = out@;
    assert(c =~= b + (if delayacct {
        seq![]
    } else {
        "（kernel.task_delayacct=0，IO% 与 SWAPIN 恒为 0；开启: echo 1 > /proc/sys/kernel/task_delayacct）\n"@
    }));
    if skipped > 0 {
        out.append("（另有 ");
        push_decimal(&mut out, skipped as u64);
        out.append(" 个线程因退出或权限未纳入统计）\n");
    }
    assert(out@ =~= c + (if skipped > 0 {
        "（另有 "@ + decimal(skipped as int) + " 个线程因退出或权限未纳入统计）\n"@
    } else {
        seq![]
    }));
    push_heading(&mut out, per_process);
    out
}

/// Draws the lines.
fn push_body(
    out: &mut String,
    rows: &Vec<Row>,
    show_idle: bool,
    limit: usize,
    per_process: bool,
    passwd: &HashMap<u32, String>,
    width: usize,
)
    ensures
        final(out)@ == old(out)@ + body(
            shown(row_views(rows@), show_idle, limit as int),
            per_process,
            passwd@,
            width as int,
        ),
{
    let ghost top = out@;
    let picked = pick_shown(rows, show_idle, limit);
    let ghost chosen = shown(row_views(rows@), show_idle, limit as int);
    if picked.len() == 0 {
        out.append("（本间隔内无 IO 活动的");
        out.append(
            if per_process {
                "进程"
            } else {
                "线程"
            },
        );
        out.append("）\n");
        assert(out@ =~= top + body(chosen, per_process, passwd@, width as int));
        return ;
    }
    assert(top + row_lines(chosen.take(0), passwd@, width as int) =~= top);
    for i in 0..picked.len()
        invariant
            picked@.len() == chosen.len(),
            forall|j: int|
                0 <= j < picked@.len() ==> #[trigger] picked@[j] < rows@.len()
                    && rows@[picked@[j] as int]@ == chosen[j],
            out@ == top + row_lines(chosen.take(i as int), passwd@, width as int),
    {
        push_row_line(out, &rows[picked[i]], passwd, width);
        assert(chosen.take(i as int + 1).drop_last() =~= chosen.take(i as int));
        assert(out@ =~= top + row_lines(chosen.take(i as int + 1), passwd@, width as int));
    }
    assert(chosen.take(chosen.len() as int) =~= chosen);
}

/// Draws the screen of the ranking between two scans. On a terminal the screen
/// is cleared first.
pub fn render(
    prev: &Scan,
    cur: &Scan,
    elapsed_s: Binary64,
    opts: &TopOptions,
    tty: bool,
    size: Option<(usize, usize)>,
    passwd: &HashMap<u32, String>,
    delayacct: bool,
) -> (r: String)
    ensures
        r@ == screen(*prev, *cur, elapsed_s, *opts, tty, size, passwd@, delayacct),
{
    let (row_limit, cmd_width) = view_limits(
        opts,
        if tty {
            size
        } else {
            None
        },
    );
    let mut rows = diff(prev, cur, elapsed_s);
    order(&mut rows);
    let actual = actual_bps(prev, cur, elapsed_s);
    let mut out = draw_head(&rows, actual, cur.skipped, opts.per_process, tty, delayacct);
    push_body(
        &mut out,
        &rows,
        opts.show_idle,
        row_limit,
        opts.per_process,
        passwd,
        cmd_width,
    );
    out
}

// ---------------------------------------------------------------------------
// Frames

/// The whole screen between two scans. What is no terminal has no size.
pub open spec fn screen(
    prev: Scan,
    cur: Scan,
    elapsed_s: Binary64,
    opts: TopOptions,
    tty: bool,
    size: Option<(usize, usize)>,
    names: Map<u32, String>,
    delayacct: bool,
) -> Seq<char> {
    let rows = ranked(differences(tallies(prev.aggs@), tallies(cur.aggs@), elapsed_s));
    let (n, width) = limits(
        opts,
        if tty {
            size
        } else {
            None
        },
    );
    head(
        rows,
        storage_rates(prev, cur, elapsed_s),
        cur.skipped as int,
        opts.per_process,
        tty,
        delayacct,
    ) + body(shown(rows, opts.show_idle, n), opts.per_process, names, width)
}

/// One thread's rates.
pub struct ProcRate {
    pub tid: u32,
    pub pid: u32,
    pub prio: String,
    pub user: String,
    pub read_bps: Binary64,
    pub write_bps: Binary64,
    pub swapin_pct: Binary64,
    pub io_pct: Binary64,
    pub command: String,
}

/// Whether `p` shows a line of the ranking.
pub open spec fn shows(p: ProcRate, r: Rates, names: Map<u32, String>) -> bool {
    &&& p.tid == r.who.id
    &&& p.pid == r.who.pid
    &&& p.prio@ == r.who.prio
    &&& p.user@ == user_text(r.who.uid, names, 32)
    &&& p.read_bps == r.read
    &&& p.write_bps == r.write
    &&& p.swapin_pct == r.swapin
    &&& p.io_pct == r.io
    &&& p.command@ == command_text(r.who, 240)
}

/// The rates of all threads between two scans. The first frame has none, and is
/// not `ready`.
pub struct IoFrame {
    pub ready: bool,
    pub elapsed_s: Binary64,
    pub delayacct: bool,
    pub skipped: usize,
    /// How many threads both scans hold, before the frame is cut short.
    pub threads: usize,
    pub total_read: Binary64,
    pub total_write: Binary64,
    pub actual_read: Binary64,
    pub actual_write: Binary64,
    pub rows: Vec<ProcRate>,
}

/// A thousandth.
pub open spec fn thousandth() -> Binary64 {
    quotient(whole(1), whole(1000))
}

/// Whether `f` is the frame between two scans.
pub open spec fn frame_of(
    f: IoFrame,
    prev: Scan,
    cur: Scan,
    elapsed_s: Binary64,
    names: Map<u32, String>,
    limit: int,
) -> bool {
    let rows = ranked(differences(tallies(prev.aggs@), tallies(cur.aggs@), elapsed_s));
    &&& f.ready
    &&& f.elapsed_s == elapsed_s
    &&& f.skipped == cur.skipped
    &&& f.threads == rows.len()
    &&& (f.total_read, f.total_write) == totals(rows)
    &&& (f.actual_read, f.actual_write) == storage_rates(prev, cur, elapsed_s)
    &&& f.rows@.len() == first_of(rows, limit).len()
    &&& forall|i: int| 0 <= i < f.rows@.len() ==> shows(#[trigger] f.rows@[i], rows[i], names)
}

/// Whether `f` is a frame without rates.
pub open spec fn empty_frame(f: IoFrame, skipped: usize) -> bool {
    &&& !f.ready
    &&& f.elapsed_s == zero()
    &&& f.skipped == skipped
    &&& f.threads == 0
    &&& f.total_read == zero()
    &&& f.total_write == zero()
    &&& f.actual_read == zero()
    &&& f.actual_write == zero()
    &&& f.rows@.len() == 0
}

/// Takes scans and gives frames. It holds the scan before.
pub struct ProcSampler {
    pub prev: Option<Scan>,
    pub passwd: HashMap<u32, String>,
    pub delayacct: bool,
}

/// Whether a scan taken by a sampler gives the frame `r` and leaves the sampler
/// `after`.
pub open spec fn polled(
    before: ProcSampler,
    after: ProcSampler,
    cur: Scan,
    elapsed_s: Binary64,
    limit: int,
    r: IoFrame,
) -> bool {
    &&& after.prev == Some(cur)
    &&& after.passwd == before.passwd
    &&& after.delayacct == before.delayacct
    &&& r.delayacct == before.delayacct
    &&& match before.prev {
        Some(prev) => frame_of(
            r,
            prev,
            cur,
            elapsed_s.greater(thousandth()),
            before.passwd@,
            limit,
        ),
        None => empty_frame(r, cur.skipped),
    }
}

impl ProcSampler {
    /// Begins with the texts of `/etc/passwd` and `task_delayacct`, where they
    /// could be read.
    pub fn open(passwd: Option<&str>, delayacct: Option<&str>) -> (r: ProcSampler)
        ensures
            r.prev is None,
            match passwd {
                Some(text) => names_held(r.passwd@, lines(text@), lines(text@).len() as int),
                None => r.passwd@ == Map::<u32, String>::empty(),
            },
            r.delayacct == counts_delays(str_view(delayacct)),
    {
        broadcast use group_hash_axioms;

        ProcSampler {
            prev: None,
            passwd: match passwd {
                Some(text) => parse_passwd(text),
                None => HashMap::new(),
            },
            delayacct: delayacct_enabled(delayacct),
        }
    }

    /// Takes the next scan, made `elapsed_s` seconds after the one before, and
    /// gives the first `limit` lines of the ranking between the two.
    pub fn poll(&mut self, cur: Scan, elapsed_s: Binary64, limit: usize) -> (r: IoFrame)
        ensures
            polled(*old(self), *final(self), cur, elapsed_s, limit as int, r),
    {
        let skipped = cur.skipped;
        let none = Binary64::from_bits(0);
        let frame = match &self.prev {
            None => IoFrame {
                ready: false,
                elapsed_s: none,
                delayacct: self.delayacct,
                skipped,
                threads: 0,
                total_read: none,
                total_write: none,
                actual_read: none,
                actual_write: none,
                rows: Vec::new(),
            },
            Some(prev) => {
                let elapsed = elapsed_s.max(&Binary64::from_u64(1).over(&Binary64::from_u64(1000)));
                let mut rows = diff(prev, &cur, elapsed);
                order(&mut rows);
                let ghost g = row_views(rows@);
                let (total_read, total_write) = add_up(&rows);
                let (actual_read, actual_write) = actual_bps(prev, &cur, elapsed);
                let threads = rows.len();
                let n: usize = if threads < limit {
                    threads
                } else {
                    limit
                };
                let mut out: Vec<ProcRate> = Vec::new();
                for i in 0..n
                    invariant
                        n <= rows@.len(),
                        g == row_views(rows@),
                        out@.len() == i,
                        forall|j: int|
                            0 <= j < i ==> shows(#[trigger] out@[j], g[j], self.passwd@),
                {
                    let row = &rows[i];
                    let rate = ProcRate {
                        tid: row.ident.id,
                        pid: row.ident.pid,
                        prio: row.ident.prio.clone(),
                        user: user_name(row.ident.uid, &self.passwd, 32),
                        read_bps: row.read_bps,
                        write_bps: row.write_bps,
                        swapin_pct: row.swapin_pct,
                        io_pct: row.io_pct,
                        command: cmd_of(&row.ident, 240),
                    };
                    assert(g[i as int] == row@);
                    assert(shows(rate, g[i as int], self.passwd@));
                    out.push(rate);
                }
                IoFrame {
                    ready: true,
                    elapsed_s: elapsed,
                    delayacct: self.delayacct,
                    skipped,
                    threads,
                    total_read,
                    total_write,
                    actual_read,
                    actual_write,
                    rows: out,
                }
            },
        };
        self.prev = Some(cur);
        frame
    }
}

// ---------------------------------------------------------------------------
// What holds of the ranking

/// A share of time is between 0 and 100.
pub proof fn share_is_capped(delta_ns: int, elapsed_s: Binary64)
    requires
        0 <= delta_ns,
    ensures
        zero().at_most(delay_share(delta_ns, elapsed_s)),
        delay_share(delta_ns, elapsed_s).at_most(whole(100)),
{
    wholes_in_order(0, 100);
    whole_is_exact(0);
    whole_is_exact(100);
    whole_is_unsigned(delta_ns);
    whole_is_unsigned(10_000_000);
    if zero().below(elapsed_s) {
        product_is_not_below_zero(elapsed_s, whole(10_000_000));
        quotient_is_not_below_zero(whole(delta_ns), product(elapsed_s, whole(10_000_000)));
    }
}

/// No rate of a line is below zero, also where counters went back or more was
/// cancelled than written.
pub proof fn line_is_not_below_zero(p: Tally, c: Tally, elapsed_s: Binary64)
    requires
        !elapsed_s.negative(),
    ensures
        ({
            let r = rates_of(p, c, elapsed_s);
            &&& !r.read.below(zero())
            &&& !r.write.below(zero())
            &&& zero().at_most(r.swapin) && r.swapin.at_most(whole(100))
            &&& zero().at_most(r.io) && r.io.at_most(whole(100))
        }),
{
    let read = growth(p.read, c.read);
    let write = net_writes(p, c);
    whole_is_unsigned(read);
    whole_is_unsigned(write);
    quotient_is_not_below_zero(whole(read), elapsed_s);
    quotient_is_not_below_zero(whole(write), elapsed_s);
    share_is_capped(growth(p.swapin, c.swapin), elapsed_s);
    share_is_capped(growth(p.blkio, c.blkio), elapsed_s);
}

/// Whether one line stands before another: by bytes, then by the share of time
/// on block IO, then on swapping in, each with the greater first, then by
/// number.
pub open spec fn stands_before(a: Rates, b: Rates) -> bool {
    let x = sum(a.read, a.write).rank();
    let y = sum(b.read, b.write).rank();
    ||| x > y
    ||| x == y && a.io.rank() > b.io.rank()
    ||| x == y && a.io.rank() == b.io.rank() && a.swapin.rank() > b.swapin.rank()
    ||| x == y && a.io.rank() == b.io.rank() && a.swapin.rank() == b.swapin.rank() && a.who.id
        <= b.who.id
}

/// The lines of the ranking stand in its order.
pub proof fn ranking_falls(rows: Seq<Rates>, i: int, j: int)
    requires
        0 <= i < j < rows.len(),
    ensures
        stands_before(ranked(rows)[i], ranked(rows)[j]),
{
    let keys = rank_keys(rows);
    arranged_in_order(rows, keys, i, j);
    let p = ordering(keys)[i];
    let q = ordering(keys)[j];
    let a = rows[p];
    let b = rows[q];
    let ka = rank_key(a);
    let kb = rank_key(b);
    assert(keys[p] == ka && keys[q] == kb);
    lemma_rank(sum(a.read, a.write));
    lemma_rank(sum(b.read, b.write));
    lemma_rank(a.io);
    lemma_rank(b.io);
    lemma_rank(a.swapin);
    lemma_rank(b.swapin);
    assert(ka[0] == falling(sum(a.read, a.write)) && kb[0] == falling(sum(b.read, b.write)));
    assert(ka[1] == falling(a.io) && kb[1] == falling(b.io));
    assert(ka[2] == falling(a.swapin) && kb[2] == falling(b.swapin));
    assert(ka[3] == a.who.id as u64 && kb[3] == b.who.id as u64);
    reveal_with_fuel(less_from, 6);
}

proof fn lemma_rank(x: Binary64)
    ensures
        0 <= x.rank() <= u64::MAX,
        falling(x) == u64::MAX - x.rank(),
{
}

/// The ranking holds each line once.
pub proof fn ranking_keeps_all(rows: Seq<Rates>)
    ensures
        ranked(rows).to_multiset() == rows.to_multiset(),
{
    arranged_keeps_all(rows, rank_keys(rows));
}

/// A text that is cut fits its column, and one that fits is not cut.
pub proof fn cut_fits(s: Seq<char>, n: int)
    requires
        0 <= n,
    ensures
        cut(s, n).len() <= n,
        s.len() <= n ==> cut(s, n) == s,
        0 < n < s.len() ==> cut(s, n).len() == n && cut(s, n).last() == '~',
{
}

/// Whether a line is that of a thread or process that both scans hold.
pub open spec fn in_both(
    prev: Seq<(u32, Tally)>,
    cur: Seq<(u32, Tally)>,
    elapsed_s: Binary64,
    r: Rates,
) -> bool {
    exists|i: int, j: int|
        0 <= i < prev.len() && 0 <= j < cur.len() && (#[trigger] prev[i]).0 == (#[trigger] cur[j]).0
            && r == rates_of(prev[i].1, cur[j].1, elapsed_s)
}

/// What only one of two scans holds has no line.
pub proof fn lines_are_of_both(prev: Seq<(u32, Tally)>, cur: Seq<(u32, Tally)>, elapsed_s: Binary64)
    ensures
        forall|k: int|
            0 <= k < differences(prev, cur, elapsed_s).len() ==> in_both(
                prev,
                cur,
                elapsed_s,
                #[trigger] differences(prev, cur, elapsed_s)[k],
            ),
    decreases cur.len(),
{
    if cur.len() > 0 {
        let h = cur.drop_last();
        lines_are_of_both(prev, h, elapsed_s);
        let all = differences(prev, cur, elapsed_s);
        let before = differences(prev, h, elapsed_s);
        assert forall|k: int| 0 <= k < all.len() implies in_both(
            prev,
            cur,
            elapsed_s,
            #[trigger] all[k],
        ) by {
            if k < before.len() {
                assert(all[k] == before[k]);
                let (i, j) = choose|i: int, j: int|
                    0 <= i < prev.len() && 0 <= j < h.len() && (#[trigger] prev[i]).0 == (
                    #[trigger] h[j]).0 && before[k] == rates_of(prev[i].1, h[j].1, elapsed_s);
                assert(cur[j] == h[j]);
                assert(prev[i].0 == cur[j].0);
            } else {
                let i = place(numbers(prev), cur.last().0 as u64);
                lemma_place(numbers(prev), cur.last().0 as u64);
                assert(numbers(prev)[i] == prev[i].0 as u64);
                assert(prev[i].0 == cur[cur.len() - 1].0);
            }
        }
    }
}

/// No more lines are shown than fit, and no idle ones unless asked for.
pub proof fn shown_lines_are_asked_for(rows: Seq<Rates>, show_idle: bool, limit: int, k: int)
    requires
        0 <= limit,
        0 <= k < shown(rows, show_idle, limit).len(),
    ensures
        shown(rows, show_idle, limit).len() <= limit,
        show_idle || busy(shown(rows, show_idle, limit)[k]),
        rows.contains(shown(rows, show_idle, limit)[k]),
{
    let pred = |r: Rates| show_idle || busy(r);
    let kept = rows.filter(pred);
    rows.lemma_filter_pred(pred, k);
    assert(kept.contains(kept[k]));
    rows.lemma_filter_contains_rev(pred, kept[k]);
}

/// A view has room for a line and for a part of its command.
pub proof fn view_has_room(opts: TopOptions, size: Option<(usize, usize)>)
    ensures
        limits(opts, size).0 >= 1,
        limits(opts, size).1 >= 16,
{
}

// ---------------------------------------------------------------------------
// What a scan counts

/// What a thread counts: bytes read, written and cancelled, and nanoseconds
/// waited for block IO and for swapping in. Where the kernel tells no delays, a
/// clock tick stands for 10 milliseconds of block IO.
pub open spec fn amount(t: Thread, which: int) -> int {
    if which == 0 {
        t.io->0.read_bytes as int
    } else if which == 1 {
        t.io->0.write_bytes as int
    } else if which == 2 {
        t.io->0.cancelled_write_bytes as int
    } else if which == 3 {
        match t.delays {
            Some(d) => d.blkio_ns as int,
            None => if t.stat->0.blkio_ticks * 10_000_000 <= u64::MAX {
                t.stat->0.blkio_ticks * 10_000_000
            } else {
                u64::MAX as int
            },
        }
    } else {
        match t.delays {
            Some(d) => d.swapin_ns as int,
            None => 0,
        }
    }
}

/// Whether a thread that could be read counts under this number: its own, or that
/// of its process.
pub open spec fn counts_under(per_process: bool, t: Thread, n: u32) -> bool {
    &&& t.io is Some && t.stat is Some
    &&& per_process ==> t.pid == n
    &&& !per_process ==> t.tid == n
}

/// The sum over all threads that count under a number.
pub open spec fn sum_under(per_process: bool, threads: Seq<Thread>, n: u32, which: int) -> int
    decreases threads.len(),
{
    if threads.len() == 0 {
        0
    } else {
        sum_under(per_process, threads.drop_last(), n, which) + if counts_under(
            per_process,
            threads.last(),
            n,
        ) {
            amount(threads.last(), which)
        } else {
            0
        }
    }
}

/// Whether counts are the sums over these threads.
pub open spec fn adds_up(c: (u32, Tally), per_process: bool, threads: Seq<Thread>) -> bool {
    &&& c.1.read == sum_under(per_process, threads, c.0, 0)
    &&& c.1.write == sum_under(per_process, threads, c.0, 1)
    &&& c.1.cancelled == sum_under(per_process, threads, c.0, 2)
    &&& c.1.blkio == sum_under(per_process, threads, c.0, 3)
    &&& c.1.swapin == sum_under(per_process, threads, c.0, 4)
}

proof fn lemma_none_under(per_process: bool, threads: Seq<Thread>, n: u32)
    requires
        forall|i: int| 0 <= i < threads.len() ==> !counts_under(per_process, #[trigger] threads[i], n),
    ensures
        forall|which: int| #[trigger] sum_under(per_process, threads, n, which) == 0,
    decreases threads.len(),
{
    if threads.len() > 0 {
        let h = threads.drop_last();
        assert forall|i: int| 0 <= i < h.len() implies !counts_under(
            per_process,
            #[trigger] h[i],
            n,
        ) by {
            assert(h[i] == threads[i]);
        }
        lemma_none_under(per_process, h, n);
        assert(!counts_under(per_process, threads[threads.len() - 1], n));
        assert forall|which: int| #[trigger] sum_under(per_process, threads, n, which) == 0 by {
            assert(sum_under(per_process, h, n, which) == 0);
        }
    }
}

/// A scan adds up all threads that count under a number, and counts each thread
/// that could be read.
pub proof fn scan_adds_up(per_process: bool, threads: Seq<Thread>)
    requires
        all_takeable(per_process, threads),
    ensures
        forall|k: int|
            0 <= k < counted(per_process, threads).len() ==> adds_up(
                #[trigger] counted(per_process, threads)[k],
                per_process,
                threads,
            ),
        forall|i: int, n: u32|
            0 <= i < threads.len() && #[trigger] counts_under(per_process, threads[i], n)
                ==> numbers(counted(per_process, threads)).contains(n as u64),
    decreases threads.len(),
{
    if threads.len() > 0 {
        let h = threads.drop_last();
        let t = threads[threads.len() - 1];
        scan_adds_up(per_process, h);
        numbers_are_unique(per_process, h);
        let before = counted(per_process, h);
        let all = counted(per_process, threads);
        let keys = numbers(before);
        let n = number_of(per_process, t);
        let p = place(keys, n as u64);
        lemma_place(keys, n as u64);
        if readable(t) {
            if p < before.len() {
                assert(keys[p] == before[p].0 as u64);
                assert(adds_up(before[p], per_process, h));
            } else {
                assert forall|i: int| 0 <= i < h.len() implies !counts_under(
                    per_process,
                    #[trigger] h[i],
                    n,
                ) by {
                    if counts_under(per_process, h[i], n) {
                        assert(keys.contains(n as u64));
                        let q = choose|q: int| 0 <= q < keys.len() && keys[q] == n as u64;
                        assert(keys[q] != n as u64);
                    }
                }
                lemma_none_under(per_process, h, n);
                assert(sum_under(per_process, h, n, 0) == 0 && sum_under(per_process, h, n, 1) == 0
                    && sum_under(per_process, h, n, 2) == 0 && sum_under(per_process, h, n, 3) == 0
                    && sum_under(per_process, h, n, 4) == 0);
            }
        }
        assert forall|k: int| 0 <= k < all.len() implies adds_up(
            #[trigger] all[k],
            per_process,
            threads,
        ) by {
            if !readable(t) || (k < before.len() && k != p) {
                assert(all[k] == before[k]);
                assert(adds_up(before[k], per_process, h));
                assert(keys[k] == before[k].0 as u64);
            } else {
                assert(all[k].0 == n);
            }
        }
        let after = numbers(all);
        assert forall|i: int, m: u32|
            0 <= i < threads.len() && #[trigger] counts_under(
                per_process,
                threads[i],
                m,
            ) implies after.contains(m as u64) by {
            if i < h.len() {
                assert(h[i] == threads[i]);
                assert(counts_under(per_process, h[i], m));
                assert(keys.contains(m as u64));
                let q = choose|q: int| 0 <= q < keys.len() && keys[q] == m as u64;
                assert(after[q] == m as u64);
            } else if p < before.len() {
                assert(after[p] == m as u64);
            } else {
                assert(after[before.len() as int] == m as u64);
            }
        }
    }
}

/// A scan skips the threads that could not be read, and no others.
pub proof fn unreadable_are_skipped(threads: Seq<Thread>)
    ensures
        unreadable(threads) == threads.filter(|t: Thread| t.io is None || t.stat is None).len(),
    decreases threads.len(),
{
    reveal(Seq::filter);
    if threads.len() > 0 {
        unreadable_are_skipped(threads.drop_last());
    }
}

/// A process goes by the name, the user and the priority of the thread that has
/// its number.
pub proof fn process_goes_by_its_leader(old_tally: Tally, per_process: bool, t: Thread)
    ensures
        t.tid == t.pid ==> raised(old_tally, per_process, t).who.comm == t.stat->0.comm@ && raised(
            old_tally,
            per_process,
            t,
        ).who.uid == t.uid && raised(old_tally, per_process, t).who.cmdline == t.cmdline@ && raised(
            old_tally,
            per_process,
            t,
        ).who.pid == t.pid && raised(old_tally, per_process, t).who.id == t.pid,
        t.tid != t.pid ==> raised(old_tally, per_process, t).who == old_tally.who,
        nothing_yet(who_of(per_process, t)).who.id == if per_process {
            t.pid
        } else {
            t.tid
        },
{
}

// ---------------------------------------------------------------------------
// What the rates stand for

/// Bytes in a second: the number closest to the ratio of the bytes counted and
/// the seconds passed, writes without those that were cancelled.
pub proof fn bytes_are_counted_by_the_second(p: Tally, c: Tally, t: int)
    requires
        0 < t <= 2 * STEP,
    ensures
        ({
            let r = rates_of(p, c, whole(t));
            let written = c.write - p.write;
            let cancelled = if c.cancelled >= p.cancelled {
                c.cancelled - p.cancelled
            } else {
                0
            };
            &&& 0 <= c.read - p.read <= 2 * STEP ==> r.read == closest(c.read - p.read, t)
            &&& c.read <= p.read ==> r.read == zero()
            &&& 0 <= written - cancelled <= 2 * STEP ==> r.write == closest(written - cancelled, t)
            &&& written <= cancelled ==> r.write == zero()
            &&& r.who == c.who
        }),
{
    let a = growth(p.read, c.read);
    let b = net_writes(p, c);
    wholes_in_order(0, t);
    whole_of_nothing();
    nothing_per_second(whole(t));
    if a <= 2 * STEP {
        quotient_of_wholes(a, t);
    }
    if b <= 2 * STEP {
        quotient_of_wholes(b, t);
    }
}

/// A share of time: `k` times 10 milliseconds of each second are `k` percent, up
/// to 100.
pub proof fn shares_are_percent(k: int, t: int)
    requires
        0 <= k,
        0 < t,
        10_000_000 * t <= 2 * STEP,
        k * (10_000_000 * t) <= 2 * STEP,
    ensures
        delay_share(k * (10_000_000 * t), whole(t)) == whole(
            if k < 100 {
                k
            } else {
                100
            },
        ),
{
    assert(k <= k * (10_000_000 * t)) by (nonlinear_arith)
        requires
            k >= 0,
            t > 0,
    ;
    wholes_in_order(0, t);
    whole_of_nothing();
    product_of_wholes(t, 10_000_000);
    assert(t * 10_000_000 == 10_000_000 * t);
    quotient_of_multiple(k, 10_000_000 * t);
    whole_is_exact(k);
    whole_is_exact(100);
    if k <= 100 {
        wholes_in_order(k, 100);
    } else {
        wholes_in_order(100, k);
    }
}

/// The share on block IO comes from the wait for block IO, that on swapping in
/// from the wait for swapping in.
pub proof fn shares_are_of_their_waits(p: Tally, c: Tally, k: int, t: int)
    requires
        0 <= k,
        0 < t,
        10_000_000 * t <= 2 * STEP,
        k * (10_000_000 * t) <= 2 * STEP,
    ensures
        c.blkio == p.blkio + k * (10_000_000 * t) ==> rates_of(p, c, whole(t)).io == whole(
            if k < 100 {
                k
            } else {
                100
            },
        ),
        c.swapin == p.swapin + k * (10_000_000 * t) ==> rates_of(p, c, whole(t)).swapin == whole(
            if k < 100 {
                k
            } else {
                100
            },
        ),
{
    assert(0 <= k * (10_000_000 * t)) by (nonlinear_arith)
        requires
            k >= 0,
            t > 0,
    ;
    shares_are_percent(k, t);
}

/// Rates of storage: the number closest to the ratio of the bytes that the kernel
/// counted and the seconds passed.
pub proof fn storage_is_counted_by_the_second(prev: Scan, cur: Scan, t: int)
    requires
        0 < t <= 2 * STEP,
        prev.vm_read is Some && prev.vm_write is Some && cur.vm_read is Some && cur.vm_write is Some,
    ensures
        ({
            let (r, w) = storage_rates(prev, cur, whole(t));
            let a = cur.vm_read->0 - prev.vm_read->0;
            let b = cur.vm_write->0 - prev.vm_write->0;
            &&& 0 <= a <= 2 * STEP ==> r == closest(a, t)
            &&& 0 <= b <= 2 * STEP ==> w == closest(b, t)
            &&& a <= 0 ==> r == zero()
            &&& b <= 0 ==> w == zero()
        }),
{
    let a = growth(prev.vm_read->0, cur.vm_read->0);
    let b = growth(prev.vm_write->0, cur.vm_write->0);
    wholes_in_order(0, t);
    whole_of_nothing();
    nothing_per_second(whole(t));
    if a <= 2 * STEP {
        quotient_of_wholes(a, t);
    }
    if b <= 2 * STEP {
        quotient_of_wholes(b, t);
    }
}

/// What both scans hold has a line: the rates between its counts in the two.
pub proof fn both_have_a_line(
    prev: Seq<(u32, Tally)>,
    cur: Seq<(u32, Tally)>,
    elapsed_s: Binary64,
    i: int,
    j: int,
)
    requires
        numbers(prev).no_duplicates(),
        0 <= i < prev.len(),
        0 <= j < cur.len(),
        prev[i].0 == cur[j].0,
    ensures
        differences(prev, cur, elapsed_s).contains(rates_of(prev[i].1, cur[j].1, elapsed_s)),
        differences(prev, cur, elapsed_s).len() <= cur.len(),
    decreases cur.len(),
{
    let h = cur.drop_last();
    let all = differences(prev, cur, elapsed_s);
    let before = differences(prev, h, elapsed_s);
    let keys = numbers(prev);
    lemma_differences_len(prev, cur, elapsed_s);
    if j < h.len() {
        both_have_a_line(prev, h, elapsed_s, i, j);
        let r = rates_of(prev[i].1, cur[j].1, elapsed_s);
        assert(h[j] == cur[j]);
        let k = choose|k: int| 0 <= k < before.len() && before[k] == r;
        assert(all[k] == r);
    } else {
        let q = place(keys, cur.last().0 as u64);
        lemma_place(keys, cur.last().0 as u64);
        assert(keys[i] == cur.last().0 as u64);
        if q < keys.len() && q != i {
            assert(keys[q] == keys[i]);
        }
        assert(all[before.len() as int] == rates_of(prev[i].1, cur[j].1, elapsed_s));
    }
}

proof fn lemma_differences_len(prev: Seq<(u32, Tally)>, cur: Seq<(u32, Tally)>, elapsed_s: Binary64)
    ensures
        differences(prev, cur, elapsed_s).len() <= cur.len(),
    decreases cur.len(),
{
    if cur.len() > 0 {
        lemma_differences_len(prev, cur.drop_last(), elapsed_s);
    }
}

// ---------------------------------------------------------------------------
// What the totals stand for

/// The sum of the lines' reads, as natural numbers.
pub open spec fn bytes_read(rows: Seq<Rates>) -> int {
    rows.fold_left(0int, |n: int, r: Rates| n + integer_part(r.read, 2 * STEP))
}

/// The sum of the lines' writes, as natural numbers.
pub open spec fn bytes_written(rows: Seq<Rates>) -> int {
    rows.fold_left(0int, |n: int, r: Rates| n + integer_part(r.write, 2 * STEP))
}

/// Whether all rates are natural numbers.
pub open spec fn whole_rates(rows: Seq<Rates>) -> bool {
    forall|i: int|
        0 <= i < rows.len() ==> (#[trigger] rows[i]).read == whole(
            integer_part(rows[i].read, 2 * STEP),
        ) && rows[i].write == whole(integer_part(rows[i].write, 2 * STEP))
}

/// With one more line the totals grow by its rates.
pub proof fn totals_grow_by_a_line(rows: Seq<Rates>, r: Rates)
    ensures
        totals(rows.push(r)) == (sum(totals(rows).0, r.read), sum(totals(rows).1, r.write)),
        totals(seq![]) == (zero(), zero()),
{
    assert(rows.push(r).drop_last() =~= rows);
}

/// The totals are the sums over all lines.
pub proof fn totals_are_sums(rows: Seq<Rates>)
    requires
        whole_rates(rows),
        bytes_read(rows) <= 2 * STEP,
        bytes_written(rows) <= 2 * STEP,
    ensures
        0 <= bytes_read(rows),
        0 <= bytes_written(rows),
        totals(rows) == (whole(bytes_read(rows)), whole(bytes_written(rows))),
    decreases rows.len(),
{
    reveal(Seq::fold_left);
    if rows.len() == 0 {
        whole_of_nothing();
    } else {
        let h = rows.drop_last();
        let r = rows[rows.len() - 1];
        let a = integer_part(r.read, 2 * STEP);
        let b = integer_part(r.write, 2 * STEP);
        lemma_part_natural(r.read);
        lemma_part_natural(r.write);
        assert(bytes_read(rows) == bytes_read(h) + a);
        assert(bytes_written(rows) == bytes_written(h) + b);
        assert forall|i: int| 0 <= i < h.len() implies (#[trigger] h[i]).read == whole(
            integer_part(h[i].read, 2 * STEP),
        ) && h[i].write == whole(integer_part(h[i].write, 2 * STEP)) by {
            assert(h[i] == rows[i]);
        }
        totals_are_sums(h);
        sum_of_wholes(bytes_read(h), a);
        sum_of_wholes(bytes_written(h), b);
    }
}

proof fn lemma_part_natural(x: Binary64)
    ensures
        0 <= integer_part(x, 2 * STEP),
{
    lemma_scaled_natural(x.mag());
    lemma_pow2_pos(1074);
    vstd::arithmetic::div_mod::lemma_div_pos_is_pos(scaled(x.mag()), unit());
}

/// The totals do not depend on the order of the lines.
pub proof fn totals_are_of_all_lines(rows: Seq<Rates>)
    requires
        whole_rates(rows),
        bytes_read(rows) <= 2 * STEP,
        bytes_written(rows) <= 2 * STEP,
    ensures
        totals(ranked(rows)) == (whole(bytes_read(rows)), whole(bytes_written(rows))),
{
    let all = ranked(rows);
    arranged_keeps_all(rows, rank_keys(rows));
    vstd::seq_lib::lemma_fold_left_permutation(
        rows,
        all,
        |n: int, r: Rates| n + integer_part(r.read, 2 * STEP),
        0int,
    );
    vstd::seq_lib::lemma_fold_left_permutation(
        rows,
        all,
        |n: int, r: Rates| n + integer_part(r.write, 2 * STEP),
        0int,
    );
    assert forall|i: int| 0 <= i < all.len() implies (#[trigger] all[i]).read == whole(
        integer_part(all[i].read, 2 * STEP),
    ) && all[i].write == whole(integer_part(all[i].write, 2 * STEP)) by {
        assert(all.contains(all[i]));
        assert(rows.contains(all[i]));
        let k = choose|k: int| 0 <= k < rows.len() && rows[k] == all[i];
        assert(rows[k].read == whole(integer_part(rows[k].read, 2 * STEP)));
    }
    totals_are_sums(all);
}

/// A frame's totals are the sums over all threads that both scans hold, also
/// those that it has no line for, and it tells how many those are.
pub proof fn frame_totals_are_of_all_threads(
    f: IoFrame,
    prev: Scan,
    cur: Scan,
    elapsed_s: Binary64,
    names: Map<u32, String>,
    limit: int,
)
    requires
        0 <= limit,
        frame_of(f, prev, cur, elapsed_s, names, limit),
    ensures
        ({
            let rows = differences(tallies(prev.aggs@), tallies(cur.aggs@), elapsed_s);
            &&& f.threads == rows.len()
            &&& f.rows@.len() == if rows.len() < limit {
                rows.len() as int
            } else {
                limit
            }
            &&& whole_rates(rows) && bytes_read(rows) <= 2 * STEP && bytes_written(rows) <= 2 * STEP
                ==> f.total_read == whole(bytes_read(rows)) && f.total_write == whole(
                bytes_written(rows),
            )
            &&& f.skipped == cur.skipped
            &&& f.ready
        }),
{
    let rows = differences(tallies(prev.aggs@), tallies(cur.aggs@), elapsed_s);
    arranged_keeps_all(rows, rank_keys(rows));
    if whole_rates(rows) && bytes_read(rows) <= 2 * STEP && bytes_written(rows) <= 2 * STEP {
        totals_are_of_all_lines(rows);
    }
}

/// A frame's lines are the first of the ranking: none that it leaves out stands
/// before one that it holds.
pub proof fn frame_holds_the_first_lines(
    f: IoFrame,
    prev: Scan,
    cur: Scan,
    elapsed_s: Binary64,
    names: Map<u32, String>,
    limit: int,
    i: int,
)
    requires
        0 <= limit,
        frame_of(f, prev, cur, elapsed_s, names, limit),
        0 <= i < f.rows@.len(),
    ensures
        ({
            let rows = ranked(differences(tallies(prev.aggs@), tallies(cur.aggs@), elapsed_s));
            let p = f.rows@[i];
            &&& p.tid == rows[i].who.id && p.pid == rows[i].who.pid && p.prio@ == rows[i].who.prio
            &&& p.read_bps == rows[i].read && p.write_bps == rows[i].write
            &&& p.swapin_pct == rows[i].swapin && p.io_pct == rows[i].io
            &&& p.user@ == user_text(rows[i].who.uid, names, 32)
            &&& p.command@ == command_text(rows[i].who, 240)
            &&& forall|j: int|
                f.rows@.len() <= j < rows.len() ==> stands_before(rows[i], #[trigger] rows[j])
        }),
{
    let d = differences(tallies(prev.aggs@), tallies(cur.aggs@), elapsed_s);
    let rows = ranked(d);
    arranged_keeps_all(d, rank_keys(d));
    assert(shows(f.rows@[i], rows[i], names));
    assert forall|j: int| f.rows@.len() <= j < rows.len() implies stands_before(
        rows[i],
        #[trigger] rows[j],
    ) by {
        ranking_falls(d, i, j);
    }
}

// ---------------------------------------------------------------------------
// What the screen shows

/// The screen begins with the sums over all lines, shown or not, and with the
/// rates of storage.
pub proof fn screen_tells_totals(
    prev: Scan,
    cur: Scan,
    elapsed_s: Binary64,
    opts: TopOptions,
    size: Option<(usize, usize)>,
    names: Map<u32, String>,
    delayacct: bool,
)
    requires
        ({
            let rows = differences(tallies(prev.aggs@), tallies(cur.aggs@), elapsed_s);
            whole_rates(rows) && bytes_read(rows) <= 2 * STEP && bytes_written(rows) <= 2 * STEP
        }),
    ensures
        ({
            let rows = differences(tallies(prev.aggs@), tallies(cur.aggs@), elapsed_s);
            let actual = storage_rates(prev, cur, elapsed_s);
            let totals_line = "Total DISK READ : "@ + at_right(
                bps_text(whole(bytes_read(rows))),
                13,
            ) + " | Total DISK WRITE: "@ + at_right(bps_text(whole(bytes_written(rows))), 13)
                + "\n"@;
            let actual_line = "Actual DISK READ: "@ + at_right(bps_text(actual.0), 13)
                + " | Actual DISK WRITE: "@ + at_right(bps_text(actual.1), 13) + "\n"@;
            (totals_line + actual_line).is_prefix_of(
                screen(prev, cur, elapsed_s, opts, false, size, names, delayacct),
            )
        }),
{
    let rows = differences(tallies(prev.aggs@), tallies(cur.aggs@), elapsed_s);
    let actual = storage_rates(prev, cur, elapsed_s);
    totals_are_of_all_lines(rows);
    lemma_head_begins(
        ranked(rows),
        actual,
        cur.skipped as int,
        opts.per_process,
        delayacct,
        body(
            shown(ranked(rows), opts.show_idle, limits(opts, None).0),
            opts.per_process,
            names,
            limits(opts, None).1,
        ),
    );
}

proof fn lemma_head_begins(
    rows: Seq<Rates>,
    actual: (Binary64, Binary64),
    skipped: int,
    per_process: bool,
    delayacct: bool,
    rest: Seq<char>,
)
    ensures
        (pair_line("Total DISK READ : "@, totals(rows).0, " | Total DISK WRITE: "@, totals(rows).1)
            + pair_line(
            "Actual DISK READ: "@,
            actual.0,
            " | Actual DISK WRITE: "@,
            actual.1,
        )).is_prefix_of(head(rows, actual, skipped, per_process, false, delayacct) + rest),
{
    let a = pair_line("Total DISK READ : "@, totals(rows).0, " | Total DISK WRITE: "@, totals(rows).1);
    let b = pair_line("Actual DISK READ: "@, actual.0, " | Actual DISK WRITE: "@, actual.1);
    let c = if delayacct {
        seq![]
    } else {
        "（kernel.task_delayacct=0，IO% 与 SWAPIN 恒为 0；开启: echo 1 > /proc/sys/kernel/task_delayacct）\n"@
    };
    let d = if skipped > 0 {
        "（另有 "@ + decimal(skipped) + " 个线程因退出或权限未纳入统计）\n"@
    } else {
        seq![]
    };
    let e = heading(per_process);
    lemma_begins(a, b, c, d, e, rest);
    assert(head(rows, actual, skipped, per_process, false, delayacct) == Seq::<char>::empty() + a + b
        + c + d + e);
}

proof fn lemma_begins(
    a: Seq<char>,
    b: Seq<char>,
    c: Seq<char>,
    d: Seq<char>,
    e: Seq<char>,
    f: Seq<char>,
)
    ensures
        (a + b).is_prefix_of(Seq::<char>::empty() + a + b + c + d + e + f),
{
    let s = Seq::<char>::empty() + a + b + c + d + e + f;
    let t = a + b;
    assert(s.subrange(0, t.len() as int) =~= t);
}

proof fn lemma_line_occurs(rows: Seq<Rates>, names: Map<u32, String>, width: int, k: int)
    requires
        0 <= k < rows.len(),
    ensures
        occurs(row_line(rows[k], names, width), row_lines(rows, names, width)),
    decreases rows.len(),
{
    let h = rows.drop_last();
    let t = row_line(rows[k], names, width);
    let a = row_lines(h, names, width);
    let b = row_line(rows.last(), names, width);
    if k == rows.len() - 1 {
        lemma_occurs_itself(t);
        lemma_occurs_within(t, a, t, seq![]);
        assert(a + t + seq![] =~= a + t);
    } else {
        assert(h[k] == rows[k]);
        lemma_line_occurs(h, names, width, k);
        lemma_occurs_within(t, seq![], a, b);
        assert(seq![] + a + b =~= a + b);
    }
}

/// Each line that is asked for and fits stands on the screen.
pub proof fn screen_shows_its_lines(
    prev: Scan,
    cur: Scan,
    elapsed_s: Binary64,
    opts: TopOptions,
    tty: bool,
    size: Option<(usize, usize)>,
    names: Map<u32, String>,
    delayacct: bool,
    k: int,
)
    requires
        ({
            let rows = ranked(differences(tallies(prev.aggs@), tallies(cur.aggs@), elapsed_s));
            let n = limits(
                opts,
                if tty {
                    size
                } else {
                    None
                },
            ).0;
            0 <= k < shown(rows, opts.show_idle, n).len()
        }),
    ensures
        ({
            let rows = ranked(differences(tallies(prev.aggs@), tallies(cur.aggs@), elapsed_s));
            let (n, width) = limits(
                opts,
                if tty {
                    size
                } else {
                    None
                },
            );
            occurs(
                row_line(shown(rows, opts.show_idle, n)[k], names, width),
                screen(prev, cur, elapsed_s, opts, tty, size, names, delayacct),
            )
        }),
{
    let rows = ranked(differences(tallies(prev.aggs@), tallies(cur.aggs@), elapsed_s));
    let (n, width) = limits(
        opts,
        if tty {
            size
        } else {
            None
        },
    );
    let listed = shown(rows, opts.show_idle, n);
    let t = row_line(listed[k], names, width);
    lemma_line_occurs(listed, names, width, k);
    let a = head(
        rows,
        storage_rates(prev, cur, elapsed_s),
        cur.skipped as int,
        opts.per_process,
        tty,
        delayacct,
    );
    let b = row_lines(listed, names, width);
    lemma_occurs_within(t, a, b, seq![]);
    assert(a + b + seq![] =~= a + b);
}

/// Whether each item stands before all that follow it.
pub open spec fn stands_in_order(rows: Seq<Rates>) -> bool {
    forall|i: int, j: int|
        0 <= i < j < rows.len() ==> stands_before(#[trigger] rows[i], #[trigger] rows[j])
}

proof fn lemma_picked_in_order(rows: Seq<Rates>, pred: spec_fn(Rates) -> bool)
    requires
        stands_in_order(rows),
    ensures
        stands_in_order(rows.filter(pred)),
    decreases rows.len(),
{
    reveal(Seq::filter);
    if rows.len() > 0 {
        let h = rows.drop_last();
        assert forall|i: int, j: int| 0 <= i < j < h.len() implies stands_before(
            #[trigger] h[i],
            #[trigger] h[j],
        ) by {
            assert(stands_before(rows[i], rows[j]));
        }
        lemma_picked_in_order(h, pred);
        let a = h.filter(pred);
        let b = rows.filter(pred);
        assert forall|i: int, j: int| 0 <= i < j < b.len() implies stands_before(
            #[trigger] b[i],
            #[trigger] b[j],
        ) by {
            if j < a.len() {
                assert(stands_before(a[i], a[j]));
            } else {
                assert(a.contains(a[i]));
                h.lemma_filter_contains_rev(pred, a[i]);
                let k = choose|k: int| 0 <= k < h.len() && h[k] == a[i];
                assert(stands_before(rows[k], rows[rows.len() - 1]));
            }
        }
    }
}

/// Lines with IO are shown, all of them where they fit, and otherwise those that
/// stand before the others.
pub proof fn busy_lines_are_shown(rows: Seq<Rates>, show_idle: bool, limit: int, r: Rates)
    requires
        0 <= limit,
        rows.contains(r),
        show_idle || {
            ||| zero().below(r.read)
            ||| zero().below(r.write)
            ||| zero().below(r.io)
            ||| zero().below(r.swapin)
        },
    ensures
        shown(ranked(rows), show_idle, limit).contains(r) || (shown(
            ranked(rows),
            show_idle,
            limit,
        ).len() == limit && forall|i: int|
            0 <= i < limit ==> stands_before(#[trigger] shown(ranked(rows), show_idle, limit)[i], r)),
        stands_in_order(shown(ranked(rows), show_idle, limit)),
{
    let all = ranked(rows);
    let pred = |x: Rates| show_idle || busy(x);
    let kept = all.filter(pred);
    arranged_keeps_all(rows, rank_keys(rows));
    assert forall|i: int, j: int| 0 <= i < j < all.len() implies stands_before(
        #[trigger] all[i],
        #[trigger] all[j],
    ) by {
        ranking_falls(rows, i, j);
    }
    lemma_picked_in_order(all, pred);
    let i = choose|i: int| 0 <= i < all.len() && all[i] == r;
    all.lemma_filter_contains(pred, i);
    let k = choose|k: int| 0 <= k < kept.len() && kept[k] == r;
    let s = shown(all, show_idle, limit);
    if k < s.len() {
        assert(s[k] == r);
    } else {
        assert forall|j: int| 0 <= j < limit implies stands_before(#[trigger] s[j], r) by {
            assert(s[j] == kept[j]);
            assert(stands_before(kept[j], kept[k]));
        }
    }
    assert forall|a: int, b: int| 0 <= a < b < s.len() implies stands_before(
        #[trigger] s[a],
        #[trigger] s[b],
    ) by {
        assert(stands_before(kept[a], kept[b]));
    }
}

/// A view takes the number of lines that was asked for; without one it fills the
/// terminal, with five lines left for what stands above.
pub proof fn view_fills_the_terminal(opts: TopOptions, rows: usize, cols: usize)
    ensures
        opts.rows_explicit && opts.rows > 0 ==> limits(opts, Some((rows, cols))).0 == opts.rows,
        !opts.rows_explicit && rows > 5 ==> limits(opts, Some((rows, cols))).0 + 5 == rows,
        opts.rows > 0 ==> limits(opts, None).0 == opts.rows,
        cols >= 82 ==> limits(opts, Some((rows, cols))).1 + 66 == cols,
{
}

/// 1024 to the power of `u`.
pub open spec fn kilo(u: int) -> int
    decreases u,
{
    if u <= 0 {
        1
    } else {
        1024 * kilo(u - 1)
    }
}

proof fn lemma_scales_down(n: int, k: int, u: int)
    requires
        1 <= n < 1024,
        0 <= k <= u <= 4,
    ensures
        in_unit(whole(n * kilo(k)), u - k) == (whole(n), u),
        1 <= n * kilo(k) <= 2 * STEP,
    decreases k,
{
    reveal_with_fuel(kilo, 6);
    assert(n * kilo(k) <= 1024 * kilo(4) && n * kilo(k) >= 1) by (nonlinear_arith)
        requires
            1 <= n < 1024,
            1 <= kilo(k) <= kilo(4),
    ;
    if k == 0 {
        assert(n * 1 == n);
        wholes_in_order(n, 1024);
    } else {
        lemma_scales_down(n, k - 1, u);
        let m = n * kilo(k - 1);
        assert(n * kilo(k) == m * 1024 && m * 1024 >= 1024) by (nonlinear_arith)
            requires
                kilo(k) == 1024 * kilo(k - 1),
                m == n * kilo(k - 1),
                m >= 1,
        ;
        wholes_in_order(1024, m * 1024);
        quotient_of_multiple(m, 1024);
    }
}

/// A rate is shown in the unit of which it has at least one and less than 1024:
/// bytes, K, M, G or T.
pub proof fn rates_have_their_unit(n: int, u: int)
    requires
        1 <= n < 1024,
        0 <= u <= 4,
    ensures
        bps_text(whole(n * kilo(u))) == fixed(whole(n), 2) + seq![' ', seq!['B', 'K', 'M', 'G', 'T'][u], '/', 's'],
{
    lemma_scales_down(n, u, u);
}

/// A command line in one line has no zero characters, and no spaces around it.
pub proof fn command_lines_are_plain(s: Seq<char>)
    ensures
        forall|i: int| 0 <= i < one_line(s).len() ==> (#[trigger] one_line(s)[i]) != '\0',
        one_line(s).len() > 0 ==> !space(one_line(s)[0]) && !space(one_line(s).last()),
{
    let kept = s.take(zeros_end(s, s.len() as int));
    let t = Seq::new(
        kept.len(),
        |i: int|
            if kept[i] == '\0' {
                ' '
            } else {
                kept[i]
            },
    );
    trimmed_has_no_spaces_around(t);
    let (a, b) = choose|a: int, b: int|
        0 <= a <= b <= t.len() && trimmed(t) == #[trigger] t.subrange(a, b) && (forall|i: int|
            0 <= i < a || b <= i < t.len() ==> space(#[trigger] t[i]));
    assert forall|i: int| 0 <= i < one_line(s).len() implies (#[trigger] one_line(s)[i]) != '\0' by {
        assert(one_line(s)[i] == t[a + i]);
    }
}

/// Whether a line of `/etc/passwd` is that of a user.
pub open spec fn line_of_user(line: Seq<char>, uid: u32) -> bool {
    fields(line, ':').len() >= 3 && unsigned(fields(line, ':')[2], u32::MAX as int) == Some(
        uid as u64,
    )
}

/// A user has the name on the first of the lines that are theirs.
pub proof fn first_name_counts(ls: Seq<Seq<char>>, n: int, uid: u32)
    requires
        0 <= n <= ls.len(),
    ensures
        match name_in(ls, n, uid) {
            Some(name) => exists|i: int|
                0 <= i < n && line_of_user(#[trigger] ls[i], uid) && name == fields(ls[i], ':')[0]
                    && forall|j: int| 0 <= j < i ==> !line_of_user(#[trigger] ls[j], uid),
            None => forall|j: int| 0 <= j < n ==> !line_of_user(#[trigger] ls[j], uid),
        },
    decreases n,
{
    if n > 0 {
        first_name_counts(ls, n - 1, uid);
        if name_in(ls, n - 1, uid) is None && line_of_user(ls[n - 1], uid) {
            assert(line_of_user(ls[n - 1], uid) && name_in(ls, n, uid) == Some(
                fields(ls[n - 1], ':')[0],
            ));
        }
    }
}

/// A user is shown by name, as far as that fits, or by number; one that is not
/// known is a question mark.
pub proof fn users_are_shown_by_name(uid: u32, names: Map<u32, String>, max_chars: int)
    requires
        0 < max_chars,
    ensures
        uid != u32::MAX && names.contains_key(uid) && names[uid]@.len() <= max_chars ==> user_text(
            uid,
            names,
            max_chars,
        ) == names[uid]@,
        uid != u32::MAX && names.contains_key(uid) ==> user_text(uid, names, max_chars).len()
            <= max_chars,
        uid != u32::MAX && !names.contains_key(uid) ==> user_text(uid, names, max_chars) == decimal(
            uid as int,
        ),
        user_text(u32::MAX, names, max_chars) == "?"@,
{
}

/// A command is shown as far as it fits; a thread without one is shown by its
/// name in brackets.
pub proof fn commands_are_shown(who: Who, width: int)
    requires
        0 < width,
    ensures
        0 < who.cmdline.len() <= width ==> command_text(who, width) == who.cmdline,
        who.cmdline.len() > width ==> command_text(who, width) == who.cmdline.subrange(0, width - 1)
            + seq!['~'],
        who.cmdline.len() == 0 ==> command_text(who, width) == seq!['['] + who.comm + seq![']'],
{
    if who.cmdline.len() > width {
        assert(command_text(who, width) =~= who.cmdline.subrange(0, width - 1) + seq!['~']);
    }
}

/// A name that is a number is listed after those before it; one that is not is
/// left out, and so is one that is too great.
pub proof fn numbers_are_listed(names: Seq<Seq<char>>, n: u32, name: Seq<char>, beyond: u64)
    requires
        name.len() == 0 || !digits_only(name),
        beyond > u32::MAX,
    ensures
        numeric_names(names.push(decimal(n as int))) == numeric_names(names).push(n),
        numeric_names(names.push(name)) == numeric_names(names),
        numeric_names(names.push(decimal(beyond as int))) == numeric_names(names),
        numeric_names(seq![]) == Seq::<u32>::empty(),
{
    lemma_decimal(n as int);
    assert(digit(decimal(n as int)[0]));
    lemma_decimal(beyond as int);
    assert(digit(decimal(beyond as int)[0]));
    assert(names.push(decimal(n as int)).drop_last() =~= names);
    assert(names.push(name).drop_last() =~= names);
    assert(names.push(decimal(beyond as int)).drop_last() =~= names);
}

/// Delays are counted where the kernel's switch holds any number but zero.
pub proof fn delays_are_counted_unless_zero(n: u64)
    ensures
        counts_delays(Some(decimal(n as int) + seq!['\n'])) <==> n != 0,
        counts_delays(None),
{
    let d = decimal(n as int);
    lemma_decimal(n as int);
    lemma_decimal(0);
    lemma_decimal_is_word(n as int);
    assert(!space(d[0]) && !space(d[d.len() - 1]));
    spaces_around_are_cut(seq![], d, seq!['\n']);
    assert(Seq::<char>::empty() + d + seq!['\n'] =~= d + seq!['\n']);
    reveal_strlit("0");
    assert(decimal(0) =~= "0"@);
}

/// The real user is the first number on the line for users, whatever other lines
/// stand before it.
pub proof fn users_read_back(other: Seq<char>, uid: u32, more: Seq<Seq<char>>)
    requires
        !other.contains('\n'),
        other.len() > 0 ==> other.last() != '\r',
        !"Uid:"@.is_prefix_of(other),
        forall|i: int| 0 <= i < more.len() ==> is_word(#[trigger] more[i]),
    ensures
        ({
            let line = "Uid:"@ + (seq![' '] + separated(seq![decimal(uid as int)] + more, ' '));
            &&& !line.contains('\n') && line.last() != '\r' ==> uid_in(line) == Some(uid as u64)
            &&& !line.contains('\n') && line.last() != '\r' ==> uid_in(other + seq!['\n'] + line)
                == Some(uid as u64)
            &&& uid_in(other) is None
        }),
{
    let ws = seq![decimal(uid as int)] + more;
    let t = separated(ws, ' ');
    let line = "Uid:"@ + (seq![' '] + t);
    reveal_strlit("Uid:");
    lemma_decimal_is_word(uid as int);
    lemma_decimal(uid as int);
    assert(digit(decimal(uid as int)[0]));
    assert forall|i: int| 0 <= i < ws.len() implies is_word(#[trigger] ws[i]) by {
        if i > 0 {
            assert(ws[i] == more[i - 1]);
        }
    }
    words_read_back(ws);
    lemma_words_within(seq![' '], t, 0);
    let rest = line.subrange(4, line.len() as int);
    assert(rest =~= seq![' '] + t);
    assert(rest[0] == ' ');
    assert(words(rest) == ws);
    assert("Uid:"@.is_prefix_of(line));
    lines_read_back(other, line);
    lines_read_back(other, seq![]);
    reveal_with_fuel(uid_line, 3);
    if !line.contains('\n') && line.last() != '\r' {
        lines_read_back(line, seq![]);
        let ls = seq![other] + seq![line];
        assert(ls[0] == other && ls[1] == line);
        assert(seq![line][0] == line);
    }
    if other.len() == 0 {
        assert(lines(other) =~= seq![]);
    } else {
        assert(seq![other][0] == other);
    }
}

/// A sampler's frame is about the time between two scans: the first frame has no
/// rates, and each other goes from the scan before to its own. A second or more
/// counts as it is.
pub proof fn frames_go_from_scan_to_scan(
    a: ProcSampler,
    b: ProcSampler,
    c: ProcSampler,
    first: Scan,
    second: Scan,
    elapsed: Binary64,
    seconds: int,
    limit: int,
    r: IoFrame,
    s: IoFrame,
)
    requires
        polled(a, b, first, elapsed, limit, r),
        polled(b, c, second, whole(seconds), limit, s),
        1 <= seconds <= 2 * STEP,
    ensures
        a.prev is None ==> !r.ready && r.rows@.len() == 0,
        s.ready,
        frame_of(s, first, second, whole(seconds), a.passwd@, limit),
        r.delayacct == a.delayacct && s.delayacct == a.delayacct,
{
    part_of_one(1000);
    whole_is_exact(seconds);
    whole_is_exact(1);
    if seconds > 1 {
        wholes_in_order(1, seconds);
    }
}

/// A thread's waits are those that the kernel tells in nanoseconds; where it tells
/// none, they are the ticks of its stat, of which a second has a hundred.
pub proof fn waits_are_nanoseconds(t: Thread)
    requires
        t.stat is Some,
    ensures
        t.delays matches Some(d) ==> waits(t).0 == d.blkio_ns && waits(t).1 == d.swapin_ns,
        t.delays is None && t.stat->0.blkio_ticks * 10_000_000 <= u64::MAX ==> waits(t).0 * 100
            == t.stat->0.blkio_ticks * 1_000_000_000 && waits(t).1 == 0,
{
}

/// A scan holds what was read: the machine's bytes, those read and those written,
/// one line for each number that threads count under, and as skipped those that
/// could not be read.
pub proof fn scan_holds_what_was_read(
    s: Scan,
    per_process: bool,
    threads: Seq<Thread>,
    read: u64,
    written: u64,
    n: u32,
)
    requires
        all_takeable(per_process, threads),
        scan_of(s, per_process, threads, Some((read, written))),
    ensures
        s.vm_read == Some(read),
        s.vm_write == Some(written),
        (exists|i: int| 0 <= i < threads.len() && #[trigger] counts_under(per_process, threads[i], n))
            ==> numbers(tallies(s.aggs@)).contains(n as u64),
        (forall|i: int| 0 <= i < threads.len() ==> #[trigger] readable(threads[i])) ==> s.skipped == 0,
    decreases threads.len(),
{
    scan_adds_up(per_process, threads);
    if forall|i: int| 0 <= i < threads.len() ==> #[trigger] readable(threads[i]) {
        lemma_none_skipped(threads);
    }
}

proof fn lemma_none_skipped(threads: Seq<Thread>)
    requires
        forall|i: int| 0 <= i < threads.len() ==> #[trigger] readable(threads[i]),
    ensures
        unreadable(threads) == 0,
    decreases threads.len(),
{
    if threads.len() > 0 {
        let h = threads.drop_last();
        assert forall|i: int| 0 <= i < h.len() implies #[trigger] readable(h[i]) by {
            assert(h[i] == threads[i]);
        }
        lemma_none_skipped(h);
        assert(readable(threads[threads.len() - 1]));
    }
}

/// The users that are known are those with a line, by the name on the first.
pub proof fn known_users_have_a_line(m: Map<u32, String>, ls: Seq<Seq<char>>, uid: u32)
    requires
        names_held(m, ls, ls.len() as int),
    ensures
        m.contains_key(uid) <==> exists|i: int|
            0 <= i < ls.len() && line_of_user(#[trigger] ls[i], uid),
        m.contains_key(uid) ==> exists|i: int|
            0 <= i < ls.len() && line_of_user(#[trigger] ls[i], uid) && m[uid]@ == fields(
                ls[i],
                ':',
            )[0],
{
    first_name_counts(ls, ls.len() as int, uid);
}

/// Whole percent are shown with two zeros, in eight columns.
pub proof fn percents_have_two_decimals(n: int)
    requires
        0 <= n <= 2 * STEP,
    ensures
        pct_text(whole(n)) == at_right(decimal(n) + ".00"@, 6) + " %"@,
{
    wholes_have_zeros(n, 2);
    reveal_with_fuel(crate::numeral::padded, 3);
    reveal_strlit(".00");
    reveal_strlit(".");
    assert("."@ + crate::numeral::padded(0, 2) =~= ".00"@);
    assert(decimal(n) + "."@ + crate::numeral::padded(0, 2) =~= decimal(n) + ".00"@);
}

/// The parts of a line stand in columns: whom it is about, then what is read and
/// written, then the waits for swapping and for all IO, and the command at the end.
pub proof fn lines_have_their_columns(r: Rates, names: Map<u32, String>, width: int)
    requires
        decimal(r.who.id as int).len() <= 7,
        r.who.prio.len() <= 4,
        user_text(r.who.uid, names, 8).len() <= 8,
        bps_text(r.read).len() <= 11,
        bps_text(r.write).len() <= 11,
        pct_text(r.swapin).len() <= 8,
        pct_text(r.io).len() <= 8,
    ensures
        ({
            let line = row_line(r, names, width);
            &&& line.subrange(0, 7) == at_right(decimal(r.who.id as int), 7)
            &&& line.subrange(8, 12) == at_right(r.who.prio, 4)
            &&& line.subrange(13, 21) == at_left(user_text(r.who.uid, names, 8), 8)
            &&& line.subrange(22, 33) == at_right(bps_text(r.read), 11)
            &&& line.subrange(34, 45) == at_right(bps_text(r.write), 11)
            &&& line.subrange(46, 54) == at_right(pct_text(r.swapin), 8)
            &&& line.subrange(55, 63) == at_right(pct_text(r.io), 8)
            &&& line.subrange(65, 65 + command_text(r.who, width).len() as int) == command_text(
                r.who,
                width,
            )
        }),
{
    let line = row_line(r, names, width);
    columns_have_their_width(decimal(r.who.id as int), 7);
    columns_have_their_width(r.who.prio, 4);
    columns_have_their_width(user_text(r.who.uid, names, 8), 8);
    columns_have_their_width(bps_text(r.read), 11);
    columns_have_their_width(bps_text(r.write), 11);
    columns_have_their_width(pct_text(r.swapin), 8);
    columns_have_their_width(pct_text(r.io), 8);
    reveal_strlit(" ");
    reveal_strlit("  ");
    reveal_strlit("\n");
    let p0 = at_right(decimal(r.who.id as int), 7);
    let p1 = p0 + " "@;
    let p2 = p1 + at_right(r.who.prio, 4);
    let p3 = p2 + " "@;
    let p4 = p3 + at_left(user_text(r.who.uid, names, 8), 8);
    let p5 = p4 + " "@;
    let p6 = p5 + at_right(bps_text(r.read), 11);
    let p7 = p6 + " "@;
    let p8 = p7 + at_right(bps_text(r.write), 11);
    let p9 = p8 + " "@;
    let p10 = p9 + at_right(pct_text(r.swapin), 8);
    let p11 = p10 + " "@;
    let p12 = p11 + at_right(pct_text(r.io), 8);
    let p13 = p12 + "  "@;
    let p14 = p13 + command_text(r.who, width);
    let p15 = p14 + "\n"@;
    assert(p15 == line);
    assert(p15.is_prefix_of(line));
    lemma_column(p14, "\n"@, line);
    lemma_column(p13, command_text(r.who, width), line);
    lemma_column(p12, "  "@, line);
    lemma_column(p11, at_right(pct_text(r.io), 8), line);
    lemma_column(p10, " "@, line);
    lemma_column(p9, at_right(pct_text(r.swapin), 8), line);
    lemma_column(p8, " "@, line);
    lemma_column(p7, at_right(bps_text(r.write), 11), line);
    lemma_column(p6, " "@, line);
    lemma_column(p5, at_right(bps_text(r.read), 11), line);
    lemma_column(p4, " "@, line);
    lemma_column(p3, at_left(user_text(r.who.uid, names, 8), 8), line);
    lemma_column(p2, " "@, line);
    lemma_column(p1, at_right(r.who.prio, 4), line);
    lemma_column(p0, " "@, line);
    assert(Seq::<char>::empty() + p0 =~= p0);
    lemma_column(Seq::<char>::empty(), p0, line);
}

} // verus!
