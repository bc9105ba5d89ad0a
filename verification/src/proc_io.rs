//! `/proc/<pid>/io` and the fields of `/proc/<pid>/stat` that the monitor reads.

use vstd::prelude::*;
use vstd::slice::slice_subrange;

use crate::binary64::{
    closest, nothing_per_second, quotient, quotient_is_not_below_zero, quotient_of_multiple,
    quotient_of_wholes, whole, whole_is_unsigned, whole_of_nothing, wholes_in_order, zero, Binary64,
    STEP,
};
use crate::diskstats::growth;
use crate::text::{
    chars_of, decimal, decimal_reads_back, digit, find_back, find_char, find_from, find_last,
    halves, halves_read_back, is_word, lemma_decimal, lemma_decimal_is_word, lemma_find_back_is,
    lemma_find_is, lemma_words_within, lines, lines_of, parse_signed, parse_unsigned, push_chars,
    push_decimal, same_text, separated, signed_number, space, spaces_around_are_cut, split_once,
    string_of, trim, trimmed, trimmed_stays, unsigned, views, words, words_of, words_read_back,
};

verus! {

/// What a process has counted since it started.
#[derive(Debug, Clone, PartialEq, Eq)]
pub struct ProcIo {
    /// Bytes that `read` and its like returned, those from the page cache too.
    pub rchar: u64,
    pub wchar: u64,
    /// Calls of `read` and `write`.
    pub syscr: u64,
    pub syscw: u64,
    /// Bytes that went to or came from storage.
    pub read_bytes: u64,
    pub write_bytes: u64,
    pub cancelled_write_bytes: u64,
}

impl Default for ProcIo {
    fn default() -> (r: ProcIo)
        ensures
            r == (ProcIo {
                rchar: 0,
                wchar: 0,
                syscr: 0,
                syscw: 0,
                read_bytes: 0,
                write_bytes: 0,
                cancelled_write_bytes: 0,
            }),
    {
        ProcIo {
            rchar: 0,
            wchar: 0,
            syscr: 0,
            syscw: 0,
            read_bytes: 0,
            write_bytes: 0,
            cancelled_write_bytes: 0,
        }
    }
}

/// The fields that a text must have.
pub const FIELDS: usize = 7;

/// Whether the name is that of a field.
pub open spec fn known(name: Seq<char>) -> bool {
    ||| name == "rchar"@
    ||| name == "wchar"@
    ||| name == "syscr"@
    ||| name == "syscw"@
    ||| name == "read_bytes"@
    ||| name == "write_bytes"@
    ||| name == "cancelled_write_bytes"@
}

/// The name and the value of a line that gives a field: what stands before and
/// after the first colon. Other lines are passed over.
pub open spec fn entry(line: Seq<char>) -> Option<(Seq<char>, Seq<char>)> {
    match halves(line, ':') {
        Some((k, v)) => if known(trimmed(k)) {
            Some((trimmed(k), trimmed(v)))
        } else {
            None
        },
        None => None,
    }
}

/// Whether a line gives a field a value that is no number.
pub open spec fn faulty(line: Seq<char>) -> bool {
    entry(line) matches Some((k, v)) && unsigned(v, u64::MAX as int) is None
}

/// The first faulty line from `i` on.
pub open spec fn first_faulty(ls: Seq<Seq<char>>, i: int) -> int
    decreases ls.len() - i,
{
    if i >= ls.len() {
        ls.len() as int
    } else if faulty(ls[i]) {
        i
    } else {
        first_faulty(ls, i + 1)
    }
}

/// How many of the first `n` lines give a field.
pub open spec fn entries(ls: Seq<Seq<char>>, n: int) -> int
    decreases n,
{
    if n <= 0 {
        0
    } else if entry(ls[n - 1]) is Some {
        entries(ls, n - 1) + 1
    } else {
        entries(ls, n - 1)
    }
}

/// What the last of the first `n` lines that gives the field says; zero where
/// none does.
pub open spec fn given(ls: Seq<Seq<char>>, n: int, name: Seq<char>) -> u64
    decreases n,
{
    if n <= 0 {
        0
    } else {
        match entry(ls[n - 1]) {
            Some((k, v)) => if k == name {
                unsigned(v, u64::MAX as int)->0
            } else {
                given(ls, n - 1, name)
            },
            None => given(ls, n - 1, name),
        }
    }
}

/// Whether `io` holds what the first `n` lines say.
pub open spec fn holds(io: ProcIo, ls: Seq<Seq<char>>, n: int) -> bool {
    &&& io.rchar == given(ls, n, "rchar"@)
    &&& io.wchar == given(ls, n, "wchar"@)
    &&& io.syscr == given(ls, n, "syscr"@)
    &&& io.syscw == given(ls, n, "syscw"@)
    &&& io.read_bytes == given(ls, n, "read_bytes"@)
    &&& io.write_bytes == given(ls, n, "write_bytes"@)
    &&& io.cancelled_write_bytes == given(ls, n, "cancelled_write_bytes"@)
}

/// Why a text is refused, if it is: a value that is no number, or too few lines
/// that give a field.
pub open spec fn fault(ls: Seq<Seq<char>>) -> Option<Seq<char>> {
    let i = first_faulty(ls, 0);
    let n = entries(ls, ls.len() as int);
    if i < ls.len() {
        Some(
            "字段 \""@ + (entry(ls[i])->0).0 + "\" 的值无效: \""@ + (entry(ls[i])->0).1 + "\""@,
        )
    } else if n < FIELDS {
        Some("字段不全: 仅识别到 "@ + decimal(n) + " 个（期望 7 个）"@)
    } else {
        None
    }
}

/// The field's place, where the name is that of one.
fn slot_of(name: &[char]) -> (r: Option<usize>)
    ensures
        match r {
            Some(0) => name@ == "rchar"@,
            Some(1) => name@ == "wchar"@,
            Some(2) => name@ == "syscr"@,
            Some(3) => name@ == "syscw"@,
            Some(4) => name@ == "read_bytes"@,
            Some(5) => name@ == "write_bytes"@,
            Some(6) => name@ == "cancelled_write_bytes"@,
            Some(_) => false,
            None => !known(name@),
        },
{
    if same_text(name, "rchar") {
        Some(0)
    } else if same_text(name, "wchar") {
        Some(1)
    } else if same_text(name, "syscr") {
        Some(2)
    } else if same_text(name, "syscw") {
        Some(3)
    } else if same_text(name, "read_bytes") {
        Some(4)
    } else if same_text(name, "write_bytes") {
        Some(5)
    } else if same_text(name, "cancelled_write_bytes") {
        Some(6)
    } else {
        None
    }
}

spec fn names_differ() -> bool {
    &&& "rchar"@ != "wchar"@
    &&& "rchar"@ != "syscr"@
    &&& "rchar"@ != "syscw"@
    &&& "wchar"@ != "syscr"@
    &&& "wchar"@ != "syscw"@
    &&& "syscr"@ != "syscw"@
    &&& "rchar"@.len() == 5
    &&& "wchar"@.len() == 5
    &&& "syscr"@.len() == 5
    &&& "syscw"@.len() == 5
    &&& "read_bytes"@.len() == 10
    &&& "write_bytes"@.len() == 11
    &&& "cancelled_write_bytes"@.len() == 21
}

proof fn lemma_names()
    ensures
        names_differ(),
{
    reveal_strlit("rchar");
    reveal_strlit("wchar");
    reveal_strlit("syscr");
    reveal_strlit("syscw");
    reveal_strlit("read_bytes");
    reveal_strlit("write_bytes");
    reveal_strlit("cancelled_write_bytes");
    assert("rchar"@[0] != "wchar"@[0]);
    assert("rchar"@[0] != "syscr"@[0]);
    assert("rchar"@[0] != "syscw"@[0]);
    assert("wchar"@[0] != "syscr"@[0]);
    assert("wchar"@[0] != "syscw"@[0]);
    assert("syscr"@[4] != "syscw"@[4]);
}

/// Parses the text of `/proc/<pid>/io`.
pub fn parse(content: &str) -> (r: Result<ProcIo, String>)
    ensures
        match r {
            Ok(io) => {
                &&& fault(lines(content@)) is None
                &&& holds(io, lines(content@), lines(content@).len() as int)
            },
            Err(e) => fault(lines(content@)) == Some(e@),
        },
{
    let cs = chars_of(content);
    let ls = lines_of(cs.as_slice());
    let ghost g = lines(content@);
    let mut io = ProcIo::default();
    let mut seen: usize = 0;
    proof {
        lemma_names();
    }
    for i in 0..ls.len()
        invariant
            names_differ(),
            g == views(ls@),
            g == lines(content@),
            first_faulty(g, 0) == first_faulty(g, i as int),
            0 <= seen <= i,
            seen == entries(g, i as int),
            holds(io, g, i as int),
    {
        assert(g[i as int] == ls@[i as int]@);
        if let Some((k, v)) = split_once(ls[i], ':') {
            let key = trim(k);
            let value = trim(v);
            if let Some(slot) = slot_of(key) {
                assert(entry(g[i as int]) == Some((key@, value@)));
                match parse_unsigned(value, u64::MAX) {
                    Some(n) => {
                        if slot == 0 {
                            io.rchar = n;
                        } else if slot == 1 {
                            io.wchar = n;
                        } else if slot == 2 {
                            io.syscr = n;
                        } else if slot == 3 {
                            io.syscw = n;
                        } else if slot == 4 {
                            io.read_bytes = n;
                        } else if slot == 5 {
                            io.write_bytes = n;
                        } else {
                            io.cancelled_write_bytes = n;
                        }
                        seen = seen + 1;
                    },
                    None => {
                        let mut e: String = String::new();
                        e.append("字段 \"");
                        push_chars(&mut e, key);
                        e.append("\" 的值无效: \"");
                        push_chars(&mut e, value);
                        e.append("\"");
                        return Err(e);
                    },
                }
            }
        }
    }
    if seen < FIELDS {
        let mut e: String = String::new();
        e.append("字段不全: 仅识别到 ");
        push_decimal(&mut e, seen as u64);
        e.append(" 个（期望 7 个）");
        return Err(e);
    }
    Ok(io)
}

/// The fields of `/proc/<pid>/stat` that the monitor reads.
#[derive(Debug, Clone, PartialEq, Eq)]
pub struct ProcStat {
    /// The thread's name, without its brackets.
    pub comm: String,
    /// Field 19; may be negative.
    pub nice: i64,
    /// Field 40; zero for a thread that is not scheduled in real time.
    pub rt_priority: u64,
    /// Field 41: 0 normal, 1 FIFO, 2 RR, 3 batch, 5 idle.
    pub policy: u32,
    /// Field 42: clock ticks spent waiting for block IO, each of 10 ms.
    pub blkio_ticks: u64,
}

impl Default for ProcStat {
    fn default() -> (r: ProcStat)
        ensures
            r.comm@ == Seq::<char>::empty(),
            r.nice == 0,
            r.rt_priority == 0,
            r.policy == 0,
            r.blkio_ticks == 0,
    {
        ProcStat { comm: String::new(), nice: 0, rt_priority: 0, policy: 0, blkio_ticks: 0 }
    }
}

/// The place of the first opening bracket.
pub open spec fn opening(s: Seq<char>) -> int {
    find_from(s, '(', 0)
}

/// The place of the last closing bracket.
pub open spec fn closing(s: Seq<char>) -> int {
    find_back(s, ')', s.len() as int)
}

/// The words after the name: the first of them is field 3.
pub open spec fn tail(s: Seq<char>) -> Seq<Seq<char>> {
    words(s.subrange(closing(s) + 1, s.len() as int))
}

pub open spec fn no_number(name: Seq<char>) -> Seq<char> {
    name + " 不是有效数字"@
}

/// Why a stat text is refused, if it is.
pub open spec fn stat_fault(s: Seq<char>) -> Option<Seq<char>> {
    if opening(s) >= s.len() {
        Some("stat 内容中没有 '('"@)
    } else if closing(s) < 0 {
        Some("stat 内容中没有 ')'"@)
    } else if tail(s).len() <= 39 {
        Some("stat 字段数不足: "@ + decimal(tail(s).len() as int + 2))
    } else if signed_number(tail(s)[16]) is None {
        Some(no_number("nice"@))
    } else if unsigned(tail(s)[37], u64::MAX as int) is None {
        Some(no_number("rt_priority"@))
    } else if unsigned(tail(s)[38], u32::MAX as int) is None {
        Some(no_number("policy"@))
    } else if unsigned(tail(s)[39], u64::MAX as int) is None {
        Some(no_number("blkio_ticks"@))
    } else {
        None
    }
}

/// Whether `st` holds what a stat text says.
pub open spec fn stat_holds(st: ProcStat, s: Seq<char>) -> bool {
    &&& st.comm@ == s.subrange(opening(s) + 1, closing(s))
    &&& Some(st.nice) == signed_number(tail(s)[16])
    &&& Some(st.rt_priority) == unsigned(tail(s)[37], u64::MAX as int)
    &&& Some(st.policy as u64) == unsigned(tail(s)[38], u32::MAX as int)
    &&& Some(st.blkio_ticks) == unsigned(tail(s)[39], u64::MAX as int)
}

/// Whether the brackets, where there are enough fields to go on, stand in order.
pub open spec fn bracketed(s: Seq<char>) -> bool {
    opening(s) < s.len() && closing(s) >= 0 && tail(s).len() > 39 ==> opening(s) < closing(s)
}

fn no_number_of(name: &str) -> (r: String)
    ensures
        r@ == no_number(name@),
{
    let mut e: String = String::new();
    e.append(name);
    e.append(" 不是有效数字");
    assert(Seq::<char>::empty() + name@ =~= name@);
    e
}

/// Parses the text of `/proc/<pid>/stat`. The name may hold spaces and
/// brackets, so it reaches from the first opening to the last closing one.
pub fn parse_stat(content: &str) -> (r: Result<ProcStat, String>)
    requires
        bracketed(content@),
    ensures
        match r {
            Ok(st) => {
                &&& stat_fault(content@) is None
                &&& stat_holds(st, content@)
            },
            Err(e) => stat_fault(content@) == Some(e@),
        },
{
    let cs = chars_of(content);
    let s = cs.as_slice();
    let len = s.len();
    let open = find_char(s, '(', 0);
    if open >= len {
        return Err("stat 内容中没有 '('".to_string());
    }
    let close = match find_last(s, ')') {
        Some(k) => k,
        None => return Err("stat 内容中没有 ')'".to_string()),
    };
    let fields = words_of(slice_subrange(s, close + 1, len));
    let ghost g = tail(content@);
    assert(g == views(fields@));
    if fields.len() <= 39 {
        let mut e: String = String::new();
        e.append("stat 字段数不足: ");
        push_decimal(&mut e, fields.len() as u64 + 2);
        assert(Seq::<char>::empty() + "stat 字段数不足: "@ =~= "stat 字段数不足: "@);
        return Err(e);
    }
    assert(g[16] == fields@[16]@ && g[37] == fields@[37]@ && g[38] == fields@[38]@ && g[39]
        == fields@[39]@);
    let comm = string_of(slice_subrange(s, open + 1, close));
    let nice = match parse_signed(fields[16]) {
        Some(n) => n,
        None => return Err(no_number_of("nice")),
    };
    let rt_priority = match parse_unsigned(fields[37], u64::MAX) {
        Some(n) => n,
        None => return Err(no_number_of("rt_priority")),
    };
    let policy = match parse_unsigned(fields[38], u32::MAX as u64) {
        Some(n) => n as u32,
        None => return Err(no_number_of("policy")),
    };
    let blkio_ticks = match parse_unsigned(fields[39], u64::MAX) {
        Some(n) => n,
        None => return Err(no_number_of("blkio_ticks")),
    };
    Ok(ProcStat { comm, nice, rt_priority, policy, blkio_ticks })
}

/// Whether `parse_stat` can be asked of the text.
pub fn stat_fits(content: &str) -> (r: bool)
    ensures
        r == bracketed(content@),
{
    let cs = chars_of(content);
    let s = cs.as_slice();
    let len = s.len();
    let open = find_char(s, '(', 0);
    match find_last(s, ')') {
        Some(close) => {
            let fields = words_of(slice_subrange(s, close + 1, len));
            assert(tail(content@) == views(fields@));
            open >= len || fields.len() <= 39 || open < close
        },
        None => true,
    }
}

/// A process's rates over one interval.
pub struct ProcIoRate {
    pub rchar_s: Binary64,
    pub wchar_s: Binary64,
    /// KiB from and to storage in a second.
    pub read_kbps: Binary64,
    pub write_kbps: Binary64,
    /// Milliseconds spent waiting for IO.
    pub iodelay_ms: u64,
}

/// `n` times `k`, or the largest number where that is too large.
pub open spec fn capped_product(n: int, k: int) -> int {
    if n * k > u64::MAX {
        u64::MAX as int
    } else {
        n * k
    }
}

/// `n` times `k`, kept within 64 bits.
pub fn saturating_product(n: u64, k: u64) -> (r: u64)
    ensures
        r == capped_product(n as int, k as int),
{
    match n.checked_mul(k) {
        Some(v) => v,
        None => u64::MAX,
    }
}

/// The rates between two samples. A tick is 10 milliseconds.
pub open spec fn rate_between(
    prev: ProcIo,
    prev_ticks: u64,
    cur: ProcIo,
    cur_ticks: u64,
    elapsed_s: Binary64,
) -> ProcIoRate {
    ProcIoRate {
        rchar_s: quotient(whole(growth(prev.rchar, cur.rchar)), elapsed_s),
        wchar_s: quotient(whole(growth(prev.wchar, cur.wchar)), elapsed_s),
        read_kbps: quotient(
            quotient(whole(growth(prev.read_bytes, cur.read_bytes)), whole(1024)),
            elapsed_s,
        ),
        write_kbps: quotient(
            quotient(whole(growth(prev.write_bytes, cur.write_bytes)), whole(1024)),
            elapsed_s,
        ),
        iodelay_ms: capped_product(growth(prev_ticks, cur_ticks), 10) as u64,
    }
}

/// The rates between two samples.
pub fn rate(
    prev: &ProcIo,
    prev_ticks: u64,
    cur: &ProcIo,
    cur_ticks: u64,
    elapsed_s: Binary64,
) -> (r: ProcIoRate)
    ensures
        r == rate_between(*prev, prev_ticks, *cur, cur_ticks, elapsed_s),
{
    let kib = Binary64::from_u64(1024);
    ProcIoRate {
        rchar_s: Binary64::from_u64(cur.rchar.saturating_sub(prev.rchar)).over(&elapsed_s),
        wchar_s: Binary64::from_u64(cur.wchar.saturating_sub(prev.wchar)).over(&elapsed_s),
        read_kbps: Binary64::from_u64(cur.read_bytes.saturating_sub(prev.read_bytes)).over(
            &kib,
        ).over(&elapsed_s),
        write_kbps: Binary64::from_u64(cur.write_bytes.saturating_sub(prev.write_bytes)).over(
            &kib,
        ).over(&elapsed_s),
        iodelay_ms: saturating_product(cur_ticks.saturating_sub(prev_ticks), 10),
    }
}

/// No rate of a process is below zero, also where its counters went back.
pub proof fn rates_are_not_below_zero(
    prev: ProcIo,
    prev_ticks: u64,
    cur: ProcIo,
    cur_ticks: u64,
    elapsed_s: Binary64,
)
    requires
        !elapsed_s.negative(),
    ensures
        ({
            let r = rate_between(prev, prev_ticks, cur, cur_ticks, elapsed_s);
            &&& !r.rchar_s.below(zero())
            &&& !r.wchar_s.below(zero())
            &&& !r.read_kbps.below(zero())
            &&& !r.write_kbps.below(zero())
        }),
{
    let rchar = whole(growth(prev.rchar, cur.rchar));
    let wchar = whole(growth(prev.wchar, cur.wchar));
    let read = whole(growth(prev.read_bytes, cur.read_bytes));
    let write = whole(growth(prev.write_bytes, cur.write_bytes));
    whole_is_unsigned(growth(prev.rchar, cur.rchar));
    whole_is_unsigned(growth(prev.wchar, cur.wchar));
    whole_is_unsigned(growth(prev.read_bytes, cur.read_bytes));
    whole_is_unsigned(growth(prev.write_bytes, cur.write_bytes));
    whole_is_unsigned(1024);
    quotient_is_not_below_zero(rchar, elapsed_s);
    quotient_is_not_below_zero(wchar, elapsed_s);
    quotient_is_not_below_zero(read, whole(1024));
    quotient_is_not_below_zero(write, whole(1024));
    quotient_is_not_below_zero(quotient(read, whole(1024)), elapsed_s);
    quotient_is_not_below_zero(quotient(write, whole(1024)), elapsed_s);
}

// ---------------------------------------------------------------------------
// What holds of a text's lines

/// Whether each field is given by one line at most.
pub open spec fn given_once(ls: Seq<Seq<char>>) -> bool {
    forall|i: int, j: int|
        #![trigger entry(ls[i]), entry(ls[j])]
        0 <= i < j < ls.len() && entry(ls[i]) is Some && entry(ls[j]) is Some ==> (entry(
            ls[i],
        )->0).0 != (entry(ls[j])->0).0
}

/// Whether line `i` gives the field a number.
pub open spec fn gives_number(ls: Seq<Seq<char>>, i: int, name: Seq<char>) -> bool {
    &&& 0 <= i < ls.len()
    &&& entry(ls[i]) is Some
    &&& (entry(ls[i])->0).0 == name
    &&& unsigned((entry(ls[i])->0).1, u64::MAX as int) is Some
}

/// Whether some line gives the field a number.
pub open spec fn has_number(ls: Seq<Seq<char>>, name: Seq<char>) -> bool {
    exists|i: int| gives_number(ls, i, name)
}

/// How many of the first `n` lines give the field.
spec fn times(ls: Seq<Seq<char>>, n: int, name: Seq<char>) -> int
    decreases n,
{
    if n <= 0 {
        0
    } else if entry(ls[n - 1]) is Some && (entry(ls[n - 1])->0).0 == name {
        times(ls, n - 1, name) + 1
    } else {
        times(ls, n - 1, name)
    }
}

/// Each line that gives a field gives one of the seven.
proof fn lemma_entries_by_name(ls: Seq<Seq<char>>, n: int)
    requires
        0 <= n <= ls.len(),
    ensures
        entries(ls, n) == times(ls, n, "rchar"@) + times(ls, n, "wchar"@) + times(ls, n, "syscr"@)
            + times(ls, n, "syscw"@) + times(ls, n, "read_bytes"@) + times(ls, n, "write_bytes"@)
            + times(ls, n, "cancelled_write_bytes"@),
    decreases n,
{
    if n > 0 {
        lemma_names();
        lemma_entries_by_name(ls, n - 1);
    }
}

/// Where fields are given once, a line that gives one is the only one that does.
proof fn lemma_times(ls: Seq<Seq<char>>, n: int, name: Seq<char>)
    requires
        given_once(ls),
        0 <= n <= ls.len(),
    ensures
        0 <= times(ls, n, name) <= 1,
        times(ls, n, name) == 1 <==> exists|i: int|
            0 <= i < n && (#[trigger] entry(ls[i])) is Some && (entry(ls[i])->0).0 == name,
    decreases n,
{
    if n > 0 {
        lemma_times(ls, n - 1, name);
        let e = entry(ls[n - 1]);
        if e is Some && (e->0).0 == name {
            if times(ls, n - 1, name) == 1 {
                let i = choose|i: int|
                    0 <= i < n - 1 && (#[trigger] entry(ls[i])) is Some && (entry(ls[i])->0).0 == name;
                assert((entry(ls[i])->0).0 != (entry(ls[n - 1])->0).0);
            }
        } else if times(ls, n, name) == 1 {
            let i = choose|i: int|
                0 <= i < n - 1 && (#[trigger] entry(ls[i])) is Some && (entry(ls[i])->0).0 == name;
            assert(0 <= i < n && entry(ls[i]) is Some);
        } else {
            assert forall|i: int| 0 <= i < n implies !((#[trigger] entry(ls[i])) is Some && (entry(
                ls[i],
            )->0).0 == name) by {
                assert(i < n - 1 || i == n - 1);
            }
        }
    }
}

proof fn lemma_first_faulty(ls: Seq<Seq<char>>, i: int)
    requires
        0 <= i <= ls.len(),
    ensures
        i <= first_faulty(ls, i) <= ls.len(),
        first_faulty(ls, i) < ls.len() ==> faulty(ls[first_faulty(ls, i)]),
        forall|j: int| i <= j < first_faulty(ls, i) ==> !faulty(#[trigger] ls[j]),
    decreases ls.len() - i,
{
    if i < ls.len() && !faulty(ls[i]) {
        lemma_first_faulty(ls, i + 1);
    }
}

/// The value of a field is that of the last line that gives it.
proof fn lemma_given(ls: Seq<Seq<char>>, n: int, i: int, name: Seq<char>)
    requires
        given_once(ls),
        gives_number(ls, i, name),
        i < n <= ls.len(),
    ensures
        Some(given(ls, n, name)) == unsigned((entry(ls[i])->0).1, u64::MAX as int),
    decreases n,
{
    if n - 1 > i {
        if entry(ls[n - 1]) is Some {
            assert((entry(ls[i])->0).0 != (entry(ls[n - 1])->0).0);
        }
        lemma_given(ls, n - 1, i, name);
    }
}

/// Where no field is given twice, a text is read exactly when each of the seven
/// fields is given a number.
pub proof fn complete_text_is_read(ls: Seq<Seq<char>>)
    requires
        given_once(ls),
    ensures
        fault(ls) is None <==> forall|name: Seq<char>| known(name) ==> #[trigger] has_number(ls, name),
{
    let n = ls.len() as int;
    lemma_entries_by_name(ls, n);
    lemma_first_faulty(ls, 0);
    lemma_times(ls, n, "rchar"@);
    lemma_times(ls, n, "wchar"@);
    lemma_times(ls, n, "syscr"@);
    lemma_times(ls, n, "syscw"@);
    lemma_times(ls, n, "read_bytes"@);
    lemma_times(ls, n, "write_bytes"@);
    lemma_times(ls, n, "cancelled_write_bytes"@);
    if fault(ls) is None {
        assert forall|name: Seq<char>| known(name) implies #[trigger] has_number(ls, name) by {
            lemma_times(ls, n, name);
            let i = choose|i: int|
                0 <= i < n && (#[trigger] entry(ls[i])) is Some && (entry(ls[i])->0).0 == name;
            assert(!faulty(ls[i]));
            assert(gives_number(ls, i, name));
        }
    }
    if forall|name: Seq<char>| known(name) ==> #[trigger] has_number(ls, name) {
        lemma_present(ls, "rchar"@);
        lemma_present(ls, "wchar"@);
        lemma_present(ls, "syscr"@);
        lemma_present(ls, "syscw"@);
        lemma_present(ls, "read_bytes"@);
        lemma_present(ls, "write_bytes"@);
        lemma_present(ls, "cancelled_write_bytes"@);
        let f = first_faulty(ls, 0);
        if f < n {
            let name = (entry(ls[f])->0).0;
            assert(known(name));
            assert(has_number(ls, name));
            let i = choose|i: int| gives_number(ls, i, name);
            assert(entry(ls[i]) is Some && entry(ls[f]) is Some);
            if i < f {
                assert((entry(ls[i])->0).0 != (entry(ls[f])->0).0);
            } else if f < i {
                assert((entry(ls[f])->0).0 != (entry(ls[i])->0).0);
            }
        }
    }
}

proof fn lemma_present(ls: Seq<Seq<char>>, name: Seq<char>)
    requires
        given_once(ls),
        known(name),
        has_number(ls, name),
    ensures
        times(ls, ls.len() as int, name) == 1,
{
    lemma_times(ls, ls.len() as int, name);
    let i = choose|i: int| gives_number(ls, i, name);
    assert(0 <= i < ls.len() && entry(ls[i]) is Some);
}

/// Where no field is given twice, a field is the number that its line gives.
pub proof fn field_is_its_value(ls: Seq<Seq<char>>, i: int, name: Seq<char>)
    requires
        given_once(ls),
        gives_number(ls, i, name),
    ensures
        Some(given(ls, ls.len() as int, name)) == unsigned((entry(ls[i])->0).1, u64::MAX as int),
{
    lemma_given(ls, ls.len() as int, i, name);
}

/// Whether `b` holds the lines of `a` in another order: `p` tells where each
/// stood, and tells each place once.
pub open spec fn reordered(a: Seq<Seq<char>>, b: Seq<Seq<char>>, p: Seq<int>) -> bool {
    &&& b.len() == a.len()
    &&& p.len() == a.len()
    &&& forall|i: int| 0 <= i < p.len() ==> 0 <= #[trigger] p[i] < a.len() && b[i] == a[p[i]]
    &&& forall|i: int, j: int| 0 <= i < j < p.len() ==> #[trigger] p[i] != #[trigger] p[j]
    &&& forall|k: int| 0 <= k < a.len() ==> #[trigger] p.contains(k)
}

/// Where no field is given twice, the order of lines does not matter.
pub proof fn order_does_not_matter(a: Seq<Seq<char>>, b: Seq<Seq<char>>, p: Seq<int>)
    requires
        given_once(a),
        reordered(a, b, p),
    ensures
        given_once(b),
        fault(a) is None <==> fault(b) is None,
        fault(a) is None ==> forall|name: Seq<char>|
            known(name) ==> #[trigger] given(a, a.len() as int, name) == given(
                b,
                b.len() as int,
                name,
            ),
        fault(a) is None ==> forall|io: ProcIo|
            #[trigger] holds(io, a, a.len() as int) <==> holds(io, b, b.len() as int),
{
    assert forall|i: int, j: int|
        #![trigger entry(b[i]), entry(b[j])]
        0 <= i < j < b.len() && entry(b[i]) is Some && entry(b[j]) is Some implies (entry(
        b[i],
    )->0).0 != (entry(b[j])->0).0 by {
        assert(p[i] != p[j]);
        assert(entry(a[p[i]]) is Some && entry(a[p[j]]) is Some);
    }
    complete_text_is_read(a);
    complete_text_is_read(b);
    assert forall|name: Seq<char>| has_number(a, name) implies #[trigger] has_number(b, name) by {
        let k = choose|k: int| gives_number(a, k, name);
        assert(p.contains(k));
        let i = choose|i: int| 0 <= i < p.len() && p[i] == k;
        assert(gives_number(b, i, name));
    }
    assert forall|name: Seq<char>| has_number(b, name) implies #[trigger] has_number(a, name) by {
        let i = choose|i: int| gives_number(b, i, name);
        assert(gives_number(a, p[i], name));
    }
    if fault(a) is None {
        assert forall|name: Seq<char>| known(name) implies #[trigger] given(
            a,
            a.len() as int,
            name,
        ) == given(b, b.len() as int, name) by {
            assert(has_number(b, name));
            let i = choose|i: int| gives_number(b, i, name);
            assert(gives_number(a, p[i], name));
            field_is_its_value(a, p[i], name);
            field_is_its_value(b, i, name);
        }
        let n = a.len() as int;
        assert(given(a, n, "rchar"@) == given(b, n, "rchar"@));
        assert(given(a, n, "wchar"@) == given(b, n, "wchar"@));
        assert(given(a, n, "syscr"@) == given(b, n, "syscr"@));
        assert(given(a, n, "syscw"@) == given(b, n, "syscw"@));
        assert(given(a, n, "read_bytes"@) == given(b, n, "read_bytes"@));
        assert(given(a, n, "write_bytes"@) == given(b, n, "write_bytes"@));
        assert(given(a, n, "cancelled_write_bytes"@) == given(b, n, "cancelled_write_bytes"@));
    }
}

/// Counts and values do not change where a line that gives no field is left out.
proof fn lemma_without(ls: Seq<Seq<char>>, i: int, n: int)
    requires
        0 <= i < ls.len(),
        entry(ls[i]) is None,
        i < n <= ls.len(),
    ensures
        entries(ls, n) == entries(ls.remove(i), n - 1),
        forall|name: Seq<char>| #[trigger] given(ls, n, name) == given(ls.remove(i), n - 1, name),
    decreases n,
{
    let r = ls.remove(i);
    if n - 1 > i {
        lemma_without(ls, i, n - 1);
        assert(r[n - 2] == ls[n - 1]);
        assert forall|name: Seq<char>| #[trigger] given(ls, n, name) == given(r, n - 1, name) by {
            assert(given(ls, n - 1, name) == given(r, n - 2, name));
        }
    } else {
        lemma_same_lines(ls, r, i);
        assert forall|name: Seq<char>| #[trigger] given(ls, n, name) == given(r, n - 1, name) by {
            assert(given(ls, i, name) == given(r, i, name));
        }
    }
}

proof fn lemma_same_lines(a: Seq<Seq<char>>, b: Seq<Seq<char>>, n: int)
    requires
        0 <= n <= a.len(),
        n <= b.len(),
        forall|j: int| 0 <= j < n ==> a[j] == b[j],
    ensures
        entries(a, n) == entries(b, n),
        forall|name: Seq<char>| #[trigger] given(a, n, name) == given(b, n, name),
    decreases n,
{
    if n > 0 {
        lemma_same_lines(a, b, n - 1);
        assert forall|name: Seq<char>| #[trigger] given(a, n, name) == given(b, n, name) by {
            assert(given(a, n - 1, name) == given(b, n - 1, name));
        }
    }
}

/// A line that gives no field, whatever it holds, changes nothing.
pub proof fn other_lines_change_nothing(ls: Seq<Seq<char>>, i: int)
    requires
        0 <= i < ls.len(),
        entry(ls[i]) is None,
    ensures
        fault(ls.remove(i)) == fault(ls),
        forall|io: ProcIo|
            #[trigger] holds(io, ls, ls.len() as int) <==> holds(io, ls.remove(i), ls.len() - 1),
{
    let r = ls.remove(i);
    let n = ls.len() as int;
    lemma_without(ls, i, n);
    lemma_first_faulty(ls, 0);
    lemma_first_faulty(r, 0);
    let f = first_faulty(ls, 0);
    let g = first_faulty(r, 0);
    assert(!faulty(ls[i]));
    // the first faulty line is the same one in both
    if f < n {
        let h = if f < i {
            f
        } else {
            f - 1
        };
        assert(r[h] == ls[f]);
        assert(faulty(r[h]));
        if g < h {
            let k = if g < i {
                g
            } else {
                g + 1
            };
            assert(ls[k] == r[g]);
            assert(faulty(ls[k]));
        }
        assert(g == h);
    } else if g < r.len() {
        let k = if g < i {
            g
        } else {
            g + 1
        };
        assert(ls[k] == r[g]);
        assert(faulty(ls[k]));
    }
    assert(given(ls, n, "rchar"@) == given(r, n - 1, "rchar"@));
    assert(given(ls, n, "wchar"@) == given(r, n - 1, "wchar"@));
    assert(given(ls, n, "syscr"@) == given(r, n - 1, "syscr"@));
    assert(given(ls, n, "syscw"@) == given(r, n - 1, "syscw"@));
    assert(given(ls, n, "read_bytes"@) == given(r, n - 1, "read_bytes"@));
    assert(given(ls, n, "write_bytes"@) == given(r, n - 1, "write_bytes"@));
    assert(given(ls, n, "cancelled_write_bytes"@) == given(r, n - 1, "cancelled_write_bytes"@));
}

// ---------------------------------------------------------------------------
// What the rates stand for

/// Characters in a second are the number closest to the ratio of what was counted
/// and the seconds passed, and a counter that did not grow has no rate. A tick of
/// waiting is 10 milliseconds.
pub proof fn characters_are_counted_by_the_second(
    prev: ProcIo,
    prev_ticks: u64,
    cur: ProcIo,
    cur_ticks: u64,
    t: int,
)
    requires
        0 < t <= 2 * STEP,
    ensures
        ({
            let r = rate_between(prev, prev_ticks, cur, cur_ticks, whole(t));
            &&& 0 <= cur.rchar - prev.rchar <= 2 * STEP ==> r.rchar_s == closest(
                cur.rchar - prev.rchar,
                t,
            )
            &&& 0 <= cur.wchar - prev.wchar <= 2 * STEP ==> r.wchar_s == closest(
                cur.wchar - prev.wchar,
                t,
            )
            &&& cur.rchar <= prev.rchar ==> r.rchar_s == zero()
            &&& cur.wchar <= prev.wchar ==> r.wchar_s == zero()
            &&& 0 <= (cur_ticks - prev_ticks) * 10 <= u64::MAX ==> r.iodelay_ms == (cur_ticks
                - prev_ticks) * 10
            &&& cur_ticks <= prev_ticks ==> r.iodelay_ms == 0
        }),
{
    let a = growth(prev.rchar, cur.rchar);
    let b = growth(prev.wchar, cur.wchar);
    wholes_in_order(0, t);
    whole_of_nothing();
    nothing_per_second(whole(t));
    if a <= 2 * STEP {
        quotient_of_wholes(a, t);
    }
    if b <= 2 * STEP {
        quotient_of_wholes(b, t);
    }
}

/// Storage is told in KiB in a second, read and written.
pub proof fn storage_is_told_in_kib(
    prev: ProcIo,
    prev_ticks: u64,
    cur: ProcIo,
    cur_ticks: u64,
    k: int,
    t: int,
)
    requires
        0 <= k,
        0 < t <= 2 * STEP,
        (k * t) * 1024 <= 2 * STEP,
    ensures
        cur.read_bytes == prev.read_bytes + (k * t) * 1024 ==> rate_between(
            prev,
            prev_ticks,
            cur,
            cur_ticks,
            whole(t),
        ).read_kbps == whole(k),
        cur.write_bytes == prev.write_bytes + (k * t) * 1024 ==> rate_between(
            prev,
            prev_ticks,
            cur,
            cur_ticks,
            whole(t),
        ).write_kbps == whole(k),
{
    assert(k * t >= 0) by (nonlinear_arith)
        requires
            k >= 0,
            t > 0,
    ;
    quotient_of_multiple(k * t, 1024);
    quotient_of_multiple(k, t);
}

// ---------------------------------------------------------------------------
// What texts are read as

/// A line of a counter.
pub open spec fn io_line(name: Seq<char>, n: u64) -> Seq<char> {
    name + seq![':'] + (seq![' '] + decimal(n as int))
}

/// The lines of all counters.
pub open spec fn io_lines(io: ProcIo) -> Seq<Seq<char>> {
    seq![
        io_line("rchar"@, io.rchar),
        io_line("wchar"@, io.wchar),
        io_line("syscr"@, io.syscr),
        io_line("syscw"@, io.syscw),
        io_line("read_bytes"@, io.read_bytes),
        io_line("write_bytes"@, io.write_bytes),
        io_line("cancelled_write_bytes"@, io.cancelled_write_bytes),
    ]
}

proof fn lemma_io_line(name: Seq<char>, n: u64)
    requires
        known(name),
        is_word(name),
        !name.contains(':'),
    ensures
        entry(io_line(name, n)) == Some((name, decimal(n as int))),
        unsigned(decimal(n as int), u64::MAX as int) == Some(n),
{
    let d = decimal(n as int);
    lemma_decimal_is_word(n as int);
    decimal_reads_back(n);
    halves_read_back(name, ':', seq![' '] + d);
    assert(!space(name[0]) && !space(name[name.len() - 1]));
    trimmed_stays(name);
    assert(!space(d[0]) && !space(d[d.len() - 1]));
    spaces_around_are_cut(seq![' '], d, seq![]);
    assert(seq![' '] + d + Seq::<char>::empty() =~= seq![' '] + d);
}

proof fn lemma_plain_name(name: Seq<char>)
    requires
        forall|i: int| 0 <= i < name.len() ==> 'a' <= #[trigger] name[i] <= 'z' || name[i] == '_',
        name.len() > 0,
    ensures
        is_word(name),
        !name.contains(':'),
{
}

/// Counters written a line each are read back: each under its own name.
pub proof fn counters_read_back(io: ProcIo)
    ensures
        fault(io_lines(io)) is None,
        forall|r: ProcIo| #[trigger] holds(r, io_lines(io), 7) ==> r == io,
{
    let ls = io_lines(io);
    lemma_names();
    reveal_strlit("rchar");
    reveal_strlit("wchar");
    reveal_strlit("syscr");
    reveal_strlit("syscw");
    reveal_strlit("read_bytes");
    reveal_strlit("write_bytes");
    reveal_strlit("cancelled_write_bytes");
    lemma_plain_name("rchar"@);
    lemma_plain_name("wchar"@);
    lemma_plain_name("syscr"@);
    lemma_plain_name("syscw"@);
    lemma_plain_name("read_bytes"@);
    lemma_plain_name("write_bytes"@);
    lemma_plain_name("cancelled_write_bytes"@);
    lemma_io_line("rchar"@, io.rchar);
    lemma_io_line("wchar"@, io.wchar);
    lemma_io_line("syscr"@, io.syscr);
    lemma_io_line("syscw"@, io.syscw);
    lemma_io_line("read_bytes"@, io.read_bytes);
    lemma_io_line("write_bytes"@, io.write_bytes);
    lemma_io_line("cancelled_write_bytes"@, io.cancelled_write_bytes);
    lemma_first_faulty(ls, 0);
    reveal_with_fuel(entries, 8);
    reveal_with_fuel(given, 8);
    assert forall|i: int| 0 <= i < 7 implies !faulty(#[trigger] ls[i]) by {}
}

/// A stat text reads as what stands in it, counted from one as its fields are: a
/// name in brackets, which may hold anything, and the numbers of fields 19, 40, 41
/// and 42.
pub proof fn stat_reads_back(
    front: Seq<char>,
    comm: Seq<char>,
    ws: Seq<Seq<char>>,
    st: ProcStat,
    nice: u32,
    rt_priority: u64,
    policy: u32,
    ticks: u64,
)
    requires
        !front.contains('('),
        ws.len() >= 42 - 2,
        forall|i: int| 0 <= i < ws.len() ==> is_word(#[trigger] ws[i]),
        !separated(ws, ' ').contains(')'),
        ws[19 - 3] == decimal(nice as int) || ws[19 - 3] == seq!['-'] + decimal(nice as int),
        ws[40 - 3] == decimal(rt_priority as int),
        ws[41 - 3] == decimal(policy as int),
        ws[42 - 3] == decimal(ticks as int),
    ensures
        ({
            let s = front + seq!['('] + comm + seq![')'] + (seq![' '] + separated(ws, ' '));
            &&& stat_fault(s) is None
            &&& bracketed(s)
            &&& stat_holds(st, s) ==> {
                &&& st.comm@ == comm
                &&& ws[19 - 3] == decimal(nice as int) ==> st.nice == nice
                &&& ws[19 - 3] == seq!['-'] + decimal(nice as int) ==> st.nice == -nice
                &&& st.rt_priority == rt_priority
                &&& st.policy == policy
                &&& st.blkio_ticks == ticks
            }
        }),
{
    let t = separated(ws, ' ');
    let s = front + seq!['('] + comm + seq![')'] + (seq![' '] + t);
    let a = front.len() as int;
    let b = a + 1 + comm.len();
    assert(s[a] == '(' && s[b] == ')');
    assert forall|j: int| 0 <= j < a implies s[j] != '(' by {
        assert(front.contains(front[j]));
        assert(s[j] == front[j]);
    }
    lemma_find_is(s, '(', 0, a);
    assert forall|j: int| b < j < s.len() implies s[j] != ')' by {
        if j > b + 1 {
            assert(t.contains(t[j - b - 2]));
            assert(s[j] == t[j - b - 2]);
        } else {
            assert(s[j] == ' ');
        }
    }
    lemma_find_back_is(s, ')', s.len() as int, b);
    let rest = s.subrange(b + 1, s.len() as int);
    assert(rest =~= seq![' '] + t);
    lemma_words_within(seq![' '], t, 0);
    words_read_back(ws);
    assert(rest[0] == ' ');
    assert(words(rest) == ws);
    assert(s.subrange(a + 1, b) =~= comm);
    let d = decimal(nice as int);
    lemma_decimal(nice as int);
    assert(digit(d[0]));
    let m = seq!['-'] + d;
    assert(m.subrange(1, m.len() as int) =~= d);
    lemma_decimal(rt_priority as int);
    assert(digit(decimal(rt_priority as int)[0]));
    lemma_decimal(policy as int);
    assert(digit(decimal(policy as int)[0]));
    lemma_decimal(ticks as int);
    assert(digit(decimal(ticks as int)[0]));
    assert(m[0] == '-');
}

} // verus!
