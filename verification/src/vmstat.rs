//! `pgpgin` and `pgpgout` of `/proc/vmstat`.
//!
//! The two count pages moved in and out, in KiB. They do not add up whole
//! disks, partitions and device mapper targets.

use vstd::prelude::*;

use crate::text::{
    chars_of, decimal, decimal_reads_back, is_word, lemma_decimal_is_word, lines, lines_of,
    lines_read_back, parse_unsigned, same_text, separated, space, unsigned, views, words, words_of,
    words_read_back,
};

verus! {

/// The number that the last of the first `n` lines that begins with `name` and
/// a second word gives to that name.
pub open spec fn counter(ls: Seq<Seq<char>>, n: int, name: Seq<char>) -> Option<u64>
    decreases n,
{
    if n <= 0 {
        None
    } else {
        let w = words(ls[n - 1]);
        if w.len() >= 2 && w[0] == name {
            unsigned(w[1], u64::MAX as int)
        } else {
            counter(ls, n - 1, name)
        }
    }
}

/// What the text gives to `name`.
pub open spec fn count(content: Seq<char>, name: Seq<char>) -> Option<u64> {
    counter(lines(content), lines(content).len() as int, name)
}

/// Whether the counters, as bytes, fit in 64 bits.
pub open spec fn bytes_fit(content: Seq<char>) -> bool {
    match (count(content, "pgpgin"@), count(content, "pgpgout"@)) {
        (Some(a), Some(b)) => a * 1024 <= u64::MAX && b * 1024 <= u64::MAX,
        (Some(a), None) => a * 1024 <= u64::MAX,
        _ => true,
    }
}

/// The bytes read and written, where both are counted.
pub open spec fn moved(content: Seq<char>) -> Option<(u64, u64)> {
    match (count(content, "pgpgin"@), count(content, "pgpgout"@)) {
        (Some(a), Some(b)) => Some(((a * 1024) as u64, (b * 1024) as u64)),
        _ => None,
    }
}

/// Both counters, in KiB.
fn counters(content: &str) -> (r: (Option<u64>, Option<u64>))
    ensures
        r.0 == count(content@, "pgpgin"@),
        r.1 == count(content@, "pgpgout"@),
{
    let cs = chars_of(content);
    let ls = lines_of(cs.as_slice());
    let ghost g = lines(content@);
    let mut pgpgin: Option<u64> = None;
    let mut pgpgout: Option<u64> = None;
    proof {
        reveal_strlit("pgpgin");
        reveal_strlit("pgpgout");
        assert("pgpgin"@.len() != "pgpgout"@.len());
    }
    for i in 0..ls.len()
        invariant
            g == views(ls@),
            g == lines(content@),
            "pgpgin"@.len() != "pgpgout"@.len(),
            pgpgin == counter(g, i as int, "pgpgin"@),
            pgpgout == counter(g, i as int, "pgpgout"@),
    {
        let w = words_of(ls[i]);
        assert(g[i as int] == ls@[i as int]@);
        let ghost wg = words(g[i as int]);
        assert(wg == views(w@));
        if w.len() >= 2 {
            assert(wg[0] == w@[0]@ && wg[1] == w@[1]@);
            if same_text(w[0], "pgpgin") {
                pgpgin = parse_unsigned(w[1], u64::MAX);
            } else if same_text(w[0], "pgpgout") {
                pgpgout = parse_unsigned(w[1], u64::MAX);
            }
        }
    }
    (pgpgin, pgpgout)
}

/// The bytes read and written that the text of `/proc/vmstat` counts. Without
/// either counter there is nothing to give.
pub fn parse(content: &str) -> (r: Option<(u64, u64)>)
    requires
        bytes_fit(content@),
    ensures
        r == moved(content@),
{
    match counters(content) {
        (Some(a), Some(b)) => Some((a * 1024, b * 1024)),
        _ => None,
    }
}

/// Whether `parse` can be asked of the text.
pub fn parse_fits(content: &str) -> (r: bool)
    ensures
        r == bytes_fit(content@),
{
    match counters(content) {
        (Some(a), Some(b)) => a <= u64::MAX / 1024 && b <= u64::MAX / 1024,
        (Some(a), None) => a <= u64::MAX / 1024,
        _ => true,
    }
}

/// A counter is what the last line with its name says.
pub proof fn last_line_counts(ls: Seq<Seq<char>>, n: int, name: Seq<char>, i: int)
    requires
        0 <= i < n <= ls.len(),
        words(ls[i]).len() >= 2 && words(ls[i])[0] == name,
        forall|j: int|
            i < j < n ==> !(words(#[trigger] ls[j]).len() >= 2 && words(ls[j])[0] == name),
    ensures
        counter(ls, n, name) == unsigned(words(ls[i])[1], u64::MAX as int),
    decreases n,
{
    if n - 1 > i {
        assert(!(words(ls[n - 1]).len() >= 2 && words(ls[n - 1])[0] == name));
        last_line_counts(ls, n - 1, name, i);
    }
}

/// Without a line of its name there is no counter.
pub proof fn no_line_no_counter(ls: Seq<Seq<char>>, n: int, name: Seq<char>)
    requires
        0 <= n <= ls.len(),
        forall|j: int|
            0 <= j < n ==> !(words(#[trigger] ls[j]).len() >= 2 && words(ls[j])[0] == name),
    ensures
        counter(ls, n, name) is None,
    decreases n,
{
    if n > 0 {
        assert(!(words(ls[n - 1]).len() >= 2 && words(ls[n - 1])[0] == name));
        no_line_no_counter(ls, n - 1, name);
    }
}

/// A line of a counter.
pub open spec fn vm_line(name: Seq<char>, n: int) -> Seq<char> {
    separated(seq![name, decimal(n)], ' ')
}

/// Counted KiB are told as bytes, those read first, wherever the two lines stand.
pub proof fn counters_are_told_in_bytes(a: u64, b: u64)
    requires
        a * 1024 <= u64::MAX,
        b * 1024 <= u64::MAX,
    ensures
        ({
            let text = vm_line("pgpgin"@, a as int) + seq!['\n'] + vm_line("pgpgout"@, b as int);
            let turned = vm_line("pgpgout"@, b as int) + seq!['\n'] + vm_line("pgpgin"@, a as int);
            &&& bytes_fit(text)
            &&& moved(text) == Some(((1024 * a) as u64, (1024 * b) as u64))
            &&& moved(turned) == moved(text)
            &&& moved(vm_line("pgpgin"@, a as int)) is None
            &&& moved(vm_line("pgpgout"@, b as int)) is None
        }),
{
    let x = vm_line("pgpgin"@, a as int);
    let y = vm_line("pgpgout"@, b as int);
    reveal_strlit("pgpgin");
    reveal_strlit("pgpgout");
    assert("pgpgin"@.len() == 6 && "pgpgout"@.len() == 7);
    lemma_vm_line("pgpgin"@, a);
    lemma_vm_line("pgpgout"@, b);
    lines_read_back(x, y);
    lines_read_back(y, x);
    lines_read_back(x, seq![]);
    lines_read_back(y, seq![]);
    let one = seq![x] + seq![y];
    let two = seq![y] + seq![x];
    reveal_with_fuel(counter, 3);
    assert(one[0] == x && one[1] == y && two[0] == y && two[1] == x);
    assert(seq![x][0] == x && seq![y][0] == y);
}

proof fn lemma_vm_line(name: Seq<char>, n: u64)
    requires
        is_word(name),
    ensures
        words(vm_line(name, n as int)) == seq![name, decimal(n as int)],
        unsigned(decimal(n as int), u64::MAX as int) == Some(n),
        !vm_line(name, n as int).contains('\n'),
        vm_line(name, n as int).len() > 0,
        vm_line(name, n as int).last() != '\r',
{
    let d = decimal(n as int);
    let parts = seq![name, d];
    let s = vm_line(name, n as int);
    lemma_decimal_is_word(n as int);
    decimal_reads_back(n);
    assert(is_word(parts[0]) && is_word(parts[1]));
    words_read_back(parts);
    reveal_with_fuel(separated, 3);
    assert(parts.drop_first() =~= seq![d]);
    assert(s =~= name + seq![' '] + d);
    assert forall|i: int| 0 <= i < s.len() implies s[i] != '\n' by {
        if i < name.len() {
            assert(!space(name[i]));
            assert(s[i] == name[i]);
        } else if i > name.len() {
            assert(!space(d[i - name.len() - 1]));
            assert(s[i] == d[i - name.len() - 1]);
        }
    }
    assert(!space(d[d.len() - 1]));
    assert(s.last() == d[d.len() - 1]);
}

} // verus!
