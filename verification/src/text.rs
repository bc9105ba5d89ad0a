//! Text as a sequence of characters: lines, words, fields and numbers.

use vstd::prelude::*;
use vstd::slice::slice_subrange;

verus! {

/// `String::push` puts one character at the end of the text.
pub assume_specification[ String::push ](s: &mut String, c: char)
    ensures
        final(s)@ == old(s)@.push(c),
;

/// The texts that slices of characters hold.
pub open spec fn views(parts: Seq<&[char]>) -> Seq<Seq<char>> {
    Seq::new(parts.len(), |i: int| parts[i]@)
}

// ---------------------------------------------------------------------------
// Characters

/// Unicode's White_Space property.
pub open spec fn space(c: char) -> bool {
    let u = c as int;
    ||| 0x09 <= u <= 0x0d
    ||| u == 0x20
    ||| u == 0x85
    ||| u == 0xa0
    ||| u == 0x1680
    ||| 0x2000 <= u <= 0x200a
    ||| u == 0x2028
    ||| u == 0x2029
    ||| u == 0x202f
    ||| u == 0x205f
    ||| u == 0x3000
}

/// Unicode's control characters.
pub open spec fn control(c: char) -> bool {
    let u = c as int;
    u < 0x20 || 0x7f <= u < 0xa0
}

pub open spec fn digit(c: char) -> bool {
    '0' <= c && c <= '9'
}

/// The code point of a character.
pub fn code(c: char) -> (r: u32)
    ensures
        r as int == c as int,
        r <= 0x10_ffff,
{
    c as u32
}

pub fn is_space(c: char) -> (r: bool)
    ensures
        r == space(c),
{
    let u = c as u32;
    (u >= 0x09 && u <= 0x0d) || u == 0x20 || u == 0x85 || u == 0xa0 || u == 0x1680 || (u >= 0x2000
        && u <= 0x200a) || u == 0x2028 || u == 0x2029 || u == 0x202f || u == 0x205f || u == 0x3000
}

pub fn is_control(c: char) -> (r: bool)
    ensures
        r == control(c),
{
    let u = c as u32;
    u < 0x20 || (u >= 0x7f && u < 0xa0)
}

pub fn is_digit(c: char) -> (r: bool)
    ensures
        r == digit(c),
{
    '0' <= c && c <= '9'
}

// ---------------------------------------------------------------------------
// Between strings and characters

/// The characters of a string.
pub fn chars_of(s: &str) -> (r: Vec<char>)
    ensures
        r@ == s@,
{
    let mut out: Vec<char> = Vec::new();
    for c in it: s.chars()
        invariant
            out@ == it.seq().take(it.index() as int),
            it.seq() == s@,
    {
        out.push(c);
    }
    out
}

/// Appends characters to a string.
pub fn push_chars(out: &mut String, cs: &[char])
    ensures
        final(out)@ == old(out)@ + cs@,
{
    let ghost start = out@;
    for i in 0..cs.len()
        invariant
            out@ == start + cs@.take(i as int),
    {
        out.push(cs[i]);
        assert(cs@.take(i as int + 1) == cs@.take(i as int).push(cs@[i as int]));
    }
    assert(cs@.take(cs.len() as int) == cs@);
}

/// The string of the given characters.
pub fn string_of(cs: &[char]) -> (r: String)
    ensures
        r@ == cs@,
{
    let mut out: String = String::new();
    push_chars(&mut out, cs);
    assert(Seq::<char>::empty() + cs@ == cs@);
    out
}

/// Two texts, one behind the other.
pub fn joined(a: &str, b: &str) -> (r: String)
    ensures
        r@ == a@ + b@,
{
    let mut out: String = String::new();
    out.append(a);
    out.append(b);
    assert(out@ =~= a@ + b@);
    out
}

/// Whether two texts are the same.
pub fn same_chars(a: &[char], b: &[char]) -> (r: bool)
    ensures
        r == (a@ == b@),
{
    if a.len() != b.len() {
        return false;
    }
    for i in 0..a.len()
        invariant
            a@.len() == b@.len(),
            forall|j: int| 0 <= j < i ==> a@[j] == b@[j],
    {
        if a[i] != b[i] {
            return false;
        }
    }
    assert(a@ =~= b@);
    true
}

/// Whether the characters spell the given string.
pub fn same_text(a: &[char], b: &str) -> (r: bool)
    ensures
        r == (a@ == b@),
{
    let cs = chars_of(b);
    same_chars(a, cs.as_slice())
}

/// Whether the text begins with `p`.
pub fn starts_with(a: &[char], p: &str) -> (r: bool)
    ensures
        r == p@.is_prefix_of(a@),
{
    let cs = chars_of(p);
    if cs.len() > a.len() {
        return false;
    }
    let head = slice_subrange(a, 0, cs.len());
    same_chars(head, cs.as_slice())
}

// ---------------------------------------------------------------------------
// Finding

/// The first place of `c` at or after `i`; the length where there is none.
pub open spec fn find_from(s: Seq<char>, c: char, i: int) -> int
    decreases s.len() - i,
{
    if i >= s.len() {
        s.len() as int
    } else if s[i] == c {
        i
    } else {
        find_from(s, c, i + 1)
    }
}

/// The last place of `c` before `i`; -1 where there is none.
pub open spec fn find_back(s: Seq<char>, c: char, i: int) -> int
    decreases i,
{
    if i <= 0 {
        -1
    } else if s[i - 1] == c {
        i - 1
    } else {
        find_back(s, c, i - 1)
    }
}

pub proof fn lemma_find(s: Seq<char>, c: char, i: int)
    requires
        0 <= i <= s.len(),
    ensures
        i <= find_from(s, c, i) <= s.len(),
        find_from(s, c, i) < s.len() ==> s[find_from(s, c, i)] == c,
        forall|j: int| i <= j < find_from(s, c, i) ==> s[j] != c,
    decreases s.len() - i,
{
    if i < s.len() && s[i] != c {
        lemma_find(s, c, i + 1);
    }
}

pub proof fn lemma_find_back(s: Seq<char>, c: char, i: int)
    requires
        0 <= i <= s.len(),
    ensures
        -1 <= find_back(s, c, i) < i || i == 0,
        -1 <= find_back(s, c, i),
        find_back(s, c, i) >= 0 ==> s[find_back(s, c, i)] == c,
        forall|j: int| find_back(s, c, i) < j < i ==> s[j] != c,
    decreases i,
{
    if i > 0 && s[i - 1] != c {
        lemma_find_back(s, c, i - 1);
    }
}

/// First place of `c` at or after `from`.
pub fn find_char(s: &[char], c: char, from: usize) -> (r: usize)
    requires
        from <= s@.len(),
    ensures
        r == find_from(s@, c, from as int),
        from <= r <= s@.len(),
        r < s@.len() ==> s@[r as int] == c,
{
    let mut i: usize = from;
    proof {
        lemma_find(s@, c, from as int);
    }
    while i < s.len() && s[i] != c
        invariant
            from <= i <= s@.len(),
            find_from(s@, c, from as int) == find_from(s@, c, i as int),
        decreases s@.len() - i,
    {
        i = i + 1;
    }
    i
}

/// Last place of `c`, if any.
pub fn find_last(s: &[char], c: char) -> (r: Option<usize>)
    ensures
        match r {
            Some(k) => k == find_back(s@, c, s@.len() as int) && k < s@.len(),
            None => find_back(s@, c, s@.len() as int) == -1,
        },
{
    let mut i: usize = s.len();
    while i > 0
        invariant
            i <= s@.len(),
            find_back(s@, c, s@.len() as int) == find_back(s@, c, i as int),
        decreases i,
    {
        if s[i - 1] == c {
            return Some(i - 1);
        }
        i = i - 1;
    }
    None
}

/// The text before and after the first `c`.
pub open spec fn halves(s: Seq<char>, c: char) -> Option<(Seq<char>, Seq<char>)> {
    let k = find_from(s, c, 0);
    if k < s.len() {
        Some((s.subrange(0, k), s.subrange(k + 1, s.len() as int)))
    } else {
        None
    }
}

/// The text before and after the last `c`.
pub open spec fn halves_back(s: Seq<char>, c: char) -> Option<(Seq<char>, Seq<char>)> {
    let k = find_back(s, c, s.len() as int);
    if k >= 0 {
        Some((s.subrange(0, k), s.subrange(k + 1, s.len() as int)))
    } else {
        None
    }
}

/// What a pair of slices holds.
pub open spec fn pair_view(p: Option<(&[char], &[char])>) -> Option<(Seq<char>, Seq<char>)> {
    match p {
        Some((a, b)) => Some((a@, b@)),
        None => None,
    }
}

pub fn split_once<'a>(s: &'a [char], c: char) -> (r: Option<(&'a [char], &'a [char])>)
    ensures
        pair_view(r) == halves(s@, c),
{
    let k = find_char(s, c, 0);
    if k < s.len() {
        Some((slice_subrange(s, 0, k), slice_subrange(s, k + 1, s.len())))
    } else {
        None
    }
}

pub fn rsplit_once<'a>(s: &'a [char], c: char) -> (r: Option<(&'a [char], &'a [char])>)
    ensures
        pair_view(r) == halves_back(s@, c),
{
    let n = s.len();
    match find_last(s, c) {
        Some(k) => Some((slice_subrange(s, 0, k), slice_subrange(s, k + 1, n))),
        None => None,
    }
}

// ---------------------------------------------------------------------------
// Lines, fields and words

/// A line without the carriage return that ends it.
pub open spec fn without_return(s: Seq<char>) -> Seq<char> {
    if s.len() > 0 && s.last() == '\r' {
        s.drop_last()
    } else {
        s
    }
}

/// The lines from `i` on: each ends with a line feed, which may follow a
/// carriage return; the last one may end with the text.
pub open spec fn lines_from(s: Seq<char>, i: int) -> Seq<Seq<char>>
    decreases s.len() - i,
{
    if i < 0 || i >= s.len() {
        seq![]
    } else {
        let k = find_from(s, '\n', i);
        proof {
            lemma_find(s, '\n', i);
        }
        if k >= s.len() {
            seq![s.subrange(i, s.len() as int)]
        } else {
            seq![without_return(s.subrange(i, k))] + lines_from(s, k + 1)
        }
    }
}

/// The lines of a text.
pub open spec fn lines(s: Seq<char>) -> Seq<Seq<char>> {
    lines_from(s, 0)
}

pub fn lines_of<'a>(s: &'a [char]) -> (r: Vec<&'a [char]>)
    ensures
        views(r@) == lines(s@),
{
    let mut out: Vec<&'a [char]> = Vec::new();
    let mut i: usize = 0;
    assert(views(out@) + lines_from(s@, 0) =~= lines(s@));
    while i < s.len()
        invariant
            i <= s@.len(),
            views(out@) + lines_from(s@, i as int) == lines(s@),
        decreases s@.len() - i,
    {
        let k = find_char(s, '\n', i);
        let ghost before = out@;
        if k < s.len() {
            let line = slice_subrange(s, i, k);
            if line.len() > 0 && line[line.len() - 1] == '\r' {
                out.push(slice_subrange(line, 0, line.len() - 1));
            } else {
                out.push(line);
            }
            assert(views(out@) =~= views(before).push(without_return(s@.subrange(i as int, k as int))));
            assert(views(out@) + lines_from(s@, k + 1) =~= views(before) + lines_from(s@, i as int));
            i = k + 1;
        } else {
            out.push(slice_subrange(s, i, s.len()));
            assert(views(out@) =~= views(before).push(s@.subrange(i as int, s@.len() as int)));
            assert(views(out@) + lines_from(s@, s@.len() as int) =~= views(before) + lines_from(
                s@,
                i as int,
            ));
            i = s.len();
        }
    }
    assert(views(out@) + lines_from(s@, i as int) =~= views(out@));
    out
}

/// The fields from `i` on, between separators.
pub open spec fn fields_from(s: Seq<char>, sep: char, i: int) -> Seq<Seq<char>>
    decreases s.len() - i,
{
    if i < 0 || i > s.len() {
        seq![]
    } else {
        let k = find_from(s, sep, i);
        proof {
            lemma_find(s, sep, i);
        }
        if k >= s.len() {
            seq![s.subrange(i, s.len() as int)]
        } else {
            seq![s.subrange(i, k)] + fields_from(s, sep, k + 1)
        }
    }
}

/// The fields of a text: at least one, which may be empty.
pub open spec fn fields(s: Seq<char>, sep: char) -> Seq<Seq<char>> {
    fields_from(s, sep, 0)
}

pub fn fields_of<'a>(s: &'a [char], sep: char) -> (r: Vec<&'a [char]>)
    ensures
        views(r@) == fields(s@, sep),
        r@.len() > 0,
{
    let mut out: Vec<&'a [char]> = Vec::new();
    let mut i: usize = 0;
    assert(views(out@) + fields_from(s@, sep, 0) =~= fields(s@, sep));
    loop
        invariant
            i <= s@.len(),
            views(out@) + fields_from(s@, sep, i as int) == fields(s@, sep),
        decreases s@.len() - i,
    {
        let k = find_char(s, sep, i);
        let ghost before = out@;
        if k < s.len() {
            out.push(slice_subrange(s, i, k));
            assert(views(out@) =~= views(before).push(s@.subrange(i as int, k as int)));
            assert(views(out@) + fields_from(s@, sep, k + 1) =~= views(before) + fields_from(
                s@,
                sep,
                i as int,
            ));
            i = k + 1;
        } else {
            out.push(slice_subrange(s, i, s.len()));
            assert(views(out@) =~= views(before).push(s@.subrange(i as int, s@.len() as int)));
            assert(views(out@) =~= views(before) + fields_from(s@, sep, i as int));
            return out;
        }
    }
}

/// The end of the run of non-space characters at `i`.
pub open spec fn word_end(s: Seq<char>, i: int) -> int
    decreases s.len() - i,
{
    if i >= s.len() || space(s[i]) {
        i
    } else {
        word_end(s, i + 1)
    }
}

pub proof fn lemma_word_end(s: Seq<char>, i: int)
    requires
        0 <= i <= s.len(),
    ensures
        i <= word_end(s, i) <= s.len(),
        i < s.len() && !space(s[i]) ==> i < word_end(s, i),
    decreases s.len() - i,
{
    if i < s.len() && !space(s[i]) {
        lemma_word_end(s, i + 1);
    }
}

/// The words from `i` on: the longest runs of non-space characters.
pub open spec fn words_from(s: Seq<char>, i: int) -> Seq<Seq<char>>
    decreases s.len() - i,
{
    if i < 0 || i >= s.len() {
        seq![]
    } else if space(s[i]) {
        words_from(s, i + 1)
    } else {
        let k = word_end(s, i);
        proof {
            lemma_word_end(s, i);
        }
        seq![s.subrange(i, k)] + words_from(s, k)
    }
}

/// The words of a text.
pub open spec fn words(s: Seq<char>) -> Seq<Seq<char>> {
    words_from(s, 0)
}

pub fn words_of<'a>(s: &'a [char]) -> (r: Vec<&'a [char]>)
    ensures
        views(r@) == words(s@),
{
    let mut out: Vec<&'a [char]> = Vec::new();
    let mut i: usize = 0;
    assert(views(out@) + words_from(s@, 0) =~= words(s@));
    while i < s.len()
        invariant
            i <= s@.len(),
            views(out@) + words_from(s@, i as int) == words(s@),
        decreases s@.len() - i,
    {
        if is_space(s[i]) {
            i = i + 1;
        } else {
            let start: usize = i;
            proof {
                lemma_word_end(s@, start as int);
            }
            while i < s.len() && !is_space(s[i])
                invariant
                    start <= i <= s@.len(),
                    word_end(s@, start as int) == word_end(s@, i as int),
                decreases s@.len() - i,
            {
                i = i + 1;
            }
            let ghost before = out@;
            out.push(slice_subrange(s, start, i));
            assert(views(out@) =~= views(before).push(s@.subrange(start as int, i as int)));
            assert(views(out@) + words_from(s@, i as int) =~= views(before) + words_from(
                s@,
                start as int,
            ));
        }
    }
    assert(views(out@) + words_from(s@, i as int) =~= views(out@));
    out
}

// ---------------------------------------------------------------------------
// Trimming

/// The first place at or after `i` that is no space.
pub open spec fn first_solid(s: Seq<char>, i: int) -> int
    decreases s.len() - i,
{
    if i >= s.len() || !space(s[i]) {
        i
    } else {
        first_solid(s, i + 1)
    }
}

/// The end of the text once spaces are dropped from `hi` back to `lo`.
pub open spec fn solid_end(s: Seq<char>, lo: int, hi: int) -> int
    decreases hi - lo,
{
    if hi <= lo || !space(s[hi - 1]) {
        hi
    } else {
        solid_end(s, lo, hi - 1)
    }
}

/// The text without spaces at either end.
pub open spec fn trimmed(s: Seq<char>) -> Seq<char> {
    let a = first_solid(s, 0);
    s.subrange(a, solid_end(s, a, s.len() as int))
}

pub fn trim<'a>(s: &'a [char]) -> (r: &'a [char])
    ensures
        r@ == trimmed(s@),
{
    let mut a: usize = 0;
    while a < s.len() && is_space(s[a])
        invariant
            a <= s@.len(),
            first_solid(s@, 0) == first_solid(s@, a as int),
        decreases s@.len() - a,
    {
        a = a + 1;
    }
    let mut b: usize = s.len();
    while b > a && is_space(s[b - 1])
        invariant
            a <= b <= s@.len(),
            solid_end(s@, a as int, s@.len() as int) == solid_end(s@, a as int, b as int),
        decreases b - a,
    {
        b = b - 1;
    }
    slice_subrange(s, a, b)
}

// ---------------------------------------------------------------------------
// Columns

pub open spec fn spaces(n: int) -> Seq<char> {
    Seq::new(if n > 0 {
        n as nat
    } else {
        0
    }, |i: int| ' ')
}

/// A text at the right of a column of at least `w` characters.
pub open spec fn at_right(s: Seq<char>, w: int) -> Seq<char> {
    spaces(w - s.len()) + s
}

/// A text at the left of a column of at least `w` characters.
pub open spec fn at_left(s: Seq<char>, w: int) -> Seq<char> {
    s + spaces(w - s.len())
}

fn push_spaces(out: &mut String, n: usize)
    ensures
        final(out)@ == old(out)@ + spaces(n as int),
{
    let ghost start = out@;
    for i in 0..n
        invariant
            out@ == start + spaces(i as int),
    {
        out.push(' ');
        assert(out@ =~= start + spaces(i as int + 1));
    }
}

pub fn push_right(out: &mut String, s: &str, w: usize)
    ensures
        final(out)@ == old(out)@ + at_right(s@, w as int),
{
    let n = chars_of(s).len();
    if n < w {
        push_spaces(out, w - n);
    }
    out.append(s);
    assert(out@ =~= old(out)@ + at_right(s@, w as int));
}

pub fn push_left(out: &mut String, s: &str, w: usize)
    ensures
        final(out)@ == old(out)@ + at_left(s@, w as int),
{
    let n = chars_of(s).len();
    out.append(s);
    if n < w {
        push_spaces(out, w - n);
    }
    assert(out@ =~= old(out)@ + at_left(s@, w as int));
}

// ---------------------------------------------------------------------------
// Whole numbers

/// The digit character of `d`.
pub open spec fn digit_of(d: int) -> char {
    (48 + d) as char
}

/// `n` in decimal.
pub open spec fn decimal(n: int) -> Seq<char>
    decreases n,
{
    if n < 10 {
        seq![digit_of(n)]
    } else {
        decimal(n / 10).push(digit_of(n % 10))
    }
}

/// Appends `n` in decimal.
pub fn push_decimal(out: &mut String, n: u64)
    ensures
        final(out)@ == old(out)@ + decimal(n as int),
    decreases n,
{
    if n >= 10 {
        push_decimal(out, n / 10);
    }
    let ghost head = out@;
    let d: u8 = (n % 10) as u8;
    out.push((48 + d) as char);
    if n >= 10 {
        assert(out@ =~= old(out)@ + decimal(n as int));
    } else {
        assert(out@ =~= old(out)@ + decimal(n as int));
    }
}

/// `n` in decimal.
pub fn decimal_of(n: u64) -> (r: String)
    ensures
        r@ == decimal(n as int),
{
    let mut out: String = String::new();
    push_decimal(&mut out, n);
    assert(Seq::<char>::empty() + decimal(n as int) =~= decimal(n as int));
    out
}

pub open spec fn digits_only(s: Seq<char>) -> bool {
    forall|i: int| 0 <= i < s.len() ==> digit(#[trigger] s[i])
}

/// The number that decimal digits spell.
pub open spec fn number(s: Seq<char>) -> int
    decreases s.len(),
{
    if s.len() == 0 {
        0
    } else {
        10 * number(s.drop_last()) + (s.last() as int - 48)
    }
}

/// The digits after a plus sign, which may be left out.
pub open spec fn after_plus(s: Seq<char>) -> Seq<char> {
    if s.len() > 0 && s[0] == '+' {
        s.subrange(1, s.len() as int)
    } else {
        s
    }
}

/// A number written as digits, with an optional plus sign, of at most `max`.
pub open spec fn unsigned(s: Seq<char>, max: int) -> Option<u64> {
    let d = after_plus(s);
    if d.len() > 0 && digits_only(d) && number(d) <= max {
        Some(number(d) as u64)
    } else {
        None
    }
}

/// A number within an `i64`, written as digits with an optional sign.
pub open spec fn signed_number(s: Seq<char>) -> Option<i64> {
    if s.len() > 0 && s[0] == '-' {
        let d = s.subrange(1, s.len() as int);
        if d.len() > 0 && digits_only(d) && number(d) <= 0x8000_0000_0000_0000 {
            Some((-number(d)) as i64)
        } else {
            None
        }
    } else {
        match unsigned(s, 0x7fff_ffff_ffff_ffff) {
            Some(n) => Some(n as i64),
            None => None,
        }
    }
}

pub proof fn lemma_number_grows(s: Seq<char>, k: int)
    requires
        0 <= k <= s.len(),
        digits_only(s),
    ensures
        0 <= number(s.take(k)) <= number(s),
    decreases s.len(),
{
    if k < s.len() {
        assert(s.drop_last().take(k) =~= s.take(k));
        assert forall|i: int| 0 <= i < s.drop_last().len() implies digit(#[trigger] s.drop_last()[i]) by {
            assert(digit(s[i]));
        }
        lemma_number_grows(s.drop_last(), k);
        assert(digit(s[s.len() - 1]));
    } else {
        assert(s.take(k) =~= s);
        if s.len() > 0 {
            assert forall|i: int| 0 <= i < s.drop_last().len() implies digit(
                #[trigger] s.drop_last()[i],
            ) by {
                assert(digit(s[i]));
            }
            lemma_number_grows(s.drop_last(), s.len() - 1);
            assert(digit(s[s.len() - 1]));
        }
    }
}

/// Digits as a number of at most `max`.
fn parse_digits(s: &[char], max: u64) -> (r: Option<u64>)
    ensures
        r == (if s@.len() > 0 && digits_only(s@) && number(s@) <= max {
            Some(number(s@) as u64)
        } else {
            None
        }),
        r matches Some(n) ==> n == number(s@),
{
    if s.len() == 0 {
        return None;
    }
    let mut acc: u128 = 0;
    let mut over: bool = false;
    for i in 0..s.len()
        invariant
            s@.len() > 0,
            forall|j: int| 0 <= j < i ==> digit(#[trigger] s@[j]),
            over ==> number(s@.take(i as int)) > max,
            !over ==> acc == number(s@.take(i as int)) && acc <= max,
    {
        let c = s[i];
        if !is_digit(c) {
            assert(!digit(s@[i as int]));
            return None;
        }
        assert(s@.take(i as int + 1).drop_last() =~= s@.take(i as int));
        proof {
            assert(digits_only(s@.take(i as int)));
            lemma_number_grows(s@.take(i as int), 0);
        }
        if !over {
            acc = acc * 10 + (c as u32 - 48) as u128;
            over = acc > max as u128;
        }
    }
    assert(s@.take(s@.len() as int) =~= s@);
    if over {
        None
    } else {
        proof {
            lemma_number_grows(s@, 0);
        }
        Some(acc as u64)
    }
}

pub fn parse_unsigned(s: &[char], max: u64) -> (r: Option<u64>)
    ensures
        r == unsigned(s@, max as int),
        r matches Some(n) ==> n <= max,
{
    if s.len() > 0 && s[0] == '+' {
        parse_digits(slice_subrange(s, 1, s.len()), max)
    } else {
        parse_digits(s, max)
    }
}

pub fn parse_signed(s: &[char]) -> (r: Option<i64>)
    ensures
        r == signed_number(s@),
{
    if s.len() > 0 && s[0] == '-' {
        let d = slice_subrange(s, 1, s.len());
        match parse_digits(d, 0x8000_0000_0000_0000) {
            Some(n) => {
                if n == 0x8000_0000_0000_0000 {
                    Some(-0x7fff_ffff_ffff_ffff - 1)
                } else {
                    Some(-(n as i64))
                }
            },
            None => None,
        }
    } else {
        match parse_unsigned(s, 0x7fff_ffff_ffff_ffff) {
            Some(n) => Some(n as i64),
            None => None,
        }
    }
}

/// What is written in decimal are the digits of the number.
pub proof fn lemma_decimal(n: int)
    requires
        0 <= n,
    ensures
        digits_only(decimal(n)),
        decimal(n).len() > 0,
        number(decimal(n)) == n,
    decreases n,
{
    let s = decimal(n);
    if n < 10 {
        assert(s.drop_last() =~= Seq::<char>::empty());
        assert(number(s.drop_last()) == 0);
    } else {
        lemma_decimal(n / 10);
        assert(s.drop_last() =~= decimal(n / 10));
    }
    assert forall|i: int| 0 <= i < s.len() implies digit(#[trigger] s[i]) by {
        if i < s.len() - 1 {
            assert(s[i] == decimal(n / 10)[i]);
        }
    }
}

/// A number in decimal has no zero before its other digits.
pub proof fn lemma_leading_digit(n: int)
    requires
        0 <= n,
    ensures
        decimal(n).len() > 0,
        decimal(n)[0] == '0' ==> n == 0 && decimal(n).len() == 1,
    decreases n,
{
    if n >= 10 {
        lemma_leading_digit(n / 10);
        assert(decimal(n)[0] == decimal(n / 10)[0]);
    }
}

/// Reading back what was written in decimal gives the number.
pub proof fn decimal_reads_back(n: u64)
    ensures
        unsigned(decimal(n as int), u64::MAX as int) == Some(n),
{
    lemma_decimal(n as int);
    assert(digit(decimal(n as int)[0]));
}

// ---------------------------------------------------------------------------
// What holds of parts

/// Whether a text stands somewhere in another.
pub open spec fn occurs(t: Seq<char>, s: Seq<char>) -> bool {
    exists|i: int| 0 <= i && i + t.len() <= s.len() && #[trigger] s.subrange(i, i + t.len()) == t
}

/// What stands in a part stands in the whole.
pub proof fn lemma_occurs_within(t: Seq<char>, a: Seq<char>, s: Seq<char>, b: Seq<char>)
    requires
        occurs(t, s),
    ensures
        occurs(t, a + s + b),
{
    let i = choose|i: int|
        0 <= i && i + t.len() <= s.len() && #[trigger] s.subrange(i, i + t.len()) == t;
    let w = a + s + b;
    let k = a.len() + i;
    assert(w.subrange(k, k + t.len()) =~= s.subrange(i, i + t.len()));
}

pub proof fn lemma_occurs_itself(s: Seq<char>)
    ensures
        occurs(s, s),
{
    let i: int = 0;
    assert(s.subrange(i, i + s.len()) =~= s);
}

/// A text without spaces at either end has none there, and nothing else is left
/// out of it.
pub proof fn trimmed_has_no_spaces_around(s: Seq<char>)
    ensures
        trimmed(s).len() > 0 ==> !space(trimmed(s)[0]) && !space(trimmed(s).last()),
        exists|a: int, b: int|
            0 <= a <= b <= s.len() && trimmed(s) == #[trigger] s.subrange(a, b) && (forall|i: int|
                0 <= i < a || b <= i < s.len() ==> space(#[trigger] s[i])),
{
    let n = s.len() as int;
    let a = first_solid(s, 0);
    lemma_first_solid(s, 0);
    lemma_solid_end(s, a, n);
    let b = solid_end(s, a, n);
    assert(trimmed(s) == s.subrange(a, b));
    if a < b {
        assert(trimmed(s)[0] == s[a]);
        assert(trimmed(s).last() == s[b - 1]);
    }
}

proof fn lemma_first_solid(s: Seq<char>, i: int)
    requires
        0 <= i <= s.len(),
    ensures
        i <= first_solid(s, i) <= s.len(),
        first_solid(s, i) < s.len() ==> !space(s[first_solid(s, i)]),
        forall|j: int| i <= j < first_solid(s, i) ==> space(#[trigger] s[j]),
    decreases s.len() - i,
{
    if i < s.len() && space(s[i]) {
        lemma_first_solid(s, i + 1);
    }
}

proof fn lemma_solid_end(s: Seq<char>, lo: int, hi: int)
    requires
        0 <= lo <= hi <= s.len(),
    ensures
        lo <= solid_end(s, lo, hi) <= hi,
        solid_end(s, lo, hi) > lo ==> !space(s[solid_end(s, lo, hi) - 1]),
        forall|j: int| solid_end(s, lo, hi) <= j < hi ==> space(#[trigger] s[j]),
    decreases hi - lo,
{
    if hi > lo && space(s[hi - 1]) {
        lemma_solid_end(s, lo, hi - 1);
    }
}

// ---------------------------------------------------------------------------
// What is put together is taken apart again

pub proof fn lemma_find_is(s: Seq<char>, c: char, i: int, k: int)
    requires
        0 <= i <= k <= s.len(),
        forall|j: int| i <= j < k ==> s[j] != c,
        k < s.len() ==> s[k] == c,
    ensures
        find_from(s, c, i) == k,
    decreases k - i,
{
    if i < k {
        lemma_find_is(s, c, i + 1, k);
    }
}

pub proof fn lemma_find_back_is(s: Seq<char>, c: char, i: int, k: int)
    requires
        -1 <= k < i <= s.len(),
        forall|j: int| k < j < i ==> s[j] != c,
        k >= 0 ==> s[k] == c,
    ensures
        find_back(s, c, i) == k,
    decreases i - k,
{
    if k < i - 1 {
        lemma_find_back_is(s, c, i - 1, k);
    }
}

/// Two texts with a separator between them come apart at it: at the first one,
/// where the first text has none, and at the last one, where the second has none.
pub proof fn halves_read_back(a: Seq<char>, c: char, b: Seq<char>)
    ensures
        !a.contains(c) ==> halves(a + seq![c] + b, c) == Some((a, b)),
        !b.contains(c) ==> halves_back(a + seq![c] + b, c) == Some((a, b)),
        !a.contains(c) ==> halves(a, c) is None && halves_back(a, c) is None,
{
    let s = a + seq![c] + b;
    let k = a.len() as int;
    assert(s[k] == c);
    assert(s.subrange(0, k) =~= a);
    assert(s.subrange(k + 1, s.len() as int) =~= b);
    if !a.contains(c) {
        assert forall|j: int| 0 <= j < k implies s[j] != c && a[j] != c by {
            assert(a.contains(a[j]));
            assert(s[j] == a[j]);
        }
        lemma_find_is(s, c, 0, k);
        lemma_find_is(a, c, 0, k);
        lemma_find_back_is(a, c, k, -1);
    }
    if !b.contains(c) {
        assert forall|j: int| k < j < s.len() implies s[j] != c by {
            assert(b.contains(b[j - k - 1]));
            assert(s[j] == b[j - k - 1]);
        }
        lemma_find_back_is(s, c, s.len() as int, k);
    }
}

/// Texts with a separator between each two.
pub open spec fn separated(parts: Seq<Seq<char>>, sep: char) -> Seq<char>
    decreases parts.len(),
{
    if parts.len() == 0 {
        seq![]
    } else if parts.len() == 1 {
        parts[0]
    } else {
        parts[0] + seq![sep] + separated(parts.drop_first(), sep)
    }
}

proof fn lemma_find_within(a: Seq<char>, s: Seq<char>, c: char, i: int)
    requires
        0 <= i <= s.len(),
    ensures
        find_from(a + s, c, a.len() + i) == a.len() + find_from(s, c, i),
    decreases s.len() - i,
{
    if i < s.len() && s[i] != c {
        lemma_find_within(a, s, c, i + 1);
    }
}

proof fn lemma_fields_within(a: Seq<char>, s: Seq<char>, sep: char, i: int)
    requires
        0 <= i <= s.len(),
    ensures
        fields_from(a + s, sep, a.len() + i) == fields_from(s, sep, i),
    decreases s.len() - i,
{
    let w = a + s;
    let n = a.len() as int;
    let k = find_from(s, sep, i);
    lemma_find(s, sep, i);
    lemma_find(w, sep, n + i);
    lemma_find_within(a, s, sep, i);
    if k < s.len() {
        lemma_fields_within(a, s, sep, k + 1);
        assert(w.subrange(n + i, n + k) =~= s.subrange(i, k));
    } else {
        assert(w.subrange(n + i, w.len() as int) =~= s.subrange(i, s.len() as int));
    }
}

/// Texts without the separator that are put together with it come apart again.
pub proof fn fields_read_back(parts: Seq<Seq<char>>, sep: char)
    requires
        parts.len() > 0,
        forall|i: int| 0 <= i < parts.len() ==> !(#[trigger] parts[i]).contains(sep),
    ensures
        fields(separated(parts, sep), sep) == parts,
    decreases parts.len(),
{
    let s = separated(parts, sep);
    let p = parts[0];
    assert(!p.contains(sep));
    assert forall|j: int| 0 <= j < p.len() implies p[j] != sep by {
        assert(p.contains(p[j]));
    }
    if parts.len() == 1 {
        lemma_find_is(s, sep, 0, s.len() as int);
        assert(s.subrange(0, s.len() as int) =~= s);
        assert(fields(s, sep) =~= parts);
    } else {
        let rest = parts.drop_first();
        assert forall|i: int| 0 <= i < rest.len() implies !(#[trigger] rest[i]).contains(sep) by {
            assert(rest[i] == parts[i + 1]);
        }
        fields_read_back(rest, sep);
        let t = separated(rest, sep);
        let k = p.len() as int;
        assert(s[k] == sep);
        lemma_find_is(s, sep, 0, k);
        lemma_fields_within(p + seq![sep], t, sep, 0);
        assert((p + seq![sep]) + t =~= s);
        assert(s.subrange(0, k) =~= p);
        assert(fields(s, sep) =~= parts);
    }
}

/// Whether a text is a word: not empty and without spaces.
pub open spec fn is_word(s: Seq<char>) -> bool {
    s.len() > 0 && forall|i: int| 0 <= i < s.len() ==> !space(#[trigger] s[i])
}

proof fn lemma_word_end_is(s: Seq<char>, i: int, k: int)
    requires
        0 <= i <= k <= s.len(),
        forall|j: int| i <= j < k ==> !space(#[trigger] s[j]),
        k < s.len() ==> space(s[k]),
    ensures
        word_end(s, i) == k,
    decreases k - i,
{
    if i < k {
        assert(!space(s[i]));
        lemma_word_end_is(s, i + 1, k);
    }
}

proof fn lemma_word_end_within(a: Seq<char>, s: Seq<char>, i: int)
    requires
        0 <= i <= s.len(),
    ensures
        word_end(a + s, a.len() + i) == a.len() + word_end(s, i),
    decreases s.len() - i,
{
    if i < s.len() && !space(s[i]) {
        lemma_word_end_within(a, s, i + 1);
    }
}

pub proof fn lemma_words_within(a: Seq<char>, s: Seq<char>, i: int)
    requires
        0 <= i <= s.len(),
    ensures
        words_from(a + s, a.len() + i) == words_from(s, i),
    decreases s.len() - i,
{
    let w = a + s;
    let n = a.len() as int;
    if i < s.len() {
        assert(w[n + i] == s[i]);
        if space(s[i]) {
            lemma_words_within(a, s, i + 1);
        } else {
            let k = word_end(s, i);
            lemma_word_end(s, i);
            lemma_word_end(w, n + i);
            lemma_word_end_within(a, s, i);
            lemma_words_within(a, s, k);
            assert(w.subrange(n + i, n + k) =~= s.subrange(i, k));
        }
    }
}

/// Words with a space between each two come apart again.
pub proof fn words_read_back(parts: Seq<Seq<char>>)
    requires
        forall|i: int| 0 <= i < parts.len() ==> is_word(#[trigger] parts[i]),
    ensures
        words(separated(parts, ' ')) == parts,
    decreases parts.len(),
{
    let s = separated(parts, ' ');
    if parts.len() == 0 {
        assert(words(s) =~= parts);
    } else {
        let p = parts[0];
        let k = p.len() as int;
        assert(is_word(p));
        if parts.len() == 1 {
            lemma_word_end_is(s, 0, k);
            assert(s.subrange(0, k) =~= p);
            assert(words_from(s, k) =~= seq![]);
            assert(words(s) =~= parts);
        } else {
            let rest = parts.drop_first();
            assert forall|i: int| 0 <= i < rest.len() implies is_word(#[trigger] rest[i]) by {
                assert(rest[i] == parts[i + 1]);
            }
            words_read_back(rest);
            let t = separated(rest, ' ');
            assert(s[k] == ' ');
            assert forall|j: int| 0 <= j < k implies !space(#[trigger] s[j]) by {
                assert(s[j] == p[j]);
            }
            lemma_word_end_is(s, 0, k);
            lemma_words_within(p + seq![' '], t, 0);
            assert((p + seq![' ']) + t =~= s);
            assert(s.subrange(0, k) =~= p);
            assert(words_from(s, k) == words_from(s, k + 1));
            assert(words(s) =~= parts);
        }
    }
}

proof fn lemma_lines_within(a: Seq<char>, s: Seq<char>, i: int)
    requires
        0 <= i <= s.len(),
    ensures
        lines_from(a + s, a.len() + i) == lines_from(s, i),
    decreases s.len() - i,
{
    let w = a + s;
    let n = a.len() as int;
    if i < s.len() {
        let k = find_from(s, '\n', i);
        lemma_find(s, '\n', i);
        lemma_find(w, '\n', n + i);
        lemma_find_within(a, s, '\n', i);
        if k < s.len() {
            lemma_lines_within(a, s, k + 1);
            assert(w.subrange(n + i, n + k) =~= s.subrange(i, k));
        } else {
            assert(w.subrange(n + i, w.len() as int) =~= s.subrange(i, s.len() as int));
        }
    }
}

/// A line comes off a text at its line feed, with or without a carriage return.
pub proof fn lines_read_back(line: Seq<char>, rest: Seq<char>)
    requires
        !line.contains('\n'),
        line.len() > 0 ==> line.last() != '\r',
    ensures
        lines(line + seq!['\n'] + rest) == seq![line] + lines(rest),
        lines(line + seq!['\r', '\n'] + rest) == seq![line] + lines(rest),
        line.len() > 0 ==> lines(line) == seq![line],
{
    assert forall|j: int| 0 <= j < line.len() implies line[j] != '\n' by {
        assert(line.contains(line[j]));
    }
    let n = line.len() as int;
    let s = line + seq!['\n'] + rest;
    assert(s[n] == '\n');
    lemma_find_is(s, '\n', 0, n);
    assert(s.subrange(0, n) =~= line);
    lemma_lines_within(line + seq!['\n'], rest, 0);
    assert((line + seq!['\n']) + rest =~= s);
    let t = line + seq!['\r', '\n'] + rest;
    assert(t[n] == '\r' && t[n + 1] == '\n');
    lemma_find_is(t, '\n', 0, n + 1);
    assert(t.subrange(0, n + 1).drop_last() =~= line);
    assert(t.subrange(0, n + 1).last() == '\r');
    lemma_lines_within(line + seq!['\r', '\n'], rest, 0);
    assert((line + seq!['\r', '\n']) + rest =~= t);
    if n > 0 {
        lemma_find_is(line, '\n', 0, n);
        assert(line.subrange(0, n) =~= line);
    }
}

/// A text without spaces around it stays as it is.
pub proof fn trimmed_stays(s: Seq<char>)
    requires
        s.len() > 0 ==> !space(s[0]) && !space(s.last()),
    ensures
        trimmed(s) == s,
{
    let n = s.len() as int;
    if n > 0 {
        assert(first_solid(s, 0) == 0);
        assert(solid_end(s, 0, n) == n);
    }
    assert(s.subrange(0, n) =~= s);
}

/// A text in a column has that column's width, or its own where it is wider, and
/// stands at its side.
pub proof fn columns_have_their_width(s: Seq<char>, w: int)
    ensures
        at_right(s, w).len() == if s.len() < w {
            w
        } else {
            s.len() as int
        },
        at_left(s, w).len() == at_right(s, w).len(),
        at_right(s, w).skip(at_right(s, w).len() - s.len()) == s,
        at_left(s, w).take(s.len() as int) == s,
{
    assert(at_right(s, w).skip(at_right(s, w).len() - s.len()) =~= s);
    assert(at_left(s, w).take(s.len() as int) =~= s);
}

proof fn lemma_first_solid_is(s: Seq<char>, i: int, k: int)
    requires
        0 <= i <= k < s.len(),
        forall|j: int| i <= j < k ==> space(#[trigger] s[j]),
        !space(s[k]),
    ensures
        first_solid(s, i) == k,
    decreases k - i,
{
    if i < k {
        lemma_first_solid_is(s, i + 1, k);
    }
}

proof fn lemma_solid_end_is(s: Seq<char>, lo: int, hi: int, k: int)
    requires
        0 <= lo < k <= hi <= s.len(),
        forall|j: int| k <= j < hi ==> space(#[trigger] s[j]),
        !space(s[k - 1]),
    ensures
        solid_end(s, lo, hi) == k,
    decreases hi - k,
{
    if k < hi {
        assert(space(s[hi - 1]));
        lemma_solid_end_is(s, lo, hi - 1, k);
    }
}

/// Spaces around a text are cut off, and nothing of the text.
pub proof fn spaces_around_are_cut(a: Seq<char>, s: Seq<char>, b: Seq<char>)
    requires
        forall|i: int| 0 <= i < a.len() ==> space(#[trigger] a[i]),
        forall|i: int| 0 <= i < b.len() ==> space(#[trigger] b[i]),
        s.len() > 0 && !space(s[0]) && !space(s.last()),
    ensures
        trimmed(a + s + b) == s,
{
    let t = a + s + b;
    let i = a.len() as int;
    let k = i + s.len();
    assert(t[i] == s[0]);
    assert(t[k - 1] == s.last());
    assert forall|j: int| 0 <= j < i implies space(#[trigger] t[j]) by {
        assert(t[j] == a[j]);
    }
    assert forall|j: int| k <= j < t.len() implies space(#[trigger] t[j]) by {
        assert(t[j] == b[j - k]);
    }
    lemma_first_solid_is(t, 0, i);
    lemma_solid_end_is(t, i, t.len() as int, k);
    assert(t.subrange(i, k) =~= s);
}

/// A number is a word of digits: no part of it is a space, a sign or a mark.
pub proof fn lemma_decimal_is_word(n: int)
    requires
        0 <= n,
    ensures
        is_word(decimal(n)),
        forall|c: char| !digit(c) ==> !(#[trigger] decimal(n).contains(c)),
{
    lemma_decimal(n);
    let d = decimal(n);
    assert forall|i: int| 0 <= i < d.len() implies !space(#[trigger] d[i]) by {
        assert(digit(d[i]));
    }
    assert forall|c: char| !digit(c) implies !(#[trigger] d.contains(c)) by {
        if d.contains(c) {
            let i = choose|i: int| 0 <= i < d.len() && d[i] == c;
            assert(digit(d[i]));
        }
    }
}

/// What a text begins with has the same places in it.
pub proof fn lemma_column(a: Seq<char>, x: Seq<char>, line: Seq<char>)
    requires
        (a + x).is_prefix_of(line),
    ensures
        a.is_prefix_of(line),
        line.subrange(a.len() as int, (a.len() + x.len()) as int) == x,
{
    let p = a + x;
    assert(p == line.subrange(0, p.len() as int));
    assert(line.subrange(a.len() as int, p.len() as int) =~= x) by {
        assert forall|i: int| 0 <= i < x.len() implies line[a.len() + i] == x[i] by {
            assert(p[a.len() + i] == x[i]);
        }
    }
    assert(line.subrange(0, a.len() as int) =~= a) by {
        assert forall|i: int| 0 <= i < a.len() implies line[i] == a[i] by {
            assert(p[i] == a[i]);
        }
    }
}

} // verus!
