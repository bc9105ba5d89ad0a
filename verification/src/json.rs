//! JSON by hand: writing strings and numbers, and reading back the flat objects
//! that the records are made of, one a line.

use vstd::arithmetic::power2::lemma_pow2_pos;
use vstd::prelude::*;
use vstd::slice::slice_subrange;

use crate::binary64::{scaled, signed, unit, whole, zero, Binary64};
use crate::numeral::{
    closest_magnitude, digits_end, end_of_digits, fixed, float, format_fixed, lemma_digits_end,
    lemma_padded, lemma_rounded_natural, lemma_run_of_digits, lemma_ten_pos, padded, parse_float,
    rereading_keeps_order, rounded, ten_to,
};
use crate::text::{chars_of, code, control, decimal, decimal_of, digit, is_control, is_digit};

verus! {

// ---------------------------------------------------------------------------
// Writing

/// A hexadecimal digit.
pub open spec fn hex_digit(d: int) -> char {
    if d < 10 {
        (48 + d) as char
    } else {
        (87 + d) as char
    }
}

/// Four hexadecimal digits.
pub open spec fn hex4(n: int) -> Seq<char> {
    seq![
        hex_digit(n / 4096 % 16),
        hex_digit(n / 256 % 16),
        hex_digit(n / 16 % 16),
        hex_digit(n % 16),
    ]
}

/// How a character stands inside a string.
pub open spec fn escaped(c: char) -> Seq<char> {
    if c == '"' || c == '\\' {
        seq!['\\', c]
    } else if c == '\n' {
        seq!['\\', 'n']
    } else if c == '\r' {
        seq!['\\', 'r']
    } else if c == '\t' {
        seq!['\\', 't']
    } else if control(c) {
        seq!['\\', 'u'] + hex4(c as int)
    } else {
        seq![c]
    }
}

/// How the characters of a text stand inside a string.
pub open spec fn escapes(s: Seq<char>) -> Seq<char>
    decreases s.len(),
{
    if s.len() == 0 {
        seq![]
    } else {
        escapes(s.drop_last()) + escaped(s.last())
    }
}

/// A text as a string.
pub open spec fn string_text(s: Seq<char>) -> Seq<char> {
    seq!['"'] + escapes(s) + seq!['"']
}

fn push_hex4(out: &mut String, n: u32)
    requires
        n < 0x1_0000,
    ensures
        final(out)@ == old(out)@ + hex4(n as int),
{
    push_hex(out, n / 4096 % 16);
    push_hex(out, n / 256 % 16);
    push_hex(out, n / 16 % 16);
    push_hex(out, n % 16);
    assert(out@ =~= old(out)@ + hex4(n as int));
}

fn push_hex(out: &mut String, d: u32)
    requires
        d < 16,
    ensures
        final(out)@ == old(out)@.push(hex_digit(d as int)),
{
    let b: u8 = d as u8;
    if b < 10 {
        out.push((48 + b) as char);
    } else {
        out.push((87 + b) as char);
    }
}

/// Appends a text as a string, quotes included.
pub fn push_string(out: &mut String, s: &str)
    ensures
        final(out)@ == old(out)@ + string_text(s@),
{
    let cs = chars_of(s);
    let ghost start = out@;
    out.push('"');
    for i in 0..cs.len()
        invariant
            cs@ == s@,
            out@ == start + seq!['"'] + escapes(cs@.take(i as int)),
    {
        let c = cs[i];
        let ghost before = out@;
        if c == '"' {
            out.push('\\');
            out.push('"');
        } else if c == '\\' {
            out.push('\\');
            out.push('\\');
        } else if c == '\n' {
            out.push('\\');
            out.push('n');
        } else if c == '\r' {
            out.push('\\');
            out.push('r');
        } else if c == '\t' {
            out.push('\\');
            out.push('t');
        } else if is_control(c) {
            out.push('\\');
            out.push('u');
            push_hex4(out, code(c));
        } else {
            out.push(c);
        }
        assert(out@ =~= before + escaped(c));
        assert(cs@.take(i as int + 1).drop_last() =~= cs@.take(i as int));
        assert(out@ =~= start + seq!['"'] + escapes(cs@.take(i as int + 1)));
    }
    assert(cs@.take(cs@.len() as int) =~= cs@);
    out.push('"');
    assert(out@ =~= start + string_text(s@));
}

/// The text as a string, quotes included.
pub fn json_str(s: &str) -> (r: String)
    ensures
        r@ == string_text(s@),
{
    let mut out: String = String::new();
    push_string(&mut out, s);
    assert(Seq::<char>::empty() + string_text(s@) =~= string_text(s@));
    out
}

/// A number as it is written. What is no finite number is written as zero.
pub open spec fn number_text(n: Binary64) -> Seq<char> {
    if n.finite() {
        fixed(n, 4)
    } else {
        "0"@
    }
}

/// Appends a number.
pub fn push_num(out: &mut String, n: &Binary64)
    ensures
        final(out)@ == old(out)@ + number_text(*n),
{
    if n.is_finite() {
        let t = format_fixed(n, 4);
        out.append(t.as_str());
    } else {
        out.append("0");
    }
}

/// Texts with commas between them.
pub open spec fn comma_joined(items: Seq<Seq<char>>) -> Seq<char>
    decreases items.len(),
{
    if items.len() == 0 {
        seq![]
    } else if items.len() == 1 {
        items[0]
    } else {
        comma_joined(items.drop_last()) + seq![','] + items.last()
    }
}

/// A name, a colon and the text of a value.
pub open spec fn member_text(m: (Seq<char>, Seq<char>)) -> Seq<char> {
    string_text(m.0) + seq![':'] + m.1
}

pub open spec fn member_texts(m: Seq<(Seq<char>, Seq<char>)>) -> Seq<Seq<char>> {
    Seq::new(m.len(), |i: int| member_text(m[i]))
}

/// An object of named values, given by their texts.
pub open spec fn object_text(m: Seq<(Seq<char>, Seq<char>)>) -> Seq<char> {
    seq!['{'] + comma_joined(member_texts(m)) + seq!['}']
}

/// An array of values, given by their texts.
pub open spec fn array_text(items: Seq<Seq<char>>) -> Seq<char> {
    seq!['['] + comma_joined(items) + seq![']']
}

pub open spec fn truth_text(b: bool) -> Seq<char> {
    if b {
        "true"@
    } else {
        "false"@
    }
}

/// Adding a text to those joined.
pub proof fn lemma_joined_push(items: Seq<Seq<char>>, x: Seq<char>)
    ensures
        comma_joined(items.push(x)) == comma_joined(items) + (if items.len() == 0 {
            seq![]
        } else {
            seq![',']
        }) + x,
{
    let all = items.push(x);
    if items.len() == 0 {
        assert(comma_joined(items) + Seq::<char>::empty() + x =~= x);
    } else {
        assert(all.drop_last() =~= items);
    }
}

/// An object that is being written behind `start`: its members so far.
pub open spec fn begun(start: Seq<char>, m: Seq<(Seq<char>, Seq<char>)>) -> Seq<char> {
    start + seq!['{'] + comma_joined(member_texts(m))
}

/// An object's next member: a comma unless it is the first, the name, a colon
/// and the text of the value.
pub(crate) fn put_text(
    out: &mut String,
    first: bool,
    name: &str,
    text: &str,
    Ghost(start): Ghost<Seq<char>>,
    Ghost(m): Ghost<Seq<(Seq<char>, Seq<char>)>>,
)
    requires
        first == (m.len() == 0),
        old(out)@ == begun(start, m),
    ensures
        final(out)@ == begun(start, m.push((name@, text@))),
{
    if !first {
        out.push(',');
    }
    push_string(out, name);
    out.push(':');
    out.append(text);
    proof {
        let x = (name@, text@);
        assert(member_texts(m.push(x)) =~= member_texts(m).push(member_text(x)));
        lemma_joined_push(member_texts(m), member_text(x));
        assert(out@ =~= begun(start, m.push(x)));
    }
}

pub(crate) fn put_string(
    out: &mut String,
    first: bool,
    name: &str,
    value: &str,
    Ghost(start): Ghost<Seq<char>>,
    Ghost(m): Ghost<Seq<(Seq<char>, Seq<char>)>>,
)
    requires
        first == (m.len() == 0),
        old(out)@ == begun(start, m),
    ensures
        final(out)@ == begun(start, m.push((name@, string_text(value@)))),
{
    let text = json_str(value);
    put_text(out, first, name, text.as_str(), Ghost(start), Ghost(m));
}

pub(crate) fn put_number(
    out: &mut String,
    first: bool,
    name: &str,
    value: &Binary64,
    Ghost(start): Ghost<Seq<char>>,
    Ghost(m): Ghost<Seq<(Seq<char>, Seq<char>)>>,
)
    requires
        first == (m.len() == 0),
        old(out)@ == begun(start, m),
    ensures
        final(out)@ == begun(start, m.push((name@, number_text(*value)))),
{
    let mut text: String = String::new();
    push_num(&mut text, value);
    assert(text@ =~= number_text(*value));
    put_text(out, first, name, text.as_str(), Ghost(start), Ghost(m));
}

pub(crate) fn put_integer(
    out: &mut String,
    first: bool,
    name: &str,
    value: u64,
    Ghost(start): Ghost<Seq<char>>,
    Ghost(m): Ghost<Seq<(Seq<char>, Seq<char>)>>,
)
    requires
        first == (m.len() == 0),
        old(out)@ == begun(start, m),
    ensures
        final(out)@ == begun(start, m.push((name@, decimal(value as int)))),
{
    let text = decimal_of(value);
    put_text(out, first, name, text.as_str(), Ghost(start), Ghost(m));
}

pub(crate) fn put_truth(
    out: &mut String,
    first: bool,
    name: &str,
    value: bool,
    Ghost(start): Ghost<Seq<char>>,
    Ghost(m): Ghost<Seq<(Seq<char>, Seq<char>)>>,
)
    requires
        first == (m.len() == 0),
        old(out)@ == begun(start, m),
    ensures
        final(out)@ == begun(start, m.push((name@, truth_text(value)))),
{
    if value {
        put_text(out, first, name, "true", Ghost(start), Ghost(m));
    } else {
        put_text(out, first, name, "false", Ghost(start), Ghost(m));
    }
}

/// The brace that opens an object.
pub(crate) fn open_object(out: &mut String)
    ensures
        final(out)@ == begun(old(out)@, seq![]),
{
    out.push('{');
    assert(member_texts(seq![]) =~= seq![]);
    assert(out@ =~= begun(old(out)@, seq![]));
}

/// The brace that closes an object.
pub(crate) fn close_object(
    out: &mut String,
    Ghost(start): Ghost<Seq<char>>,
    Ghost(m): Ghost<Seq<(Seq<char>, Seq<char>)>>,
)
    requires
        old(out)@ == begun(start, m),
    ensures
        final(out)@ == start + object_text(m),
{
    out.push('}');
    assert(out@ =~= start + object_text(m));
}

// ---------------------------------------------------------------------------
// Reading

/// A value: what the records are made of.
#[derive(Clone, Debug, PartialEq)]
pub enum Value {
    Str(String),
    Num(Binary64),
    Bool(bool),
    Null,
}

/// What a value stands for.
pub enum Datum {
    Text(Seq<char>),
    Number(Binary64),
    Truth(bool),
    Nothing,
}

impl View for Value {
    type V = Datum;

    open spec fn view(&self) -> Datum {
        match *self {
            Value::Str(s) => Datum::Text(s@),
            Value::Num(n) => Datum::Number(n),
            Value::Bool(b) => Datum::Truth(b),
            Value::Null => Datum::Nothing,
        }
    }
}

/// What named values stand for.
pub open spec fn fields_view(v: Seq<(String, Value)>) -> Seq<(Seq<char>, Datum)> {
    Seq::new(v.len(), |i: int| (v[i].0@, v[i].1@))
}

pub open spec fn blank(c: char) -> bool {
    c == ' ' || c == '\t' || c == '\r' || c == '\n'
}

/// The first place at or after `i` that is not blank.
pub open spec fn past_blanks(s: Seq<char>, i: int) -> int
    decreases s.len() - i,
{
    if i >= s.len() || !blank(s[i]) {
        i
    } else {
        past_blanks(s, i + 1)
    }
}

/// The value of a hexadecimal digit.
pub open spec fn hex_value(c: char) -> Option<int> {
    if '0' <= c && c <= '9' {
        Some(c as int - 48)
    } else if 'a' <= c && c <= 'f' {
        Some(c as int - 87)
    } else if 'A' <= c && c <= 'F' {
        Some(c as int - 55)
    } else {
        None
    }
}

/// The number that four digits spell in base sixteen.
pub open spec fn hex4_value(s: Seq<char>, i: int) -> Option<int> {
    match (hex_value(s[i]), hex_value(s[i + 1]), hex_value(s[i + 2]), hex_value(s[i + 3])) {
        (Some(w), Some(x), Some(y), Some(z)) => Some(4096 * w + 256 * x + 16 * y + z),
        _ => None,
    }
}

/// The character that an escape stands for, and where it ends. `i` is the
/// place behind the backslash.
pub open spec fn escape_at(s: Seq<char>, i: int) -> Option<(char, int)> {
    if i >= s.len() {
        None
    } else if s[i] == '"' || s[i] == '\\' || s[i] == '/' {
        Some((s[i], i + 1))
    } else if s[i] == 'n' {
        Some(('\n', i + 1))
    } else if s[i] == 'r' {
        Some(('\r', i + 1))
    } else if s[i] == 't' {
        Some(('\t', i + 1))
    } else if s[i] == 'b' {
        Some(('\u{8}', i + 1))
    } else if s[i] == 'f' {
        Some(('\u{c}', i + 1))
    } else if s[i] == 'u' && i + 5 <= s.len() {
        match hex4_value(s, i + 1) {
            Some(n) => if 0xd800 <= n <= 0xdfff {
                None
            } else {
                Some((n as char, i + 5))
            },
            None => None,
        }
    } else {
        None
    }
}

/// The rest of a string from `i` on, and the place behind its closing quote.
pub open spec fn string_from(s: Seq<char>, i: int) -> Option<(Seq<char>, int)>
    decreases s.len() - i,
{
    if i >= s.len() {
        None
    } else if s[i] == '"' {
        Some((seq![], i + 1))
    } else if s[i] == '\\' {
        match escape_at(s, i + 1) {
            Some((c, k)) => if k <= i {
                None
            } else {
                before(seq![c], string_from(s, k))
            },
            None => None,
        }
    } else if (s[i] as int) < 0x20 {
        None
    } else {
        before(seq![s[i]], string_from(s, i + 1))
    }
}

/// What was read, with `head` put before it.
pub open spec fn before<T>(head: Seq<T>, r: Option<(Seq<T>, int)>) -> Option<(Seq<T>, int)> {
    match r {
        Some((t, k)) => Some((head + t, k)),
        None => None,
    }
}

/// Whether a text is a number of JSON: an optional minus, a zero or digits that
/// do not begin with one, an optional point with digits behind it, and an
/// optional exponent.
pub open spec fn number_form(t: Seq<char>) -> bool {
    let a: int = if t.len() > 0 && t[0] == '-' {
        1
    } else {
        0
    };
    let b = digits_end(t, a);
    let c = if b < t.len() && t[b] == '.' {
        digits_end(t, b + 1)
    } else {
        b
    };
    let d = if c + 1 < t.len() && (t[c + 1] == '+' || t[c + 1] == '-') {
        c + 2
    } else {
        c + 1
    };
    &&& b > a
    &&& t[a] == '0' ==> b == a + 1
    &&& c != b + 1
    &&& c == t.len() || ((t[c] == 'e' || t[c] == 'E') && d < t.len() && digits_end(t, d) == t.len())
}

/// The characters of a number.
pub open spec fn numeric(c: char) -> bool {
    digit(c) || c == '.' || c == 'e' || c == 'E' || c == '+' || c == '-'
}

/// The end of the run of a number's characters at `i`.
pub open spec fn numeric_end(s: Seq<char>, i: int) -> int
    decreases s.len() - i,
{
    if i >= s.len() || !numeric(s[i]) {
        i
    } else {
        numeric_end(s, i + 1)
    }
}

/// Whether `word` stands at `i`.
pub open spec fn stands_at(s: Seq<char>, i: int, word: Seq<char>) -> bool {
    i + word.len() <= s.len() && s.subrange(i, i + word.len()) == word
}

/// The value at `i`, and the place behind it.
pub open spec fn value_at(s: Seq<char>, i: int) -> Option<(Datum, int)> {
    if i >= s.len() {
        None
    } else if s[i] == '"' {
        match string_from(s, i + 1) {
            Some((t, k)) => Some((Datum::Text(t), k)),
            None => None,
        }
    } else if s[i] == 't' {
        if stands_at(s, i, "true"@) {
            Some((Datum::Truth(true), i + 4))
        } else {
            None
        }
    } else if s[i] == 'f' {
        if stands_at(s, i, "false"@) {
            Some((Datum::Truth(false), i + 5))
        } else {
            None
        }
    } else if s[i] == 'n' {
        if stands_at(s, i, "null"@) {
            Some((Datum::Nothing, i + 4))
        } else {
            None
        }
    } else if s[i] == '-' || digit(s[i]) {
        let k = numeric_end(s, i + 1);
        let t = s.subrange(i, k);
        if number_form(t) && float(t) is Some {
            Some((Datum::Number(float(t)->0), k))
        } else {
            None
        }
    } else {
        None
    }
}

/// The member at `i`, which is a name, a colon and a value, and the place of
/// what follows.
pub open spec fn member_at(s: Seq<char>, i: int) -> Option<((Seq<char>, Datum), int)> {
    if i >= s.len() || s[i] != '"' {
        None
    } else {
        match string_from(s, i + 1) {
            Some((name, k)) => {
                let colon = past_blanks(s, k);
                if colon < s.len() && s[colon] == ':' {
                    match value_at(s, past_blanks(s, colon + 1)) {
                        Some((v, e)) => Some(((name, v), past_blanks(s, e))),
                        None => None,
                    }
                } else {
                    None
                }
            },
            None => None,
        }
    }
}

/// The members from `i` on, and the place behind the closing brace.
pub open spec fn members_from(s: Seq<char>, i: int) -> Option<(Seq<(Seq<char>, Datum)>, int)>
    decreases s.len() - i,
{
    match member_at(s, past_blanks(s, i)) {
        Some((m, e)) => if e <= i || e >= s.len() {
            None
        } else if s[e] == ',' {
            before(seq![m], members_from(s, e + 1))
        } else if s[e] == '}' {
            Some((seq![m], e + 1))
        } else {
            None
        },
        None => None,
    }
}

/// The members of an object that takes up the whole line.
pub open spec fn object(s: Seq<char>) -> Option<Seq<(Seq<char>, Datum)>> {
    let open = past_blanks(s, 0);
    let first = past_blanks(s, open + 1);
    if open >= s.len() || s[open] != '{' {
        None
    } else {
        let r = if first < s.len() && s[first] == '}' {
            Some((seq![], first + 1))
        } else {
            members_from(s, open + 1)
        };
        match r {
            Some((m, k)) => if past_blanks(s, k) == s.len() {
                Some(m)
            } else {
                None
            },
            None => None,
        }
    }
}

fn skip_blanks(s: &[char], from: usize) -> (r: usize)
    requires
        from <= s@.len(),
    ensures
        r == past_blanks(s@, from as int),
        from <= r <= s@.len(),
{
    let mut i: usize = from;
    while i < s.len() && (s[i] == ' ' || s[i] == '\t' || s[i] == '\r' || s[i] == '\n')
        invariant
            from <= i <= s@.len(),
            past_blanks(s@, from as int) == past_blanks(s@, i as int),
        decreases s@.len() - i,
    {
        i = i + 1;
    }
    i
}

fn read_hex(c: char) -> (r: Option<u32>)
    ensures
        match r {
            Some(v) => hex_value(c) == Some(v as int) && v < 16,
            None => hex_value(c) is None,
        },
{
    if '0' <= c && c <= '9' {
        Some(c as u32 - 48)
    } else if 'a' <= c && c <= 'f' {
        Some(c as u32 - 87)
    } else if 'A' <= c && c <= 'F' {
        Some(c as u32 - 55)
    } else {
        None
    }
}

/// `char::from_u32` gives the character of a code point that is one: a number
/// up to 0x10ffff that is no surrogate.
#[verifier::external_body]
fn char_of(n: u32) -> (r: Option<char>)
    ensures
        match r {
            Some(c) => c == n as char && (n < 0xd800 || 0xdfff < n) && n <= 0x10_ffff,
            None => 0xd800 <= n <= 0xdfff || n > 0x10_ffff,
        },
{
    char::from_u32(n)
}

fn parse_escape(s: &[char], i: usize) -> (r: Option<(char, usize)>)
    requires
        i <= s@.len(),
    ensures
        match r {
            Some((c, k)) => escape_at(s@, i as int) == Some((c, k as int)) && i < k <= s@.len(),
            None => escape_at(s@, i as int) is None,
        },
{
    let n = s.len();
    if i >= n {
        return None;
    }
    let c = s[i];
    if c == '"' || c == '\\' || c == '/' {
        Some((c, i + 1))
    } else if c == 'n' {
        Some(('\n', i + 1))
    } else if c == 'r' {
        Some(('\r', i + 1))
    } else if c == 't' {
        Some(('\t', i + 1))
    } else if c == 'b' {
        Some(('\u{8}', i + 1))
    } else if c == 'f' {
        Some(('\u{c}', i + 1))
    } else if c == 'u' && n - i >= 5 {
        match (read_hex(s[i + 1]), read_hex(s[i + 2]), read_hex(s[i + 3]), read_hex(s[i + 4])) {
            (Some(w), Some(x), Some(y), Some(z)) => {
                match char_of(4096 * w + 256 * x + 16 * y + z) {
                    Some(ch) => Some((ch, i + 5)),
                    None => None,
                }
            },
            _ => None,
        }
    } else {
        None
    }
}

/// Reads the string whose opening quote stands at `start`. Gives its text and
/// the place behind its closing quote.
pub fn parse_string(s: &[char], start: usize) -> (r: Option<(String, usize)>)
    requires
        start < s@.len(),
        s@[start as int] == '"',
    ensures
        match r {
            Some((t, k)) => string_from(s@, start + 1) == Some((t@, k as int)) && start < k
                <= s@.len(),
            None => string_from(s@, start + 1) is None,
        },
{
    let mut out: String = String::new();
    let n = s.len();
    let from = start + 1;
    let mut i: usize = from;
    proof {
        match string_from(s@, from as int) {
            Some((t, k)) => {
                assert(Seq::<char>::empty() + t =~= t);
            },
            None => {},
        }
    }
    while i < n
        invariant
            n == s@.len(),
            from == start + 1,
            from <= i <= n,
            string_from(s@, from as int) == before(out@, string_from(s@, i as int)),
        decreases s@.len() - i,
    {
        let c = s[i];
        let ghost done = out@;
        if c == '"' {
            assert(done + Seq::<char>::empty() =~= done);
            return Some((out, i + 1));
        }
        if c == '\\' {
            match parse_escape(s, i + 1) {
                Some((ch, k)) => {
                    out.push(ch);
                    proof {
                        lemma_before(done, ch, string_from(s@, k as int));
                    }
                    i = k;
                },
                None => return None,
            }
        } else if code(c) < 0x20 {
            return None;
        } else {
            out.push(c);
            proof {
                lemma_before(done, c, string_from(s@, i + 1));
            }
            i = i + 1;
        }
    }
    None
}

proof fn lemma_before<T>(a: Seq<T>, x: T, r: Option<(Seq<T>, int)>)
    ensures
        before(a, before(seq![x], r)) == before(a.push(x), r),
{
    match r {
        Some((t, k)) => {
            assert(a + (seq![x] + t) =~= a.push(x) + t);
        },
        None => {},
    }
}

/// Whether the word stands at `i`.
fn expect(s: &[char], i: usize, word: &str) -> (r: bool)
    requires
        i <= s@.len(),
    ensures
        r == stands_at(s@, i as int, word@),
{
    let cs = chars_of(word);
    if cs.len() > s.len() - i {
        return false;
    }
    crate::text::same_chars(slice_subrange(s, i, i + cs.len()), cs.as_slice())
}

fn has_number_form(t: &[char]) -> (r: bool)
    ensures
        r == number_form(t@),
{
    let n = t.len();
    let a: usize = if n > 0 && t[0] == '-' {
        1
    } else {
        0
    };
    let b = end_of_digits(t, a);
    if b == a || (t[a] == '0' && b > a + 1) {
        return false;
    }
    let c = if b < n && t[b] == '.' {
        end_of_digits(t, b + 1)
    } else {
        b
    };
    if c - b == 1 {
        return false;
    }
    if c == n {
        return true;
    }
    if t[c] != 'e' && t[c] != 'E' {
        return false;
    }
    let d = if n - c > 1 && (t[c + 1] == '+' || t[c + 1] == '-') {
        c + 2
    } else {
        c + 1
    };
    d < n && end_of_digits(t, d) == n
}

fn parse_value(s: &[char], i: usize) -> (r: Option<(Value, usize)>)
    requires
        i <= s@.len(),
    ensures
        match r {
            Some((v, k)) => value_at(s@, i as int) == Some((v@, k as int)) && i < k <= s@.len(),
            None => value_at(s@, i as int) is None,
        },
{
    proof {
        reveal_strlit("true");
        reveal_strlit("false");
        reveal_strlit("null");
    }
    if i >= s.len() {
        return None;
    }
    let c = s[i];
    if c == '"' {
        match parse_string(s, i) {
            Some((t, k)) => Some((Value::Str(t), k)),
            None => None,
        }
    } else if c == 't' {
        if expect(s, i, "true") {
            Some((Value::Bool(true), i + 4))
        } else {
            None
        }
    } else if c == 'f' {
        if expect(s, i, "false") {
            Some((Value::Bool(false), i + 5))
        } else {
            None
        }
    } else if c == 'n' {
        if expect(s, i, "null") {
            Some((Value::Null, i + 4))
        } else {
            None
        }
    } else if c == '-' || is_digit(c) {
        let mut k: usize = i + 1;
        while k < s.len() && (is_digit(s[k]) || s[k] == '.' || s[k] == 'e' || s[k] == 'E' || s[k]
            == '+' || s[k] == '-')
            invariant
                i < k <= s@.len(),
                numeric_end(s@, i + 1) == numeric_end(s@, k as int),
            decreases s@.len() - k,
        {
            k = k + 1;
        }
        let t = slice_subrange(s, i, k);
        if !has_number_form(t) {
            return None;
        }
        match parse_float(t) {
            Some(n) => Some((Value::Num(n), k)),
            None => None,
        }
    } else {
        None
    }
}

fn parse_member(s: &[char], i: usize) -> (r: Option<(String, Value, usize)>)
    requires
        i <= s@.len(),
    ensures
        match r {
            Some((name, v, k)) => member_at(s@, i as int) == Some(((name@, v@), k as int)) && i < k
                <= s@.len(),
            None => member_at(s@, i as int) is None,
        },
{
    if i >= s.len() || s[i] != '"' {
        return None;
    }
    let (name, k) = match parse_string(s, i) {
        Some(p) => p,
        None => return None,
    };
    let colon = skip_blanks(s, k);
    if colon >= s.len() || s[colon] != ':' {
        return None;
    }
    match parse_value(s, skip_blanks(s, colon + 1)) {
        Some((v, e)) => Some((name, v, skip_blanks(s, e))),
        None => None,
    }
}

/// What `parse_object` gives.
pub open spec fn object_view(r: Option<Vec<(String, Value)>>) -> Option<Seq<(Seq<char>, Datum)>> {
    match r {
        Some(v) => Some(fields_view(v@)),
        None => None,
    }
}

/// Reads a line that holds one flat object. A line that is anything else,
/// however little it lacks, gives nothing.
pub fn parse_object(line: &str) -> (r: Option<Vec<(String, Value)>>)
    ensures
        object_view(r) == object(line@),
{
    let cs = chars_of(line);
    let s = cs.as_slice();
    let n = s.len();
    let open = skip_blanks(s, 0);
    if open >= n || s[open] != '{' {
        return None;
    }
    let mut out: Vec<(String, Value)> = Vec::new();
    let first = skip_blanks(s, open + 1);
    if first < n && s[first] == '}' {
        assert(fields_view(out@) =~= seq![]);
        if skip_blanks(s, first + 1) == n {
            return Some(out);
        } else {
            return None;
        }
    }
    let mut i: usize = open + 1;
    proof {
        match members_from(s@, i as int) {
            Some((t, k)) => {
                assert(fields_view(out@) + t =~= t);
            },
            None => {},
        }
    }
    loop
        invariant
            n == s@.len(),
            i <= n,
            members_from(s@, open + 1) == before(fields_view(out@), members_from(s@, i as int)),
            s@ == line@,
            open == past_blanks(s@, 0),
            open < n,
            s@[open as int] == '{',
            first == past_blanks(s@, open + 1),
            !(first < n && s@[first as int] == '}'),
        decreases n - i,
    {
        let (name, value, e) = match parse_member(s, skip_blanks(s, i)) {
            Some(m) => m,
            None => return None,
        };
        let ghost done = fields_view(out@);
        let ghost m = (name@, value@);
        if e >= n {
            return None;
        }
        out.push((name, value));
        assert(fields_view(out@) =~= done.push(m));
        if s[e] == ',' {
            proof {
                lemma_before(done, m, members_from(s@, e + 1));
            }
            i = e + 1;
        } else if s[e] == '}' {
            assert(done + seq![m] =~= done.push(m));
            if skip_blanks(s, e + 1) == n {
                return Some(out);
            } else {
                return None;
            }
        } else {
            return None;
        }
    }
}

// ---------------------------------------------------------------------------
// What is written can be read

/// The first character's escape comes first.
proof fn lemma_escapes_first(s: Seq<char>)
    requires
        s.len() > 0,
    ensures
        escapes(s) == escaped(s[0]) + escapes(s.drop_first()),
    decreases s.len(),
{
    if s.len() == 1 {
        assert(s.drop_last() =~= s.drop_first());
        assert(escapes(s.drop_last()) =~= seq![]);
        assert(escapes(s) =~= escaped(s[0]) + escapes(s.drop_first()));
    } else {
        lemma_escapes_first(s.drop_last());
        assert(s.drop_last().drop_first() =~= s.drop_first().drop_last());
        assert(escapes(s.drop_first()) == escapes(s.drop_first().drop_last()) + escaped(s.last()));
        assert(escapes(s) =~= escaped(s[0]) + escapes(s.drop_first()));
    }
}

proof fn lemma_hex4(c: char)
    requires
        control(c),
    ensures
        hex4_value(hex4(c as int), 0) == Some(c as int),
{
    let n = c as int;
    let h = hex4(n);
    assert(n / 4096 % 16 == 0);
    assert(hex_value(hex_digit(0)) == Some(0int));
    assert(n / 256 % 16 == 0);
    let a = n / 16 % 16;
    let b = n % 16;
    assert(hex_value(hex_digit(a)) == Some(a));
    assert(hex_value(hex_digit(b)) == Some(b));
    assert(16 * a + b == n);
}

/// One escape read.
proof fn lemma_escape_read(s: Seq<char>, i: int, c: char)
    requires
        0 <= i,
        stands_at(s, i, escaped(c)),
    ensures
        string_from(s, i) == before(seq![c], string_from(s, i + escaped(c).len())),
{
    let e = escaped(c);
    let w = s.subrange(i, i + e.len());
    assert(w[0] == s[i]);
    if e.len() > 1 {
        assert(w[1] == s[i + 1]);
        if e.len() > 2 {
            let h = hex4(c as int);
            assert(e[2] == h[0] && e[3] == h[1] && e[4] == h[2] && e[5] == h[3]);
            assert(w[2] == s[i + 2] && w[3] == s[i + 3] && w[4] == s[i + 4] && w[5] == s[i + 5]);
            lemma_hex4(c);
            assert(hex4_value(s, i + 2) == hex4_value(h, 0));
            assert(escape_at(s, i + 1) == Some((c, i + 6)));
        }
    }
}

/// A string is read as the text that it was written from.
proof fn lemma_string_read(s: Seq<char>, i: int, x: Seq<char>)
    requires
        0 <= i,
        stands_at(s, i, escapes(x)),
        i + escapes(x).len() < s.len(),
        s[i + escapes(x).len()] == '"',
    ensures
        string_from(s, i) == Some((x, i + escapes(x).len() + 1)),
    decreases x.len(),
{
    if x.len() == 0 {
        assert(x =~= seq![]);
    } else {
        lemma_escapes_first(x);
        let e = escaped(x[0]);
        let r = escapes(x.drop_first());
        let w = s.subrange(i, i + escapes(x).len());
        assert(s.subrange(i, i + e.len()) =~= w.subrange(0, e.len() as int));
        assert(w.subrange(0, e.len() as int) =~= e);
        assert(s.subrange(i + e.len(), i + e.len() + r.len()) =~= w.subrange(
            e.len() as int,
            w.len() as int,
        ));
        assert(w.subrange(e.len() as int, w.len() as int) =~= r);
        lemma_escape_read(s, i, x[0]);
        lemma_string_read(s, i + e.len(), x.drop_first());
        assert(seq![x[0]] + x.drop_first() =~= x);
    }
}

/// Whether a text is one that a value can be read from.
pub open spec fn spells(t: Seq<char>, d: Datum) -> bool {
    match d {
        Datum::Text(x) => t == string_text(x),
        Datum::Truth(b) => t == truth_text(b),
        Datum::Nothing => t == "null"@,
        Datum::Number(n) => number_form(t) && float(t) == Some(n),
    }
}

proof fn lemma_numeric_read(s: Seq<char>, i: int, k: int)
    requires
        0 <= i <= k < s.len(),
        forall|j: int| i <= j < k ==> numeric(#[trigger] s[j]),
        !numeric(s[k]),
    ensures
        numeric_end(s, i) == k,
    decreases k - i,
{
    if i < k {
        assert(numeric(s[i]));
        lemma_numeric_read(s, i + 1, k);
    }
}

/// The characters of a number are those that numbers have.
proof fn lemma_number_characters(t: Seq<char>)
    requires
        number_form(t),
    ensures
        t.len() > 0,
        t[0] == '-' || digit(t[0]),
        forall|i: int| 0 <= i < t.len() ==> numeric(#[trigger] t[i]),
{
    let n = t.len() as int;
    let a: int = if n > 0 && t[0] == '-' {
        1
    } else {
        0
    };
    if n > 0 {
        lemma_digits_end(t, a);
    }
    let b = digits_end(t, a);
    if b < n && t[b] == '.' {
        lemma_digits_end(t, b + 1);
    }
    let c = if b < n && t[b] == '.' {
        digits_end(t, b + 1)
    } else {
        b
    };
    let d = if c + 1 < n && (t[c + 1] == '+' || t[c + 1] == '-') {
        c + 2
    } else {
        c + 1
    };
    if d < n {
        lemma_digits_end(t, d);
    }
    assert(digit(t.subrange(a, b)[0]));
    assert forall|i: int| 0 <= i < n implies numeric(#[trigger] t[i]) by {
        if a <= i < b {
            assert(digit(t.subrange(a, b)[i - a]));
        } else if b < i < c {
            assert(digit(t.subrange(b + 1, c)[i - b - 1]));
        } else if d <= i {
            assert(digit(t.subrange(d, n)[i - d]));
        }
    }
}

/// A value is read from its text, where what follows is no part of a number.
proof fn lemma_value_read(s: Seq<char>, i: int, t: Seq<char>, d: Datum)
    requires
        0 <= i,
        spells(t, d),
        stands_at(s, i, t),
        i + t.len() < s.len(),
        !numeric(s[i + t.len()]),
    ensures
        value_at(s, i) == Some((d, i + t.len())),
        t.len() > 0,
        !blank(s[i]),
{
    reveal_strlit("true");
    reveal_strlit("false");
    reveal_strlit("null");
    let w = s.subrange(i, i + t.len());
    match d {
        Datum::Text(x) => {
            assert(w[0] == s[i]);
            let e = escapes(x);
            assert(s.subrange(i + 1, i + 1 + e.len()) =~= w.subrange(1, 1 + e.len() as int));
            assert(w.subrange(1, 1 + e.len() as int) =~= e);
            assert(w[w.len() - 1] == s[i + w.len() - 1]);
            lemma_string_read(s, i + 1, x);
        },
        Datum::Truth(b) => {
            assert(w[0] == s[i]);
        },
        Datum::Nothing => {
            assert(w[0] == s[i]);
        },
        Datum::Number(n) => {
            assert(w[0] == s[i]);
            lemma_number_characters(t);
            assert forall|j: int| i <= j < i + t.len() implies numeric(#[trigger] s[j]) by {
                assert(s[j] == w[j - i]);
                assert(numeric(t[j - i]));
            }
            lemma_numeric_read(s, i + 1, i + t.len());
        },
    }
}

/// The texts joined begin with the first of them.
proof fn lemma_joined_first(items: Seq<Seq<char>>)
    requires
        items.len() > 1,
    ensures
        comma_joined(items) == items[0] + seq![','] + comma_joined(items.drop_first()),
    decreases items.len(),
{
    if items.len() == 2 {
        assert(comma_joined(items.drop_last()) == items[0]);
        assert(comma_joined(items.drop_first()) == items[1]);
    } else {
        lemma_joined_first(items.drop_last());
        assert(items.drop_last().drop_first() =~= items.drop_first().drop_last());
        assert(comma_joined(items) =~= items[0] + seq![','] + comma_joined(items.drop_first()));
    }
}

/// Names with the values that their texts spell.
pub open spec fn named(m: Seq<(Seq<char>, Seq<char>)>, d: Seq<Datum>) -> Seq<(Seq<char>, Datum)> {
    Seq::new(m.len(), |i: int| (m[i].0, d[i]))
}

/// A member is read from its text, where a comma or a brace follows.
proof fn lemma_member_read(s: Seq<char>, i: int, m: (Seq<char>, Seq<char>), d: Datum)
    requires
        0 <= i,
        spells(m.1, d),
        stands_at(s, i, member_text(m)),
        i + member_text(m).len() < s.len(),
        s[i + member_text(m).len()] == ',' || s[i + member_text(m).len()] == '}',
    ensures
        member_at(s, i) == Some(((m.0, d), i + member_text(m).len())),
        past_blanks(s, i) == i,
{
    let t = member_text(m);
    let w = s.subrange(i, i + t.len());
    let name = string_text(m.0);
    let e = escapes(m.0);
    assert(w[0] == s[i]);
    assert(s.subrange(i + 1, i + 1 + e.len()) =~= w.subrange(1, 1 + e.len() as int));
    assert(w.subrange(1, 1 + e.len() as int) =~= e);
    assert(w[1 + e.len() as int] == s[i + 1 + e.len()]);
    lemma_string_read(s, i + 1, m.0);
    let colon = i + name.len();
    assert(w[name.len() as int] == s[colon]);
    assert(past_blanks(s, colon) == colon);
    assert(s.subrange(colon + 1, colon + 1 + m.1.len()) =~= w.subrange(
        name.len() as int + 1,
        w.len() as int,
    ));
    assert(w.subrange(name.len() as int + 1, w.len() as int) =~= m.1);
    lemma_value_read(s, colon + 1, m.1, d);
    assert(past_blanks(s, colon + 1) == colon + 1);
}

/// Members are read from their texts, up to the closing brace.
proof fn lemma_members_read(s: Seq<char>, i: int, m: Seq<(Seq<char>, Seq<char>)>, d: Seq<Datum>)
    requires
        0 <= i,
        m.len() > 0,
        d.len() == m.len(),
        forall|j: int| 0 <= j < m.len() ==> spells((#[trigger] m[j]).1, d[j]),
        stands_at(s, i, comma_joined(member_texts(m))),
        i + comma_joined(member_texts(m)).len() < s.len(),
        s[i + comma_joined(member_texts(m)).len()] == '}',
    ensures
        members_from(s, i) == Some((named(m, d), i + comma_joined(member_texts(m)).len() + 1)),
    decreases m.len(),
{
    let items = member_texts(m);
    let all = comma_joined(items);
    let w = s.subrange(i, i + all.len());
    let t = member_text(m[0]);
    assert(items[0] == t);
    assert(spells(m[0].1, d[0]));
    if m.len() == 1 {
        lemma_member_read(s, i, m[0], d[0]);
        assert(named(m, d) =~= seq![(m[0].0, d[0])]);
    } else {
        lemma_joined_first(items);
        let mr = m.drop_first();
        let dr = d.drop_first();
        assert(items.drop_first() =~= member_texts(mr));
        let rest = comma_joined(member_texts(mr));
        assert(s.subrange(i, i + t.len()) =~= w.subrange(0, t.len() as int));
        assert(w.subrange(0, t.len() as int) =~= t);
        assert(w[t.len() as int] == s[i + t.len()]);
        lemma_member_read(s, i, m[0], d[0]);
        let k = i + t.len() + 1;
        assert(s.subrange(k, k + rest.len()) =~= w.subrange(t.len() as int + 1, w.len() as int));
        assert(w.subrange(t.len() as int + 1, w.len() as int) =~= rest);
        assert forall|j: int| 0 <= j < mr.len() implies spells((#[trigger] mr[j]).1, dr[j]) by {
            assert(spells(m[j + 1].1, d[j + 1]));
        }
        lemma_members_read(s, k, mr, dr);
        assert(named(m, d) =~= seq![(m[0].0, d[0])] + named(mr, dr));
    }
}

/// Whether each text is one that its value can be read from.
#[verifier::opaque]
pub open spec fn all_spell(m: Seq<(Seq<char>, Seq<char>)>, d: Seq<Datum>) -> bool {
    d.len() == m.len() && forall|j: int| 0 <= j < m.len() ==> spells((#[trigger] m[j]).1, d[j])
}

/// Reading an object that was written gives back its names and values, in
/// order, whatever characters the names and texts hold.
pub proof fn object_reads_back(m: Seq<(Seq<char>, Seq<char>)>, d: Seq<Datum>)
    requires
        all_spell(m, d),
    ensures
        object(object_text(m)) == Some(named(m, d)),
{
    reveal(all_spell);
    let s = object_text(m);
    let all = comma_joined(member_texts(m));
    assert(s[0] == '{');
    assert(past_blanks(s, 0) == 0);
    assert(s[1 + all.len() as int] == '}');
    assert(past_blanks(s, s.len() as int) == s.len());
    if m.len() == 0 {
        assert(all =~= seq![]);
        assert(past_blanks(s, 1) == 1);
        assert(named(m, d) =~= seq![]);
    } else {
        assert(s.subrange(1, 1 + all.len() as int) =~= all);
        lemma_members_read(s, 1, m, d);
        let t = member_text(m[0]);
        assert(member_texts(m)[0] == t);
        if m.len() > 1 {
            lemma_joined_first(member_texts(m));
        }
        assert(all[0] == t[0] && t[0] == '"');
        assert(s[1] == all[0]);
        assert(past_blanks(s, 1) == 1);
    }
}

/// Reading a string that was written gives back its text, whatever stands before
/// and behind it, and ends just behind its closing quote.
pub proof fn string_reads_back(a: Seq<char>, x: Seq<char>, b: Seq<char>)
    ensures
        (a + string_text(x) + b)[a.len() as int] == '"',
        string_from(a + string_text(x) + b, a.len() as int + 1) == Some(
            (x, a.len() as int + string_text(x).len()),
        ),
        value_at(a + string_text(x) + b, a.len() as int) == Some(
            (Datum::Text(x), a.len() as int + string_text(x).len()),
        ),
{
    let s = a + string_text(x) + b;
    let i = a.len() as int + 1;
    let e = escapes(x);
    assert(s.subrange(i, i + e.len()) =~= e);
    lemma_string_read(s, i, x);
}

/// A natural number in decimal spells the number closest to it.
pub proof fn integer_spells(n: int)
    requires
        0 <= n,
    ensures
        spells(decimal(n), Datum::Number(whole(n))),
{
    crate::text::lemma_decimal(n);
    crate::numeral::decimal_reads_as_whole(n);
    let t = decimal(n);
    assert(digit(t[0]));
    crate::text::lemma_leading_digit(n);
    lemma_run_of_digits(t, 0, t.len() as int);
}

/// The number that a written number is read as: the closest to its four
/// decimals.
pub open spec fn reread(x: Binary64) -> Binary64 {
    if x.finite() {
        signed(x.negative(), closest_magnitude(rounded(x, 4), -4))
    } else {
        zero()
    }
}

proof fn lemma_zero_spells()
    ensures
        spells("0"@, Datum::Number(zero())),
{
    integer_spells(0);
    reveal_strlit("0");
    assert("0"@ =~= decimal(0));
    assert(whole(0) == zero()) by {
        crate::binary64::exact_is_nearest(0);
        assert(scaled(0) == 0 && 0 * unit() == 0);
    }
}

/// A number as it is written is one of JSON.
proof fn lemma_fixed_has_form(x: Binary64)
    requires
        x.finite(),
    ensures
        number_form(fixed(x, 4)),
{
    let q = rounded(x, 4);
    let t = fixed(x, 4);
    let a: int = if x.negative() {
        1
    } else {
        0
    };
    lemma_rounded_natural(x, 4);
    lemma_ten_pos(4);
    let u = decimal(q / ten_to(4));
    let v = padded(q % ten_to(4), 4);
    vstd::arithmetic::div_mod::lemma_div_pos_is_pos(q, ten_to(4));
    vstd::arithmetic::div_mod::lemma_mod_pos_bound(q, ten_to(4));
    crate::text::lemma_decimal(q / ten_to(4));
    crate::text::lemma_leading_digit(q / ten_to(4));
    lemma_padded(q % ten_to(4), 4);
    reveal_strlit("-");
    reveal_strlit(".");
    let b = a + u.len();
    assert(digit(u[0]));
    assert forall|j: int| a <= j < b implies digit(#[trigger] t[j]) by {
        assert(t[j] == u[j - a]);
    }
    assert(t[a] == u[0]);
    assert(t[b] == '.');
    assert forall|j: int| b + 1 <= j < t.len() implies digit(#[trigger] t[j]) by {
        assert(t[j] == v[j - b - 1]);
    }
    lemma_run_of_digits(t, a, b);
    lemma_run_of_digits(t, b + 1, t.len() as int);
}

/// A number as it is written spells the number closest to its four decimals,
/// which is the number itself where it has no more than those.
pub proof fn number_spells(x: Binary64)
    ensures
        spells(number_text(x), Datum::Number(reread(x))),
        x.finite() && (scaled(x.mag()) * ten_to(4)) % unit() == 0 ==> reread(x) == x,
{
    if x.finite() {
        crate::numeral::fixed_reads_back(x, 4);
        lemma_fixed_has_form(x);
    } else {
        lemma_zero_spells();
    }
}

/// Writing and reading keeps the order of finite numbers.
pub proof fn reread_keeps_order(a: Binary64, b: Binary64)
    requires
        a.finite(),
        b.finite(),
        a.at_most(b),
    ensures
        reread(a).at_most(reread(b)),
        reread(a).negative() == a.negative(),
        reread(b).negative() == b.negative(),
{
    if a.mag() <= b.mag() {
        rereading_keeps_order(a, b, 4);
    }
    if b.mag() <= a.mag() {
        rereading_keeps_order(b, a, 4);
    }
    if a.mag() == 0 && b.mag() == 0 {
        assert(scaled(0) == 0 && 0 * ten_to(4) == 0);
        lemma_pow2_pos(1074);
        vstd::arithmetic::div_mod::lemma_small_mod(0, unit() as nat);
        number_spells(a);
        number_spells(b);
    }
}

/// Four hexadecimal digits, capital letters among them.
pub open spec fn capital_hex4(n: int) -> Seq<char> {
    seq![
        capital_digit(n / 4096 % 16),
        capital_digit(n / 256 % 16),
        capital_digit(n / 16 % 16),
        capital_digit(n % 16),
    ]
}

pub open spec fn capital_digit(d: int) -> char {
    "0123456789ABCDEF"@[d]
}

proof fn lemma_capital_digit(d: int)
    requires
        0 <= d < 16,
    ensures
        hex_value(capital_digit(d)) == Some(d),
        hex_value(hex_digit(d)) == Some(d),
{
    reveal_strlit("0123456789ABCDEF");
}

/// Any character with a number of sixteen bits may stand as four digits of that
/// number, in small letters or in capitals.
pub proof fn numbered_characters_are_read(a: Seq<char>, c: char, b: Seq<char>)
    requires
        (c as int) < 0x1_0000,
    ensures
        string_from(a + (seq!['\\', 'u'] + hex4(c as int)) + b, a.len() as int) == before(
            seq![c],
            string_from(a + (seq!['\\', 'u'] + hex4(c as int)) + b, a.len() as int + 6),
        ),
        string_from(a + (seq!['\\', 'u'] + capital_hex4(c as int)) + b, a.len() as int) == before(
            seq![c],
            string_from(a + (seq!['\\', 'u'] + capital_hex4(c as int)) + b, a.len() as int + 6),
        ),
{
    let n = c as int;
    lemma_capital_digit(n / 4096 % 16);
    lemma_capital_digit(n / 256 % 16);
    lemma_capital_digit(n / 16 % 16);
    lemma_capital_digit(n % 16);
    lemma_sixteenths(n);
    lemma_numbered(a, hex4(n), b, c);
    lemma_numbered(a, capital_hex4(n), b, c);
}

proof fn lemma_sixteenths(n: int)
    requires
        0 <= n < 0x1_0000,
    ensures
        n == 4096 * (n / 4096 % 16) + 256 * (n / 256 % 16) + 16 * (n / 16 % 16) + n % 16,
{
}

proof fn lemma_numbered(a: Seq<char>, h: Seq<char>, b: Seq<char>, c: char)
    requires
        h.len() == 4,
        hex4_value(h, 0) == Some(c as int),
    ensures
        string_from(a + (seq!['\\', 'u'] + h) + b, a.len() as int) == before(
            seq![c],
            string_from(a + (seq!['\\', 'u'] + h) + b, a.len() as int + 6),
        ),
{
    let i = a.len() as int;
    let s = a + (seq!['\\', 'u'] + h) + b;
    assert(s[i] == '\\' && s[i + 1] == 'u');
    assert(s[i + 2] == h[0] && s[i + 3] == h[1] && s[i + 4] == h[2] && s[i + 5] == h[3]);
    assert(hex4_value(s, i + 2) == hex4_value(h, 0));
    assert(escape_at(s, i + 1) == Some((c, i + 6)));
}

/// Blanks, tabs and line ends are passed over, however many there are, and
/// nothing else is.
pub proof fn blanks_are_passed_over(a: Seq<char>, w: Seq<char>, b: Seq<char>)
    requires
        forall|i: int|
            0 <= i < w.len() ==> #[trigger] w[i] == ' ' || w[i] == '\t' || w[i] == '\r' || w[i]
                == '\n',
        b.len() > 0 ==> b[0] != ' ' && b[0] != '\t' && b[0] != '\r' && b[0] != '\n',
    ensures
        past_blanks(a + w + b, a.len() as int) == a.len() + w.len(),
    decreases w.len(),
{
    let s = a + w + b;
    if w.len() > 0 {
        assert(s[a.len() as int] == w[0]);
        let v = w.drop_first();
        assert forall|i: int| 0 <= i < v.len() implies #[trigger] v[i] == ' ' || v[i] == '\t' || v[i]
            == '\r' || v[i] == '\n' by {
            assert(v[i] == w[i + 1]);
        }
        blanks_are_passed_over(a.push(w[0]), v, b);
        assert(a.push(w[0]) + v + b =~= s);
    } else if b.len() > 0 {
        assert(s[a.len() as int] == b[0]);
    }
}

/// Natural numbers may stand with a minus, with decimals and with an exponent;
/// a zero in front, a point without decimals and an exponent without digits are
/// refused.
pub proof fn numbers_have_their_form(n: nat, p: nat, k: nat)
    ensures
        ({
            let whole_part = decimal(n as int);
            let point = whole_part + seq!['.'] + decimal(p as int);
            &&& number_form(whole_part)
            &&& number_form(seq!['-'] + whole_part)
            &&& number_form(point)
            &&& number_form(whole_part + seq!['e'] + decimal(k as int))
            &&& number_form(whole_part + seq!['E', '-'] + decimal(k as int))
            &&& number_form(whole_part + seq!['e', '+'] + decimal(k as int))
            &&& !number_form(seq!['0'] + whole_part)
            &&& !number_form(whole_part + seq!['.'])
            &&& !number_form(whole_part + seq!['e'])
            &&& !number_form(seq!['.'] + whole_part)
            &&& !number_form(seq!['+'] + whole_part)
        }),
{
    let x = decimal(n as int);
    let y = decimal(p as int);
    let z = decimal(k as int);
    crate::text::lemma_decimal(n as int);
    crate::text::lemma_decimal(p as int);
    crate::text::lemma_decimal(k as int);
    crate::text::lemma_leading_digit(n as int);
    let l = x.len() as int;
    assert(digit(x[0]));
    lemma_run_of_digits(x, 0, l);
    let m = seq!['-'] + x;
    assert(m[1] == x[0]);
    assert forall|j: int| 1 <= j < m.len() implies digit(#[trigger] m[j]) by {
        assert(m[j] == x[j - 1]);
    }
    lemma_run_of_digits(m, 1, l + 1);
    let q = x + seq!['.'] + y;
    lemma_digits_then(x, seq!['.'] + y);
    assert(x + (seq!['.'] + y) =~= q);
    assert(q[l] == '.');
    assert forall|j: int| l + 1 <= j < q.len() implies digit(#[trigger] q[j]) by {
        assert(q[j] == y[j - l - 1]);
    }
    lemma_run_of_digits(q, l + 1, q.len() as int);
    assert(q[0] == x[0]);
    lemma_exponent(x, seq!['e'], z);
    lemma_exponent(x, seq!['E', '-'], z);
    lemma_exponent(x, seq!['e', '+'], z);
    let o = seq!['0'] + x;
    assert forall|j: int| 0 <= j < o.len() implies digit(#[trigger] o[j]) by {
        if j > 0 {
            assert(o[j] == x[j - 1]);
        }
    }
    lemma_run_of_digits(o, 0, o.len() as int);
    let dot = x + seq!['.'];
    lemma_digits_then(x, seq!['.']);
    assert(dot[l] == '.');
    assert(digits_end(dot, l + 1) == l + 1);
    let ex = x + seq!['e'];
    lemma_digits_then(x, seq!['e']);
    assert(ex[l] == 'e');
    let bare = seq!['.'] + x;
    assert(bare[0] == '.');
    assert(digits_end(bare, 0) == 0);
    let plus = seq!['+'] + x;
    assert(plus[0] == '+');
    assert(digits_end(plus, 0) == 0);
}

proof fn lemma_digits_then(x: Seq<char>, rest: Seq<char>)
    requires
        x.len() > 0,
        forall|i: int| 0 <= i < x.len() ==> digit(#[trigger] x[i]),
        rest.len() > 0 ==> !digit(rest[0]),
    ensures
        digits_end(x + rest, 0) == x.len(),
        (x + rest)[0] == x[0],
{
    let s = x + rest;
    assert forall|j: int| 0 <= j < x.len() implies digit(#[trigger] s[j]) by {
        assert(s[j] == x[j]);
    }
    if rest.len() > 0 {
        assert(s[x.len() as int] == rest[0]);
    }
    lemma_run_of_digits(s, 0, x.len() as int);
}

proof fn lemma_exponent(x: Seq<char>, e: Seq<char>, z: Seq<char>)
    requires
        x.len() > 0 && z.len() > 0,
        forall|i: int| 0 <= i < x.len() ==> digit(#[trigger] x[i]),
        forall|i: int| 0 <= i < z.len() ==> digit(#[trigger] z[i]),
        x[0] == '0' ==> x.len() == 1,
        e.len() == 1 || (e.len() == 2 && (e[1] == '+' || e[1] == '-')),
        e[0] == 'e' || e[0] == 'E',
    ensures
        number_form(x + e + z),
{
    let s = x + e + z;
    let l = x.len() as int;
    let d = l + e.len();
    lemma_digits_then(x, e + z);
    assert(x + (e + z) =~= s);
    assert(s[l] == e[0]);
    if e.len() == 2 {
        assert(s[l + 1] == e[1]);
    } else {
        assert(s[l + 1] == z[0]);
    }
    assert(s[d] == z[0]);
    assert forall|j: int| d <= j < s.len() implies digit(#[trigger] s[j]) by {
        assert(s[j] == z[j - d]);
    }
    lemma_run_of_digits(s, d, s.len() as int);
}

} // verus!
