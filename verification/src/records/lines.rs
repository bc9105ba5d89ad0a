//! Records as lines of text, and what is read from them.

use vstd::arithmetic::power2::lemma_pow2_pos;
use vstd::prelude::*;

use crate::binary64::{integer_part, scaled, unit, whole, whole_is_exact, zero, Binary64};
use crate::json::{
    all_spell, begun, close_object, integer_spells, named, number_spells, number_text, object,
    object_reads_back, object_text, open_object, parse_object, put_integer, put_number, put_string,
    put_text, put_truth, reread, spells, string_text, truth_text, Datum, Value,
};
use crate::numeral::{fixed, format_fixed, ten_to};
use crate::records::amounts::{finite, finite_or_zero};
use crate::records::types::{Episode, EpisodeView, Minute, MinuteView};
use crate::text::{chars_of, decimal, same_text};

verus! {

/// An episode as a record.
pub open spec fn episode_fields(e: EpisodeView) -> Seq<(Seq<char>, Seq<char>)> {
    seq![
        ("pid"@, decimal(e.pid as int)),
        ("user"@, string_text(e.user)),
        ("command"@, string_text(e.command)),
        ("start"@, decimal(e.start as int)),
        ("end"@, decimal(e.end as int)),
        ("open"@, truth_text(e.open)),
        ("samples"@, decimal(e.samples as int)),
        ("over_s"@, number_text(e.over_s)),
        ("max_io"@, number_text(e.max_io)),
        ("last_io"@, number_text(e.last_io)),
        ("max_read"@, number_text(e.max_read)),
        ("max_write"@, number_text(e.max_write)),
    ]
}

/// An episode as a line.
pub open spec fn episode_text(e: EpisodeView) -> Seq<char> {
    object_text(episode_fields(e))
}

/// Appends an episode.
pub fn push_episode(out: &mut String, ep: &Episode)
    ensures
        final(out)@ == old(out)@ + episode_text(ep@),
{
    let ghost s = out@;
    let ghost f = episode_fields(ep@);
    open_object(out);
    assert(f.take(0) =~= seq![]);
    put_integer(out, true, "pid", ep.pid as u64, Ghost(s), Ghost(f.take(0)));
    assert(f.take(1) =~= f.take(0).push(f[0]));
    put_string(out, false, "user", ep.user.as_str(), Ghost(s), Ghost(f.take(1)));
    assert(f.take(2) =~= f.take(1).push(f[1]));
    put_string(out, false, "command", ep.command.as_str(), Ghost(s), Ghost(f.take(2)));
    assert(f.take(3) =~= f.take(2).push(f[2]));
    put_integer(out, false, "start", ep.start, Ghost(s), Ghost(f.take(3)));
    assert(f.take(4) =~= f.take(3).push(f[3]));
    put_integer(out, false, "end", ep.end, Ghost(s), Ghost(f.take(4)));
    assert(f.take(5) =~= f.take(4).push(f[4]));
    put_truth(out, false, "open", ep.open, Ghost(s), Ghost(f.take(5)));
    assert(f.take(6) =~= f.take(5).push(f[5]));
    put_integer(out, false, "samples", ep.samples as u64, Ghost(s), Ghost(f.take(6)));
    assert(f.take(7) =~= f.take(6).push(f[6]));
    put_number(out, false, "over_s", &ep.over_s, Ghost(s), Ghost(f.take(7)));
    assert(f.take(8) =~= f.take(7).push(f[7]));
    put_number(out, false, "max_io", &ep.max_io, Ghost(s), Ghost(f.take(8)));
    assert(f.take(9) =~= f.take(8).push(f[8]));
    put_number(out, false, "last_io", &ep.last_io, Ghost(s), Ghost(f.take(9)));
    assert(f.take(10) =~= f.take(9).push(f[9]));
    put_number(out, false, "max_read", &ep.max_read, Ghost(s), Ghost(f.take(10)));
    assert(f.take(11) =~= f.take(10).push(f[10]));
    put_number(out, false, "max_write", &ep.max_write, Ghost(s), Ghost(f.take(11)));
    assert(f =~= f.take(11).push(f[11]));
    close_object(out, Ghost(s), Ghost(f));
}

/// An episode as a line.
pub fn episode_line(ep: &Episode) -> (r: String)
    ensures
        r@ == episode_text(ep@),
{
    let mut out: String = String::new();
    push_episode(&mut out, ep);
    assert(Seq::<char>::empty() + episode_text(ep@) =~= episode_text(ep@));
    out
}

/// A minute as a record.
pub open spec fn minute_fields(m: MinuteView) -> Seq<(Seq<char>, Seq<char>)> {
    seq![
        ("bucket"@, decimal(m.bucket as int)),
        ("max_io"@, fixed(finite_or_zero(m.max_io), 4)),
        ("max_read"@, fixed(finite_or_zero(m.max_read), 4)),
        ("max_write"@, fixed(finite_or_zero(m.max_write), 4)),
        ("over"@, decimal(m.over as int)),
        ("top_io"@, fixed(finite_or_zero(m.top_io), 4)),
        ("top_pid"@, decimal(m.top_pid as int)),
        ("top_cmd"@, string_text(m.top_cmd)),
    ]
}

/// A minute as a line.
pub open spec fn minute_text(m: MinuteView) -> Seq<char> {
    object_text(minute_fields(m))
}

fn put_fixed(
    out: &mut String,
    name: &str,
    n: &Binary64,
    Ghost(start): Ghost<Seq<char>>,
    Ghost(m): Ghost<Seq<(Seq<char>, Seq<char>)>>,
)
    requires
        m.len() > 0,
        old(out)@ == begun(start, m),
    ensures
        final(out)@ == begun(start, m.push((name@, fixed(finite_or_zero(*n), 4)))),
{
    let text = format_fixed(&finite(n), 4);
    put_text(out, false, name, text.as_str(), Ghost(start), Ghost(m));
}

pub fn minute_line(minute: &Minute) -> (r: String)
    ensures
        r@ == minute_text(minute@),
{
    let mut out: String = String::new();
    let ghost s = out@;
    let ghost f = minute_fields(minute@);
    open_object(&mut out);
    assert(f.take(0) =~= seq![]);
    put_integer(&mut out, true, "bucket", minute.bucket, Ghost(s), Ghost(f.take(0)));
    assert(f.take(1) =~= f.take(0).push(f[0]));
    put_fixed(&mut out, "max_io", &minute.max_io, Ghost(s), Ghost(f.take(1)));
    assert(f.take(2) =~= f.take(1).push(f[1]));
    put_fixed(&mut out, "max_read", &minute.max_read, Ghost(s), Ghost(f.take(2)));
    assert(f.take(3) =~= f.take(2).push(f[2]));
    put_fixed(&mut out, "max_write", &minute.max_write, Ghost(s), Ghost(f.take(3)));
    assert(f.take(4) =~= f.take(3).push(f[3]));
    put_integer(&mut out, false, "over", minute.over as u64, Ghost(s), Ghost(f.take(4)));
    assert(f.take(5) =~= f.take(4).push(f[4]));
    put_fixed(&mut out, "top_io", &minute.top_io, Ghost(s), Ghost(f.take(5)));
    assert(f.take(6) =~= f.take(5).push(f[5]));
    put_integer(&mut out, false, "top_pid", minute.top_pid as u64, Ghost(s), Ghost(f.take(6)));
    assert(f.take(7) =~= f.take(6).push(f[6]));
    put_string(&mut out, false, "top_cmd", minute.top_cmd.as_str(), Ghost(s), Ghost(f.take(7)));
    assert(f =~= f.take(7).push(f[7]));
    close_object(&mut out, Ghost(s), Ghost(f));
    assert(s + object_text(f) =~= object_text(f));
    out
}

/// The value of the first field from `i` on with this name.
pub open spec fn field(f: Seq<(Seq<char>, Datum)>, key: Seq<char>, i: int) -> Option<Datum>
    decreases f.len() - i,
{
    if i >= f.len() {
        None
    } else if f[i].0 == key {
        Some(f[i].1)
    } else {
        field(f, key, i + 1)
    }
}

/// The text in a field, where it is one.
pub open spec fn text_in(f: Seq<(Seq<char>, Datum)>, key: Seq<char>) -> Option<Seq<char>> {
    match field(f, key, 0) {
        Some(Datum::Text(t)) => Some(t),
        _ => None,
    }
}

/// The number in a field, where it is one.
pub open spec fn number_in(f: Seq<(Seq<char>, Datum)>, key: Seq<char>) -> Option<Binary64> {
    match field(f, key, 0) {
        Some(Datum::Number(n)) => Some(n),
        _ => None,
    }
}

/// The fields of a line.
pub struct Fields(pub Vec<(String, Value)>);

impl Fields {
    pub open spec fn view(&self) -> Seq<(Seq<char>, Datum)> {
        crate::json::fields_view(self.0@)
    }

    /// The fields of a line that is an object.
    pub fn new(line: &str) -> (r: Option<Fields>)
        ensures
            match r {
                Some(f) => object(line@) == Some(f.view()),
                None => object(line@) is None,
            },
    {
        match parse_object(line) {
            Some(v) => Some(Fields(v)),
            None => None,
        }
    }

    fn find(&self, key: &str) -> (r: Option<usize>)
        ensures
            match r {
                Some(i) => i < self.0@.len() && field(self.view(), key@, 0) == Some(
                    self.0@[i as int].1@,
                ),
                None => field(self.view(), key@, 0) is None,
            },
    {
        let cs = chars_of(key);
        for i in 0..self.0.len()
            invariant
                cs@ == key@,
                field(self.view(), key@, 0) == field(self.view(), key@, i as int),
        {
            assert(self.view()[i as int] == (self.0@[i as int].0@, self.0@[i as int].1@));
            if same_text(cs.as_slice(), self.0[i].0.as_str()) {
                return Some(i);
            }
        }
        None
    }

    /// The text in a field, where it is one.
    pub fn str(&self, key: &str) -> (r: Option<String>)
        ensures
            match r {
                Some(t) => text_in(self.view(), key@) == Some(t@),
                None => text_in(self.view(), key@) is None,
            },
    {
        match self.find(key) {
            Some(i) => match &self.0[i].1 {
                Value::Str(t) => Some(t.clone()),
                _ => None,
            },
            None => None,
        }
    }

    /// The number in a field, where it is one.
    pub fn num(&self, key: &str) -> (r: Option<Binary64>)
        ensures
            r == number_in(self.view(), key@),
    {
        match self.find(key) {
            Some(i) => match &self.0[i].1 {
                Value::Num(n) => Some(*n),
                _ => None,
            },
            None => None,
        }
    }
}

pub open spec fn or_else<T>(x: Option<T>, default: T) -> T {
    match x {
        Some(v) => v,
        None => default,
    }
}

/// The episode that fields hold. It needs a process, a user, a command, a start,
/// an end and a peak.
pub open spec fn episode_in(f: Seq<(Seq<char>, Datum)>) -> Option<EpisodeView> {
    match (
        number_in(f, "pid"@),
        text_in(f, "user"@),
        text_in(f, "command"@),
        number_in(f, "start"@),
        number_in(f, "end"@),
        number_in(f, "max_io"@),
    ) {
        (Some(pid), Some(user), Some(command), Some(start), Some(end), Some(max_io)) => Some(
            EpisodeView {
                pid: integer_part(pid, u32::MAX as int) as u32,
                user,
                command,
                start: integer_part(start, u64::MAX as int) as u64,
                end: integer_part(end, u64::MAX as int) as u64,
                samples: match number_in(f, "samples"@) {
                    Some(n) => integer_part(n, u32::MAX as int) as u32,
                    None => 1,
                },
                over_s: or_else(number_in(f, "over_s"@), whole(1)),
                max_io,
                last_io: or_else(number_in(f, "last_io"@), zero()),
                max_read: or_else(number_in(f, "max_read"@), zero()),
                max_write: or_else(number_in(f, "max_write"@), zero()),
                open: false,
            },
        ),
        _ => None,
    }
}

/// The episode that a line holds.
pub open spec fn episode_on(line: Seq<char>) -> Option<EpisodeView> {
    match object(line) {
        Some(f) => episode_in(f),
        None => None,
    }
}

fn num_or(f: &Fields, key: &str, default: Binary64) -> (r: Binary64)
    ensures
        r == or_else(number_in(f.view(), key@), default),
{
    match f.num(key) {
        Some(n) => n,
        None => default,
    }
}

pub fn parse_episode(line: &str) -> (r: Option<Episode>)
    ensures
        match r {
            Some(e) => episode_on(line@) == Some(e@),
            None => episode_on(line@) is None,
        },
{
    let f = match Fields::new(line) {
        Some(f) => f,
        None => return None,
    };
    let none = Binary64::from_bits(0);
    match (
        f.num("pid"),
        f.str("user"),
        f.str("command"),
        f.num("start"),
        f.num("end"),
        f.num("max_io"),
    ) {
        (Some(pid), Some(user), Some(command), Some(start), Some(end), Some(max_io)) => Some(
            Episode {
                pid: pid.to_integer(u32::MAX as u64) as u32,
                user,
                command,
                start: start.to_integer(u64::MAX),
                end: end.to_integer(u64::MAX),
                samples: match f.num("samples") {
                    Some(n) => n.to_integer(u32::MAX as u64) as u32,
                    None => 1,
                },
                over_s: num_or(&f, "over_s", Binary64::from_u64(1)),
                max_io,
                last_io: num_or(&f, "last_io", none),
                max_read: num_or(&f, "max_read", none),
                max_write: num_or(&f, "max_write", none),
                open: false,
            },
        ),
        _ => None,
    }
}

/// The minute that fields hold. It needs its number.
pub open spec fn minute_in(f: Seq<(Seq<char>, Datum)>) -> Option<MinuteView> {
    match number_in(f, "bucket"@) {
        Some(bucket) => Some(
            MinuteView {
                bucket: integer_part(bucket, u64::MAX as int) as u64,
                max_io: or_else(number_in(f, "max_io"@), zero()),
                max_read: or_else(number_in(f, "max_read"@), zero()),
                max_write: or_else(number_in(f, "max_write"@), zero()),
                over: match number_in(f, "over"@) {
                    Some(n) => integer_part(n, u32::MAX as int) as u32,
                    None => 0,
                },
                top_io: or_else(number_in(f, "top_io"@), zero()),
                top_cmd: or_else(text_in(f, "top_cmd"@), seq![]),
                top_pid: match number_in(f, "top_pid"@) {
                    Some(n) => integer_part(n, u32::MAX as int) as u32,
                    None => 0,
                },
            },
        ),
        None => None,
    }
}

/// The minute that a line holds.
pub open spec fn minute_on(line: Seq<char>) -> Option<MinuteView> {
    match object(line) {
        Some(f) => minute_in(f),
        None => None,
    }
}

pub fn parse_minute(line: &str) -> (r: Option<Minute>)
    ensures
        match r {
            Some(m) => minute_on(line@) == Some(m@),
            None => minute_on(line@) is None,
        },
{
    let f = match Fields::new(line) {
        Some(f) => f,
        None => return None,
    };
    let none = Binary64::from_bits(0);
    match f.num("bucket") {
        Some(bucket) => Some(
            Minute {
                bucket: bucket.to_integer(u64::MAX),
                max_io: num_or(&f, "max_io", none),
                max_read: num_or(&f, "max_read", none),
                max_write: num_or(&f, "max_write", none),
                over: match f.num("over") {
                    Some(n) => n.to_integer(u32::MAX as u64) as u32,
                    None => 0,
                },
                top_io: num_or(&f, "top_io", none),
                top_cmd: match f.str("top_cmd") {
                    Some(t) => t,
                    None => String::new(),
                },
                top_pid: match f.num("top_pid") {
                    Some(n) => n.to_integer(u32::MAX as u64) as u32,
                    None => 0,
                },
            },
        ),
        None => None,
    }
}

// ---------------------------------------------------------------------------
// Records come back

/// The largest number up to which all natural numbers are told apart in a
/// record: 2^53.
pub const EXACT_LIMIT: u64 = 0x20_0000_0000_0000;

/// The names of the fields, by length and first letter.
spec fn names_known() -> bool {
    &&& "pid"@.len() == 3 && "pid"@[0] == 'p'
    &&& "user"@.len() == 4 && "user"@[0] == 'u'
    &&& "command"@.len() == 7 && "command"@[0] == 'c'
    &&& "start"@.len() == 5 && "start"@[0] == 's'
    &&& "end"@.len() == 3 && "end"@[0] == 'e'
    &&& "open"@.len() == 4 && "open"@[0] == 'o'
    &&& "samples"@.len() == 7 && "samples"@[0] == 's'
    &&& "over_s"@.len() == 6 && "over_s"@[0] == 'o'
    &&& "max_io"@.len() == 6 && "max_io"@[0] == 'm'
    &&& "last_io"@.len() == 7 && "last_io"@[0] == 'l'
    &&& "max_read"@.len() == 8 && "max_read"@[0] == 'm'
    &&& "max_write"@.len() == 9 && "max_write"@[0] == 'm'
    &&& "bucket"@.len() == 6 && "bucket"@[0] == 'b'
    &&& "over"@.len() == 4 && "over"@[0] == 'o'
    &&& "top_io"@.len() == 6 && "top_io"@[0] == 't'
    &&& "top_pid"@.len() == 7 && "top_pid"@[0] == 't' && "top_pid"@[4] == 'p'
    &&& "top_cmd"@.len() == 7 && "top_cmd"@[0] == 't' && "top_cmd"@[4] == 'c'
}

proof fn lemma_names()
    ensures
        names_known(),
{
    reveal_strlit("pid");
    reveal_strlit("user");
    reveal_strlit("command");
    reveal_strlit("start");
    reveal_strlit("end");
    reveal_strlit("open");
    reveal_strlit("samples");
    reveal_strlit("over_s");
    reveal_strlit("max_io");
    reveal_strlit("last_io");
    reveal_strlit("max_read");
    reveal_strlit("max_write");
    reveal_strlit("bucket");
    reveal_strlit("over");
    reveal_strlit("top_io");
    reveal_strlit("top_pid");
    reveal_strlit("top_cmd");
}

pub proof fn lemma_field(f: Seq<(Seq<char>, Datum)>, key: Seq<char>, i: int, k: int)
    requires
        0 <= i <= k < f.len(),
        f[k].0 == key,
        forall|j: int| i <= j < k ==> (#[trigger] f[j]).0 != key,
    ensures
        field(f, key, i) == Some(f[k].1),
    decreases k - i,
{
    if i < k {
        assert(f[i].0 != key);
        lemma_field(f, key, i + 1, k);
    }
}

/// What an episode's fields are read as.
spec fn episode_data(e: EpisodeView) -> Seq<Datum> {
    seq![
        Datum::Number(whole(e.pid as int)),
        Datum::Text(e.user),
        Datum::Text(e.command),
        Datum::Number(whole(e.start as int)),
        Datum::Number(whole(e.end as int)),
        Datum::Truth(e.open),
        Datum::Number(whole(e.samples as int)),
        Datum::Number(reread(e.over_s)),
        Datum::Number(reread(e.max_io)),
        Datum::Number(reread(e.last_io)),
        Datum::Number(reread(e.max_read)),
        Datum::Number(reread(e.max_write)),
    ]
}

/// What is left of an episode once it was written and read: its numbers with
/// four decimals. It is over.
pub open spec fn stored_episode(e: EpisodeView) -> EpisodeView {
    EpisodeView {
        over_s: reread(e.over_s),
        max_io: reread(e.max_io),
        last_io: reread(e.last_io),
        max_read: reread(e.max_read),
        max_write: reread(e.max_write),
        open: false,
        ..e
    }
}

proof fn lemma_episode_spells(e: EpisodeView)
    ensures
        all_spell(episode_fields(e), episode_data(e)),
{
    reveal(all_spell);
    let m = episode_fields(e);
    let d = episode_data(e);
    integer_spells(e.pid as int);
    integer_spells(e.start as int);
    integer_spells(e.end as int);
    integer_spells(e.samples as int);
    number_spells(e.over_s);
    number_spells(e.max_io);
    number_spells(e.last_io);
    number_spells(e.max_read);
    number_spells(e.max_write);
    assert(spells(m[0].1, d[0]) && spells(m[1].1, d[1]) && spells(m[2].1, d[2]));
    assert(spells(m[3].1, d[3]) && spells(m[4].1, d[4]) && spells(m[5].1, d[5]));
    assert(spells(m[6].1, d[6]) && spells(m[7].1, d[7]) && spells(m[8].1, d[8]));
    assert(spells(m[9].1, d[9]) && spells(m[10].1, d[10]) && spells(m[11].1, d[11]));
}

proof fn lemma_episode_fields(f: Seq<(Seq<char>, Datum)>)
    requires
        f.len() == 12,
        f[0].0 == "pid"@,
        f[1].0 == "user"@,
        f[2].0 == "command"@,
        f[3].0 == "start"@,
        f[4].0 == "end"@,
        f[5].0 == "open"@,
        f[6].0 == "samples"@,
        f[7].0 == "over_s"@,
        f[8].0 == "max_io"@,
        f[9].0 == "last_io"@,
        f[10].0 == "max_read"@,
        f[11].0 == "max_write"@,
    ensures
        field(f, "pid"@, 0) == Some(f[0].1),
        field(f, "user"@, 0) == Some(f[1].1),
        field(f, "command"@, 0) == Some(f[2].1),
        field(f, "start"@, 0) == Some(f[3].1),
        field(f, "end"@, 0) == Some(f[4].1),
        field(f, "samples"@, 0) == Some(f[6].1),
        field(f, "over_s"@, 0) == Some(f[7].1),
        field(f, "max_io"@, 0) == Some(f[8].1),
        field(f, "last_io"@, 0) == Some(f[9].1),
        field(f, "max_read"@, 0) == Some(f[10].1),
        field(f, "max_write"@, 0) == Some(f[11].1),
{
    lemma_names();
    lemma_field(f, "pid"@, 0, 0);
    lemma_field(f, "user"@, 0, 1);
    lemma_field(f, "command"@, 0, 2);
    lemma_field(f, "start"@, 0, 3);
    lemma_field(f, "end"@, 0, 4);
    lemma_field(f, "samples"@, 0, 6);
    lemma_field(f, "over_s"@, 0, 7);
    lemma_field(f, "max_io"@, 0, 8);
    lemma_field(f, "last_io"@, 0, 9);
    lemma_field(f, "max_read"@, 0, 10);
    lemma_field(f, "max_write"@, 0, 11);
}

proof fn lemma_episode_object(e: EpisodeView)
    ensures
        object(episode_text(e)) == Some(named(episode_fields(e), episode_data(e))),
{
    lemma_episode_spells(e);
    object_reads_back(episode_fields(e), episode_data(e));
}

/// A number up to 2^53 that is read as an integer.
proof fn lemma_integer_back(n: int, max: int)
    requires
        0 <= n <= EXACT_LIMIT,
        n <= max,
    ensures
        integer_part(whole(n), max) == n,
{
    whole_is_exact(n);
}

/// An episode that is written as a line is read from that line, with any
/// characters in its user and command.
pub proof fn episode_survives(e: EpisodeView)
    requires
        e.start <= EXACT_LIMIT,
        e.end <= EXACT_LIMIT,
    ensures
        episode_on(episode_text(e)) == Some(stored_episode(e)),
{
    let f = named(episode_fields(e), episode_data(e));
    lemma_episode_object(e);
    assert(f[0] == ("pid"@, Datum::Number(whole(e.pid as int))));
    assert(f[1] == ("user"@, Datum::Text(e.user)));
    assert(f[2] == ("command"@, Datum::Text(e.command)));
    assert(f[3] == ("start"@, Datum::Number(whole(e.start as int))));
    assert(f[4] == ("end"@, Datum::Number(whole(e.end as int))));
    assert(f[5] == ("open"@, Datum::Truth(e.open)));
    assert(f[6] == ("samples"@, Datum::Number(whole(e.samples as int))));
    assert(f[7] == ("over_s"@, Datum::Number(reread(e.over_s))));
    assert(f[8] == ("max_io"@, Datum::Number(reread(e.max_io))));
    assert(f[9] == ("last_io"@, Datum::Number(reread(e.last_io))));
    assert(f[10] == ("max_read"@, Datum::Number(reread(e.max_read))));
    assert(f[11] == ("max_write"@, Datum::Number(reread(e.max_write))));
    lemma_episode_fields(f);
    lemma_integer_back(e.pid as int, u32::MAX as int);
    lemma_integer_back(e.samples as int, u32::MAX as int);
    lemma_integer_back(e.start as int, u64::MAX as int);
    lemma_integer_back(e.end as int, u64::MAX as int);
}

/// What a minute's fields are read as.
spec fn minute_data(m: MinuteView) -> Seq<Datum> {
    seq![
        Datum::Number(whole(m.bucket as int)),
        Datum::Number(reread(m.max_io)),
        Datum::Number(reread(m.max_read)),
        Datum::Number(reread(m.max_write)),
        Datum::Number(whole(m.over as int)),
        Datum::Number(reread(m.top_io)),
        Datum::Number(whole(m.top_pid as int)),
        Datum::Text(m.top_cmd),
    ]
}

/// What is left of a minute once it was written and read: its numbers with four
/// decimals.
pub open spec fn stored_minute(m: MinuteView) -> MinuteView {
    MinuteView {
        max_io: reread(m.max_io),
        max_read: reread(m.max_read),
        max_write: reread(m.max_write),
        top_io: reread(m.top_io),
        ..m
    }
}

proof fn lemma_finite_spells(x: Binary64)
    ensures
        spells(fixed(finite_or_zero(x), 4), Datum::Number(reread(x))),
{
    number_spells(finite_or_zero(x));
    number_spells(zero());
    lemma_pow2_pos(1074);
    assert(scaled(0) == 0 && 0 * ten_to(4) == 0);
    vstd::arithmetic::div_mod::lemma_small_mod(0, unit() as nat);
}

proof fn lemma_minute_spells(m: MinuteView)
    ensures
        all_spell(minute_fields(m), minute_data(m)),
{
    reveal(all_spell);
    let t = minute_fields(m);
    let d = minute_data(m);
    integer_spells(m.bucket as int);
    integer_spells(m.over as int);
    integer_spells(m.top_pid as int);
    lemma_finite_spells(m.max_io);
    lemma_finite_spells(m.max_read);
    lemma_finite_spells(m.max_write);
    lemma_finite_spells(m.top_io);
    assert(spells(t[0].1, d[0]) && spells(t[1].1, d[1]) && spells(t[2].1, d[2]));
    assert(spells(t[3].1, d[3]) && spells(t[4].1, d[4]) && spells(t[5].1, d[5]));
    assert(spells(t[6].1, d[6]) && spells(t[7].1, d[7]));
}

/// A minute that is written as a line is read from that line, with any
/// characters in its command.
pub proof fn minute_survives(m: MinuteView)
    requires
        m.bucket <= EXACT_LIMIT,
    ensures
        minute_on(minute_text(m)) == Some(stored_minute(m)),
{
    let t = minute_fields(m);
    let d = minute_data(m);
    lemma_minute_spells(m);
    object_reads_back(t, d);
    let f = named(t, d);
    lemma_names();
    lemma_field(f, "bucket"@, 0, 0);
    lemma_field(f, "max_io"@, 0, 1);
    lemma_field(f, "max_read"@, 0, 2);
    lemma_field(f, "max_write"@, 0, 3);
    lemma_field(f, "over"@, 0, 4);
    lemma_field(f, "top_io"@, 0, 5);
    lemma_field(f, "top_pid"@, 0, 6);
    lemma_field(f, "top_cmd"@, 0, 7);
    lemma_integer_back(m.bucket as int, u64::MAX as int);
    lemma_integer_back(m.over as int, u32::MAX as int);
    lemma_integer_back(m.top_pid as int, u32::MAX as int);
}

/// A line of an episode that holds no more than it must is read too: it has one
/// sample, of one second, and rates of zero.
pub proof fn short_lines_are_read(e: EpisodeView)
    requires
        e.start <= EXACT_LIMIT,
        e.end <= EXACT_LIMIT,
    ensures
        episode_on(
            object_text(
                seq![
                    ("pid"@, decimal(e.pid as int)),
                    ("user"@, string_text(e.user)),
                    ("command"@, string_text(e.command)),
                    ("start"@, decimal(e.start as int)),
                    ("end"@, decimal(e.end as int)),
                    ("max_io"@, number_text(e.max_io)),
                ],
            ),
        ) == Some(
            EpisodeView {
                samples: 1,
                over_s: whole(1),
                max_io: reread(e.max_io),
                last_io: zero(),
                max_read: zero(),
                max_write: zero(),
                open: false,
                ..e
            },
        ),
{
    reveal(all_spell);
    let t = seq![
        ("pid"@, decimal(e.pid as int)),
        ("user"@, string_text(e.user)),
        ("command"@, string_text(e.command)),
        ("start"@, decimal(e.start as int)),
        ("end"@, decimal(e.end as int)),
        ("max_io"@, number_text(e.max_io)),
    ];
    let d = seq![
        Datum::Number(whole(e.pid as int)),
        Datum::Text(e.user),
        Datum::Text(e.command),
        Datum::Number(whole(e.start as int)),
        Datum::Number(whole(e.end as int)),
        Datum::Number(reread(e.max_io)),
    ];
    integer_spells(e.pid as int);
    integer_spells(e.start as int);
    integer_spells(e.end as int);
    number_spells(e.max_io);
    assert(spells(t[0].1, d[0]) && spells(t[1].1, d[1]) && spells(t[2].1, d[2]));
    assert(spells(t[3].1, d[3]) && spells(t[4].1, d[4]) && spells(t[5].1, d[5]));
    object_reads_back(t, d);
    let f = named(t, d);
    lemma_names();
    lemma_field(f, "pid"@, 0, 0);
    lemma_field(f, "user"@, 0, 1);
    lemma_field(f, "command"@, 0, 2);
    lemma_field(f, "start"@, 0, 3);
    lemma_field(f, "end"@, 0, 4);
    lemma_field(f, "max_io"@, 0, 5);
    lemma_no_field(f, "samples"@, 0);
    lemma_no_field(f, "over_s"@, 0);
    lemma_no_field(f, "last_io"@, 0);
    lemma_no_field(f, "max_read"@, 0);
    lemma_no_field(f, "max_write"@, 0);
    lemma_integer_back(e.pid as int, u32::MAX as int);
    lemma_integer_back(e.start as int, u64::MAX as int);
    lemma_integer_back(e.end as int, u64::MAX as int);
}

proof fn lemma_no_field(f: Seq<(Seq<char>, Datum)>, key: Seq<char>, i: int)
    requires
        0 <= i <= f.len(),
        forall|j: int| i <= j < f.len() ==> (#[trigger] f[j]).0 != key,
    ensures
        field(f, key, i) is None,
    decreases f.len() - i,
{
    if i < f.len() {
        assert(f[i].0 != key);
        lemma_no_field(f, key, i + 1);
    }
}

/// A line that lacks a field which an episode must have holds no episode.
pub proof fn episodes_need_their_fields(f: Seq<(Seq<char>, Datum)>, key: Seq<char>)
    requires
        key == "pid"@ || key == "user"@ || key == "command"@ || key == "start"@ || key == "end"@
            || key == "max_io"@,
        forall|j: int| 0 <= j < f.len() ==> (#[trigger] f[j]).0 != key,
    ensures
        episode_in(f) is None,
{
    lemma_no_field(f, key, 0);
}

} // verus!
