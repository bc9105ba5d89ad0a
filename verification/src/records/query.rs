//! Answers to queries about the records.

use vstd::prelude::*;

use crate::binary64::{
    greater_is_greatest, lemma_total_grows, sum, sum_of_wholes, total_of, whole, whole_of_nothing,
    zero, Binary64, STEP,
};
use crate::index::{lemma_place, place, Index};
use crate::iotop::{falling, falling_key, first_of};
use crate::json::{
    all_spell, array_text, close_object, comma_joined, integer_spells, lemma_joined_push, named,
    number_spells, number_text, object, object_reads_back, object_text, open_object, put_integer,
    put_number, put_string, put_text, put_truth, reread, spells, string_text, truth_text, Datum,
};
use crate::order::{
    arranged, arranged_in_order, arranged_keeps_all, key_views, less_from, ordering, places,
    sort_order,
};
use crate::records::accounts::latest;
use crate::records::amounts::{minus64, next32, plus32, plus64, MAX_LIST, OFFENDERS_LISTED};
use crate::records::book::AlertBook;
use crate::records::lines::{episode_text, field, lemma_field, push_episode};
use crate::records::minutes::{greatest_or_zero, lemma_greatest_or_zero};
use crate::records::types::{
    episode_views, minute_views, offender_pids, offender_views, Episode, EpisodeView, Minute,
    MinuteView, Offender, OffenderView,
};
use crate::text::decimal;

verus! {

/// Where a query begins: a day ago where it does not say.
pub open spec fn query_from(now: u64, from: u64) -> u64 {
    if from == 0 {
        minus64(now, 86400)
    } else {
        from
    }
}

/// Where a query ends: now, where it does not say or ends before it begins.
pub open spec fn query_to(now: u64, from: u64, to: u64) -> u64 {
    if to <= query_from(now, from) {
        plus64(now, 1)
    } else {
        to
    }
}

/// The latest end first, then the greatest share.
pub open spec fn episode_keys(s: Seq<EpisodeView>) -> Seq<Seq<u64>> {
    Seq::new(s.len(), |i: int| seq![(u64::MAX - s[i].end) as u64, falling(s[i].max_io)])
}

/// The episodes that a query is about.
pub open spec fn queried(
    open: Seq<EpisodeView>,
    closed: Seq<EpisodeView>,
    from: u64,
    to: u64,
) -> Seq<EpisodeView> {
    let all = (open + closed).filter(|e: EpisodeView| e.start < to && e.end >= from);
    arranged(all, episode_keys(all))
}

/// The greatest share first, then the lowest number.
pub open spec fn current_keys(s: Seq<EpisodeView>) -> Seq<Seq<u64>> {
    Seq::new(s.len(), |i: int| seq![falling(s[i].last_io), s[i].pid as u64])
}

/// The open episodes, where the query is about now.
pub open spec fn queried_now(open: Seq<EpisodeView>, now: u64, from: u64, to: u64) -> Seq<EpisodeView> {
    if from <= now < to {
        arranged(open, current_keys(open))
    } else {
        seq![]
    }
}

/// The greatest share of the episodes: the share, when, of which process and
/// which command.
pub open spec fn peak_of(s: Seq<EpisodeView>) -> (Binary64, u64, u32, Seq<char>)
    decreases s.len(),
{
    if s.len() == 0 {
        (zero(), 0, 0, seq![])
    } else {
        let before = peak_of(s.drop_last());
        let e = s.last();
        if before.0.below(e.max_io) {
            (e.max_io, e.end, e.pid, e.command)
        } else {
            before
        }
    }
}

/// An offender with one more episode. Of its episodes the latest tells user and
/// command.
pub open spec fn with_episode(o: OffenderView, e: EpisodeView) -> OffenderView {
    OffenderView {
        pid: o.pid,
        user: if e.end >= o.last {
            e.user
        } else {
            o.user
        },
        command: if e.end >= o.last {
            latest(o.command, e.command)
        } else {
            o.command
        },
        episodes: next32(o.episodes),
        samples: plus32(o.samples, e.samples),
        over_s: sum(o.over_s, e.over_s),
        max_io: o.max_io.greater(e.max_io),
        max_read: o.max_read.greater(e.max_read),
        max_write: o.max_write.greater(e.max_write),
        last: if e.end >= o.last {
            e.end
        } else {
            o.last
        },
    }
}

/// An offender before its first episode.
pub open spec fn before_episode(e: EpisodeView) -> OffenderView {
    OffenderView {
        pid: e.pid,
        user: e.user,
        command: e.command,
        episodes: 0,
        samples: 0,
        over_s: zero(),
        max_io: zero(),
        max_read: zero(),
        max_write: zero(),
        last: e.end,
    }
}

/// The processes of the episodes, each with all of its own.
pub open spec fn gathered(s: Seq<EpisodeView>) -> Seq<OffenderView>
    decreases s.len(),
{
    if s.len() == 0 {
        seq![]
    } else {
        let before = gathered(s.drop_last());
        let e = s.last();
        let i = place(offender_pids(before), e.pid as u64);
        if i < before.len() {
            before.update(i, with_episode(before[i], e))
        } else {
            before.push(with_episode(before_episode(e), e))
        }
    }
}

/// The greatest share first, then the most episodes.
pub open spec fn gathered_keys(s: Seq<OffenderView>) -> Seq<Seq<u64>> {
    Seq::new(s.len(), |i: int| seq![falling(s[i].max_io), (u32::MAX - s[i].episodes) as u64])
}

/// The offenders that a query lists.
pub open spec fn queried_offenders(s: Seq<EpisodeView>) -> Seq<OffenderView> {
    let g = gathered(s);
    arranged(g, gathered_keys(g))
}

/// The minutes that a query is about.
pub open spec fn queried_minutes(minutes: Seq<MinuteView>, from: u64, to: u64) -> Seq<MinuteView> {
    minutes.filter(|m: MinuteView| m.bucket * 60 < to && m.bucket * 60 + 60 > from)
}

/// The greatest write rate of the minutes, and its time.
pub open spec fn peak_write_of(s: Seq<MinuteView>) -> (Binary64, u64)
    decreases s.len(),
{
    if s.len() == 0 {
        (zero(), 0)
    } else {
        let before = peak_write_of(s.drop_last());
        if before.0.below(s.last().max_write) {
            (s.last().max_write, (s.last().bucket * 60) as u64)
        } else {
            before
        }
    }
}

/// The greatest read rate of the minutes, and its time.
pub open spec fn peak_read_of(s: Seq<MinuteView>) -> (Binary64, u64)
    decreases s.len(),
{
    if s.len() == 0 {
        (zero(), 0)
    } else {
        let before = peak_read_of(s.drop_last());
        if before.0.below(s.last().max_read) {
            (s.last().max_read, (s.last().bucket * 60) as u64)
        } else {
            before
        }
    }
}

/// Whether the times of the minutes fit in 64 bits, as far as a query up to
/// `to` asks for them.
pub open spec fn times_fit(minutes: Seq<MinuteView>, to: u64) -> bool {
    forall|i: int|
        0 <= i < minutes.len() ==> (#[trigger] minutes[i]).bucket * 60 <= u64::MAX && (
        minutes[i].bucket * 60 < to ==> minutes[i].bucket * 60 + 60 <= u64::MAX)
}

pub open spec fn offender_text(o: OffenderView) -> Seq<char> {
    object_text(
        seq![
            ("pid"@, decimal(o.pid as int)),
            ("user"@, string_text(o.user)),
            ("command"@, string_text(o.command)),
            ("episodes"@, decimal(o.episodes as int)),
            ("samples"@, decimal(o.samples as int)),
            ("over_s"@, number_text(o.over_s)),
            ("max_io"@, number_text(o.max_io)),
            ("max_read"@, number_text(o.max_read)),
            ("max_write"@, number_text(o.max_write)),
            ("last"@, decimal(o.last as int)),
        ],
    )
}

/// A minute in the answer to a query.
pub open spec fn minute_answer(m: MinuteView) -> Seq<char> {
    object_text(
        seq![
            ("t"@, decimal(m.bucket * 60)),
            ("max_io"@, number_text(m.max_io)),
            ("max_read"@, number_text(m.max_read)),
            ("max_write"@, number_text(m.max_write)),
            ("over"@, decimal(m.over as int)),
            ("top_io"@, number_text(m.top_io)),
            ("top_pid"@, decimal(m.top_pid as int)),
            ("top_cmd"@, string_text(m.top_cmd)),
        ],
    )
}

pub open spec fn episode_texts(s: Seq<EpisodeView>) -> Seq<Seq<char>> {
    Seq::new(s.len(), |i: int| episode_text(s[i]))
}

pub open spec fn offender_texts(s: Seq<OffenderView>) -> Seq<Seq<char>> {
    Seq::new(s.len(), |i: int| offender_text(s[i]))
}

pub open spec fn minute_answers(s: Seq<MinuteView>) -> Seq<Seq<char>> {
    Seq::new(s.len(), |i: int| minute_answer(s[i]))
}

/// What a query selects of a book, apart from the lists.
pub struct Selection {
    pub open: int,
    pub total: int,
    pub peak: (Binary64, u64, u32, Seq<char>),
    pub peak_write: (Binary64, u64),
    pub peak_read: (Binary64, u64),
}

/// The answer to a query, from what it selects and the texts of the lists.
pub open spec fn answer_members(
    book: AlertBook,
    delayacct: bool,
    host: Seq<char>,
    interval: Binary64,
    now: u64,
    from: u64,
    to: u64,
    picked: Selection,
    current: Seq<char>,
    episodes: Seq<char>,
    offenders: Seq<char>,
    minutes: Seq<char>,
) -> Seq<(Seq<char>, Seq<char>)> {
    seq![
        ("ok"@, "true"@),
        ("threshold"@, number_text(book.threshold)),
        ("delayacct"@, truth_text(delayacct)),
        ("host"@, string_text(host)),
        ("interval_s"@, number_text(interval)),
        ("started"@, decimal(book.started as int)),
        ("now"@, decimal(now as int)),
        ("from"@, decimal(from as int)),
        ("to"@, decimal(to as int)),
        ("retain_days"@, "7"@),
        ("samples"@, decimal(book.samples as int)),
        ("alert_samples"@, decimal(book.alert_samples as int)),
        ("open"@, decimal(picked.open)),
        ("episode_total"@, decimal(picked.total)),
        ("peak_io"@, number_text(picked.peak.0)),
        ("peak_io_at"@, decimal(picked.peak.1 as int)),
        ("peak_io_pid"@, decimal(picked.peak.2 as int)),
        ("peak_io_cmd"@, string_text(picked.peak.3)),
        ("peak_write"@, number_text(picked.peak_write.0)),
        ("peak_write_at"@, decimal(picked.peak_write.1 as int)),
        ("peak_read"@, number_text(picked.peak_read.0)),
        ("peak_read_at"@, decimal(picked.peak_read.1 as int)),
        ("current"@, current),
        ("episodes"@, episodes),
        ("offenders"@, offenders),
        ("minutes"@, minutes),
    ]
}

/// The answer to a query.
pub open spec fn answer_fields(
    book: AlertBook,
    delayacct: bool,
    host: Seq<char>,
    interval: Binary64,
    now: u64,
    from: u64,
    to: u64,
) -> Seq<(Seq<char>, Seq<char>)> {
    let open = episode_views(book.open@);
    let episodes = queried(open, episode_views(book.closed@), from, to);
    let current = queried_now(open, now, from, to);
    let minutes = queried_minutes(minute_views(book.minutes@), from, to);
    answer_members(
        book,
        delayacct,
        host,
        interval,
        now,
        from,
        to,
        Selection {
            open: current.len() as int,
            total: episodes.len() as int,
            peak: peak_of(episodes),
            peak_write: peak_write_of(minutes),
            peak_read: peak_read_of(minutes),
        },
        array_text(episode_texts(current)),
        array_text(episode_texts(first_of(episodes, MAX_LIST as int))),
        array_text(offender_texts(first_of(queried_offenders(episodes), OFFENDERS_LISTED as int))),
        array_text(minute_answers(minutes)),
    )
}

fn push_offender(out: &mut String, off: &Offender)
    ensures
        final(out)@ == old(out)@ + offender_text(off@),
{
    let ghost s = out@;
    let ghost o = off@;
    let ghost f = seq![
        ("pid"@, decimal(o.pid as int)),
        ("user"@, string_text(o.user)),
        ("command"@, string_text(o.command)),
        ("episodes"@, decimal(o.episodes as int)),
        ("samples"@, decimal(o.samples as int)),
        ("over_s"@, number_text(o.over_s)),
        ("max_io"@, number_text(o.max_io)),
        ("max_read"@, number_text(o.max_read)),
        ("max_write"@, number_text(o.max_write)),
        ("last"@, decimal(o.last as int)),
    ];
    open_object(out);
    assert(f.take(0) =~= seq![]);
    put_integer(out, true, "pid", off.pid as u64, Ghost(s), Ghost(f.take(0)));
    assert(f.take(1) =~= f.take(0).push(f[0]));
    put_string(out, false, "user", off.user.as_str(), Ghost(s), Ghost(f.take(1)));
    assert(f.take(2) =~= f.take(1).push(f[1]));
    put_string(out, false, "command", off.command.as_str(), Ghost(s), Ghost(f.take(2)));
    assert(f.take(3) =~= f.take(2).push(f[2]));
    put_integer(out, false, "episodes", off.episodes as u64, Ghost(s), Ghost(f.take(3)));
    assert(f.take(4) =~= f.take(3).push(f[3]));
    put_integer(out, false, "samples", off.samples as u64, Ghost(s), Ghost(f.take(4)));
    assert(f.take(5) =~= f.take(4).push(f[4]));
    put_number(out, false, "over_s", &off.over_s, Ghost(s), Ghost(f.take(5)));
    assert(f.take(6) =~= f.take(5).push(f[5]));
    put_number(out, false, "max_io", &off.max_io, Ghost(s), Ghost(f.take(6)));
    assert(f.take(7) =~= f.take(6).push(f[6]));
    put_number(out, false, "max_read", &off.max_read, Ghost(s), Ghost(f.take(7)));
    assert(f.take(8) =~= f.take(7).push(f[7]));
    put_number(out, false, "max_write", &off.max_write, Ghost(s), Ghost(f.take(8)));
    assert(f.take(9) =~= f.take(8).push(f[8]));
    put_integer(out, false, "last", off.last, Ghost(s), Ghost(f.take(9)));
    assert(f =~= f.take(9).push(f[9]));
    close_object(out, Ghost(s), Ghost(f));
}

fn push_minute_answer(out: &mut String, minute: &Minute)
    requires
        minute.bucket * 60 <= u64::MAX,
    ensures
        final(out)@ == old(out)@ + minute_answer(minute@),
{
    let ghost s = out@;
    let ghost m = minute@;
    let ghost f = seq![
        ("t"@, decimal(m.bucket * 60)),
        ("max_io"@, number_text(m.max_io)),
        ("max_read"@, number_text(m.max_read)),
        ("max_write"@, number_text(m.max_write)),
        ("over"@, decimal(m.over as int)),
        ("top_io"@, number_text(m.top_io)),
        ("top_pid"@, decimal(m.top_pid as int)),
        ("top_cmd"@, string_text(m.top_cmd)),
    ];
    open_object(out);
    assert(f.take(0) =~= seq![]);
    put_integer(out, true, "t", minute.bucket * 60, Ghost(s), Ghost(f.take(0)));
    assert(f.take(1) =~= f.take(0).push(f[0]));
    put_number(out, false, "max_io", &minute.max_io, Ghost(s), Ghost(f.take(1)));
    assert(f.take(2) =~= f.take(1).push(f[1]));
    put_number(out, false, "max_read", &minute.max_read, Ghost(s), Ghost(f.take(2)));
    assert(f.take(3) =~= f.take(2).push(f[2]));
    put_number(out, false, "max_write", &minute.max_write, Ghost(s), Ghost(f.take(3)));
    assert(f.take(4) =~= f.take(3).push(f[3]));
    put_integer(out, false, "over", minute.over as u64, Ghost(s), Ghost(f.take(4)));
    assert(f.take(5) =~= f.take(4).push(f[4]));
    put_number(out, false, "top_io", &minute.top_io, Ghost(s), Ghost(f.take(5)));
    assert(f.take(6) =~= f.take(5).push(f[5]));
    put_integer(out, false, "top_pid", minute.top_pid as u64, Ghost(s), Ghost(f.take(6)));
    assert(f.take(7) =~= f.take(6).push(f[6]));
    put_string(out, false, "top_cmd", minute.top_cmd.as_str(), Ghost(s), Ghost(f.take(7)));
    assert(f =~= f.take(7).push(f[7]));
    close_object(out, Ghost(s), Ghost(f));
}

/// The first `limit` episodes as an array.
fn episode_array(v: &Vec<Episode>, limit: usize) -> (r: String)
    ensures
        r@ == array_text(episode_texts(first_of(episode_views(v@), limit as int))),
{
    let n: usize = if v.len() < limit {
        v.len()
    } else {
        limit
    };
    let ghost items = episode_texts(first_of(episode_views(v@), limit as int));
    let mut out: String = String::new();
    out.push('[');
    assert(items.take(0) =~= seq![]);
    assert(out@ =~= seq!['['] + comma_joined(items.take(0)));
    for i in 0..n
        invariant
            n <= v@.len(),
            n == items.len(),
            items == episode_texts(first_of(episode_views(v@), limit as int)),
            n <= limit,
            out@ == seq!['['] + comma_joined(items.take(i as int)),
    {
        if i > 0 {
            out.push(',');
        }
        push_episode(&mut out, &v[i]);
        proof {
            lemma_joined_push(items.take(i as int), items[i as int]);
            assert(items.take(i as int + 1) =~= items.take(i as int).push(items[i as int]));
            assert(out@ =~= seq!['['] + comma_joined(items.take(i as int + 1)));
        }
    }
    assert(items.take(n as int) =~= items);
    out.push(']');
    assert(out@ =~= array_text(items));
    out
}

/// The first offenders as an array.
fn offender_array(v: &Vec<Offender>, limit: usize) -> (r: String)
    ensures
        r@ == array_text(offender_texts(first_of(offender_views(v@), limit as int))),
{
    let n: usize = if v.len() < limit {
        v.len()
    } else {
        limit
    };
    let ghost items = offender_texts(first_of(offender_views(v@), limit as int));
    let mut out: String = String::new();
    out.push('[');
    assert(items.take(0) =~= seq![]);
    assert(out@ =~= seq!['['] + comma_joined(items.take(0)));
    for i in 0..n
        invariant
            n <= v@.len(),
            n == items.len(),
            items == offender_texts(first_of(offender_views(v@), limit as int)),
            n <= limit,
            out@ == seq!['['] + comma_joined(items.take(i as int)),
    {
        if i > 0 {
            out.push(',');
        }
        push_offender(&mut out, &v[i]);
        proof {
            lemma_joined_push(items.take(i as int), items[i as int]);
            assert(items.take(i as int + 1) =~= items.take(i as int).push(items[i as int]));
            assert(out@ =~= seq!['['] + comma_joined(items.take(i as int + 1)));
        }
    }
    assert(items.take(n as int) =~= items);
    out.push(']');
    assert(out@ =~= array_text(items));
    out
}

/// The minutes as an array.
fn minute_array(v: &Vec<Minute>) -> (r: String)
    requires
        forall|i: int| 0 <= i < v@.len() ==> (#[trigger] v@[i]).bucket * 60 <= u64::MAX,
    ensures
        r@ == array_text(minute_answers(minute_views(v@))),
{
    let n = v.len();
    let ghost items = minute_answers(minute_views(v@));
    let mut out: String = String::new();
    out.push('[');
    assert(items.take(0) =~= seq![]);
    assert(out@ =~= seq!['['] + comma_joined(items.take(0)));
    for i in 0..n
        invariant
            n == v@.len(),
            forall|j: int| 0 <= j < v@.len() ==> (#[trigger] v@[j]).bucket * 60 <= u64::MAX,
            items == minute_answers(minute_views(v@)),
            out@ == seq!['['] + comma_joined(items.take(i as int)),
    {
        if i > 0 {
            out.push(',');
        }
        push_minute_answer(&mut out, &v[i]);
        proof {
            lemma_joined_push(items.take(i as int), items[i as int]);
            assert(items.take(i as int + 1) =~= items.take(i as int).push(items[i as int]));
            assert(out@ =~= seq!['['] + comma_joined(items.take(i as int + 1)));
        }
    }
    assert(items.take(n as int) =~= items);
    out.push(']');
    assert(out@ =~= array_text(items));
    out
}

/// The episodes in the order of the given keys.
fn arrange_episodes(v: &Vec<Episode>, keys: &Vec<Vec<u64>>) -> (r: Vec<Episode>)
    requires
        keys@.len() == v@.len(),
    ensures
        episode_views(r@) == arranged(episode_views(v@), key_views(keys@)),
{
    let ghost g = episode_views(v@);
    let ghost k = key_views(keys@);
    let order = sort_order(keys);
    let mut out: Vec<Episode> = Vec::new();
    for i in 0..order.len()
        invariant
            g == episode_views(v@),
            order@.len() == g.len(),
            places(order@) == ordering(k),
            forall|j: int| 0 <= j < order@.len() ==> #[trigger] order@[j] < g.len(),
            out@.len() == i,
            forall|j: int| 0 <= j < i ==> (#[trigger] out@[j])@ == arranged(g, k)[j],
    {
        out.push(v[order[i]].clone());
        assert(places(order@)[i as int] == order@[i as int]);
    }
    assert(episode_views(out@) =~= arranged(g, k));
    out
}

fn peak_among(v: &Vec<Episode>) -> (r: (Binary64, u64, u32, String))
    ensures
        (r.0, r.1, r.2, r.3@) == peak_of(episode_views(v@)),
{
    let ghost g = episode_views(v@);
    let mut io = Binary64::from_bits(0);
    let mut when: u64 = 0;
    let mut pid: u32 = 0;
    let mut cmd: String = String::new();
    assert(cmd@ =~= seq![]);
    for i in 0..v.len()
        invariant
            g == episode_views(v@),
            (io, when, pid, cmd@) == peak_of(g.take(i as int)),
    {
        let e = &v[i];
        assert(g.take(i as int + 1).drop_last() =~= g.take(i as int));
        assert(g[i as int] == e@);
        if io.lt(&e.max_io) {
            io = e.max_io;
            when = e.end;
            pid = e.pid;
            cmd = e.command.clone();
        }
    }
    assert(g.take(g.len() as int) =~= g);
    (io, when, pid, cmd)
}

fn add_episode(o: &Offender, e: &Episode) -> (r: Offender)
    ensures
        r@ == with_episode(o@, e@),
{
    let later = e.end >= o.last;
    Offender {
        pid: o.pid,
        user: if later {
            e.user.clone()
        } else {
            o.user.clone()
        },
        command: if later && !e.command.as_str().is_empty() {
            e.command.clone()
        } else {
            o.command.clone()
        },
        episodes: o.episodes.saturating_add(1),
        samples: o.samples.saturating_add(e.samples),
        over_s: o.over_s.plus(&e.over_s),
        max_io: o.max_io.max(&e.max_io),
        max_read: o.max_read.max(&e.max_read),
        max_write: o.max_write.max(&e.max_write),
        last: if later {
            e.end
        } else {
            o.last
        },
    }
}

/// The processes of the episodes, in the order of the ranking.
fn rank_offenders(v: &Vec<Episode>) -> (r: Vec<Offender>)
    ensures
        offender_views(r@) == queried_offenders(episode_views(v@)),
{
    let ghost g = episode_views(v@);
    let mut offs: Vec<Offender> = Vec::new();
    let mut index = Index::new();
    assert(offender_views(offs@) =~= seq![]);
    assert(offender_pids(offender_views(offs@)) =~= seq![]);
    for i in 0..v.len()
        invariant
            g == episode_views(v@),
            offender_views(offs@) == gathered(g.take(i as int)),
            index.of(offender_pids(offender_views(offs@))),
    {
        let e = &v[i];
        let ghost before = offender_views(offs@);
        let ghost keys = offender_pids(before);
        let ghost after = gathered(g.take(i as int + 1));
        assert(g.take(i as int + 1).drop_last() =~= g.take(i as int));
        assert(g[i as int] == e@);
        match index.find(e.pid as u64, Ghost(keys)) {
            Some(k) => {
                assert(before[k as int] == offs@[k as int]@);
                let off = add_episode(&offs[k], e);
                offs.set(k, off);
                assert(offender_views(offs@) =~= after);
                assert(offender_pids(offender_views(offs@)) =~= keys);
            },
            None => {
                let none = Binary64::from_bits(0);
                let fresh = Offender {
                    pid: e.pid,
                    user: e.user.clone(),
                    command: e.command.clone(),
                    episodes: 0,
                    samples: 0,
                    over_s: none,
                    max_io: none,
                    max_read: none,
                    max_write: none,
                    last: e.end,
                };
                assert(fresh@ == before_episode(e@));
                let n = offs.len();
                let off = add_episode(&fresh, e);
                offs.push(off);
                index.append(e.pid as u64, n, Ghost(keys));
                assert(offender_views(offs@) =~= after);
                assert(offender_pids(offender_views(offs@)) =~= keys.push(e.pid as u64));
            },
        }
    }
    assert(g.take(g.len() as int) =~= g);
    let ghost f = offender_views(offs@);
    let mut keys: Vec<Vec<u64>> = Vec::new();
    for i in 0..offs.len()
        invariant
            f == offender_views(offs@),
            keys@.len() == i,
            forall|j: int| 0 <= j < i ==> (#[trigger] keys@[j])@ == gathered_keys(f)[j],
    {
        let fewer: u64 = (u32::MAX - offs[i].episodes) as u64;
        let key: Vec<u64> = vec![falling_key(&offs[i].max_io), fewer];
        assert(key@ =~= gathered_keys(f)[i as int]);
        keys.push(key);
    }
    assert(key_views(keys@) =~= gathered_keys(f));
    let order = sort_order(&keys);
    let mut out: Vec<Offender> = Vec::new();
    for i in 0..order.len()
        invariant
            f == offender_views(offs@),
            order@.len() == f.len(),
            places(order@) == ordering(gathered_keys(f)),
            forall|j: int| 0 <= j < order@.len() ==> #[trigger] order@[j] < f.len(),
            out@.len() == i,
            forall|j: int|
                0 <= j < i ==> (#[trigger] out@[j])@ == arranged(f, gathered_keys(f))[j],
    {
        out.push(offs[order[i]].clone());
        assert(places(order@)[i as int] == order@[i as int]);
    }
    assert(offender_views(out@) =~= arranged(f, gathered_keys(f)));
    out
}

/// The minutes that a query is about.
fn pick_minutes(v: &Vec<Minute>, from: u64, to: u64) -> (r: Vec<Minute>)
    requires
        times_fit(minute_views(v@), to),
    ensures
        minute_views(r@) == queried_minutes(minute_views(v@), from, to),
        forall|i: int| 0 <= i < r@.len() ==> (#[trigger] r@[i]).bucket * 60 <= u64::MAX,
{
    let ghost g = minute_views(v@);
    let ghost pred = |m: MinuteView| m.bucket * 60 < to && m.bucket * 60 + 60 > from;
    let mut out: Vec<Minute> = Vec::new();
    proof {
        reveal(Seq::filter);
    }
    assert(minute_views(out@) =~= g.take(0).filter(pred));
    for i in 0..v.len()
        invariant
            g == minute_views(v@),
            times_fit(g, to),
            pred == (|m: MinuteView| m.bucket * 60 < to && m.bucket * 60 + 60 > from),
            minute_views(out@) == g.take(i as int).filter(pred),
            forall|j: int| 0 <= j < out@.len() ==> (#[trigger] out@[j]).bucket * 60 <= u64::MAX,
    {
        let ghost before = out@;
        assert(g.take(i as int + 1).drop_last() =~= g.take(i as int));
        assert(g[i as int] == v@[i as int]@);
        proof {
            reveal(Seq::filter);
        }
        let t = v[i].bucket * 60;
        if t < to && t + 60 > from {
            out.push(v[i].clone());
            assert(minute_views(out@) =~= minute_views(before).push(v@[i as int]@));
        }
    }
    assert(g.take(g.len() as int) =~= g);
    out
}

fn minute_peaks(v: &Vec<Minute>) -> (r: ((Binary64, u64), (Binary64, u64)))
    requires
        forall|i: int| 0 <= i < v@.len() ==> (#[trigger] v@[i]).bucket * 60 <= u64::MAX,
    ensures
        r.0 == peak_write_of(minute_views(v@)),
        r.1 == peak_read_of(minute_views(v@)),
{
    let ghost g = minute_views(v@);
    let none = Binary64::from_bits(0);
    let mut write: (Binary64, u64) = (none, 0);
    let mut read: (Binary64, u64) = (none, 0);
    for i in 0..v.len()
        invariant
            g == minute_views(v@),
            forall|j: int| 0 <= j < v@.len() ==> (#[trigger] v@[j]).bucket * 60 <= u64::MAX,
            write == peak_write_of(g.take(i as int)),
            read == peak_read_of(g.take(i as int)),
    {
        let m = &v[i];
        assert(g.take(i as int + 1).drop_last() =~= g.take(i as int));
        assert(g[i as int] == m@);
        if write.0.lt(&m.max_write) {
            write = (m.max_write, m.bucket * 60);
        }
        if read.0.lt(&m.max_read) {
            read = (m.max_read, m.bucket * 60);
        }
    }
    assert(g.take(g.len() as int) =~= g);
    (write, read)
}

impl AlertBook {
    /// The episodes that a query is about, in order.
    fn select_episodes(&self, from: u64, to: u64) -> (r: Vec<Episode>)
        ensures
            episode_views(r@) == queried(
                episode_views(self.open@),
                episode_views(self.closed@),
                from,
                to,
            ),
    {
        let ghost g = episode_views(self.open@) + episode_views(self.closed@);
        let ghost pred = |e: EpisodeView| e.start < to && e.end >= from;
        let n = self.open.len();
        let mut all: Vec<Episode> = Vec::new();
        let mut keys: Vec<Vec<u64>> = Vec::new();
        proof {
            reveal(Seq::filter);
        }
        assert(episode_views(all@) =~= g.take(0).filter(pred));
        let mut i: usize = 0;
        while i < n
            invariant
                n == self.open@.len(),
                i <= n,
                g == episode_views(self.open@) + episode_views(self.closed@),
                pred == (|e: EpisodeView| e.start < to && e.end >= from),
                episode_views(all@) == g.take(i as int).filter(pred),
                keys@.len() == all@.len(),
                forall|j: int|
                    0 <= j < keys@.len() ==> (#[trigger] keys@[j])@ == episode_keys(
                        episode_views(all@),
                    )[j],
            decreases n - i,
        {
            let ghost before = all@;
            assert(g.take(i as int + 1).drop_last() =~= g.take(i as int));
            assert(g[i as int] == self.open@[i as int]@);
            proof {
                reveal(Seq::filter);
            }
            pick_episode(&mut all, &mut keys, &self.open[i], from, to);
            i = i + 1;
        }
        let mut k: usize = 0;
        while k < self.closed.len()
            invariant
                n == self.open@.len(),
                k <= self.closed@.len(),
                g == episode_views(self.open@) + episode_views(self.closed@),
                pred == (|e: EpisodeView| e.start < to && e.end >= from),
                episode_views(all@) == g.take(n + k).filter(pred),
                keys@.len() == all@.len(),
                forall|j: int|
                    0 <= j < keys@.len() ==> (#[trigger] keys@[j])@ == episode_keys(
                        episode_views(all@),
                    )[j],
            decreases self.closed@.len() - k,
        {
            assert(g.take(n + k + 1).drop_last() =~= g.take(n + k));
            assert(g[n + k] == self.closed@[k as int]@);
            proof {
                reveal(Seq::filter);
            }
            pick_episode(&mut all, &mut keys, &self.closed[k], from, to);
            k = k + 1;
        }
        assert(g.take(g.len() as int) =~= g);
        assert(key_views(keys@) =~= episode_keys(episode_views(all@)));
        arrange_episodes(&all, &keys)
    }

    /// The open episodes, where the query is about now.
    fn select_current(&self, now: u64, from: u64, to: u64) -> (r: Vec<Episode>)
        ensures
            episode_views(r@) == queried_now(episode_views(self.open@), now, from, to),
    {
        if !(from <= now && now < to) {
            let none: Vec<Episode> = Vec::new();
            assert(episode_views(none@) =~= seq![]);
            return none;
        }
        let ghost g = episode_views(self.open@);
        let mut keys: Vec<Vec<u64>> = Vec::new();
        for i in 0..self.open.len()
            invariant
                g == episode_views(self.open@),
                keys@.len() == i,
                forall|j: int| 0 <= j < i ==> (#[trigger] keys@[j])@ == current_keys(g)[j],
        {
            let e = &self.open[i];
            let key: Vec<u64> = vec![falling_key(&e.last_io), e.pid as u64];
            assert(key@ =~= current_keys(g)[i as int]);
            keys.push(key);
        }
        assert(key_views(keys@) =~= current_keys(g));
        arrange_episodes(&self.open, &keys)
    }

    /// Whether `to_json` can be asked: the times of the minutes fit in 64 bits.
    pub fn query_fits(&self, now: u64, from: u64, to: u64) -> (r: bool)
        ensures
            r == times_fit(minute_views(self.minutes@), query_to(now, from, to)),
    {
        let begin = if from == 0 {
            now.saturating_sub(86400)
        } else {
            from
        };
        let end = if to <= begin {
            now.saturating_add(1)
        } else {
            to
        };
        let ghost g = minute_views(self.minutes@);
        for i in 0..self.minutes.len()
            invariant
                g == minute_views(self.minutes@),
                end == query_to(now, from, to),
                forall|j: int|
                    0 <= j < i ==> (#[trigger] g[j]).bucket * 60 <= u64::MAX && (g[j].bucket * 60
                        < end ==> g[j].bucket * 60 + 60 <= u64::MAX),
        {
            let b = self.minutes[i].bucket;
            assert(g[i as int].bucket == b);
            if b > u64::MAX / 60 || (b * 60 < end && b * 60 > u64::MAX - 60) {
                return false;
            }
        }
        true
    }

    /// Writes the answer to a query from what was selected for it.
    fn answer_text(
        &self,
        delayacct: bool,
        host: &str,
        interval: Binary64,
        now: u64,
        from: u64,
        to: u64,
        open: usize,
        total: usize,
        peak: &(Binary64, u64, u32, String),
        peak_write: (Binary64, u64),
        peak_read: (Binary64, u64),
        current_text: &str,
        episodes_text: &str,
        offenders_text: &str,
        minutes_text: &str,
    ) -> (r: String)
        ensures
            r@ == object_text(
                answer_members(
                    *self,
                    delayacct,
                    host@,
                    interval,
                    now,
                    from,
                    to,
                    (Selection {
                        open: open as int,
                        total: total as int,
                        peak: (peak.0, peak.1, peak.2, peak.3@),
                        peak_write,
                        peak_read,
                    }),
                    current_text@,
                    episodes_text@,
                    offenders_text@,
                    minutes_text@,
                ),
            ),
    {
        let mut out: String = String::new();
        let ghost s = out@;
        let ghost f = answer_members(
            *self,
            delayacct,
            host@,
            interval,
            now,
            from,
            to,
            Selection {
                open: open as int,
                total: total as int,
                peak: (peak.0, peak.1, peak.2, peak.3@),
                peak_write,
                peak_read,
            },
            current_text@,
            episodes_text@,
            offenders_text@,
            minutes_text@,
        );
        open_object(&mut out);
        assert(f.take(0) =~= seq![]);
        put_text(&mut out, true, "ok", "true", Ghost(s), Ghost(f.take(0)));
        assert(f.take(1) =~= f.take(0).push(f[0]));
        put_number(&mut out, false, "threshold", &self.threshold, Ghost(s), Ghost(f.take(1)));
        assert(f.take(2) =~= f.take(1).push(f[1]));
        put_truth(&mut out, false, "delayacct", delayacct, Ghost(s), Ghost(f.take(2)));
        assert(f.take(3) =~= f.take(2).push(f[2]));
        put_string(&mut out, false, "host", host, Ghost(s), Ghost(f.take(3)));
        assert(f.take(4) =~= f.take(3).push(f[3]));
        put_number(&mut out, false, "interval_s", &interval, Ghost(s), Ghost(f.take(4)));
        assert(f.take(5) =~= f.take(4).push(f[4]));
        put_integer(&mut out, false, "started", self.started, Ghost(s), Ghost(f.take(5)));
        assert(f.take(6) =~= f.take(5).push(f[5]));
        put_integer(&mut out, false, "now", now, Ghost(s), Ghost(f.take(6)));
        assert(f.take(7) =~= f.take(6).push(f[6]));
        put_integer(&mut out, false, "from", from, Ghost(s), Ghost(f.take(7)));
        assert(f.take(8) =~= f.take(7).push(f[7]));
        put_integer(&mut out, false, "to", to, Ghost(s), Ghost(f.take(8)));
        assert(f.take(9) =~= f.take(8).push(f[8]));
        put_text(&mut out, false, "retain_days", "7", Ghost(s), Ghost(f.take(9)));
        assert(f.take(10) =~= f.take(9).push(f[9]));
        put_integer(&mut out, false, "samples", self.samples, Ghost(s), Ghost(f.take(10)));
        assert(f.take(11) =~= f.take(10).push(f[10]));
        put_integer(&mut out, false, "alert_samples", self.alert_samples, Ghost(s), Ghost(f.take(11)));
        assert(f.take(12) =~= f.take(11).push(f[11]));
        put_integer(&mut out, false, "open", open as u64, Ghost(s), Ghost(f.take(12)));
        assert(f.take(13) =~= f.take(12).push(f[12]));
        put_integer(&mut out, false, "episode_total", total as u64, Ghost(s), Ghost(f.take(13)));
        assert(f.take(14) =~= f.take(13).push(f[13]));
        put_number(&mut out, false, "peak_io", &peak.0, Ghost(s), Ghost(f.take(14)));
        assert(f.take(15) =~= f.take(14).push(f[14]));
        put_integer(&mut out, false, "peak_io_at", peak.1, Ghost(s), Ghost(f.take(15)));
        assert(f.take(16) =~= f.take(15).push(f[15]));
        put_integer(&mut out, false, "peak_io_pid", peak.2 as u64, Ghost(s), Ghost(f.take(16)));
        assert(f.take(17) =~= f.take(16).push(f[16]));
        put_string(&mut out, false, "peak_io_cmd", peak.3.as_str(), Ghost(s), Ghost(f.take(17)));
        assert(f.take(18) =~= f.take(17).push(f[17]));
        put_number(&mut out, false, "peak_write", &peak_write.0, Ghost(s), Ghost(f.take(18)));
        assert(f.take(19) =~= f.take(18).push(f[18]));
        put_integer(&mut out, false, "peak_write_at", peak_write.1, Ghost(s), Ghost(f.take(19)));
        assert(f.take(20) =~= f.take(19).push(f[19]));
        put_number(&mut out, false, "peak_read", &peak_read.0, Ghost(s), Ghost(f.take(20)));
        assert(f.take(21) =~= f.take(20).push(f[20]));
        put_integer(&mut out, false, "peak_read_at", peak_read.1, Ghost(s), Ghost(f.take(21)));
        assert(f.take(22) =~= f.take(21).push(f[21]));
        put_text(&mut out, false, "current", current_text, Ghost(s), Ghost(f.take(22)));
        assert(f.take(23) =~= f.take(22).push(f[22]));
        put_text(&mut out, false, "episodes", episodes_text, Ghost(s), Ghost(f.take(23)));
        assert(f.take(24) =~= f.take(23).push(f[23]));
        put_text(&mut out, false, "offenders", offenders_text, Ghost(s), Ghost(f.take(24)));
        assert(f.take(25) =~= f.take(24).push(f[24]));
        put_text(&mut out, false, "minutes", minutes_text, Ghost(s), Ghost(f.take(25)));
        assert(f =~= f.take(25).push(f[25]));
        close_object(&mut out, Ghost(s), Ghost(f));
        assert(s + object_text(f) =~= object_text(f));
        out
    }

    /// The answer to a query about the time from `from` up to `to`. Zeros stand
    /// for the day up to now.
    pub fn to_json(
        &self,
        delayacct: bool,
        host: &str,
        interval: Binary64,
        now: u64,
        from: u64,
        to: u64,
    ) -> (r: String)
        requires
            times_fit(minute_views(self.minutes@), query_to(now, from, to)),
        ensures
            r@ == object_text(
                answer_fields(
                    *self,
                    delayacct,
                    host@,
                    interval,
                    now,
                    query_from(now, from),
                    query_to(now, from, to),
                ),
            ),
    {
        let from = if from == 0 {
            now.saturating_sub(86400)
        } else {
            from
        };
        let to = if to <= from {
            now.saturating_add(1)
        } else {
            to
        };
        let episodes = self.select_episodes(from, to);
        let current = self.select_current(now, from, to);
        let peak = peak_among(&episodes);
        let offenders = rank_offenders(&episodes);
        let minutes = pick_minutes(&self.minutes, from, to);
        let (peak_write, peak_read) = minute_peaks(&minutes);
        let current_text = episode_array(&current, current.len());
        let episodes_text = episode_array(&episodes, MAX_LIST);
        let offenders_text = offender_array(&offenders, OFFENDERS_LISTED);
        let minutes_text = minute_array(&minutes);
        self.answer_text(
            delayacct,
            host,
            interval,
            now,
            from,
            to,
            current.len(),
            episodes.len(),
            &peak,
            peak_write,
            peak_read,
            current_text.as_str(),
            episodes_text.as_str(),
            offenders_text.as_str(),
            minutes_text.as_str(),
        )
    }
}

fn pick_episode(all: &mut Vec<Episode>, keys: &mut Vec<Vec<u64>>, e: &Episode, from: u64, to: u64)
    requires
        old(keys)@.len() == old(all)@.len(),
        forall|j: int|
            0 <= j < old(keys)@.len() ==> (#[trigger] old(keys)@[j])@ == episode_keys(
                episode_views(old(all)@),
            )[j],
    ensures
        episode_views(final(all)@) == if e.start < to && e.end >= from {
            episode_views(old(all)@).push(e@)
        } else {
            episode_views(old(all)@)
        },
        final(keys)@.len() == final(all)@.len(),
        forall|j: int|
            0 <= j < final(keys)@.len() ==> (#[trigger] final(keys)@[j])@ == episode_keys(
                episode_views(final(all)@),
            )[j],
{
    if e.start < to && e.end >= from {
        let older: u64 = u64::MAX - e.end;
        let key: Vec<u64> = vec![older, falling_key(&e.max_io)];
        let ghost v = episode_views(all@);
        all.push(e.clone());
        assert(episode_views(all@) =~= v.push(e@));
        assert(key@ =~= episode_keys(episode_views(all@))[v.len() as int]);
        keys.push(key);
    }
}

/// A query lists the episodes that overlap its time, and no others.
pub proof fn query_is_about_its_time(
    open: Seq<EpisodeView>,
    closed: Seq<EpisodeView>,
    from: u64,
    to: u64,
    e: EpisodeView,
)
    ensures
        queried(open, closed, from, to).contains(e) <==> (open.contains(e) || closed.contains(e))
            && e.start < to && e.end >= from,
{
    let both = open + closed;
    let pred = |x: EpisodeView| x.start < to && x.end >= from;
    let all = both.filter(pred);
    arranged_keeps_all(all, episode_keys(all));
    assert(all.contains(e) <==> queried(open, closed, from, to).contains(e));
    if (open.contains(e) || closed.contains(e)) && pred(e) {
        let i = if open.contains(e) {
            choose|i: int| 0 <= i < open.len() && open[i] == e
        } else {
            open.len() + choose|i: int| 0 <= i < closed.len() && closed[i] == e
        };
        assert(both[i] == e);
        both.lemma_filter_contains(pred, i);
    }
    if all.contains(e) {
        let i = choose|i: int| 0 <= i < all.len() && all[i] == e;
        both.lemma_filter_pred(pred, i);
        both.lemma_filter_contains_rev(pred, e);
        let j = choose|j: int| 0 <= j < both.len() && both[j] == e;
        if j < open.len() {
            assert(open[j] == e);
        } else {
            assert(closed[j - open.len()] == e);
        }
    }
}

/// The episodes that ended last come first.
pub proof fn latest_come_first(
    open: Seq<EpisodeView>,
    closed: Seq<EpisodeView>,
    from: u64,
    to: u64,
    i: int,
    j: int,
)
    requires
        0 <= i < j < queried(open, closed, from, to).len(),
    ensures
        queried(open, closed, from, to)[i].end >= queried(open, closed, from, to)[j].end,
{
    let all = (open + closed).filter(|e: EpisodeView| e.start < to && e.end >= from);
    let keys = episode_keys(all);
    arranged_keeps_all(all, keys);
    arranged_in_order(all, keys, i, j);
    let p = ordering(keys)[i];
    let q = ordering(keys)[j];
    assert(keys[p][0] == u64::MAX - all[p].end);
    assert(keys[q][0] == u64::MAX - all[q].end);
    reveal_with_fuel(less_from, 2);
}

/// Offenders are listed once.
pub proof fn offenders_are_listed_once(s: Seq<EpisodeView>)
    ensures
        offender_pids(gathered(s)).no_duplicates(),
    decreases s.len(),
{
    if s.len() > 0 {
        let h = s.drop_last();
        let e = s.last();
        offenders_are_listed_once(h);
        let before = gathered(h);
        let keys = offender_pids(before);
        let i = place(keys, e.pid as u64);
        lemma_place(keys, e.pid as u64);
        if i < before.len() {
            assert(offender_pids(gathered(s)) =~= keys);
        } else {
            assert(offender_pids(gathered(s)) =~= keys.push(e.pid as u64));
        }
    }
}

// ---------------------------------------------------------------------------
// What an answer tells

/// The peak of a list of episodes is not below the share of any of them, and
/// where it is above zero it is that of one of them, with its time, process and
/// command.
pub proof fn peak_is_greatest(s: Seq<EpisodeView>)
    ensures
        forall|i: int| 0 <= i < s.len() ==> !peak_of(s).0.below((#[trigger] s[i]).max_io),
        zero().at_most(peak_of(s).0),
        zero().below(peak_of(s).0) ==> exists|i: int|
            0 <= i < s.len() && peak_of(s) == (
                (#[trigger] s[i]).max_io,
                s[i].end,
                s[i].pid,
                s[i].command,
            ),
    decreases s.len(),
{
    if s.len() > 0 {
        let h = s.drop_last();
        peak_is_greatest(h);
        let all = peak_of(s);
        let before = peak_of(h);
        assert forall|i: int| 0 <= i < s.len() implies !all.0.below((#[trigger] s[i]).max_io) by {
            if i < h.len() {
                assert(h[i] == s[i]);
            }
        }
        if before.0.below(s.last().max_io) {
            let e = s[s.len() - 1];
            assert(all == (e.max_io, e.end, e.pid, e.command));
        } else if zero().below(all.0) {
            let i = choose|i: int|
                0 <= i < h.len() && before == (
                    (#[trigger] h[i]).max_io,
                    h[i].end,
                    h[i].pid,
                    h[i].command,
                );
            assert(s[i] == h[i]);
        }
    }
}

/// The greatest rates of a list of minutes are not below those of any of them,
/// and where they are above zero they are those of one of them, with its time.
pub proof fn rate_peaks_are_greatest(s: Seq<MinuteView>)
    requires
        forall|i: int| 0 <= i < s.len() ==> (#[trigger] s[i]).bucket * 60 <= u64::MAX,
    ensures
        forall|i: int|
            0 <= i < s.len() ==> !peak_read_of(s).0.below((#[trigger] s[i]).max_read)
                && !peak_write_of(s).0.below(s[i].max_write),
        zero().at_most(peak_read_of(s).0),
        zero().at_most(peak_write_of(s).0),
        zero().below(peak_read_of(s).0) ==> exists|i: int|
            0 <= i < s.len() && peak_read_of(s).0 == (#[trigger] s[i]).max_read && peak_read_of(s).1
                == s[i].bucket * 60,
        zero().below(peak_write_of(s).0) ==> exists|i: int|
            0 <= i < s.len() && peak_write_of(s).0 == (#[trigger] s[i]).max_write && peak_write_of(
                s,
            ).1 == s[i].bucket * 60,
    decreases s.len(),
{
    if s.len() > 0 {
        let h = s.drop_last();
        let m = s[s.len() - 1];
        assert forall|i: int| 0 <= i < h.len() implies (#[trigger] h[i]).bucket * 60 <= u64::MAX by {
            assert(h[i] == s[i]);
        }
        assert(m.bucket * 60 <= u64::MAX);
        rate_peaks_are_greatest(h);
        let r = peak_read_of(h);
        let w = peak_write_of(h);
        assert forall|i: int| 0 <= i < s.len() implies !peak_read_of(s).0.below(
            (#[trigger] s[i]).max_read,
        ) && !peak_write_of(s).0.below(s[i].max_write) by {
            if i < h.len() {
                assert(h[i] == s[i]);
            }
        }
        if !r.0.below(m.max_read) && zero().below(r.0) {
            let i = choose|i: int|
                0 <= i < h.len() && r.0 == (#[trigger] h[i]).max_read && r.1 == h[i].bucket * 60;
            assert(s[i] == h[i]);
        }
        if !w.0.below(m.max_write) && zero().below(w.0) {
            let i = choose|i: int|
                0 <= i < h.len() && w.0 == (#[trigger] h[i]).max_write && w.1 == h[i].bucket * 60;
            assert(s[i] == h[i]);
        }
    }
}

/// The episodes of one process.
pub open spec fn own(s: Seq<EpisodeView>, pid: u32) -> Seq<EpisodeView> {
    s.filter(|e: EpisodeView| e.pid == pid)
}

pub open spec fn own_shares(s: Seq<EpisodeView>) -> Seq<Binary64> {
    Seq::new(s.len(), |i: int| s[i].max_io)
}

pub open spec fn own_reads(s: Seq<EpisodeView>) -> Seq<Binary64> {
    Seq::new(s.len(), |i: int| s[i].max_read)
}

pub open spec fn own_writes(s: Seq<EpisodeView>) -> Seq<Binary64> {
    Seq::new(s.len(), |i: int| s[i].max_write)
}

pub open spec fn own_samples(s: Seq<EpisodeView>) -> Seq<int> {
    Seq::new(s.len(), |i: int| s[i].samples as int)
}

/// Whether an offender tells of these episodes: how many they are, how many
/// samples they have, their greatest share and rates, and when the last ended.
pub open spec fn tells(o: OffenderView, s: Seq<EpisodeView>) -> bool {
    &&& s.len() <= u32::MAX ==> o.episodes == s.len()
    &&& total_of(own_samples(s)) <= u32::MAX ==> o.samples == total_of(own_samples(s))
    &&& greatest_or_zero(o.max_io, own_shares(s))
    &&& greatest_or_zero(o.max_read, own_reads(s))
    &&& greatest_or_zero(o.max_write, own_writes(s))
    &&& zero().at_most(o.max_io) && zero().at_most(o.max_read) && zero().at_most(o.max_write)
    &&& exists|i: int| 0 <= i < s.len() && (#[trigger] s[i]).end == o.last
    &&& forall|i: int| 0 <= i < s.len() ==> (#[trigger] s[i]).end <= o.last
}

/// Whether shares and rates are numbers from zero on.
pub open spec fn measured(s: Seq<EpisodeView>) -> bool {
    forall|i: int|
        0 <= i < s.len() ==> zero().at_most((#[trigger] s[i]).max_io) && zero().at_most(
            s[i].max_read,
        ) && zero().at_most(s[i].max_write)
}

proof fn lemma_tells(o: OffenderView, s: Seq<EpisodeView>, e: EpisodeView)
    requires
        s.len() == 0 ==> o == before_episode(e),
        s.len() > 0 ==> tells(o, s),
        zero().at_most(e.max_io) && zero().at_most(e.max_read) && zero().at_most(e.max_write),
    ensures
        tells(with_episode(o, e), s.push(e)),
        with_episode(o, e).pid == o.pid,
{
    let t = s.push(e);
    let n = with_episode(o, e);
    lemma_greater_or_zero(o.max_io, own_shares(s), e.max_io);
    lemma_greater_or_zero(o.max_read, own_reads(s), e.max_read);
    lemma_greater_or_zero(o.max_write, own_writes(s), e.max_write);
    assert(own_shares(t) =~= own_shares(s).push(e.max_io));
    assert(own_reads(t) =~= own_reads(s).push(e.max_read));
    assert(own_writes(t) =~= own_writes(s).push(e.max_write));
    let a = own_samples(s);
    let b = own_samples(t);
    assert(b =~= a.push(e.samples as int));
    assert(b.drop_last() =~= a);
    assert forall|i: int| 0 <= i < b.len() implies 0 <= #[trigger] b[i] by {}
    lemma_total_grows(b);
    if s.len() == 0 {
        assert(total_of(a) == 0);
    }
    assert(t[s.len() as int] == e);
    if s.len() > 0 && e.end < o.last {
        let i = choose|i: int| 0 <= i < s.len() && (#[trigger] s[i]).end == o.last;
        assert(t[i] == s[i]);
    }
    assert forall|i: int| 0 <= i < t.len() implies (#[trigger] t[i]).end <= n.last by {
        if i < s.len() {
            assert(s[i].end <= o.last);
        }
    }
}

proof fn lemma_greater_or_zero(x: Binary64, s: Seq<Binary64>, y: Binary64)
    requires
        greatest_or_zero(x, s),
        zero().at_most(x),
        zero().at_most(y),
    ensures
        greatest_or_zero(x.greater(y), s.push(y)),
        zero().at_most(x.greater(y)),
{
    greater_is_greatest(x, y);
    lemma_greatest_or_zero(x, s, y, x.greater(y));
}

/// Each process of the episodes is listed, with all of its episodes and no
/// others.
pub proof fn offenders_tell_their_episodes(s: Seq<EpisodeView>)
    requires
        measured(s),
    ensures
        forall|k: int|
            0 <= k < gathered(s).len() ==> tells(
                #[trigger] gathered(s)[k],
                own(s, gathered(s)[k].pid),
            ),
        forall|i: int|
            0 <= i < s.len() ==> offender_pids(gathered(s)).contains((#[trigger] s[i]).pid as u64),
    decreases s.len(),
{
    reveal(Seq::filter);
    if s.len() > 0 {
        let h = s.drop_last();
        let e = s[s.len() - 1];
        assert forall|i: int| 0 <= i < h.len() implies zero().at_most((#[trigger] h[i]).max_io)
            && zero().at_most(h[i].max_read) && zero().at_most(h[i].max_write) by {
            assert(h[i] == s[i]);
        }
        assert(zero().at_most(e.max_io) && zero().at_most(e.max_read) && zero().at_most(e.max_write));
        offenders_tell_their_episodes(h);
        offenders_are_listed_once(h);
        let before = gathered(h);
        let all = gathered(s);
        let keys = offender_pids(before);
        let p = place(keys, e.pid as u64);
        lemma_place(keys, e.pid as u64);
        assert(own(s, e.pid) == own(h, e.pid).push(e));
        if p < before.len() {
            assert(keys[p] == before[p].pid as u64);
            assert(own(h, e.pid).len() > 0);
            lemma_tells(before[p], own(h, e.pid), e);
        } else {
            assert(own(h, e.pid).len() == 0) by {
                if own(h, e.pid).len() > 0 {
                    let pred = |x: EpisodeView| x.pid == e.pid;
                    let x = own(h, e.pid)[0];
                    h.lemma_filter_pred(pred, 0);
                    assert(h.filter(pred).contains(x));
                    h.lemma_filter_contains_rev(pred, x);
                    let i = choose|i: int| 0 <= i < h.len() && h[i] == x;
                    assert(keys.contains(h[i].pid as u64));
                    let q = choose|q: int| 0 <= q < keys.len() && keys[q] == e.pid as u64;
                    assert(keys[q] != e.pid as u64);
                }
            }
            assert(own(h, e.pid) =~= seq![]);
            lemma_tells(before_episode(e), seq![], e);
        }
        assert forall|k: int| 0 <= k < all.len() implies tells(
            #[trigger] all[k],
            own(s, all[k].pid),
        ) by {
            if k < before.len() && k != p {
                assert(all[k] == before[k]);
                assert(keys[k] == before[k].pid as u64);
                if before[k].pid == e.pid {
                    if p < before.len() {
                        assert(keys[p] == keys[k]);
                    }
                }
                assert(own(s, all[k].pid) == own(h, all[k].pid));
            }
        }
        let after = offender_pids(all);
        assert forall|i: int| 0 <= i < s.len() implies after.contains((#[trigger] s[i]).pid as u64) by {
            if i < h.len() {
                assert(h[i] == s[i]);
                assert(keys.contains(h[i].pid as u64));
                let q = choose|q: int| 0 <= q < keys.len() && keys[q] == s[i].pid as u64;
                assert(before[q].pid == s[i].pid);
                assert(all[q].pid == before[q].pid);
                assert(after[q] == s[i].pid as u64);
            } else if p < before.len() {
                assert(after[p] == e.pid as u64);
            } else {
                assert(after[before.len() as int] == e.pid as u64);
            }
        }
    }
}

/// The time over the threshold of an offender is the sum of that of its episodes,
/// one after another.
pub proof fn offender_adds_up_time(o: OffenderView, e: EpisodeView, a: int, b: int)
    requires
        0 <= a,
        0 <= b,
        a + b <= 2 * STEP,
        o.over_s == whole(a),
        e.over_s == whole(b),
    ensures
        with_episode(o, e).over_s == whole(a + b),
        before_episode(e).over_s == whole(0),
{
    sum_of_wholes(a, b);
    whole_of_nothing();
}

/// An offender goes by the user and the command of the episode that ended last.
pub proof fn offender_goes_by_its_last_episode(o: OffenderView, e: EpisodeView)
    ensures
        o.last <= e.end ==> with_episode(o, e).user == e.user,
        o.last <= e.end && e.command.len() > 0 ==> with_episode(o, e).command == e.command,
        e.end < o.last ==> with_episode(o, e).user == o.user && with_episode(o, e).command
            == o.command,
{
}

/// Offenders are listed by falling share, then by falling count of episodes.
pub proof fn worst_offenders_come_first(s: Seq<EpisodeView>, i: int, j: int)
    requires
        0 <= i < j < queried_offenders(s).len(),
    ensures
        ({
            let a = queried_offenders(s)[i];
            let b = queried_offenders(s)[j];
            ||| a.max_io.rank() > b.max_io.rank()
            ||| a.max_io.rank() == b.max_io.rank() && a.episodes >= b.episodes
        }),
        forall|o: OffenderView| #[trigger]
            gathered(s).contains(o) <==> queried_offenders(s).contains(o),
{
    let g = gathered(s);
    let keys = gathered_keys(g);
    arranged_keeps_all(g, keys);
    arranged_in_order(g, keys, i, j);
    let p = ordering(keys)[i];
    let q = ordering(keys)[j];
    assert(keys[p][0] == falling(g[p].max_io) && keys[q][0] == falling(g[q].max_io));
    assert(keys[p][1] == u32::MAX - g[p].episodes && keys[q][1] == u32::MAX - g[q].episodes);
    reveal_with_fuel(less_from, 4);
}

/// Among episodes that ended at the same time the greatest share comes first.
pub proof fn greatest_come_first(
    open: Seq<EpisodeView>,
    closed: Seq<EpisodeView>,
    from: u64,
    to: u64,
    i: int,
    j: int,
)
    requires
        0 <= i < j < queried(open, closed, from, to).len(),
        queried(open, closed, from, to)[i].end == queried(open, closed, from, to)[j].end,
    ensures
        queried(open, closed, from, to)[i].max_io.rank() >= queried(
            open,
            closed,
            from,
            to,
        )[j].max_io.rank(),
{
    let all = (open + closed).filter(|e: EpisodeView| e.start < to && e.end >= from);
    let keys = episode_keys(all);
    arranged_keeps_all(all, keys);
    arranged_in_order(all, keys, i, j);
    let p = ordering(keys)[i];
    let q = ordering(keys)[j];
    assert(keys[p][0] == u64::MAX - all[p].end && keys[q][0] == u64::MAX - all[q].end);
    assert(keys[p][1] == falling(all[p].max_io) && keys[q][1] == falling(all[q].max_io));
    reveal_with_fuel(less_from, 4);
}

/// A query about now lists all open episodes, by falling share of the last
/// sample; one about another time lists none.
pub proof fn current_are_the_open(
    open: Seq<EpisodeView>,
    now: u64,
    from: u64,
    to: u64,
    e: EpisodeView,
)
    ensures
        queried_now(open, now, from, to).contains(e) <==> open.contains(e) && from <= now < to,
        forall|i: int, j: int|
            0 <= i < j < queried_now(open, now, from, to).len() ==> (#[trigger] queried_now(
                open,
                now,
                from,
                to,
            )[i]).last_io.rank() >= (#[trigger] queried_now(open, now, from, to)[j]).last_io.rank(),
        forall|i: int, j: int|
            0 <= i < j < queried_now(open, now, from, to).len() && (#[trigger] queried_now(
                open,
                now,
                from,
                to,
            )[i]).last_io.rank() == (#[trigger] queried_now(open, now, from, to)[j]).last_io.rank()
                ==> queried_now(open, now, from, to)[i].pid <= queried_now(open, now, from, to)[j].pid,
{
    if from <= now < to {
        let keys = current_keys(open);
        arranged_keeps_all(open, keys);
        assert(open.contains(e) <==> arranged(open, keys).contains(e));
        let r = queried_now(open, now, from, to);
        assert forall|i: int, j: int| 0 <= i < j < r.len() implies (#[trigger] r[i]).last_io.rank()
            >= (#[trigger] r[j]).last_io.rank() by {
            arranged_in_order(open, keys, i, j);
            let p = ordering(keys)[i];
            let q = ordering(keys)[j];
            assert(keys[p][0] == falling(open[p].last_io) && keys[q][0] == falling(
                open[q].last_io,
            ));
            reveal_with_fuel(less_from, 2);
        }
        assert forall|i: int, j: int|
            0 <= i < j < r.len() && (#[trigger] r[i]).last_io.rank() == (#[trigger] r[j]).last_io.rank() implies r[i].pid
            <= r[j].pid by {
            arranged_in_order(open, keys, i, j);
            let p = ordering(keys)[i];
            let q = ordering(keys)[j];
            assert(keys[p][0] == falling(open[p].last_io) && keys[q][0] == falling(
                open[q].last_io,
            ));
            assert(keys[p][1] == open[p].pid && keys[q][1] == open[q].pid);
            reveal_with_fuel(less_from, 4);
        }
    }
}

/// Whether a second is one of a minute's.
pub open spec fn holds_second(m: MinuteView, t: int) -> bool {
    m.bucket * 60 <= t < m.bucket * 60 + 60
}

/// A query is about the minutes that share a second with its time.
pub proof fn minutes_of_a_query_overlap(minutes: Seq<MinuteView>, from: u64, to: u64, m: MinuteView)
    requires
        from < to,
    ensures
        queried_minutes(minutes, from, to).contains(m) <==> minutes.contains(m) && exists|t: int|
            #[trigger] holds_second(m, t) && from <= t < to,
{
    assert(holds_second(m, m.bucket * 60));
    if m.bucket * 60 < from < m.bucket * 60 + 60 {
        assert(holds_second(m, from as int));
    }
    let pred = |x: MinuteView| x.bucket * 60 < to && x.bucket * 60 + 60 > from;
    let all = minutes.filter(pred);
    if minutes.contains(m) && pred(m) {
        let i = choose|i: int| 0 <= i < minutes.len() && minutes[i] == m;
        minutes.lemma_filter_contains(pred, i);
    }
    if all.contains(m) {
        let i = choose|i: int| 0 <= i < all.len() && all[i] == m;
        minutes.lemma_filter_pred(pred, i);
        minutes.lemma_filter_contains_rev(pred, m);
    }
}

/// A query without a beginning is about the day up to now, and one without an
/// end, or that ends before it begins, is about the time up to now.
pub proof fn queries_are_about_the_last_day(now: u64, from: u64, to: u64)
    requires
        86400 <= now < u64::MAX,
    ensures
        query_from(now, 0) == now - 86400,
        from > 0 ==> query_from(now, from) == from,
        query_to(now, from, 0) == now + 1,
        query_from(now, from) < to ==> query_to(now, from, to) == to,
        to <= query_from(now, from) ==> query_to(now, from, to) == now + 1,
{
}

/// Whether the answer holds a member with this name and text.
pub open spec fn answers(f: Seq<(Seq<char>, Seq<char>)>, name: Seq<char>, text: Seq<char>) -> bool {
    f.contains((name, text))
}

/// An answer tells the greatest share of all episodes of its time, how many they
/// are, and lists the first of them; its rates are the greatest of all minutes
/// of its time, which it lists.
pub proof fn answer_is_about_its_time(
    book: AlertBook,
    delayacct: bool,
    host: Seq<char>,
    interval: Binary64,
    now: u64,
    from: u64,
    to: u64,
)
    ensures
        ({
            let f = answer_fields(book, delayacct, host, interval, now, from, to);
            let open = episode_views(book.open@);
            let all = queried(open, episode_views(book.closed@), from, to);
            let current = queried_now(open, now, from, to);
            let minutes = queried_minutes(minute_views(book.minutes@), from, to);
            let worst = queried_offenders(all);
            let listed: int = if all.len() < 400 {
                all.len() as int
            } else {
                400
            };
            let charged: int = if worst.len() < 40 {
                worst.len() as int
            } else {
                40
            };
            &&& answers(f, "threshold"@, number_text(book.threshold))
            &&& answers(f, "delayacct"@, truth_text(delayacct))
            &&& answers(f, "host"@, string_text(host))
            &&& answers(f, "interval_s"@, number_text(interval))
            &&& answers(f, "samples"@, decimal(book.samples as int))
            &&& answers(f, "alert_samples"@, decimal(book.alert_samples as int))
            &&& answers(f, "started"@, decimal(book.started as int))
            &&& answers(f, "now"@, decimal(now as int))
            &&& answers(f, "from"@, decimal(from as int))
            &&& answers(f, "to"@, decimal(to as int))
            &&& answers(f, "open"@, decimal(current.len() as int))
            &&& answers(f, "episode_total"@, decimal(all.len() as int))
            &&& answers(f, "peak_io"@, number_text(peak_of(all).0))
            &&& answers(f, "peak_io_at"@, decimal(peak_of(all).1 as int))
            &&& answers(f, "peak_io_pid"@, decimal(peak_of(all).2 as int))
            &&& answers(f, "peak_io_cmd"@, string_text(peak_of(all).3))
            &&& answers(f, "peak_write"@, number_text(peak_write_of(minutes).0))
            &&& answers(f, "peak_write_at"@, decimal(peak_write_of(minutes).1 as int))
            &&& answers(f, "peak_read"@, number_text(peak_read_of(minutes).0))
            &&& answers(f, "peak_read_at"@, decimal(peak_read_of(minutes).1 as int))
            &&& answers(f, "current"@, array_text(episode_texts(current)))
            &&& answers(f, "episodes"@, array_text(episode_texts(all.take(listed))))
            &&& answers(f, "offenders"@, array_text(offender_texts(worst.take(charged))))
            &&& answers(f, "minutes"@, array_text(minute_answers(minutes)))
        }),
{
    let f = answer_fields(book, delayacct, host, interval, now, from, to);
    let open = episode_views(book.open@);
    let all = queried(open, episode_views(book.closed@), from, to);
    let worst = queried_offenders(all);
    assert(all.take(all.len() as int) =~= all);
    assert(worst.take(worst.len() as int) =~= worst);
    assert(f.len() == 26);
    assert(f.contains(f[2]) && f.contains(f[3]) && f.contains(f[4]));
    assert(f.contains(f[1]) && f.contains(f[5]) && f.contains(f[6]) && f.contains(f[7])
        && f.contains(f[8]) && f.contains(f[10]) && f.contains(f[11]) && f.contains(f[12])
        && f.contains(f[13]) && f.contains(f[14]) && f.contains(f[15]) && f.contains(f[16])
        && f.contains(f[17]) && f.contains(f[18]) && f.contains(f[19]) && f.contains(f[20])
        && f.contains(f[21]) && f.contains(f[22]) && f.contains(f[23]) && f.contains(f[24])
        && f.contains(f[25]));
}

proof fn lemma_answer_names()
    ensures
        "pid"@.len() == 3,
        "user"@.len() == 4 && "user"@[0] == 'u',
        "command"@.len() == 7 && "command"@[0] == 'c',
        "episodes"@.len() == 8 && "episodes"@[0] == 'e',
        "samples"@.len() == 7 && "samples"@[0] == 's',
        "over_s"@.len() == 6 && "over_s"@[0] == 'o',
        "max_io"@.len() == 6 && "max_io"@[0] == 'm',
        "max_read"@.len() == 8 && "max_read"@[0] == 'm',
        "max_write"@.len() == 9,
        "last"@.len() == 4 && "last"@[0] == 'l',
        "t"@.len() == 1,
        "over"@.len() == 4 && "over"@[0] == 'o',
        "top_io"@.len() == 6 && "top_io"@[0] == 't',
        "top_pid"@.len() == 7 && "top_pid"@[4] == 'p',
        "top_cmd"@.len() == 7 && "top_cmd"@[4] == 'c',
{
    reveal_strlit("pid");
    reveal_strlit("user");
    reveal_strlit("command");
    reveal_strlit("episodes");
    reveal_strlit("samples");
    reveal_strlit("over_s");
    reveal_strlit("max_io");
    reveal_strlit("max_read");
    reveal_strlit("max_write");
    reveal_strlit("last");
    reveal_strlit("t");
    reveal_strlit("over");
    reveal_strlit("top_io");
    reveal_strlit("top_pid");
    reveal_strlit("top_cmd");
}

/// An offender in an answer is read back with each part under its own name.
pub proof fn offenders_read_back(o: OffenderView)
    ensures
        ({
            let f = object(offender_text(o));
            &&& f is Some
            &&& field(f->0, "pid"@, 0) == Some(Datum::Number(whole(o.pid as int)))
            &&& field(f->0, "user"@, 0) == Some(Datum::Text(o.user))
            &&& field(f->0, "command"@, 0) == Some(Datum::Text(o.command))
            &&& field(f->0, "episodes"@, 0) == Some(Datum::Number(whole(o.episodes as int)))
            &&& field(f->0, "samples"@, 0) == Some(Datum::Number(whole(o.samples as int)))
            &&& field(f->0, "over_s"@, 0) == Some(Datum::Number(reread(o.over_s)))
            &&& field(f->0, "max_io"@, 0) == Some(Datum::Number(reread(o.max_io)))
            &&& field(f->0, "max_read"@, 0) == Some(Datum::Number(reread(o.max_read)))
            &&& field(f->0, "max_write"@, 0) == Some(Datum::Number(reread(o.max_write)))
            &&& field(f->0, "last"@, 0) == Some(Datum::Number(whole(o.last as int)))
        }),
{
    reveal(all_spell);
    let t = seq![
        ("pid"@, decimal(o.pid as int)),
        ("user"@, string_text(o.user)),
        ("command"@, string_text(o.command)),
        ("episodes"@, decimal(o.episodes as int)),
        ("samples"@, decimal(o.samples as int)),
        ("over_s"@, number_text(o.over_s)),
        ("max_io"@, number_text(o.max_io)),
        ("max_read"@, number_text(o.max_read)),
        ("max_write"@, number_text(o.max_write)),
        ("last"@, decimal(o.last as int)),
    ];
    let v = seq![
        Datum::Number(whole(o.pid as int)),
        Datum::Text(o.user),
        Datum::Text(o.command),
        Datum::Number(whole(o.episodes as int)),
        Datum::Number(whole(o.samples as int)),
        Datum::Number(reread(o.over_s)),
        Datum::Number(reread(o.max_io)),
        Datum::Number(reread(o.max_read)),
        Datum::Number(reread(o.max_write)),
        Datum::Number(whole(o.last as int)),
    ];
    integer_spells(o.pid as int);
    integer_spells(o.episodes as int);
    integer_spells(o.samples as int);
    integer_spells(o.last as int);
    number_spells(o.over_s);
    number_spells(o.max_io);
    number_spells(o.max_read);
    number_spells(o.max_write);
    assert(spells(t[0].1, v[0]) && spells(t[1].1, v[1]) && spells(t[2].1, v[2]));
    assert(spells(t[3].1, v[3]) && spells(t[4].1, v[4]) && spells(t[5].1, v[5]));
    assert(spells(t[6].1, v[6]) && spells(t[7].1, v[7]) && spells(t[8].1, v[8]));
    assert(spells(t[9].1, v[9]));
    object_reads_back(t, v);
    let f = named(t, v);
    lemma_answer_names();
    lemma_field(f, "pid"@, 0, 0);
    lemma_field(f, "user"@, 0, 1);
    lemma_field(f, "command"@, 0, 2);
    lemma_field(f, "episodes"@, 0, 3);
    lemma_field(f, "samples"@, 0, 4);
    lemma_field(f, "over_s"@, 0, 5);
    lemma_field(f, "max_io"@, 0, 6);
    lemma_field(f, "max_read"@, 0, 7);
    lemma_field(f, "max_write"@, 0, 8);
    lemma_field(f, "last"@, 0, 9);
}

/// A minute in an answer is read back with each part under its own name, and with
/// the second in which it begins.
pub proof fn minutes_read_back(m: MinuteView)
    ensures
        ({
            let f = object(minute_answer(m));
            &&& f is Some
            &&& field(f->0, "t"@, 0) == Some(Datum::Number(whole(60 * m.bucket)))
            &&& field(f->0, "max_io"@, 0) == Some(Datum::Number(reread(m.max_io)))
            &&& field(f->0, "max_read"@, 0) == Some(Datum::Number(reread(m.max_read)))
            &&& field(f->0, "max_write"@, 0) == Some(Datum::Number(reread(m.max_write)))
            &&& field(f->0, "over"@, 0) == Some(Datum::Number(whole(m.over as int)))
            &&& field(f->0, "top_io"@, 0) == Some(Datum::Number(reread(m.top_io)))
            &&& field(f->0, "top_pid"@, 0) == Some(Datum::Number(whole(m.top_pid as int)))
            &&& field(f->0, "top_cmd"@, 0) == Some(Datum::Text(m.top_cmd))
        }),
{
    reveal(all_spell);
    let t = seq![
        ("t"@, decimal(m.bucket * 60)),
        ("max_io"@, number_text(m.max_io)),
        ("max_read"@, number_text(m.max_read)),
        ("max_write"@, number_text(m.max_write)),
        ("over"@, decimal(m.over as int)),
        ("top_io"@, number_text(m.top_io)),
        ("top_pid"@, decimal(m.top_pid as int)),
        ("top_cmd"@, string_text(m.top_cmd)),
    ];
    let v = seq![
        Datum::Number(whole(m.bucket * 60)),
        Datum::Number(reread(m.max_io)),
        Datum::Number(reread(m.max_read)),
        Datum::Number(reread(m.max_write)),
        Datum::Number(whole(m.over as int)),
        Datum::Number(reread(m.top_io)),
        Datum::Number(whole(m.top_pid as int)),
        Datum::Text(m.top_cmd),
    ];
    integer_spells(m.bucket * 60);
    integer_spells(m.over as int);
    integer_spells(m.top_pid as int);
    number_spells(m.max_io);
    number_spells(m.max_read);
    number_spells(m.max_write);
    number_spells(m.top_io);
    assert(spells(t[0].1, v[0]) && spells(t[1].1, v[1]) && spells(t[2].1, v[2]));
    assert(spells(t[3].1, v[3]) && spells(t[4].1, v[4]) && spells(t[5].1, v[5]));
    assert(spells(t[6].1, v[6]) && spells(t[7].1, v[7]));
    object_reads_back(t, v);
    let f = named(t, v);
    lemma_answer_names();
    lemma_field(f, "t"@, 0, 0);
    lemma_field(f, "max_io"@, 0, 1);
    lemma_field(f, "max_read"@, 0, 2);
    lemma_field(f, "max_write"@, 0, 3);
    lemma_field(f, "over"@, 0, 4);
    lemma_field(f, "top_io"@, 0, 5);
    lemma_field(f, "top_pid"@, 0, 6);
    lemma_field(f, "top_cmd"@, 0, 7);
}

} // verus!
