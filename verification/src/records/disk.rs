//! A book from what was written to disk.

use vstd::prelude::*;

use crate::binary64::{whole, whole_is_exact, wholes_in_order, zero, Binary64};
use crate::index::{lemma_place, lemma_place_is, place, Index};
use crate::iotop::string_views;
use crate::json::reread_keeps_order;
use crate::numeral::{
    decimals_needed, float, lemma_fixed_characters, parse_float, shortest, shortest_reads_back,
};
use crate::order::{
    arranged, key_views, ordering, ordering_exists, ordering_is_unique, places, precedes,
    sort_order,
};
use crate::records::accounts::{kept_episodes, kept_minutes};
use crate::records::amounts::{
    clamp_threshold, cutoff, end_of_minute, held_threshold, minute_end, RETAIN_SECS,
};
use crate::records::book::{in_range, threshold_text, AlertBook};
use crate::records::lines::{
    episode_on, episode_survives, episode_text, minute_on, minute_survives, minute_text,
    parse_episode, parse_minute, stored_episode, stored_minute, EXACT_LIMIT,
};
use crate::records::minutes::{merge_minute, merged, rising, with_reading, Reading};
use crate::records::types::{
    episode_views, minute_buckets, minute_views, Episode, EpisodeView, Minute, MinuteView,
};
use crate::text::{chars_of, digit, first_solid, solid_end, space, trim, trimmed};

verus! {

/// The episodes on these lines that have not expired. A line that holds none is
/// passed over.
pub open spec fn loaded_episodes(ls: Seq<Seq<char>>, now: u64) -> Seq<EpisodeView>
    decreases ls.len(),
{
    if ls.len() == 0 {
        seq![]
    } else {
        let before = loaded_episodes(ls.drop_last(), now);
        match episode_on(ls.last()) {
            Some(e) => if e.end >= cutoff(now) {
                before.push(e)
            } else {
                before
            },
            None => before,
        }
    }
}

/// The minutes with one more line's. Lines about the same minute are merged.
pub open spec fn folded_in(minutes: Seq<MinuteView>, m: MinuteView) -> Seq<MinuteView> {
    let i = place(minute_buckets(minutes), m.bucket);
    if i < minutes.len() {
        minutes.update(i, merged(minutes[i], m))
    } else {
        minutes.push(m)
    }
}

/// The minutes on these lines that have not expired.
pub open spec fn folded_minutes(ls: Seq<Seq<char>>, now: u64) -> Seq<MinuteView>
    decreases ls.len(),
{
    if ls.len() == 0 {
        seq![]
    } else {
        let before = folded_minutes(ls.drop_last(), now);
        match minute_on(ls.last()) {
            Some(m) => if minute_end(m.bucket) <= cutoff(now) {
                before
            } else {
                folded_in(before, m)
            },
            None => before,
        }
    }
}

pub open spec fn bucket_keys(minutes: Seq<MinuteView>) -> Seq<Seq<u64>> {
    Seq::new(minutes.len(), |i: int| seq![minutes[i].bucket])
}

/// The minutes on these lines, in the order of time.
pub open spec fn loaded_minutes(ls: Seq<Seq<char>>, now: u64) -> Seq<MinuteView> {
    let m = folded_minutes(ls, now);
    arranged(m, bucket_keys(m))
}

/// The threshold that a file's text holds.
pub open spec fn stored_threshold(text: Option<Seq<char>>) -> Option<Binary64> {
    match text {
        Some(t) => match float(trimmed(t)) {
            Some(v) => Some(held_threshold(v)),
            None => None,
        },
        None => None,
    }
}

pub open spec fn str_view(s: Option<&str>) -> Option<Seq<char>> {
    match s {
        Some(t) => Some(t@),
        None => None,
    }
}

/// The threshold in the text of its file.
pub fn load_threshold(text: Option<&str>) -> (r: Option<Binary64>)
    ensures
        r == stored_threshold(str_view(text)),
{
    match text {
        Some(t) => {
            let cs = chars_of(t);
            match parse_float(trim(cs.as_slice())) {
                Some(v) => Some(clamp_threshold(&v)),
                None => None,
            }
        },
        None => None,
    }
}

/// The episodes on the lines of all files.
pub fn load_episodes(ls: &[String], now: u64) -> (r: Vec<Episode>)
    ensures
        episode_views(r@) == loaded_episodes(string_views(ls@), now),
{
    let limit = now.saturating_sub(RETAIN_SECS);
    let ghost g = string_views(ls@);
    let mut out: Vec<Episode> = Vec::new();
    assert(episode_views(out@) =~= seq![]);
    for i in 0..ls.len()
        invariant
            limit == cutoff(now),
            g == string_views(ls@),
            episode_views(out@) == loaded_episodes(g.take(i as int), now),
    {
        let ghost before = out@;
        assert(g.take(i as int + 1).drop_last() =~= g.take(i as int));
        assert(g[i as int] == ls@[i as int]@);
        if let Some(ep) = parse_episode(ls[i].as_str()) {
            let ghost e = ep@;
            if ep.end >= limit {
                out.push(ep);
                assert(episode_views(out@) =~= episode_views(before).push(e));
            }
        }
    }
    assert(g.take(g.len() as int) =~= g);
    out
}

/// The minutes on the lines of all files.
pub fn load_minutes(ls: &[String], now: u64) -> (r: Vec<Minute>)
    ensures
        minute_views(r@) == loaded_minutes(string_views(ls@), now),
{
    let limit = now.saturating_sub(RETAIN_SECS);
    let ghost g = string_views(ls@);
    let mut folded: Vec<Minute> = Vec::new();
    let mut index = Index::new();
    assert(minute_views(folded@) =~= seq![]);
    assert(minute_buckets(minute_views(folded@)) =~= seq![]);
    for i in 0..ls.len()
        invariant
            limit == cutoff(now),
            g == string_views(ls@),
            minute_views(folded@) == folded_minutes(g.take(i as int), now),
            index.of(minute_buckets(minute_views(folded@))),
    {
        let ghost before = minute_views(folded@);
        let ghost keys = minute_buckets(before);
        assert(g.take(i as int + 1).drop_last() =~= g.take(i as int));
        assert(g[i as int] == ls@[i as int]@);
        if let Some(m) = parse_minute(ls[i].as_str()) {
            let ghost mv = m@;
            if end_of_minute(m.bucket) > limit {
                match index.find(m.bucket, Ghost(keys)) {
                    Some(k) => {
                        let mut both = folded[k].clone();
                        assert(before[k as int] == folded@[k as int]@);
                        merge_minute(&mut both, &m);
                        folded.set(k, both);
                        assert(minute_views(folded@) =~= folded_in(before, mv));
                        assert(minute_buckets(minute_views(folded@)) =~= keys);
                    },
                    None => {
                        let n = folded.len();
                        let bucket = m.bucket;
                        folded.push(m);
                        index.append(bucket, n, Ghost(keys));
                        assert(minute_views(folded@) =~= folded_in(before, mv));
                        assert(minute_buckets(minute_views(folded@)) =~= keys.push(bucket));
                    },
                }
            }
        }
    }
    assert(g.take(g.len() as int) =~= g);
    let ghost f = minute_views(folded@);
    let mut keys: Vec<Vec<u64>> = Vec::new();
    for i in 0..folded.len()
        invariant
            f == minute_views(folded@),
            keys@.len() == i,
            forall|j: int| 0 <= j < i ==> (#[trigger] keys@[j])@ == bucket_keys(f)[j],
    {
        let key: Vec<u64> = vec![folded[i].bucket];
        assert(key@ =~= bucket_keys(f)[i as int]);
        keys.push(key);
    }
    assert(key_views(keys@) =~= bucket_keys(f));
    let order = sort_order(&keys);
    let mut out: Vec<Minute> = Vec::new();
    for i in 0..order.len()
        invariant
            f == minute_views(folded@),
            order@.len() == f.len(),
            places(order@) == ordering(bucket_keys(f)),
            forall|j: int| 0 <= j < order@.len() ==> #[trigger] order@[j] < f.len(),
            out@.len() == i,
            forall|j: int|
                0 <= j < i ==> (#[trigger] out@[j])@ == arranged(f, bucket_keys(f))[j],
    {
        out.push(folded[order[i]].clone());
        assert(places(order@)[i as int] == order@[i as int]);
    }
    assert(minute_views(out@) =~= arranged(f, bucket_keys(f)));
    out
}

/// Whether a book goes on with what was written to disk, and has counted nothing
/// yet.
pub open spec fn reopened(
    r: AlertBook,
    threshold: Binary64,
    now: u64,
    stored: Option<Seq<char>>,
    episode_lines: Seq<Seq<char>>,
    minute_lines: Seq<Seq<char>>,
) -> bool {
    &&& r.threshold == match stored_threshold(stored) {
        Some(t) => t,
        None => held_threshold(threshold),
    }
    &&& r.started == now
    &&& r.samples == 0
    &&& r.alert_samples == 0
    &&& r.open@.len() == 0
    &&& r.offenders@.len() == 0
    &&& episode_views(r.closed@) == kept_episodes(loaded_episodes(episode_lines, now), now)
    &&& minute_views(r.minutes@) == kept_minutes(loaded_minutes(minute_lines, now), now)
    &&& r.peak_io == zero()
    &&& r.peak_io_at == 0
    &&& r.peak_io_cmd@.len() == 0
    &&& r.peak_io_pid == 0
    &&& r.peak_write == zero()
    &&& r.peak_write_at == 0
    &&& r.peak_read == zero()
    &&& r.peak_read_at == 0
}

impl AlertBook {
    /// A book that goes on with what was written to disk: the text of the file
    /// that holds the threshold, and the lines of the files of episodes and of
    /// minutes.
    pub fn open(
        threshold: Binary64,
        now: u64,
        stored: Option<&str>,
        episode_lines: &[String],
        minute_lines: &[String],
    ) -> (r: AlertBook)
        ensures
            r.wf(),
            reopened(
                r,
                threshold,
                now,
                str_view(stored),
                string_views(episode_lines@),
                string_views(minute_lines@),
            ),
    {
        let mut book = AlertBook::new(threshold, now);
        if let Some(t) = load_threshold(stored) {
            book.threshold = t;
        }
        book.closed = load_episodes(episode_lines, now);
        book.minutes = load_minutes(minute_lines, now);
        book.retain(now);
        book
    }
}

/// What was loaded has not expired.
pub proof fn loaded_is_kept(ls: Seq<Seq<char>>, now: u64)
    ensures
        kept_episodes(loaded_episodes(ls, now), now) == loaded_episodes(ls, now),
    decreases ls.len(),
{
    reveal(Seq::filter);
    if ls.len() > 0 {
        loaded_is_kept(ls.drop_last(), now);
        let before = loaded_episodes(ls.drop_last(), now);
        match episode_on(ls.last()) {
            Some(e) => {
                if e.end >= cutoff(now) {
                    assert(before.push(e).drop_last() =~= before);
                }
            },
            None => {},
        }
    }
}

/// A text without spaces is what is left of it and a line's end.
proof fn lemma_line_trimmed(s: Seq<char>)
    requires
        s.len() > 0,
        forall|i: int| 0 <= i < s.len() ==> !space(#[trigger] s[i]),
    ensures
        trimmed(s + "\n"@) == s,
{
    reveal_strlit("\n");
    let t = s + "\n"@;
    let n = s.len() as int;
    assert(t[0] == s[0] && t[n - 1] == s[n - 1] && t[n] == '\n');
    assert(first_solid(t, 0) == 0);
    assert(solid_end(t, 0, n) == n);
    assert(solid_end(t, 0, n + 1) == n);
    assert(t.subrange(0, n) =~= s);
}

/// A book that is opened on the text of a threshold's file has that threshold.
pub proof fn saved_threshold_loads(threshold: Binary64)
    requires
        in_range(threshold),
    ensures
        stored_threshold(Some(threshold_text(threshold))) == Some(threshold),
{
    let s = shortest(threshold);
    wholes_in_order(0, 1);
    whole_is_exact(0);
    whole_is_exact(100);
    shortest_reads_back(threshold);
    lemma_fixed_characters(threshold, decimals_needed(threshold, 0));
    assert forall|i: int| 0 <= i < s.len() implies !space(#[trigger] s[i]) by {
        assert(digit(s[i]) || s[i] == '.' || s[i] == '-');
    }
    lemma_line_trimmed(s);
}

/// What is left of episodes once they were written and read.
pub open spec fn stored_episodes(es: Seq<EpisodeView>) -> Seq<EpisodeView> {
    Seq::new(es.len(), |i: int| stored_episode(es[i]))
}

/// The lines of episodes.
pub open spec fn lines_of_episodes(es: Seq<EpisodeView>) -> Seq<Seq<char>> {
    Seq::new(es.len(), |i: int| episode_text(es[i]))
}

/// A book that is opened on the lines of episodes that have not expired holds
/// those episodes.
pub proof fn saved_episodes_load(es: Seq<EpisodeView>, now: u64)
    requires
        forall|i: int|
            0 <= i < es.len() ==> (#[trigger] es[i]).start <= EXACT_LIMIT && es[i].end <= EXACT_LIMIT
                && es[i].end >= cutoff(now),
    ensures
        loaded_episodes(lines_of_episodes(es), now) == stored_episodes(es),
        kept_episodes(loaded_episodes(lines_of_episodes(es), now), now) == stored_episodes(es),
    decreases es.len(),
{
    let ls = lines_of_episodes(es);
    if es.len() > 0 {
        let h = es.drop_last();
        assert forall|i: int| 0 <= i < h.len() implies (#[trigger] h[i]).start <= EXACT_LIMIT
            && h[i].end <= EXACT_LIMIT && h[i].end >= cutoff(now) by {
            assert(h[i] == es[i]);
        }
        saved_episodes_load(h, now);
        assert(ls.drop_last() =~= lines_of_episodes(h));
        assert(es[es.len() - 1].end >= cutoff(now));
        episode_survives(es.last());
        assert(stored_episodes(es) =~= stored_episodes(h).push(stored_episode(es.last())));
    } else {
        assert(stored_episodes(es) =~= seq![]);
    }
    loaded_is_kept(ls, now);
}

/// What is left of minutes once they were written and read.
pub open spec fn stored_minutes(ms: Seq<MinuteView>) -> Seq<MinuteView> {
    Seq::new(ms.len(), |i: int| stored_minute(ms[i]))
}

/// The lines of minutes.
pub open spec fn lines_of_minutes(ms: Seq<MinuteView>) -> Seq<Seq<char>> {
    Seq::new(ms.len(), |i: int| minute_text(ms[i]))
}

proof fn lemma_saved_minutes_fold(ms: Seq<MinuteView>, now: u64)
    requires
        rising(ms),
        forall|i: int|
            0 <= i < ms.len() ==> (#[trigger] ms[i]).bucket <= EXACT_LIMIT && minute_end(
                ms[i].bucket,
            ) > cutoff(now),
    ensures
        folded_minutes(lines_of_minutes(ms), now) == stored_minutes(ms),
    decreases ms.len(),
{
    let ls = lines_of_minutes(ms);
    if ms.len() > 0 {
        let h = ms.drop_last();
        let m = ms.last();
        assert forall|i: int| 0 <= i < h.len() implies (#[trigger] h[i]).bucket <= EXACT_LIMIT
            && minute_end(h[i].bucket) > cutoff(now) by {
            assert(h[i] == ms[i]);
        }
        assert(rising(h)) by {
            assert forall|i: int, j: int| 0 <= i < j < h.len() implies (#[trigger] h[i]).bucket < (
            #[trigger] h[j]).bucket by {
                assert(ms[i].bucket < ms[j].bucket);
            }
        }
        lemma_saved_minutes_fold(h, now);
        assert(ls.drop_last() =~= lines_of_minutes(h));
        assert(ms[ms.len() - 1].bucket <= EXACT_LIMIT);
        minute_survives(m);
        let before = stored_minutes(h);
        let keys = minute_buckets(before);
        assert forall|j: int| 0 <= j < keys.len() implies keys[j] != m.bucket by {
            assert(ms[j].bucket < ms[ms.len() - 1].bucket);
        }
        lemma_place_is(keys, m.bucket, keys.len() as int);
        assert(stored_minutes(ms) =~= before.push(stored_minute(m)));
    } else {
        assert(stored_minutes(ms) =~= seq![]);
    }
}

/// A book that is opened on the lines of minutes that have not expired holds
/// those minutes.
pub proof fn saved_minutes_load(ms: Seq<MinuteView>, now: u64)
    requires
        rising(ms),
        forall|i: int|
            0 <= i < ms.len() ==> (#[trigger] ms[i]).bucket <= EXACT_LIMIT && minute_end(
                ms[i].bucket,
            ) > cutoff(now),
    ensures
        loaded_minutes(lines_of_minutes(ms), now) == stored_minutes(ms),
{
    lemma_saved_minutes_fold(ms, now);
    let s = stored_minutes(ms);
    let keys = bucket_keys(s);
    let p = Seq::new(s.len(), |i: int| i);
    assert forall|i: int, j: int| 0 <= i < j < p.len() implies precedes(
        keys,
        #[trigger] p[i],
        #[trigger] p[j],
    ) by {
        assert(ms[i].bucket < ms[j].bucket);
        assert(keys[i] =~= seq![ms[i].bucket]);
        assert(keys[j] =~= seq![ms[j].bucket]);
        assert(keys[i][0] < keys[j][0]);
    }
    assert forall|a: int| 0 <= a < keys.len() implies #[trigger] p.contains(a) by {
        assert(p[a] == a);
    }
    ordering_is_unique(keys, p);
    assert(arranged(s, keys) =~= s);
}

/// Whether a number is finite and has no sign, as rates and shares are.
pub open spec fn plain(x: Binary64) -> bool {
    x.finite() && !x.negative()
}

pub open spec fn plain_minute(m: MinuteView) -> bool {
    plain(m.max_io) && plain(m.max_read) && plain(m.max_write)
}

/// Whether a sample's numbers are finite and have no sign, and a process with a
/// share has a command.
pub open spec fn plain_reading(r: Reading) -> bool {
    &&& plain(r.top_io) && plain(r.read) && plain(r.write)
    &&& zero().below(r.top_io) ==> r.top_cmd.len() > 0
}

/// Of two lines about a minute, one written before a sample and one after it,
/// the later holds all that the two hold.
pub proof fn later_line_holds_all(m: MinuteView, r: Reading)
    requires
        plain_minute(m),
        plain_reading(r),
    ensures
        plain_minute(with_reading(m, r)),
        merged(stored_minute(m), stored_minute(with_reading(m, r))) == stored_minute(
            with_reading(m, r),
        ),
{
    let w = with_reading(m, r);
    reread_keeps_order(m.max_io, w.max_io);
    reread_keeps_order(m.max_read, w.max_read);
    reread_keeps_order(m.max_write, w.max_write);
}

/// The states that a minute goes through with samples.
pub open spec fn states(m: MinuteView, rs: Seq<Reading>) -> Seq<MinuteView>
    decreases rs.len(),
{
    if rs.len() == 0 {
        seq![m]
    } else {
        let before = states(m, rs.drop_last());
        before.push(with_reading(before.last(), rs.last()))
    }
}

/// The lines that a minute leaves while it lasts are read as its last state.
pub proof fn minute_loads_as_it_ended(m: MinuteView, rs: Seq<Reading>, now: u64)
    requires
        plain_minute(m),
        forall|i: int| 0 <= i < rs.len() ==> plain_reading(#[trigger] rs[i]),
        m.bucket <= EXACT_LIMIT,
        minute_end(m.bucket) > cutoff(now),
    ensures
        states(m, rs).len() == rs.len() + 1,
        states(m, rs).last().bucket == m.bucket,
        plain_minute(states(m, rs).last()),
        folded_minutes(lines_of_minutes(states(m, rs)), now) == seq![
            stored_minute(states(m, rs).last()),
        ],
    decreases rs.len(),
{
    let all = states(m, rs);
    let ls = lines_of_minutes(all);
    if rs.len() == 0 {
        minute_survives(m);
        let none = lines_of_minutes(seq![]);
        assert(ls.drop_last() =~= none);
        assert(folded_minutes(none, now) =~= seq![]);
        assert(minute_buckets(seq![]) =~= seq![]);
        lemma_place_is(seq![], m.bucket, 0);
        assert(folded_minutes(ls, now) =~= seq![stored_minute(m)]);
    } else {
        let h = rs.drop_last();
        let before = states(m, h);
        assert forall|i: int| 0 <= i < h.len() implies plain_reading(#[trigger] h[i]) by {
            assert(h[i] == rs[i]);
        }
        assert(plain_reading(rs[rs.len() - 1]));
        minute_loads_as_it_ended(m, h, now);
        later_line_holds_all(before.last(), rs.last());
        minute_survives(all.last());
        assert(ls.drop_last() =~= lines_of_minutes(before));
        let f = folded_minutes(ls.drop_last(), now);
        let keys = minute_buckets(f);
        assert(keys[0] == m.bucket);
        lemma_place_is(keys, m.bucket, 0);
        assert(folded_minutes(ls, now) =~= seq![stored_minute(all.last())]);
    }
}

proof fn lemma_all_kept(ms: Seq<MinuteView>, now: u64)
    requires
        forall|i: int|
            0 <= i < ms.len() ==> minute_end((#[trigger] ms[i]).bucket) > cutoff(now),
    ensures
        kept_minutes(ms, now) == ms,
    decreases ms.len(),
{
    reveal(Seq::filter);
    if ms.len() > 0 {
        let h = ms.drop_last();
        assert forall|i: int| 0 <= i < h.len() implies minute_end((#[trigger] h[i]).bucket) > cutoff(
            now,
        ) by {
            assert(h[i] == ms[i]);
        }
        lemma_all_kept(h, now);
        assert(minute_end(ms[ms.len() - 1].bucket) > cutoff(now));
        assert(h.push(ms.last()) =~= ms);
    }
}

/// A book that is opened again holds what was saved: the threshold, the episodes
/// and the minutes that have not expired, whatever threshold it is opened with.
/// No episode goes on.
pub proof fn reopened_holds_what_was_saved(
    r: AlertBook,
    other: Binary64,
    now: u64,
    threshold: Binary64,
    es: Seq<EpisodeView>,
    ms: Seq<MinuteView>,
)
    requires
        in_range(threshold),
        forall|i: int|
            0 <= i < es.len() ==> (#[trigger] es[i]).start <= EXACT_LIMIT && es[i].end <= EXACT_LIMIT
                && es[i].end >= cutoff(now),
        rising(ms),
        forall|i: int|
            0 <= i < ms.len() ==> (#[trigger] ms[i]).bucket <= EXACT_LIMIT && minute_end(
                ms[i].bucket,
            ) > cutoff(now),
        reopened(
            r,
            other,
            now,
            Some(threshold_text(threshold)),
            lines_of_episodes(es),
            lines_of_minutes(ms),
        ),
    ensures
        r.threshold == threshold,
        episode_views(r.closed@) == stored_episodes(es),
        minute_views(r.minutes@) == stored_minutes(ms),
        r.open@.len() == 0,
        r.started == now,
{
    saved_threshold_loads(threshold);
    saved_episodes_load(es, now);
    saved_minutes_load(ms, now);
    let s = stored_minutes(ms);
    assert forall|i: int| 0 <= i < s.len() implies minute_end((#[trigger] s[i]).bucket) > cutoff(
        now,
    ) by {
        assert(s[i] == stored_minute(ms[i]));
    }
    lemma_all_kept(s, now);
}

/// Without a threshold on disk a book has the one it is opened with, held within
/// 1 and 100.
pub proof fn fresh_book_takes_its_threshold(
    r: AlertBook,
    percent: int,
    now: u64,
    es: Seq<Seq<char>>,
    ms: Seq<Seq<char>>,
)
    requires
        1 <= percent <= 100,
        reopened(r, whole(percent), now, None, es, ms),
    ensures
        r.threshold == whole(percent),
{
    whole_is_exact(percent);
    if percent > 1 {
        wholes_in_order(1, percent);
    }
    if percent < 100 {
        wholes_in_order(percent, 100);
    }
    whole_is_exact(1);
    whole_is_exact(100);
}

proof fn lemma_folded(ls: Seq<Seq<char>>, now: u64)
    ensures
        forall|i: int|
            0 <= i < folded_minutes(ls, now).len() ==> minute_end(
                (#[trigger] folded_minutes(ls, now)[i]).bucket,
            ) > cutoff(now),
        forall|i: int, j: int|
            0 <= i < j < folded_minutes(ls, now).len() ==> (#[trigger] folded_minutes(
                ls,
                now,
            )[i]).bucket != (#[trigger] folded_minutes(ls, now)[j]).bucket,
    decreases ls.len(),
{
    if ls.len() > 0 {
        lemma_folded(ls.drop_last(), now);
        let before = folded_minutes(ls.drop_last(), now);
        let all = folded_minutes(ls, now);
        match minute_on(ls.last()) {
            Some(m) => {
                if minute_end(m.bucket) > cutoff(now) {
                    let keys = minute_buckets(before);
                    let k = place(keys, m.bucket);
                    lemma_place(keys, m.bucket);
                    assert forall|i: int, j: int| 0 <= i < j < all.len() implies (#[trigger] all[i]).bucket
                        != (#[trigger] all[j]).bucket by {
                        if j < before.len() {
                            assert(before[i].bucket != before[j].bucket);
                            assert(all[i].bucket == before[i].bucket);
                            assert(all[j].bucket == before[j].bucket);
                        } else {
                            assert(keys[i] != m.bucket);
                        }
                    }
                    assert forall|i: int| 0 <= i < all.len() implies minute_end(
                        (#[trigger] all[i]).bucket,
                    ) > cutoff(now) by {
                        if i < before.len() {
                            assert(all[i].bucket == before[i].bucket);
                        }
                    }
                }
            },
            None => {},
        }
    }
}

/// Whatever lines are loaded, minutes come in the order of time, each once, and
/// none has expired.
pub proof fn loaded_minutes_rise(ls: Seq<Seq<char>>, now: u64)
    ensures
        rising(loaded_minutes(ls, now)),
        forall|i: int|
            0 <= i < loaded_minutes(ls, now).len() ==> minute_end(
                (#[trigger] loaded_minutes(ls, now)[i]).bucket,
            ) > cutoff(now),
{
    let s = folded_minutes(ls, now);
    let keys = bucket_keys(s);
    let p = ordering(keys);
    let r = loaded_minutes(ls, now);
    lemma_folded(ls, now);
    ordering_exists(keys);
    assert forall|i: int, j: int| 0 <= i < j < r.len() implies (#[trigger] r[i]).bucket < (
    #[trigger] r[j]).bucket by {
        assert(precedes(keys, p[i], p[j]));
        assert(r[i] == s[p[i]] && r[j] == s[p[j]]);
        assert(keys[p[i]] =~= seq![s[p[i]].bucket]);
        assert(keys[p[j]] =~= seq![s[p[j]].bucket]);
        reveal_with_fuel(crate::order::less_from, 3);
        assert(p[i] != p[j]);
        if p[i] < p[j] {
            assert(s[p[i]].bucket != s[p[j]].bucket);
        } else {
            assert(s[p[j]].bucket != s[p[i]].bucket);
        }
        assert(keys[p[i]][0] == s[p[i]].bucket && keys[p[j]][0] == s[p[j]].bucket);
    }
    assert forall|i: int| 0 <= i < r.len() implies minute_end((#[trigger] r[i]).bucket) > cutoff(
        now,
    ) by {
        assert(r[i] == s[p[i]]);
    }
}

} // verus!
