//! What a sample does to open episodes and offenders.

use vstd::arithmetic::power2::lemma_pow2_pos;
use vstd::prelude::*;

use crate::binary64::{
    exact_is_nearest, greater_is_greatest, greatest_goes_on, greatest_of, lemma_gap_of_one,
    lemma_scaled_natural, lemma_scaled_order, lemma_total_grows, nearest, nearest_exists,
    nearest_keeps_order, scaled, sum, sum_of_wholes, total_of, unit, whole, whole_is_exact, zero,
    Binary64, STEP,
};
use crate::index::{lemma_place, place};
use crate::iotop::falling;
use crate::order::{
    arranged, arranged_in_order, arranged_keeps_all, less_from, ordering, ordering_exists, precedes,
};
use crate::records::amounts::{cutoff, epsilon, minute_end, next32, MAX_OFFENDERS, RETAIN_SECS};
use crate::records::types::{
    episode_pids, offender_pids, EpisodeView, MinuteView, OffenderView, SnapView,
};

verus! {

/// Whether a process is over the threshold.
pub open spec fn over(threshold: Binary64, p: SnapView) -> bool {
    threshold.at_most(sum(p.io, epsilon()))
}

/// An episode that begins with this sample.
pub open spec fn begun_episode(now: u64, elapsed: Binary64, p: SnapView) -> EpisodeView {
    EpisodeView {
        pid: p.pid,
        user: p.user,
        command: p.command,
        start: now,
        end: now,
        samples: 1,
        over_s: elapsed,
        max_io: p.io,
        last_io: p.io,
        max_read: p.read,
        max_write: p.write,
        open: true,
    }
}

/// The later of two commands; an empty one does not count.
pub open spec fn latest(earlier: Seq<char>, later: Seq<char>) -> Seq<char> {
    if later.len() == 0 {
        earlier
    } else {
        later
    }
}

/// An episode that goes on with this sample.
pub open spec fn extended(e: EpisodeView, now: u64, elapsed: Binary64, p: SnapView) -> EpisodeView {
    EpisodeView {
        user: p.user,
        command: latest(e.command, p.command),
        end: now,
        samples: next32(e.samples),
        over_s: sum(e.over_s, elapsed),
        max_io: e.max_io.greater(p.io),
        last_io: p.io,
        max_read: e.max_read.greater(p.read),
        max_write: e.max_write.greater(p.write),
        ..e
    }
}

/// The open episodes with this sample: the process's own goes on, or one begins.
pub open spec fn touched_open(
    open: Seq<EpisodeView>,
    now: u64,
    elapsed: Binary64,
    p: SnapView,
) -> Seq<EpisodeView> {
    let i = place(episode_pids(open), p.pid as u64);
    if i < open.len() {
        open.update(i, extended(open[i], now, elapsed, p))
    } else {
        open.push(begun_episode(now, elapsed, p))
    }
}

/// An offender without episodes.
pub open spec fn new_offender(now: u64, p: SnapView) -> OffenderView {
    OffenderView {
        pid: p.pid,
        user: p.user,
        command: p.command,
        episodes: 0,
        samples: 0,
        over_s: zero(),
        max_io: zero(),
        max_read: zero(),
        max_write: zero(),
        last: now,
    }
}

/// An offender with one more sample, and one more episode where it begins with
/// this one.
pub open spec fn charged(
    o: OffenderView,
    begins: bool,
    now: u64,
    elapsed: Binary64,
    p: SnapView,
) -> OffenderView {
    OffenderView {
        user: p.user,
        command: latest(o.command, p.command),
        episodes: if begins {
            next32(o.episodes)
        } else {
            o.episodes
        },
        samples: next32(o.samples),
        over_s: sum(o.over_s, elapsed),
        max_io: o.max_io.greater(p.io),
        max_read: o.max_read.greater(p.read),
        max_write: o.max_write.greater(p.write),
        last: now,
        ..o
    }
}

/// The offenders with this sample. An offender that was dropped is taken in
/// again when its next episode begins.
pub open spec fn touched_offenders(
    offenders: Seq<OffenderView>,
    begins: bool,
    now: u64,
    elapsed: Binary64,
    p: SnapView,
) -> Seq<OffenderView> {
    let i = place(offender_pids(offenders), p.pid as u64);
    if i < offenders.len() {
        offenders.update(i, charged(offenders[i], begins, now, elapsed, p))
    } else if begins {
        offenders.push(charged(new_offender(now, p), true, now, elapsed, p))
    } else {
        offenders
    }
}

/// Open episodes and offenders.
pub struct Accounts {
    pub open: Seq<EpisodeView>,
    pub offenders: Seq<OffenderView>,
}

/// A process has one open episode at most and is one offender at most, and the
/// open episodes are open.
pub open spec fn in_order(a: Accounts) -> bool {
    &&& episode_pids(a.open).no_duplicates()
    &&& offender_pids(a.offenders).no_duplicates()
    &&& forall|i: int| 0 <= i < a.open.len() ==> (#[trigger] a.open[i]).open
}

/// The accounts with this sample of a process that is over the threshold.
pub open spec fn touched(a: Accounts, now: u64, elapsed: Binary64, p: SnapView) -> Accounts {
    let begins = place(episode_pids(a.open), p.pid as u64) == a.open.len();
    Accounts {
        open: touched_open(a.open, now, elapsed, p),
        offenders: touched_offenders(a.offenders, begins, now, elapsed, p),
    }
}

/// The accounts with all processes of one sample.
pub open spec fn touched_by_all(
    a: Accounts,
    now: u64,
    elapsed: Binary64,
    threshold: Binary64,
    procs: Seq<SnapView>,
) -> Accounts
    decreases procs.len(),
{
    if procs.len() == 0 {
        a
    } else {
        let before = touched_by_all(a, now, elapsed, threshold, procs.drop_last());
        if over(threshold, procs.last()) {
            touched(before, now, elapsed, procs.last())
        } else {
            before
        }
    }
}

/// The processes over the threshold.
pub open spec fn over_pids(threshold: Binary64, procs: Seq<SnapView>) -> Seq<u32>
    decreases procs.len(),
{
    if procs.len() == 0 {
        seq![]
    } else {
        let before = over_pids(threshold, procs.drop_last());
        if over(threshold, procs.last()) {
            before.push(procs.last().pid)
        } else {
            before
        }
    }
}

/// The process with the greatest share, the first of them: its share, command
/// and number.
pub open spec fn hottest(procs: Seq<SnapView>) -> (Binary64, Seq<char>, u32)
    decreases procs.len(),
{
    if procs.len() == 0 {
        (zero(), seq![], 0)
    } else {
        let before = hottest(procs.drop_last());
        let p = procs.last();
        if before.0.below(p.io) {
            (p.io, p.command, p.pid)
        } else {
            before
        }
    }
}

/// An episode that ends.
pub open spec fn ended(e: EpisodeView, now: u64) -> EpisodeView {
    EpisodeView { end: now, open: false, ..e }
}

/// The episodes that go on.
pub open spec fn going_on(open: Seq<EpisodeView>, still: Seq<u32>) -> Seq<EpisodeView> {
    open.filter(|e: EpisodeView| still.contains(e.pid))
}

/// The episodes that end, in the order in which they began.
pub open spec fn ending(open: Seq<EpisodeView>, still: Seq<u32>, now: u64) -> Seq<EpisodeView>
    decreases open.len(),
{
    if open.len() == 0 {
        seq![]
    } else {
        let before = ending(open.drop_last(), still, now);
        if still.contains(open.last().pid) {
            before
        } else {
            before.push(ended(open.last(), now))
        }
    }
}

/// The episodes that have not expired.
pub open spec fn kept_episodes(closed: Seq<EpisodeView>, now: u64) -> Seq<EpisodeView> {
    closed.filter(|e: EpisodeView| e.end >= cutoff(now))
}

/// The minutes that have not expired.
pub open spec fn kept_minutes(minutes: Seq<MinuteView>, now: u64) -> Seq<MinuteView> {
    minutes.filter(|m: MinuteView| minute_end(m.bucket) > cutoff(now))
}

/// What offenders are ranked by: the greatest share, then the most samples.
pub open spec fn offender_keys(offenders: Seq<OffenderView>) -> Seq<Seq<u64>> {
    Seq::new(
        offenders.len(),
        |i: int|
            seq![falling(offenders[i].max_io), (u32::MAX - offenders[i].samples) as u64],
    )
}

/// The offenders that are remembered: all of them, or where they are too many
/// the first of the ranking and those with an open episode.
pub open spec fn remembered(offenders: Seq<OffenderView>, open: Seq<EpisodeView>) -> Seq<OffenderView> {
    if offenders.len() <= MAX_OFFENDERS + 8 {
        offenders
    } else {
        let top = offender_pids(arranged(offenders, offender_keys(offenders)).take(MAX_OFFENDERS as int));
        offenders.filter(
            |o: OffenderView|
                top.contains(o.pid as u64) || episode_pids(open).contains(o.pid as u64),
        )
    }
}

// ---------------------------------------------------------------------------
// The accounts stay in order

/// A sample leaves the accounts in order.
pub proof fn touched_in_order(a: Accounts, now: u64, elapsed: Binary64, p: SnapView)
    requires
        in_order(a),
    ensures
        in_order(touched(a, now, elapsed, p)),
{
    let b = touched(a, now, elapsed, p);
    let open_keys = episode_pids(a.open);
    let off_keys = offender_pids(a.offenders);
    let pid = p.pid as u64;
    lemma_place(open_keys, pid);
    lemma_place(off_keys, pid);
    if place(open_keys, pid) < a.open.len() {
        assert(episode_pids(b.open) =~= open_keys);
    } else {
        assert(episode_pids(b.open) =~= open_keys.push(pid));
    }
    if place(off_keys, pid) < a.offenders.len() {
        assert(offender_pids(b.offenders) =~= off_keys);
    } else if place(open_keys, pid) == a.open.len() {
        assert(offender_pids(b.offenders) =~= off_keys.push(pid));
    }
    assert forall|i: int| 0 <= i < b.open.len() implies (#[trigger] b.open[i]).open by {
        if i < a.open.len() {
            assert(a.open[i].open);
        }
    }
}

proof fn lemma_all_in_order(
    a: Accounts,
    now: u64,
    elapsed: Binary64,
    threshold: Binary64,
    procs: Seq<SnapView>,
)
    requires
        in_order(a),
    ensures
        in_order(touched_by_all(a, now, elapsed, threshold, procs)),
    decreases procs.len(),
{
    if procs.len() > 0 {
        lemma_all_in_order(a, now, elapsed, threshold, procs.drop_last());
        if over(threshold, procs.last()) {
            touched_in_order(
                touched_by_all(a, now, elapsed, threshold, procs.drop_last()),
                now,
                elapsed,
                procs.last(),
            );
        }
    }
}

/// Picking items keeps what is unique so.
proof fn lemma_picked_episodes(s: Seq<EpisodeView>, pred: spec_fn(EpisodeView) -> bool)
    requires
        episode_pids(s).no_duplicates(),
        forall|i: int| 0 <= i < s.len() ==> (#[trigger] s[i]).open,
    ensures
        episode_pids(s.filter(pred)).no_duplicates(),
        forall|i: int| 0 <= i < s.filter(pred).len() ==> (#[trigger] s.filter(pred)[i]).open,
        forall|k: u64|
            episode_pids(s.filter(pred)).contains(k) ==> #[trigger] episode_pids(s).contains(k),
    decreases s.len(),
{
    reveal(Seq::filter);
    if s.len() > 0 {
        let h = s.drop_last();
        let all = episode_pids(s);
        assert(episode_pids(h) =~= all.drop_last());
        assert forall|i: int| 0 <= i < h.len() implies (#[trigger] h[i]).open by {
            assert(s[i].open);
        }
        lemma_picked_episodes(h, pred);
        let kept = h.filter(pred);
        let k = s.last().pid as u64;
        assert(all[s.len() - 1] == k);
        if pred(s.last()) {
            let r = kept.push(s.last());
            assert(episode_pids(r) =~= episode_pids(kept).push(k));
            if episode_pids(kept).contains(k) {
                assert(episode_pids(h).contains(k));
                let j = choose|j: int| 0 <= j < h.len() && episode_pids(h)[j] == k;
                assert(all[j] == k);
            }
        }
        assert forall|x: u64| episode_pids(s.filter(pred)).contains(x) implies #[trigger] all.contains(
            x,
        ) by {
            if pred(s.last()) && x == k {
                assert(all[s.len() - 1] == x);
            } else {
                assert(episode_pids(kept).contains(x)) by {
                    let q = s.filter(pred);
                    let j = choose|j: int| 0 <= j < q.len() && episode_pids(q)[j] == x;
                    if j < kept.len() {
                        assert(episode_pids(kept)[j] == x);
                    }
                }
                assert(episode_pids(h).contains(x));
                let j = choose|j: int| 0 <= j < h.len() && episode_pids(h)[j] == x;
                assert(all[j] == x);
            }
        }
    }
}

proof fn lemma_picked_offenders(s: Seq<OffenderView>, pred: spec_fn(OffenderView) -> bool)
    requires
        offender_pids(s).no_duplicates(),
    ensures
        offender_pids(s.filter(pred)).no_duplicates(),
        forall|k: u64|
            offender_pids(s.filter(pred)).contains(k) ==> #[trigger] offender_pids(s).contains(k),
    decreases s.len(),
{
    reveal(Seq::filter);
    if s.len() > 0 {
        let h = s.drop_last();
        let all = offender_pids(s);
        assert(offender_pids(h) =~= all.drop_last());
        lemma_picked_offenders(h, pred);
        let kept = h.filter(pred);
        let k = s.last().pid as u64;
        assert(all[s.len() - 1] == k);
        if pred(s.last()) {
            let r = kept.push(s.last());
            assert(offender_pids(r) =~= offender_pids(kept).push(k));
            if offender_pids(kept).contains(k) {
                assert(offender_pids(h).contains(k));
                let j = choose|j: int| 0 <= j < h.len() && offender_pids(h)[j] == k;
                assert(all[j] == k);
            }
        }
        assert forall|x: u64| offender_pids(s.filter(pred)).contains(x) implies #[trigger] all.contains(
            x,
        ) by {
            if pred(s.last()) && x == k {
                assert(all[s.len() - 1] == x);
            } else {
                assert(offender_pids(kept).contains(x)) by {
                    let q = s.filter(pred);
                    let j = choose|j: int| 0 <= j < q.len() && offender_pids(q)[j] == x;
                    if j < kept.len() {
                        assert(offender_pids(kept)[j] == x);
                    }
                }
                assert(offender_pids(h).contains(x));
                let j = choose|j: int| 0 <= j < h.len() && offender_pids(h)[j] == x;
                assert(all[j] == x);
            }
        }
    }
}

/// The accounts once a sample was taken in: what goes on, and whom the book
/// remembers.
pub open spec fn settled(
    a: Accounts,
    now: u64,
    elapsed: Binary64,
    threshold: Binary64,
    procs: Seq<SnapView>,
) -> Accounts {
    let b = touched_by_all(a, now, elapsed, threshold, procs);
    let open = going_on(b.open, over_pids(threshold, procs));
    Accounts { open, offenders: remembered(b.offenders, open) }
}

/// A sample leaves the accounts in order.
pub proof fn settled_in_order(
    a: Accounts,
    now: u64,
    elapsed: Binary64,
    threshold: Binary64,
    procs: Seq<SnapView>,
)
    requires
        in_order(a),
    ensures
        in_order(settled(a, now, elapsed, threshold, procs)),
{
    let b = touched_by_all(a, now, elapsed, threshold, procs);
    lemma_all_in_order(a, now, elapsed, threshold, procs);
    let still = over_pids(threshold, procs);
    lemma_picked_episodes(b.open, |e: EpisodeView| still.contains(e.pid));
    let open = going_on(b.open, still);
    if b.offenders.len() > MAX_OFFENDERS + 8 {
        let top = offender_pids(
            arranged(b.offenders, offender_keys(b.offenders)).take(MAX_OFFENDERS as int),
        );
        lemma_picked_offenders(
            b.offenders,
            |o: OffenderView|
                top.contains(o.pid as u64) || episode_pids(open).contains(o.pid as u64),
        );
    }
}

// ---------------------------------------------------------------------------
// What a sample leaves behind

/// Whether one of the episodes is of this process.
pub open spec fn has_episode(s: Seq<EpisodeView>, pid: u32) -> bool {
    exists|i: int| 0 <= i < s.len() && (#[trigger] s[i]).pid == pid
}

proof fn lemma_over_listed(threshold: Binary64, procs: Seq<SnapView>, k: int)
    requires
        0 <= k < procs.len(),
        over(threshold, procs[k]),
    ensures
        over_pids(threshold, procs).contains(procs[k].pid),
    decreases procs.len(),
{
    let all = over_pids(threshold, procs);
    let before = over_pids(threshold, procs.drop_last());
    if k == procs.len() - 1 {
        assert(all[before.len() as int] == procs[k].pid);
    } else {
        lemma_over_listed(threshold, procs.drop_last(), k);
        let j = choose|j: int| 0 <= j < before.len() && before[j] == procs[k].pid;
        assert(all[j] == procs[k].pid);
    }
}

/// A sample closes no episode and opens that of its process.
proof fn lemma_touched_has(a: Accounts, now: u64, elapsed: Binary64, p: SnapView, pid: u32)
    requires
        has_episode(a.open, pid) || p.pid == pid,
    ensures
        has_episode(touched(a, now, elapsed, p).open, pid),
{
    let b = touched(a, now, elapsed, p).open;
    let keys = episode_pids(a.open);
    let i = place(keys, p.pid as u64);
    lemma_place(keys, p.pid as u64);
    if p.pid == pid {
        if i < a.open.len() {
            assert(keys[i] == a.open[i].pid as u64);
            assert(b[i].pid == pid);
        } else {
            assert(b[a.open.len() as int].pid == pid);
        }
    } else {
        let j = choose|j: int| 0 <= j < a.open.len() && (#[trigger] a.open[j]).pid == pid;
        assert(b[j].pid == pid);
    }
}

proof fn lemma_all_have(
    a: Accounts,
    now: u64,
    elapsed: Binary64,
    threshold: Binary64,
    procs: Seq<SnapView>,
    pid: u32,
)
    requires
        has_episode(a.open, pid) || over_pids(threshold, procs).contains(pid),
    ensures
        has_episode(touched_by_all(a, now, elapsed, threshold, procs).open, pid),
    decreases procs.len(),
{
    if procs.len() == 0 {
        assert(over_pids(threshold, procs) =~= seq![]);
    } else {
        let h = procs.drop_last();
        let p = procs.last();
        let before = over_pids(threshold, h);
        let b = touched_by_all(a, now, elapsed, threshold, h);
        if has_episode(a.open, pid) || before.contains(pid) {
            lemma_all_have(a, now, elapsed, threshold, h, pid);
            if over(threshold, p) {
                lemma_touched_has(b, now, elapsed, p, pid);
            }
        } else {
            let all = over_pids(threshold, procs);
            let j = choose|j: int| 0 <= j < all.len() && all[j] == pid;
            if j < before.len() {
                assert(before[j] == pid);
            }
            lemma_touched_has(b, now, elapsed, p, pid);
        }
    }
}

proof fn lemma_goes_on(open: Seq<EpisodeView>, still: Seq<u32>, pid: u32)
    requires
        has_episode(open, pid),
        still.contains(pid),
    ensures
        has_episode(going_on(open, still), pid),
    decreases open.len(),
{
    reveal(Seq::filter);
    let h = open.drop_last();
    let r = going_on(open, still);
    let before = going_on(h, still);
    let i = choose|i: int| 0 <= i < open.len() && (#[trigger] open[i]).pid == pid;
    if i == open.len() - 1 {
        assert(r[before.len() as int].pid == pid);
    } else {
        assert(h[i].pid == pid);
        lemma_goes_on(h, still, pid);
        let j = choose|j: int| 0 <= j < before.len() && (#[trigger] before[j]).pid == pid;
        assert(r[j].pid == pid);
    }
}

/// One sample over the threshold is enough for an episode.
pub proof fn spike_opens_an_episode(
    a: Accounts,
    now: u64,
    elapsed: Binary64,
    threshold: Binary64,
    procs: Seq<SnapView>,
    k: int,
)
    requires
        0 <= k < procs.len(),
        over(threshold, procs[k]),
    ensures
        has_episode(settled(a, now, elapsed, threshold, procs).open, procs[k].pid),
{
    lemma_over_listed(threshold, procs, k);
    lemma_all_have(a, now, elapsed, threshold, procs, procs[k].pid);
    lemma_goes_on(
        touched_by_all(a, now, elapsed, threshold, procs).open,
        over_pids(threshold, procs),
        procs[k].pid,
    );
}

/// Whether one of the episodes is of this process, is over, and ended at this
/// time.
pub open spec fn has_ended(s: Seq<EpisodeView>, pid: u32, now: u64) -> bool {
    exists|i: int|
        0 <= i < s.len() && (#[trigger] s[i]).pid == pid && !s[i].open && s[i].end == now
}

proof fn lemma_ends(open: Seq<EpisodeView>, still: Seq<u32>, now: u64, pid: u32)
    requires
        has_episode(open, pid),
        !still.contains(pid),
    ensures
        has_ended(ending(open, still, now), pid, now),
    decreases open.len(),
{
    let h = open.drop_last();
    let r = ending(open, still, now);
    let before = ending(h, still, now);
    let i = choose|i: int| 0 <= i < open.len() && (#[trigger] open[i]).pid == pid;
    if i == open.len() - 1 {
        assert(r[before.len() as int] == ended(open[i], now));
    } else {
        assert(h[i].pid == pid);
        lemma_ends(h, still, now, pid);
        let j = choose|j: int|
            0 <= j < before.len() && (#[trigger] before[j]).pid == pid && !before[j].open
                && before[j].end == now;
        assert(r[j] == before[j]);
    }
}

/// An episode ends with the first sample in which its process is not over the
/// threshold.
pub proof fn episode_ends(
    a: Accounts,
    now: u64,
    elapsed: Binary64,
    threshold: Binary64,
    procs: Seq<SnapView>,
    pid: u32,
)
    requires
        has_episode(a.open, pid),
        !over_pids(threshold, procs).contains(pid),
    ensures
        has_ended(
            ending(
                touched_by_all(a, now, elapsed, threshold, procs).open,
                over_pids(threshold, procs),
                now,
            ),
            pid,
            now,
        ),
        !has_episode(settled(a, now, elapsed, threshold, procs).open, pid),
{
    let b = touched_by_all(a, now, elapsed, threshold, procs);
    let still = over_pids(threshold, procs);
    lemma_all_have(a, now, elapsed, threshold, procs, pid);
    lemma_ends(b.open, still, now, pid);
    let on = going_on(b.open, still);
    if has_episode(on, pid) {
        let i = choose|i: int| 0 <= i < on.len() && (#[trigger] on[i]).pid == pid;
        b.open.lemma_filter_pred(|e: EpisodeView| still.contains(e.pid), i);
    }
}

/// Whether each process occurs once in a sample.
pub open spec fn once(procs: Seq<SnapView>) -> bool {
    forall|i: int, j: int|
        0 <= i < j < procs.len() ==> (#[trigger] procs[i]).pid != (#[trigger] procs[j]).pid
}

/// A process does not change the episode of another.
proof fn lemma_touched_keeps(a: Accounts, now: u64, elapsed: Binary64, p: SnapView, e: EpisodeView)
    requires
        a.open.contains(e),
        e.pid != p.pid,
    ensures
        touched(a, now, elapsed, p).open.contains(e),
{
    let b = touched(a, now, elapsed, p).open;
    let keys = episode_pids(a.open);
    let i = place(keys, p.pid as u64);
    lemma_place(keys, p.pid as u64);
    let j = choose|j: int| 0 <= j < a.open.len() && a.open[j] == e;
    if i < a.open.len() {
        assert(keys[i] == a.open[i].pid as u64);
    }
    assert(b[j] == e);
}

/// Nor does a sample that it is not over the threshold in.
proof fn lemma_all_keep(
    a: Accounts,
    now: u64,
    elapsed: Binary64,
    threshold: Binary64,
    procs: Seq<SnapView>,
    e: EpisodeView,
)
    requires
        a.open.contains(e),
        !over_pids(threshold, procs).contains(e.pid),
    ensures
        touched_by_all(a, now, elapsed, threshold, procs).open.contains(e),
    decreases procs.len(),
{
    if procs.len() > 0 {
        let h = procs.drop_last();
        let p = procs.last();
        let all = over_pids(threshold, procs);
        let before = over_pids(threshold, h);
        if before.contains(e.pid) {
            let j = choose|j: int| 0 <= j < before.len() && before[j] == e.pid;
            assert(all[j] == e.pid);
        }
        lemma_all_keep(a, now, elapsed, threshold, h, e);
        if over(threshold, p) {
            assert(all[before.len() as int] == p.pid);
            lemma_touched_keeps(
                touched_by_all(a, now, elapsed, threshold, h),
                now,
                elapsed,
                p,
                e,
            );
        }
    }
}

/// Nor does it give one to a process without.
proof fn lemma_none_begun(
    a: Accounts,
    now: u64,
    elapsed: Binary64,
    threshold: Binary64,
    procs: Seq<SnapView>,
    pid: u32,
)
    requires
        !has_episode(a.open, pid),
        forall|i: int| 0 <= i < procs.len() ==> (#[trigger] procs[i]).pid != pid,
    ensures
        !has_episode(touched_by_all(a, now, elapsed, threshold, procs).open, pid),
    decreases procs.len(),
{
    if procs.len() > 0 {
        let h = procs.drop_last();
        let p = procs.last();
        assert forall|i: int| 0 <= i < h.len() implies (#[trigger] h[i]).pid != pid by {
            assert(procs[i].pid != pid);
        }
        assert(procs[procs.len() - 1].pid != pid);
        lemma_none_begun(a, now, elapsed, threshold, h, pid);
        let b = touched_by_all(a, now, elapsed, threshold, h);
        if over(threshold, p) {
            let c = touched(b, now, elapsed, p).open;
            let keys = episode_pids(b.open);
            lemma_place(keys, p.pid as u64);
            if has_episode(c, pid) {
                let j = choose|j: int| 0 <= j < c.len() && (#[trigger] c[j]).pid == pid;
                if j < b.open.len() {
                    assert(c[j].pid == b.open[j].pid);
                    assert(b.open[j].pid != pid);
                }
            }
        }
    }
}

proof fn lemma_pid_apart(threshold: Binary64, procs: Seq<SnapView>, pid: u32)
    requires
        forall|i: int| 0 <= i < procs.len() ==> (#[trigger] procs[i]).pid != pid,
    ensures
        !over_pids(threshold, procs).contains(pid),
    decreases procs.len(),
{
    if procs.len() > 0 {
        let h = procs.drop_last();
        assert forall|i: int| 0 <= i < h.len() implies (#[trigger] h[i]).pid != pid by {
            assert(procs[i].pid != pid);
        }
        assert(procs[procs.len() - 1].pid != pid);
        lemma_pid_apart(threshold, h, pid);
        let all = over_pids(threshold, procs);
        let before = over_pids(threshold, h);
        if all.contains(pid) {
            let j = choose|j: int| 0 <= j < all.len() && all[j] == pid;
            if j < before.len() {
                assert(before[j] == pid);
            }
        }
    }
}

/// What a process over the threshold does to the accounts, others being apart.
proof fn lemma_own_touch(
    a: Accounts,
    now: u64,
    elapsed: Binary64,
    threshold: Binary64,
    procs: Seq<SnapView>,
    k: int,
    e: Option<EpisodeView>,
)
    requires
        in_order(a),
        once(procs),
        0 <= k < procs.len(),
        over(threshold, procs[k]),
        match e {
            Some(x) => a.open.contains(x) && x.pid == procs[k].pid,
            None => !has_episode(a.open, procs[k].pid),
        },
    ensures
        touched_by_all(a, now, elapsed, threshold, procs).open.contains(
            match e {
                Some(x) => extended(x, now, elapsed, procs[k]),
                None => begun_episode(now, elapsed, procs[k]),
            },
        ),
    decreases procs.len(),
{
    let h = procs.drop_last();
    let p = procs.last();
    let b = touched_by_all(a, now, elapsed, threshold, h);
    assert forall|i: int, j: int| 0 <= i < j < h.len() implies (#[trigger] h[i]).pid != (
    #[trigger] h[j]).pid by {
        assert(procs[i].pid != procs[j].pid);
    }
    let c = touched_by_all(a, now, elapsed, threshold, procs).open;
    if k == procs.len() - 1 {
        assert forall|i: int| 0 <= i < h.len() implies (#[trigger] h[i]).pid != p.pid by {
            assert(procs[i].pid != procs[k].pid);
        }
        lemma_all_in_order(a, now, elapsed, threshold, h);
        let keys = episode_pids(b.open);
        let i = place(keys, p.pid as u64);
        lemma_place(keys, p.pid as u64);
        match e {
            Some(x) => {
                lemma_pid_apart(threshold, h, p.pid);
                lemma_all_keep(a, now, elapsed, threshold, h, x);
                let j = choose|j: int| 0 <= j < b.open.len() && b.open[j] == x;
                assert(keys[j] == p.pid as u64);
                if i < j {
                    assert(keys[i] == keys[j]);
                } else if i > j {
                    assert(keys[j] != p.pid as u64);
                }
                assert(c[i] == extended(x, now, elapsed, p));
            },
            None => {
                lemma_none_begun(a, now, elapsed, threshold, h, p.pid);
                if i < b.open.len() {
                    assert(keys[i] == b.open[i].pid as u64);
                    assert(b.open[i].pid == p.pid);
                }
                assert(c[b.open.len() as int] == begun_episode(now, elapsed, p));
            },
        }
    } else {
        lemma_own_touch(a, now, elapsed, threshold, h, k, e);
        if over(threshold, p) {
            assert(procs[k].pid != procs[procs.len() - 1].pid);
            lemma_touched_keeps(
                b,
                now,
                elapsed,
                p,
                match e {
                    Some(x) => extended(x, now, elapsed, procs[k]),
                    None => begun_episode(now, elapsed, procs[k]),
                },
            );
        }
    }
}

proof fn lemma_stays_open(open: Seq<EpisodeView>, still: Seq<u32>, e: EpisodeView)
    requires
        open.contains(e),
        still.contains(e.pid),
    ensures
        going_on(open, still).contains(e),
{
    let i = choose|i: int| 0 <= i < open.len() && open[i] == e;
    open.lemma_filter_contains(|x: EpisodeView| still.contains(x.pid), i);
}

/// A process that is over the threshold, and was not before, begins an episode
/// that holds this one sample.
pub proof fn spike_begins_its_episode(
    a: Accounts,
    now: u64,
    elapsed: Binary64,
    threshold: Binary64,
    procs: Seq<SnapView>,
    k: int,
)
    requires
        in_order(a),
        once(procs),
        0 <= k < procs.len(),
        over(threshold, procs[k]),
        !has_episode(a.open, procs[k].pid),
    ensures
        settled(a, now, elapsed, threshold, procs).open.contains(
            begun_episode(now, elapsed, procs[k]),
        ),
{
    lemma_own_touch(a, now, elapsed, threshold, procs, k, None);
    lemma_over_listed(threshold, procs, k);
    lemma_stays_open(
        touched_by_all(a, now, elapsed, threshold, procs).open,
        over_pids(threshold, procs),
        begun_episode(now, elapsed, procs[k]),
    );
}

/// Samples over the threshold that follow each other make one episode, which
/// keeps its start and counts them.
pub proof fn episode_goes_on(
    a: Accounts,
    now: u64,
    elapsed: Binary64,
    threshold: Binary64,
    procs: Seq<SnapView>,
    k: int,
    e: EpisodeView,
)
    requires
        in_order(a),
        once(procs),
        0 <= k < procs.len(),
        over(threshold, procs[k]),
        a.open.contains(e),
        e.pid == procs[k].pid,
    ensures
        settled(a, now, elapsed, threshold, procs).open.contains(
            extended(e, now, elapsed, procs[k]),
        ),
        extended(e, now, elapsed, procs[k]).start == e.start,
        extended(e, now, elapsed, procs[k]).end == now,
        extended(e, now, elapsed, procs[k]).samples == next32(e.samples),
{
    lemma_own_touch(a, now, elapsed, threshold, procs, k, Some(e));
    lemma_over_listed(threshold, procs, k);
    lemma_stays_open(
        touched_by_all(a, now, elapsed, threshold, procs).open,
        over_pids(threshold, procs),
        extended(e, now, elapsed, procs[k]),
    );
}

proof fn lemma_ending_has(open: Seq<EpisodeView>, still: Seq<u32>, now: u64, e: EpisodeView)
    requires
        open.contains(e),
        !still.contains(e.pid),
    ensures
        ending(open, still, now).contains(ended(e, now)),
    decreases open.len(),
{
    let h = open.drop_last();
    let r = ending(open, still, now);
    let before = ending(h, still, now);
    let i = choose|i: int| 0 <= i < open.len() && open[i] == e;
    if i == open.len() - 1 {
        assert(r[before.len() as int] == ended(e, now));
    } else {
        assert(h[i] == e);
        lemma_ending_has(h, still, now, e);
        let j = choose|j: int| 0 <= j < before.len() && before[j] == ended(e, now);
        assert(r[j] == before[j]);
    }
}

/// A sample in which its process is not over the threshold ends an episode and
/// changes nothing else of it.
pub proof fn quiet_sample_ends_the_episode(
    a: Accounts,
    now: u64,
    elapsed: Binary64,
    threshold: Binary64,
    procs: Seq<SnapView>,
    e: EpisodeView,
)
    requires
        a.open.contains(e),
        !over_pids(threshold, procs).contains(e.pid),
    ensures
        ending(
            touched_by_all(a, now, elapsed, threshold, procs).open,
            over_pids(threshold, procs),
            now,
        ).contains(ended(e, now)),
{
    lemma_all_keep(a, now, elapsed, threshold, procs, e);
    lemma_ending_has(
        touched_by_all(a, now, elapsed, threshold, procs).open,
        over_pids(threshold, procs),
        now,
        e,
    );
}

/// An offender with an open episode is remembered.
pub proof fn open_offenders_stay(offenders: Seq<OffenderView>, open: Seq<EpisodeView>, o: OffenderView)
    requires
        offenders.contains(o),
        has_episode(open, o.pid),
    ensures
        remembered(offenders, open).contains(o),
{
    if offenders.len() > MAX_OFFENDERS + 8 {
        let top = offender_pids(
            arranged(offenders, offender_keys(offenders)).take(MAX_OFFENDERS as int),
        );
        let pred = |x: OffenderView|
            top.contains(x.pid as u64) || episode_pids(open).contains(x.pid as u64);
        let j = choose|j: int| 0 <= j < open.len() && (#[trigger] open[j]).pid == o.pid;
        assert(episode_pids(open)[j] == o.pid as u64);
        let i = choose|i: int| 0 <= i < offenders.len() && offenders[i] == o;
        offenders.lemma_filter_contains(pred, i);
    }
}

/// What is kept has not expired, and what has not expired is kept.
pub proof fn kept_is_what_has_not_expired(closed: Seq<EpisodeView>, now: u64, e: EpisodeView)
    ensures
        kept_episodes(closed, now).contains(e) <==> closed.contains(e) && e.end >= cutoff(now),
{
    let pred = |x: EpisodeView| x.end >= cutoff(now);
    let kept = closed.filter(pred);
    if closed.contains(e) && e.end >= cutoff(now) {
        let i = choose|i: int| 0 <= i < closed.len() && closed[i] == e;
        closed.lemma_filter_contains(pred, i);
    }
    if kept.contains(e) {
        let i = choose|i: int| 0 <= i < kept.len() && kept[i] == e;
        closed.lemma_filter_pred(pred, i);
        closed.lemma_filter_contains_rev(pred, e);
    }
}

// ---------------------------------------------------------------------------
// What an episode tells of its samples

/// One sample of one process.
pub struct Moment {
    pub now: u64,
    pub elapsed: Binary64,
    pub p: SnapView,
}

/// The episode that these samples make, one after another.
pub open spec fn life(ms: Seq<Moment>) -> EpisodeView
    decreases ms.len(),
{
    let m = ms.last();
    if ms.len() <= 1 {
        begun_episode(m.now, m.elapsed, m.p)
    } else {
        extended(life(ms.drop_last()), m.now, m.elapsed, m.p)
    }
}

pub open spec fn shares(ms: Seq<Moment>) -> Seq<Binary64> {
    Seq::new(ms.len(), |i: int| ms[i].p.io)
}

pub open spec fn reads(ms: Seq<Moment>) -> Seq<Binary64> {
    Seq::new(ms.len(), |i: int| ms[i].p.read)
}

pub open spec fn writes(ms: Seq<Moment>) -> Seq<Binary64> {
    Seq::new(ms.len(), |i: int| ms[i].p.write)
}

/// An episode begins with its first sample and ends with its last, counts them,
/// and holds the greatest share and rates among them.
pub proof fn episode_tells_its_samples(ms: Seq<Moment>)
    requires
        ms.len() > 0,
        forall|i: int|
            0 <= i < ms.len() ==> !(#[trigger] ms[i]).p.io.nan() && !ms[i].p.read.nan()
                && !ms[i].p.write.nan(),
    ensures
        life(ms).pid == ms[0].p.pid,
        life(ms).start == ms[0].now,
        life(ms).end == ms.last().now,
        life(ms).open,
        ms.len() <= u32::MAX ==> life(ms).samples == ms.len(),
        life(ms).last_io == ms.last().p.io,
        life(ms).user == ms.last().p.user,
        ms.last().p.command.len() > 0 ==> life(ms).command == ms.last().p.command,
        ms.len() > 1 && ms.last().p.command.len() == 0 ==> life(ms).command == life(
            ms.drop_last(),
        ).command,
        greatest_of(life(ms).max_io, shares(ms)),
        greatest_of(life(ms).max_read, reads(ms)),
        greatest_of(life(ms).max_write, writes(ms)),
    decreases ms.len(),
{
    let m = ms[ms.len() - 1];
    if ms.len() == 1 {
        assert(shares(ms)[0] == m.p.io && reads(ms)[0] == m.p.read && writes(ms)[0] == m.p.write);
    } else {
        let h = ms.drop_last();
        assert forall|i: int| 0 <= i < h.len() implies !(#[trigger] h[i]).p.io.nan()
            && !h[i].p.read.nan() && !h[i].p.write.nan() by {
            assert(h[i] == ms[i]);
        }
        episode_tells_its_samples(h);
        let e = life(h);
        greatest_goes_on(e.max_io, shares(h), m.p.io);
        greatest_goes_on(e.max_read, reads(h), m.p.read);
        greatest_goes_on(e.max_write, writes(h), m.p.write);
        assert(shares(ms) =~= shares(h).push(m.p.io));
        assert(reads(ms) =~= reads(h).push(m.p.read));
        assert(writes(ms) =~= writes(h).push(m.p.write));
    }
}

/// The time that an episode was over the threshold is the sum of the times of
/// its samples.
pub proof fn episode_adds_up_time(ms: Seq<Moment>, ns: Seq<int>)
    requires
        ms.len() > 0,
        ns.len() == ms.len(),
        forall|i: int|
            0 <= i < ms.len() ==> 0 <= ns[i] && (#[trigger] ms[i]).elapsed == whole(ns[i]),
        total_of(ns) <= 2 * STEP,
    ensures
        life(ms).over_s == whole(total_of(ns)),
    decreases ms.len(),
{
    assert forall|i: int| 0 <= i < ns.len() implies 0 <= #[trigger] ns[i] by {
        assert(ms[i].elapsed == whole(ns[i]));
    }
    lemma_total_grows(ns);
    assert(ms[ms.len() - 1].elapsed == whole(ns[ns.len() - 1]));
    let h = ms.drop_last();
    let k = ns.drop_last();
    if ms.len() == 1 {
        assert(total_of(k) == 0);
    } else {
        assert forall|i: int| 0 <= i < h.len() implies 0 <= k[i] && (#[trigger] h[i]).elapsed
            == whole(k[i]) by {
            assert(h[i] == ms[i] && k[i] == ns[i]);
        }
        episode_adds_up_time(h, k);
        assert forall|i: int| 0 <= i < k.len() implies 0 <= #[trigger] k[i] by {
            assert(h[i].elapsed == whole(k[i]));
        }
        lemma_total_grows(k);
        sum_of_wholes(total_of(k), ns.last());
    }
}

/// An offender counts its samples, and an episode with the first sample of each,
/// holds the greatest share and rates, and was last seen now.
pub proof fn offender_tells_its_samples(
    o: OffenderView,
    begins: bool,
    now: u64,
    elapsed: Binary64,
    p: SnapView,
)
    requires
        !o.max_io.nan() && !o.max_read.nan() && !o.max_write.nan(),
        !p.io.nan() && !p.read.nan() && !p.write.nan(),
    ensures
        ({
            let n = charged(o, begins, now, elapsed, p);
            &&& n.pid == o.pid
            &&& n.last == now
            &&& n.user == p.user
            &&& p.command.len() > 0 ==> n.command == p.command
            &&& o.samples < u32::MAX ==> n.samples == o.samples + 1
            &&& o.episodes < u32::MAX ==> n.episodes - o.episodes == if begins {
                1int
            } else {
                0int
            }
            &&& greatest_of(n.max_io, seq![o.max_io, p.io])
            &&& greatest_of(n.max_read, seq![o.max_read, p.read])
            &&& greatest_of(n.max_write, seq![o.max_write, p.write])
            &&& forall|a: int, b: int|
                0 <= a && 0 <= b && a + b <= 2 * STEP && o.over_s == #[trigger] whole(a) && elapsed
                    == #[trigger] whole(b) ==> n.over_s == whole(a + b)
        }),
{
    lemma_greatest_of_two(o.max_io, p.io);
    lemma_greatest_of_two(o.max_read, p.read);
    lemma_greatest_of_two(o.max_write, p.write);
    assert forall|a: int, b: int|
        0 <= a && 0 <= b && a + b <= 2 * STEP && o.over_s == #[trigger] whole(a) && elapsed
            == #[trigger] whole(b) implies sum(o.over_s, elapsed) == whole(a + b) by {
        sum_of_wholes(a, b);
    }
}

pub proof fn lemma_greatest_of_two(a: Binary64, b: Binary64)
    requires
        !a.nan(),
        !b.nan(),
    ensures
        greatest_of(a.greater(b), seq![a, b]),
{
    let s = seq![a, b];
    assert(s[0] == a && s[1] == b);
    greater_is_greatest(a, b);
}

/// A process without an episode is a new offender, or one with one more episode;
/// one with an episode has no more of them. The other offenders stay.
pub proof fn sample_charges_its_process(
    a: Accounts,
    now: u64,
    elapsed: Binary64,
    p: SnapView,
    i: int,
)
    requires
        in_order(a),
        0 <= i < a.offenders.len(),
    ensures
        ({
            let after = touched(a, now, elapsed, p).offenders;
            &&& after.len() >= a.offenders.len()
            &&& a.offenders[i].pid != p.pid ==> after[i] == a.offenders[i]
            &&& a.offenders[i].pid == p.pid ==> after[i] == charged(
                a.offenders[i],
                !has_episode(a.open, p.pid),
                now,
                elapsed,
                p,
            )
        }),
{
    let keys = offender_pids(a.offenders);
    let open = episode_pids(a.open);
    lemma_place(keys, p.pid as u64);
    lemma_place(open, p.pid as u64);
    let k = place(keys, p.pid as u64);
    let e = place(open, p.pid as u64);
    assert(keys[i] == a.offenders[i].pid as u64);
    if k < a.offenders.len() {
        assert(keys[k] == a.offenders[k].pid as u64);
    }
    if e < a.open.len() {
        assert(open[e] == a.open[e].pid as u64);
        assert(a.open[e].pid == p.pid);
    } else if has_episode(a.open, p.pid) {
        let j = choose|j: int| 0 <= j < a.open.len() && (#[trigger] a.open[j]).pid == p.pid;
        assert(open[j] == p.pid as u64);
    }
}

/// The process with the greatest share has it, and none has a greater one.
pub proof fn hottest_is_greatest(procs: Seq<SnapView>)
    ensures
        forall|i: int| 0 <= i < procs.len() ==> !hottest(procs).0.below((#[trigger] procs[i]).io),
        zero().at_most(hottest(procs).0),
        zero().below(hottest(procs).0) ==> exists|i: int|
            0 <= i < procs.len() && hottest(procs) == (
                (#[trigger] procs[i]).io,
                procs[i].command,
                procs[i].pid,
            ),
    decreases procs.len(),
{
    if procs.len() > 0 {
        let h = procs.drop_last();
        hottest_is_greatest(h);
        let all = hottest(procs);
        let before = hottest(h);
        assert forall|i: int| 0 <= i < procs.len() implies !all.0.below((#[trigger] procs[i]).io) by {
            if i < h.len() {
                assert(h[i] == procs[i]);
            }
        }
        if before.0.below(procs.last().io) {
            assert(all == (procs[procs.len() - 1].io, procs[procs.len() - 1].command, procs[
            procs.len() - 1].pid));
        } else if zero().below(all.0) {
            let i = choose|i: int|
                0 <= i < h.len() && before == ((#[trigger] h[i]).io, h[i].command, h[i].pid);
            assert(procs[i] == h[i]);
        }
    }
}

/// A share that reaches the threshold is over it.
pub proof fn reaching_is_over(threshold: Binary64, p: SnapView)
    requires
        p.io.finite(),
        !p.io.negative(),
        threshold.at_most(p.io),
    ensures
        over(threshold, p),
{
    let s = scaled(p.io.mag());
    let e = scaled(epsilon().mag());
    lemma_scaled_natural(p.io.mag());
    lemma_scaled_natural(epsilon().mag());
    nearest_keeps_order(s, s + e, 1);
    exact_is_nearest(p.io.mag());
}

/// A share below the threshold is not over it, percent by percent.
pub proof fn staying_below_is_not_over(threshold: int, share: int, p: SnapView)
    requires
        0 <= share < threshold <= 100,
        p.io == whole(share),
    ensures
        !over(whole(threshold), p),
{
    whole_is_exact(share);
    whole_is_exact(threshold);
    let m = whole(threshold).mag();
    let s = share * unit();
    let e = scaled(epsilon().mag());
    lemma_epsilon();
    lemma_pow2_pos(1074);
    assert(s >= 0 && threshold * unit() >= s + unit()) by (nonlinear_arith)
        requires
            s == share * unit(),
            0 <= share < threshold,
            unit() > 0,
    ;
    nearest_exists(s + e, 1);
    let k = nearest(s + e, 1);
    if m <= k {
        lemma_scaled_order(whole(share).mag(), m);
        lemma_scaled_order(m, whole(share).mag());
        assert(whole(share).mag() <= m - 1);
        lemma_scaled_order(whole(share).mag(), m - 1);
        lemma_scaled_order(m - 1, k - 1);
        lemma_scaled_order(m, k);
        assert(2 * (s + e) >= scaled(k - 1) + scaled(k));
    }
}

/// The gap between one and the next number is far less than one.
proof fn lemma_epsilon()
    ensures
        0 <= scaled(epsilon().mag()),
        4 * scaled(epsilon().mag()) < unit(),
{
    lemma_scaled_natural(epsilon().mag());
    // the bits of the gap are 52 exponents below those of one
    lemma_gap_of_one();
}

/// Each open episode goes on or ends, and none does both.
pub proof fn episodes_go_on_or_end(open: Seq<EpisodeView>, still: Seq<u32>, now: u64, e: EpisodeView)
    requires
        open.contains(e),
    ensures
        still.contains(e.pid) ==> going_on(open, still).contains(e),
        !still.contains(e.pid) ==> ending(open, still, now).contains(ended(e, now)),
        going_on(open, still).len() + ending(open, still, now).len() == open.len(),
{
    if still.contains(e.pid) {
        lemma_stays_open(open, still, e);
    } else {
        lemma_ending_has(open, still, now, e);
    }
    lemma_parted(open, still, now);
}

proof fn lemma_parted(open: Seq<EpisodeView>, still: Seq<u32>, now: u64)
    ensures
        going_on(open, still).len() + ending(open, still, now).len() == open.len(),
    decreases open.len(),
{
    reveal(Seq::filter);
    if open.len() > 0 {
        lemma_parted(open.drop_last(), still, now);
    }
}

/// Minutes are kept exactly while they end after the moment before which records
/// have expired.
pub proof fn kept_minutes_have_not_expired(minutes: Seq<MinuteView>, now: u64, m: MinuteView)
    requires
        m.bucket * 60 + 60 <= u64::MAX,
    ensures
        kept_minutes(minutes, now).contains(m) <==> minutes.contains(m) && m.bucket * 60 + 60
            + RETAIN_SECS > now && m.bucket * 60 + 60 > 0,
{
    let pred = |x: MinuteView| minute_end(x.bucket) > cutoff(now);
    let kept = minutes.filter(pred);
    if minutes.contains(m) && minute_end(m.bucket) > cutoff(now) {
        let i = choose|i: int| 0 <= i < minutes.len() && minutes[i] == m;
        minutes.lemma_filter_contains(pred, i);
    }
    if kept.contains(m) {
        let i = choose|i: int| 0 <= i < kept.len() && kept[i] == m;
        minutes.lemma_filter_pred(pred, i);
        minutes.lemma_filter_contains_rev(pred, m);
    }
}

/// Episodes are kept exactly for seven days.
pub proof fn kept_for_seven_days(closed: Seq<EpisodeView>, now: u64, e: EpisodeView)
    ensures
        kept_episodes(closed, now).contains(e) <==> closed.contains(e) && e.end + 7 * 86400 >= now,
{
    kept_is_what_has_not_expired(closed, now, e);
}

/// A process that is no offender yet becomes one when its episode begins, with
/// that episode and sample.
pub proof fn new_offender_has_one_episode(a: Accounts, now: u64, elapsed: Binary64, p: SnapView)
    requires
        in_order(a),
        forall|i: int| 0 <= i < a.offenders.len() ==> (#[trigger] a.offenders[i]).pid != p.pid,
    ensures
        has_episode(a.open, p.pid) ==> touched(a, now, elapsed, p).offenders == a.offenders,
        !has_episode(a.open, p.pid) ==> ({
            let after = touched(a, now, elapsed, p).offenders;
            let o = after.last();
            &&& after.drop_last() == a.offenders
            &&& after.len() == a.offenders.len() + 1
            &&& o.pid == p.pid && o.user == p.user && o.command == p.command
            &&& o.episodes == 1 && o.samples == 1 && o.last == now
            &&& zero().at_most(p.io) && !p.io.zero() ==> o.max_io == p.io
            &&& zero().at_most(p.read) && !p.read.zero() ==> o.max_read == p.read
            &&& zero().at_most(p.write) && !p.write.zero() ==> o.max_write == p.write
        }),
{
    let keys = offender_pids(a.offenders);
    let open = episode_pids(a.open);
    lemma_place(keys, p.pid as u64);
    lemma_place(open, p.pid as u64);
    let k = place(keys, p.pid as u64);
    let e = place(open, p.pid as u64);
    if k < a.offenders.len() {
        assert(keys[k] == a.offenders[k].pid as u64);
    }
    if e < a.open.len() {
        assert(open[e] == a.open[e].pid as u64);
        assert(a.open[e].pid == p.pid);
    } else if has_episode(a.open, p.pid) {
        let j = choose|j: int| 0 <= j < a.open.len() && (#[trigger] a.open[j]).pid == p.pid;
        assert(open[j] == p.pid as u64);
    }
    let after = touched(a, now, elapsed, p).offenders;
    if !has_episode(a.open, p.pid) {
        assert(after.drop_last() =~= a.offenders);
    }
}

/// Few offenders are all remembered; of too many, none is forgotten that has a
/// greater share than one that is remembered without an open episode.
pub proof fn greatest_offenders_are_remembered(
    offenders: Seq<OffenderView>,
    open: Seq<EpisodeView>,
    kept: OffenderView,
    lost: OffenderView,
)
    requires
        offender_pids(offenders).no_duplicates(),
        offenders.contains(kept),
        offenders.contains(lost),
        remembered(offenders, open).contains(kept),
        !has_episode(open, kept.pid),
        !remembered(offenders, open).contains(lost),
    ensures
        offenders.len() > MAX_OFFENDERS,
        kept.max_io.rank() >= lost.max_io.rank(),
{
    let keys = offender_keys(offenders);
    let all = arranged(offenders, keys);
    arranged_keeps_all(offenders, keys);
    if offenders.len() > MAX_OFFENDERS + 8 {
        let first = all.take(MAX_OFFENDERS as int);
        let top = offender_pids(first);
        let pred = |o: OffenderView|
            top.contains(o.pid as u64) || episode_pids(open).contains(o.pid as u64);
        let r = offenders.filter(pred);
        let n = choose|n: int| 0 <= n < r.len() && r[n] == kept;
        offenders.lemma_filter_pred(pred, n);
        if episode_pids(open).contains(kept.pid as u64) {
            let j = choose|j: int|
                0 <= j < episode_pids(open).len() && episode_pids(open)[j] == kept.pid as u64;
            assert(open[j].pid == kept.pid);
        }
        let t = choose|t: int| 0 <= t < top.len() && top[t] == kept.pid as u64;
        assert(first[t].pid == kept.pid && all[t] == first[t]);
        // the arranged item with this number is the offender itself
        assert(all.contains(all[t]));
        assert(offenders.contains(all[t]));
        let x = choose|x: int| 0 <= x < offenders.len() && offenders[x] == all[t];
        let y = choose|y: int| 0 <= y < offenders.len() && offenders[y] == kept;
        assert(offender_pids(offenders)[x] == offender_pids(offenders)[y]);
        assert(all[t] == kept);
        let z = choose|z: int| 0 <= z < offenders.len() && offenders[z] == lost;
        if pred(lost) {
            offenders.lemma_filter_contains(pred, z);
        }
        assert(all.contains(lost));
        let w = choose|w: int| 0 <= w < all.len() && all[w] == lost;
        if w < MAX_OFFENDERS {
            assert(first[w] == lost);
            assert(top[w] == lost.pid as u64);
        }
        arranged_in_order(offenders, keys, t, w);
        let p = ordering(keys)[t];
        let q = ordering(keys)[w];
        assert(keys[p][0] == falling(offenders[p].max_io) && keys[q][0] == falling(
            offenders[q].max_io,
        ));
        reveal_with_fuel(less_from, 2);
    }
}

/// Up to 508 offenders are all remembered. Of more, the first 500 of the ranking
/// are, and those with an open episode.
pub proof fn offenders_are_forgotten_beyond_508(
    offenders: Seq<OffenderView>,
    open: Seq<EpisodeView>,
    k: int,
)
    requires
        offender_pids(offenders).no_duplicates(),
        0 <= k < offenders.len(),
    ensures
        offenders.len() <= 508 ==> remembered(offenders, open) == offenders,
        offenders.len() > 508 ==> ({
            let o = arranged(offenders, offender_keys(offenders))[k];
            remembered(offenders, open).contains(o) <==> k < 500 || episode_pids(open).contains(
                o.pid as u64,
            )
        }),
{
    let keys = offender_keys(offenders);
    let all = arranged(offenders, keys);
    let first = all.take(MAX_OFFENDERS as int);
    let top = offender_pids(first);
    let f = |x: OffenderView|
        top.contains(x.pid as u64) || episode_pids(open).contains(x.pid as u64);
    let o = all[k];
    ordering_exists(keys);
    let p = ordering(keys);
    let pids = offender_pids(offenders);
    if offenders.len() > 508 {
        assert(offenders[p[k]] == o);
        if f(o) {
            offenders.lemma_filter_contains(f, p[k]);
        }
        if offenders.filter(f).contains(o) {
            offenders.lemma_filter_contains_rev(f, o);
        }
        if k < 500 {
            assert(first[k] == o);
            assert(top[k] == o.pid as u64);
        } else if top.contains(o.pid as u64) {
            let j = choose|j: int| 0 <= j < top.len() && top[j] == o.pid as u64;
            assert(first[j] == all[j]);
            assert(precedes(keys, p[j], p[k]));
            reveal_with_fuel(less_from, 4);
            assert(pids[p[j]] == pids[p[k]]);
            assert(p[j] != p[k]);
        }
    }
}

} // verus!
