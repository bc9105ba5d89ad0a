//! The peaks of each minute.

use vstd::prelude::*;

use crate::binary64::{zero, Binary64};
use crate::records::amounts::{next32, MAX_MINUTES};
use crate::records::types::{Minute, MinuteView};

verus! {

pub open spec fn new_minute(bucket: u64) -> MinuteView {
    MinuteView {
        bucket,
        max_io: zero(),
        max_read: zero(),
        max_write: zero(),
        over: 0,
        top_io: zero(),
        top_cmd: seq![],
        top_pid: 0,
    }
}

/// The last `n` items.
pub open spec fn last_of<T>(s: Seq<T>, n: int) -> Seq<T> {
    if s.len() <= n {
        s
    } else {
        s.skip(s.len() - n)
    }
}

/// The minutes with the one that holds `now` at their end.
pub open spec fn opened_minutes(minutes: Seq<MinuteView>, now: u64) -> Seq<MinuteView> {
    if minutes.len() > 0 && minutes.last().bucket == now / 60 {
        minutes
    } else {
        last_of(minutes.push(new_minute(now / 60)), MAX_MINUTES as int)
    }
}

/// What one sample says of a minute.
pub struct Reading {
    pub top_io: Binary64,
    pub top_cmd: Seq<char>,
    pub top_pid: u32,
    pub read: Binary64,
    pub write: Binary64,
    pub over: bool,
}

/// Whether a sample changes a minute.
pub open spec fn changes(m: MinuteView, r: Reading) -> bool {
    ||| m.max_read.below(r.read)
    ||| m.max_write.below(r.write)
    ||| r.over
    ||| m.max_io.at_most(r.top_io)
}

/// A minute with one more sample.
pub open spec fn with_reading(m: MinuteView, r: Reading) -> MinuteView {
    let top = m.max_io.at_most(r.top_io) && zero().below(r.top_io);
    MinuteView {
        bucket: m.bucket,
        max_io: if m.max_io.at_most(r.top_io) {
            r.top_io
        } else {
            m.max_io
        },
        max_read: if m.max_read.below(r.read) {
            r.read
        } else {
            m.max_read
        },
        max_write: if m.max_write.below(r.write) {
            r.write
        } else {
            m.max_write
        },
        over: if r.over {
            next32(m.over)
        } else {
            m.over
        },
        top_io: if top {
            r.top_io
        } else {
            m.top_io
        },
        top_cmd: if top {
            r.top_cmd
        } else {
            m.top_cmd
        },
        top_pid: if top {
            r.top_pid
        } else {
            m.top_pid
        },
    }
}

/// The minutes with one more sample.
pub open spec fn noted(minutes: Seq<MinuteView>, now: u64, r: Reading) -> Seq<MinuteView> {
    let opened = opened_minutes(minutes, now);
    opened.update(opened.len() - 1, with_reading(opened.last(), r))
}

/// Two minutes of the same time, as one.
pub open spec fn merged(old_minute: MinuteView, new_minute: MinuteView) -> MinuteView {
    let higher = old_minute.max_io.at_most(new_minute.max_io);
    let top = higher && new_minute.top_cmd.len() > 0;
    MinuteView {
        bucket: old_minute.bucket,
        max_io: if higher {
            new_minute.max_io
        } else {
            old_minute.max_io
        },
        max_read: if old_minute.max_read.below(new_minute.max_read) {
            new_minute.max_read
        } else {
            old_minute.max_read
        },
        max_write: if old_minute.max_write.below(new_minute.max_write) {
            new_minute.max_write
        } else {
            old_minute.max_write
        },
        over: if new_minute.over > old_minute.over {
            new_minute.over
        } else {
            old_minute.over
        },
        top_io: if top {
            new_minute.top_io
        } else {
            old_minute.top_io
        },
        top_cmd: if top {
            new_minute.top_cmd
        } else {
            old_minute.top_cmd
        },
        top_pid: if top {
            new_minute.top_pid
        } else {
            old_minute.top_pid
        },
    }
}

pub fn merge_minute(old_minute: &mut Minute, new_minute: &Minute)
    ensures
        final(old_minute)@ == merged(old(old_minute)@, new_minute@),
{
    if old_minute.max_read.lt(&new_minute.max_read) {
        old_minute.max_read = new_minute.max_read;
    }
    if old_minute.max_write.lt(&new_minute.max_write) {
        old_minute.max_write = new_minute.max_write;
    }
    if new_minute.over > old_minute.over {
        old_minute.over = new_minute.over;
    }
    if old_minute.max_io.le(&new_minute.max_io) {
        old_minute.max_io = new_minute.max_io;
        if !new_minute.top_cmd.as_str().is_empty() {
            old_minute.top_io = new_minute.top_io;
            old_minute.top_cmd = new_minute.top_cmd.clone();
            old_minute.top_pid = new_minute.top_pid;
        }
    }
}

/// Whether minutes stand in the order of time, each once.
pub open spec fn rising(minutes: Seq<MinuteView>) -> bool {
    forall|i: int, j: int|
        0 <= i < j < minutes.len() ==> (#[trigger] minutes[i]).bucket < (#[trigger] minutes[j]).bucket
}

/// Taking in samples as time goes on keeps the minutes in order, and no more of
/// them than seven days have.
pub proof fn minutes_stay_in_order(minutes: Seq<MinuteView>, now: u64, r: Reading)
    requires
        rising(minutes),
        minutes.len() > 0 ==> minutes.last().bucket <= now / 60,
        minutes.len() <= MAX_MINUTES,
    ensures
        rising(noted(minutes, now, r)),
        noted(minutes, now, r).len() <= MAX_MINUTES,
        noted(minutes, now, r).len() > 0,
        noted(minutes, now, r).last().bucket == now / 60,
{
    let opened = opened_minutes(minutes, now);
    assert(rising(opened) && opened.len() > 0 && opened.last().bucket == now / 60);
    let after = noted(minutes, now, r);
    assert forall|i: int, j: int| 0 <= i < j < after.len() implies (#[trigger] after[i]).bucket < (
    #[trigger] after[j]).bucket by {
        assert(after[i].bucket == opened[i].bucket);
        assert(after[j].bucket == opened[j].bucket);
    }
}

/// A minute keeps its peaks, and those of the sample.
pub proof fn minute_keeps_peaks(m: MinuteView, r: Reading)
    ensures
        ({
            let n = with_reading(m, r);
            &&& n.bucket == m.bucket
            &&& !n.max_io.below(m.max_io) && !n.max_io.below(r.top_io)
            &&& !n.max_read.below(m.max_read) && !n.max_read.below(r.read)
            &&& !n.max_write.below(m.max_write) && !n.max_write.below(r.write)
            &&& n.over >= m.over
        }),
{
}

/// Two minutes that are merged keep the peaks of both.
pub proof fn merged_keeps_peaks(a: MinuteView, b: MinuteView)
    ensures
        ({
            let n = merged(a, b);
            &&& !n.max_io.below(a.max_io) && !n.max_io.below(b.max_io)
            &&& !n.max_read.below(a.max_read) && !n.max_read.below(b.max_read)
            &&& !n.max_write.below(a.max_write) && !n.max_write.below(b.max_write)
            &&& n.over >= a.over && n.over >= b.over
        }),
{
}

/// A sample that is not written down changes nothing of its minute.
pub proof fn unwritten_is_unchanged(m: MinuteView, r: Reading)
    requires
        !changes(m, r),
    ensures
        with_reading(m, r) == m,
{
}

/// Whether a number is zero or one of the list, and not below any of it.
pub open spec fn greatest_or_zero(x: Binary64, s: Seq<Binary64>) -> bool {
    &&& x == zero() || s.contains(x)
    &&& forall|i: int| 0 <= i < s.len() ==> (#[trigger] s[i]).at_most(x)
}

/// A minute after samples, the first of which opened it.
pub open spec fn minute_of(bucket: u64, rs: Seq<Reading>) -> MinuteView
    decreases rs.len(),
{
    if rs.len() == 0 {
        new_minute(bucket)
    } else {
        with_reading(minute_of(bucket, rs.drop_last()), rs.last())
    }
}

/// How many of the samples had a process over the threshold.
pub open spec fn alerts(rs: Seq<Reading>) -> int
    decreases rs.len(),
{
    if rs.len() == 0 {
        0
    } else {
        alerts(rs.drop_last()) + if rs.last().over {
            1int
        } else {
            0int
        }
    }
}

pub open spec fn read_rates(rs: Seq<Reading>) -> Seq<Binary64> {
    Seq::new(rs.len(), |i: int| rs[i].read)
}

pub open spec fn write_rates(rs: Seq<Reading>) -> Seq<Binary64> {
    Seq::new(rs.len(), |i: int| rs[i].write)
}

pub open spec fn top_shares(rs: Seq<Reading>) -> Seq<Binary64> {
    Seq::new(rs.len(), |i: int| rs[i].top_io)
}

/// Whether a minute names the process of the greatest share, where there is one.
pub open spec fn names_the_top(m: MinuteView, rs: Seq<Reading>) -> bool {
    zero().below(m.max_io) ==> exists|i: int|
        0 <= i < rs.len() && (#[trigger] rs[i]).top_io == m.max_io && m.top_io == rs[i].top_io
            && m.top_cmd == rs[i].top_cmd && m.top_pid == rs[i].top_pid
}

pub proof fn lemma_greatest_or_zero(x: Binary64, s: Seq<Binary64>, y: Binary64, z: Binary64)
    requires
        greatest_or_zero(x, s),
        zero().at_most(x),
        zero().at_most(y),
        x.at_most(z) && y.at_most(z),
        z == x || z == y,
    ensures
        greatest_or_zero(z, s.push(y)),
        zero().at_most(z),
{
    let t = s.push(y);
    if s.contains(x) {
        let k = choose|k: int| 0 <= k < s.len() && s[k] == x;
        assert(t[k] == x);
    }
    assert(t[s.len() as int] == y);
    assert forall|i: int| 0 <= i < t.len() implies (#[trigger] t[i]).at_most(z) by {
        if i < s.len() {
            assert(s[i].at_most(x));
        }
    }
}

/// A minute holds the greatest share and rates among its samples, names the
/// process that had that share, and counts the samples over the threshold.
pub proof fn minute_tells_its_samples(bucket: u64, rs: Seq<Reading>)
    requires
        forall|i: int|
            0 <= i < rs.len() ==> zero().at_most((#[trigger] rs[i]).top_io) && zero().at_most(
                rs[i].read,
            ) && zero().at_most(rs[i].write),
    ensures
        minute_of(bucket, rs).bucket == bucket,
        greatest_or_zero(minute_of(bucket, rs).max_io, top_shares(rs)),
        greatest_or_zero(minute_of(bucket, rs).max_read, read_rates(rs)),
        greatest_or_zero(minute_of(bucket, rs).max_write, write_rates(rs)),
        names_the_top(minute_of(bucket, rs), rs),
        0 <= alerts(rs) <= rs.len(),
        rs.len() <= u32::MAX ==> minute_of(bucket, rs).over == alerts(rs),
        zero().at_most(minute_of(bucket, rs).max_io),
        zero().at_most(minute_of(bucket, rs).max_read),
        zero().at_most(minute_of(bucket, rs).max_write),
    decreases rs.len(),
{
    if rs.len() > 0 {
        let h = rs.drop_last();
        let r = rs[rs.len() - 1];
        assert forall|i: int| 0 <= i < h.len() implies zero().at_most((#[trigger] h[i]).top_io)
            && zero().at_most(h[i].read) && zero().at_most(h[i].write) by {
            assert(h[i] == rs[i]);
        }
        minute_tells_its_samples(bucket, h);
        let m = minute_of(bucket, h);
        let n = minute_of(bucket, rs);
        assert(zero().at_most(r.top_io) && zero().at_most(r.read) && zero().at_most(r.write));
        lemma_greatest_or_zero(m.max_io, top_shares(h), r.top_io, n.max_io);
        lemma_greatest_or_zero(m.max_read, read_rates(h), r.read, n.max_read);
        lemma_greatest_or_zero(m.max_write, write_rates(h), r.write, n.max_write);
        assert(top_shares(rs) =~= top_shares(h).push(r.top_io));
        assert(read_rates(rs) =~= read_rates(h).push(r.read));
        assert(write_rates(rs) =~= write_rates(h).push(r.write));
        if zero().below(n.max_io) {
            if m.max_io.at_most(r.top_io) {
                assert(rs[rs.len() - 1].top_io == n.max_io);
            } else {
                let i = choose|i: int|
                    0 <= i < h.len() && (#[trigger] h[i]).top_io == m.max_io && m.top_io
                        == h[i].top_io && m.top_cmd == h[i].top_cmd && m.top_pid == h[i].top_pid;
                assert(rs[i] == h[i]);
            }
        }
    }
}

/// A sample goes to the minute that it was made in, and the minutes before stay
/// as they are.
pub proof fn sample_goes_to_its_minute(minutes: Seq<MinuteView>, now: u64, r: Reading)
    requires
        rising(minutes),
        minutes.len() > 0 ==> minutes.last().bucket <= now / 60,
        minutes.len() < MAX_MINUTES,
    ensures
        ({
            let n = noted(minutes, now, r);
            let same = minutes.len() > 0 && minutes.last().bucket == now / 60;
            &&& n.last() == with_reading(
                if same {
                    minutes.last()
                } else {
                    new_minute(now / 60)
                },
                r,
            )
            &&& n.drop_last() == if same {
                minutes.drop_last()
            } else {
                minutes
            }
        }),
{
    let n = noted(minutes, now, r);
    if minutes.len() > 0 && minutes.last().bucket == now / 60 {
        assert(n.drop_last() =~= minutes.drop_last());
    } else {
        assert(n.drop_last() =~= minutes);
    }
}

/// Two minutes that are merged have no peak that neither has.
pub proof fn merged_has_their_peaks(a: MinuteView, b: MinuteView)
    ensures
        ({
            let n = merged(a, b);
            &&& n.bucket == a.bucket
            &&& n.max_io == a.max_io || n.max_io == b.max_io
            &&& n.max_read == a.max_read || n.max_read == b.max_read
            &&& n.max_write == a.max_write || n.max_write == b.max_write
            &&& n.over == a.over || n.over == b.over
            &&& a.max_io.below(b.max_io) && b.top_cmd.len() > 0 ==> n.top_cmd == b.top_cmd && n.top_pid
                == b.top_pid && n.top_io == b.top_io
            &&& b.max_io.below(a.max_io) ==> n.top_cmd == a.top_cmd && n.top_pid == a.top_pid
                && n.top_io == a.top_io
        }),
{
}

/// A minute names the process with the greatest share, the latest of those that
/// share it; a lesser share changes neither.
pub proof fn latest_of_the_greatest_is_named(m: MinuteView, r: Reading)
    requires
        m.max_io.finite(),
        r.top_io.finite(),
    ensures
        m.max_io.at_most(r.top_io) && zero().below(r.top_io) ==> with_reading(m, r).top_io == r.top_io
            && with_reading(m, r).top_pid == r.top_pid && with_reading(m, r).top_cmd == r.top_cmd
            && with_reading(m, r).max_io == r.top_io,
        r.top_io.below(m.max_io) ==> with_reading(m, r).top_io == m.top_io && with_reading(
            m,
            r,
        ).top_pid == m.top_pid && with_reading(m, r).top_cmd == m.top_cmd && with_reading(m, r).max_io
            == m.max_io,
{
}

} // verus!
