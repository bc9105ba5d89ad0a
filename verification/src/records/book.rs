//! The book that takes in samples.

use vstd::prelude::*;

use crate::binary64::{
    absolute, difference, distance_of_wholes, part_of_one, quotient, whole, whole_is_exact,
    whole_of_nothing, wholes_in_order, zero, Binary64,
};
use crate::calendar::{date_text, date_text_is_unique, day_of, days_have_24_hours, ymd};
use crate::index::{lemma_place, lemma_place_is, place};
use crate::iotop::falling_key;
use crate::numeral::{format_shortest, shortest};
use crate::order::{arranged, key_views, ordering, places, sort_order};
use crate::records::accounts::{
    begun_episode, charged, ended, ending, episode_ends, extended, going_on, has_ended, has_episode,
    hottest, hottest_is_greatest, in_order, kept_episodes, kept_for_seven_days, kept_minutes,
    new_offender, offender_keys, once, over, over_pids, quiet_sample_ends_the_episode, remembered,
    settled, settled_in_order, spike_begins_its_episode, spike_opens_an_episode, touched,
    touched_by_all, touched_offenders, touched_open, Accounts,
};
use crate::records::amounts::{
    clamp_threshold, cutoff, end_of_minute, epsilon, held_threshold, minute_end, plus64,
    threshold_is_held, EPSILON_BITS, MAX_MINUTES, MAX_OFFENDERS, RETAIN_SECS,
};
use crate::records::lines::{episode_line, episode_text, minute_line, minute_text};
use crate::records::minutes::{
    changes, minute_keeps_peaks, new_minute, noted, opened_minutes, with_reading, Reading,
};
use crate::records::types::{
    episode_pids, episode_views, minute_views, offender_pids, offender_views, snap_views, Episode,
    EpisodeView, Minute, MinuteView, Offender, OffenderView, ProcSnap, SnapView,
};

verus! {

/// The folders that records go to.
#[derive(Clone, Copy, Debug, PartialEq, Eq, Structural)]
pub enum Folder {
    Episodes,
    Minutes,
}

/// A line that is to be added to a file.
pub struct Append {
    pub folder: Folder,
    /// The file's name.
    pub file: String,
    pub line: String,
}

/// Whether a text is the name of the file for a time.
pub open spec fn file_name(s: Seq<char>, unix: u64) -> bool {
    exists|day: Seq<char>| #[trigger]
        date_text(day, day_of(unix)) && s == day + ".jsonl"@
}

/// Whether `a` adds an episode to the file of the day on which it ended.
pub open spec fn saves_episode(a: Append, e: EpisodeView) -> bool {
    a.folder == Folder::Episodes && file_name(a.file@, e.end) && a.line@ == episode_text(e)
}

/// Whether `a` adds a minute to the file of its day.
pub open spec fn saves_minute(a: Append, m: MinuteView) -> bool {
    a.folder == Folder::Minutes && file_name(a.file@, (m.bucket * 60) as u64) && a.line@
        == minute_text(m)
}

fn file_of(unix: u64) -> (r: String)
    ensures
        file_name(r@, unix),
{
    let mut day = ymd(unix);
    let ghost d = day@;
    day.append(".jsonl");
    assert(date_text(d, day_of(unix)) && day@ == d + ".jsonl"@);
    day
}

/// The line that an episode leaves.
pub fn save_episode(ep: &Episode) -> (r: Append)
    ensures
        saves_episode(r, ep@),
{
    Append { folder: Folder::Episodes, file: file_of(ep.end), line: episode_line(ep) }
}

/// The line that a minute leaves.
pub fn save_minute(minute: &Minute) -> (r: Append)
    requires
        minute.bucket * 60 <= u64::MAX,
    ensures
        saves_minute(r, minute@),
{
    Append { folder: Folder::Minutes, file: file_of(minute.bucket * 60), line: minute_line(minute) }
}

/// What a sample leaves on disk: the episodes that ended, then the minute. What
/// has expired is deleted between the two.
pub struct Saves {
    pub episodes: Vec<Append>,
    pub minute: Option<Append>,
}

/// The records of a monitor.
pub struct AlertBook {
    pub threshold: Binary64,
    pub started: u64,
    pub samples: u64,
    pub alert_samples: u64,
    /// The episodes that go on, in the order in which they began.
    pub open: Vec<Episode>,
    /// The episodes that are over, the latest first.
    pub closed: Vec<Episode>,
    pub offenders: Vec<Offender>,
    pub minutes: Vec<Minute>,
    pub peak_io: Binary64,
    pub peak_io_at: u64,
    pub peak_io_cmd: String,
    pub peak_io_pid: u32,
    pub peak_write: Binary64,
    pub peak_write_at: u64,
    pub peak_read: Binary64,
    pub peak_read_at: u64,
}

/// Whether a new threshold differs from the one that holds, by a millionth or
/// more.
pub open spec fn moves(threshold: Binary64, value: Binary64) -> bool {
    !absolute(difference(threshold, held_threshold(value))).below(
        quotient(whole(1), whole(1_000_000)),
    )
}

/// A book with a new threshold.
pub open spec fn retuned(book: AlertBook, value: Binary64) -> AlertBook {
    AlertBook {
        threshold: if moves(book.threshold, value) {
            held_threshold(value)
        } else {
            book.threshold
        },
        ..book
    }
}

/// The text of the file that holds a threshold.
pub open spec fn threshold_text(threshold: Binary64) -> Seq<char> {
    shortest(threshold) + "\n"@
}

/// The duration of a sample: one second where it is no positive number.
pub open spec fn duration(elapsed_s: Binary64) -> Binary64 {
    if elapsed_s.finite() && zero().below(elapsed_s) {
        elapsed_s
    } else {
        whole(1)
    }
}

fn holds_pid(pids: &Vec<u32>, pid: u32) -> (r: bool)
    ensures
        r == pids@.contains(pid),
{
    for i in 0..pids.len()
        invariant
            forall|j: int| 0 <= j < i ==> pids@[j] != pid,
    {
        if pids[i] == pid {
            return true;
        }
    }
    false
}

impl AlertBook {
    pub open spec fn accounts(self) -> Accounts {
        Accounts { open: episode_views(self.open@), offenders: offender_views(self.offenders@) }
    }

    /// Whether the book's accounts are in order.
    pub open spec fn wf(self) -> bool {
        in_order(self.accounts())
    }

    /// An empty book.
    pub fn new(threshold: Binary64, now: u64) -> (r: AlertBook)
        ensures
            r.wf(),
            r.threshold == held_threshold(threshold),
            r.started == now,
            r.samples == 0,
            r.alert_samples == 0,
            r.open@.len() == 0,
            r.closed@.len() == 0,
            r.offenders@.len() == 0,
            r.minutes@.len() == 0,
            r.peak_io == zero(),
            r.peak_io_at == 0,
            r.peak_io_cmd@.len() == 0,
            r.peak_io_pid == 0,
            r.peak_write == zero(),
            r.peak_write_at == 0,
            r.peak_read == zero(),
            r.peak_read_at == 0,
    {
        let none = Binary64::from_bits(0);
        AlertBook {
            threshold: clamp_threshold(&threshold),
            started: now,
            samples: 0,
            alert_samples: 0,
            open: Vec::new(),
            closed: Vec::new(),
            offenders: Vec::new(),
            minutes: Vec::new(),
            peak_io: none,
            peak_io_at: 0,
            peak_io_cmd: String::new(),
            peak_io_pid: 0,
            peak_write: none,
            peak_write_at: 0,
            peak_read: none,
            peak_read_at: 0,
        }
    }

    /// Changes the threshold, and tells whether it changed. A change of less
    /// than a millionth is none.
    pub fn set_threshold(&mut self, value: Binary64) -> (r: bool)
        ensures
            r == moves(old(self).threshold, value),
            *final(self) == retuned(*old(self), value),
    {
        let value = clamp_threshold(&value);
        let millionth = Binary64::from_u64(1).over(&Binary64::from_u64(1_000_000));
        if self.threshold.minus(&value).abs().lt(&millionth) {
            return false;
        }
        self.threshold = value;
        true
    }

    /// The text of the file that holds the threshold.
    pub fn save_threshold(&self) -> (r: String)
        ensures
            r@ == threshold_text(self.threshold),
    {
        let mut text = format_shortest(&self.threshold);
        text.append("\n");
        text
    }

    /// How many episodes go on.
    pub fn open_count(&self) -> (r: usize)
        ensures
            r == self.open@.len(),
    {
        self.open.len()
    }

    fn find_open(&self, pid: u32) -> (r: Option<usize>)
        ensures
            match r {
                Some(i) => i < self.open@.len() && i == place(
                    episode_pids(episode_views(self.open@)),
                    pid as u64,
                ),
                None => place(episode_pids(episode_views(self.open@)), pid as u64)
                    == self.open@.len(),
            },
    {
        let ghost keys = episode_pids(episode_views(self.open@));
        for i in 0..self.open.len()
            invariant
                keys == episode_pids(episode_views(self.open@)),
                forall|j: int| 0 <= j < i ==> keys[j] != pid as u64,
        {
            assert(keys[i as int] == self.open@[i as int].pid as u64);
            if self.open[i].pid == pid {
                proof {
                    lemma_place_is(keys, pid as u64, i as int);
                }
                return Some(i);
            }
        }
        proof {
            lemma_place_is(keys, pid as u64, keys.len() as int);
        }
        None
    }

    fn find_offender(&self, pid: u32) -> (r: Option<usize>)
        ensures
            match r {
                Some(i) => i < self.offenders@.len() && i == place(
                    offender_pids(offender_views(self.offenders@)),
                    pid as u64,
                ),
                None => place(offender_pids(offender_views(self.offenders@)), pid as u64)
                    == self.offenders@.len(),
            },
    {
        let ghost keys = offender_pids(offender_views(self.offenders@));
        for i in 0..self.offenders.len()
            invariant
                keys == offender_pids(offender_views(self.offenders@)),
                forall|j: int| 0 <= j < i ==> keys[j] != pid as u64,
        {
            assert(keys[i as int] == self.offenders@[i as int].pid as u64);
            if self.offenders[i].pid == pid {
                proof {
                    lemma_place_is(keys, pid as u64, i as int);
                }
                return Some(i);
            }
        }
        proof {
            lemma_place_is(keys, pid as u64, keys.len() as int);
        }
        None
    }

    /// Takes in a process that is over the threshold.
    pub fn touch(&mut self, now: u64, elapsed: Binary64, proc: &ProcSnap)
        ensures
            final(self).accounts() == touched(old(self).accounts(), now, elapsed, proc@),
            *final(self) == (AlertBook {
                open: final(self).open,
                offenders: final(self).offenders,
                ..*old(self)
            }),
    {
        let ghost open0 = episode_views(self.open@);
        let ghost offs0 = offender_views(self.offenders@);
        let ghost p = proc@;
        let begins = match self.find_open(proc.pid) {
            Some(i) => {
                let e = &self.open[i];
                assert(open0[i as int] == e@);
                let ep = Episode {
                    pid: e.pid,
                    user: proc.user.clone(),
                    command: if proc.command.as_str().is_empty() {
                        e.command.clone()
                    } else {
                        proc.command.clone()
                    },
                    start: e.start,
                    end: now,
                    samples: e.samples.saturating_add(1),
                    over_s: e.over_s.plus(&elapsed),
                    max_io: e.max_io.max(&proc.io),
                    last_io: proc.io,
                    max_read: e.max_read.max(&proc.read),
                    max_write: e.max_write.max(&proc.write),
                    open: e.open,
                };
                assert(ep@ == extended(open0[i as int], now, elapsed, p));
                self.open.set(i, ep);
                assert(episode_views(self.open@) =~= touched_open(open0, now, elapsed, p));
                false
            },
            None => {
                let ep = Episode {
                    pid: proc.pid,
                    user: proc.user.clone(),
                    command: proc.command.clone(),
                    start: now,
                    end: now,
                    samples: 1,
                    over_s: elapsed,
                    max_io: proc.io,
                    last_io: proc.io,
                    max_read: proc.read,
                    max_write: proc.write,
                    open: true,
                };
                assert(ep@ == begun_episode(now, elapsed, p));
                self.open.push(ep);
                assert(episode_views(self.open@) =~= touched_open(open0, now, elapsed, p));
                true
            },
        };
        match self.find_offender(proc.pid) {
            Some(i) => {
                let o = &self.offenders[i];
                assert(offs0[i as int] == o@);
                let off = charge(o, begins, now, elapsed, proc);
                self.offenders.set(i, off);
                assert(offender_views(self.offenders@) =~= touched_offenders(
                    offs0,
                    begins,
                    now,
                    elapsed,
                    p,
                ));
            },
            None => {
                if begins {
                    let none = Binary64::from_bits(0);
                    let fresh = Offender {
                        pid: proc.pid,
                        user: proc.user.clone(),
                        command: proc.command.clone(),
                        episodes: 0,
                        samples: 0,
                        over_s: none,
                        max_io: none,
                        max_read: none,
                        max_write: none,
                        last: now,
                    };
                    assert(fresh@ == new_offender(now, p));
                    let off = charge(&fresh, true, now, elapsed, proc);
                    self.offenders.push(off);
                }
                assert(offender_views(self.offenders@) =~= touched_offenders(
                    offs0,
                    begins,
                    now,
                    elapsed,
                    p,
                ));
            },
        }
    }
}

fn charge(o: &Offender, begins: bool, now: u64, elapsed: Binary64, proc: &ProcSnap) -> (r: Offender)
    ensures
        r@ == charged(o@, begins, now, elapsed, proc@),
{
    Offender {
        pid: o.pid,
        user: proc.user.clone(),
        command: if proc.command.as_str().is_empty() {
            o.command.clone()
        } else {
            proc.command.clone()
        },
        episodes: if begins {
            o.episodes.saturating_add(1)
        } else {
            o.episodes
        },
        samples: o.samples.saturating_add(1),
        over_s: o.over_s.plus(&elapsed),
        max_io: o.max_io.max(&proc.io),
        max_read: o.max_read.max(&proc.read),
        max_write: o.max_write.max(&proc.write),
        last: now,
    }
}

impl AlertBook {
    /// Drops the records that have expired.
    pub fn retain(&mut self, now: u64)
        ensures
            episode_views(final(self).closed@) == kept_episodes(
                episode_views(old(self).closed@),
                now,
            ),
            minute_views(final(self).minutes@) == kept_minutes(
                minute_views(old(self).minutes@),
                now,
            ),
            *final(self) == (AlertBook {
                closed: final(self).closed,
                minutes: final(self).minutes,
                ..*old(self)
            }),
    {
        let limit = now.saturating_sub(RETAIN_SECS);
        self.closed = young_episodes(&self.closed, limit, now);
        self.minutes = young_minutes(&self.minutes, limit, now);
    }

    /// Forgets offenders where they are too many.
    pub fn trim_offenders(&mut self)
        ensures
            offender_views(final(self).offenders@) == remembered(
                offender_views(old(self).offenders@),
                episode_views(old(self).open@),
            ),
            *final(self) == (AlertBook { offenders: final(self).offenders, ..*old(self) }),
    {
        let n = self.offenders.len();
        if n <= MAX_OFFENDERS + 8 {
            return ;
        }
        let ghost g = offender_views(self.offenders@);
        let ghost open = episode_views(self.open@);
        let mut keys: Vec<Vec<u64>> = Vec::new();
        for i in 0..n
            invariant
                n == self.offenders@.len(),
                g == offender_views(self.offenders@),
                keys@.len() == i,
                forall|j: int| 0 <= j < i ==> (#[trigger] keys@[j])@ == offender_keys(g)[j],
        {
            let o = &self.offenders[i];
            let fewer: u64 = (u32::MAX - o.samples) as u64;
            let key: Vec<u64> = vec![falling_key(&o.max_io), fewer];
            assert(key@ =~= offender_keys(g)[i as int]);
            keys.push(key);
        }
        assert(key_views(keys@) =~= offender_keys(g));
        let order = sort_order(&keys);
        let ghost top = offender_pids(
            arranged(g, offender_keys(g)).take(MAX_OFFENDERS as int),
        );
        let mut kept: Vec<u32> = Vec::new();
        for i in 0..MAX_OFFENDERS
            invariant
                n == self.offenders@.len(),
                n > MAX_OFFENDERS,
                g == offender_views(self.offenders@),
                order@.len() == n,
                places(order@) == ordering(offender_keys(g)),
                forall|j: int| 0 <= j < order@.len() ==> #[trigger] order@[j] < n,
                top == offender_pids(arranged(g, offender_keys(g)).take(MAX_OFFENDERS as int)),
                kept@.len() == i,
                forall|j: int| 0 <= j < i ==> #[trigger] kept@[j] as u64 == top[j],
        {
            kept.push(self.offenders[order[i]].pid);
            assert(places(order@)[i as int] == order@[i as int]);
        }
        let ghost pred = |o: OffenderView|
            top.contains(o.pid as u64) || episode_pids(open).contains(o.pid as u64);
        let mut out: Vec<Offender> = Vec::new();
        proof {
            reveal(Seq::filter);
        }
        assert(offender_views(out@) =~= g.take(0).filter(pred));
        for i in 0..n
            invariant
                n == self.offenders@.len(),
                g == offender_views(self.offenders@),
                open == episode_views(self.open@),
                pred == (|o: OffenderView|
                    top.contains(o.pid as u64) || episode_pids(open).contains(o.pid as u64)),
                top.len() == MAX_OFFENDERS,
                kept@.len() == MAX_OFFENDERS,
                forall|j: int| 0 <= j < MAX_OFFENDERS ==> #[trigger] kept@[j] as u64 == top[j],
                offender_views(out@) == g.take(i as int).filter(pred),
        {
            let o = &self.offenders[i];
            let ghost before = out@;
            assert(g.take(i as int + 1).drop_last() =~= g.take(i as int));
            assert(g[i as int] == o@);
            let in_top = holds_pid(&kept, o.pid);
            let is_open = self.find_open(o.pid).is_some();
            proof {
                reveal(Seq::filter);
                if in_top {
                    let j = choose|j: int| 0 <= j < kept@.len() && kept@[j] == o.pid;
                    assert(top[j] == o.pid as u64);
                } else if top.contains(o.pid as u64) {
                    let j = choose|j: int| 0 <= j < top.len() && top[j] == o.pid as u64;
                    assert(kept@[j] as u64 == o.pid as u64);
                }
                let keys = episode_pids(open);
                lemma_place(keys, o.pid as u64);
                if !is_open && keys.contains(o.pid as u64) {
                    let j = choose|j: int| 0 <= j < keys.len() && keys[j] == o.pid as u64;
                    assert(keys[j] != o.pid as u64);
                }
                assert((in_top || is_open) == pred(o@));
            }
            if in_top || is_open {
                out.push(o.clone());
                assert(offender_views(out@) =~= offender_views(before).push(o@));
            }
        }
        assert(g.take(n as int) =~= g);
        self.offenders = out;
    }

    /// Takes a sample into the minute that it falls in. Gives the minute where
    /// it changed.
    pub fn note_minute(
        &mut self,
        now: u64,
        top_io: Binary64,
        top_cmd: &str,
        top_pid: u32,
        actual_read: Binary64,
        actual_write: Binary64,
        over: bool,
    ) -> (r: Option<Append>)
        ensures
            ({
                let reading = Reading {
                    top_io,
                    top_cmd: top_cmd@,
                    top_pid,
                    read: actual_read,
                    write: actual_write,
                    over,
                };
                let minutes = minute_views(old(self).minutes@);
                &&& minute_views(final(self).minutes@) == noted(minutes, now, reading)
                &&& match r {
                    Some(a) => changes(opened_minutes(minutes, now).last(), reading)
                        && saves_minute(a, noted(minutes, now, reading).last()),
                    None => !changes(opened_minutes(minutes, now).last(), reading),
                }
            }),
            *final(self) == (AlertBook { minutes: final(self).minutes, ..*old(self) }),
    {
        let ghost start = minute_views(self.minutes@);
        let ghost reading = Reading {
            top_io,
            top_cmd: top_cmd@,
            top_pid,
            read: actual_read,
            write: actual_write,
            over,
        };
        let bucket = now / 60;
        let n = self.minutes.len();
        let same = n > 0 && self.minutes[n - 1].bucket == bucket;
        let none = Binary64::from_bits(0);
        if !same {
            let fresh = Minute {
                bucket,
                max_io: none,
                max_read: none,
                max_write: none,
                over: 0,
                top_io: none,
                top_cmd: String::new(),
                top_pid: 0,
            };
            assert(fresh@.top_cmd =~= seq![]);
            assert(fresh@ == new_minute(bucket));
            self.minutes.push(fresh);
            let ghost pushed = start.push(new_minute(bucket));
            assert(minute_views(self.minutes@) =~= pushed);
            assert(pushed.skip(0) =~= pushed);
            let ghost mut dropped: int = 0;
            while self.minutes.len() > MAX_MINUTES
                invariant
                    0 <= dropped <= pushed.len(),
                    minute_views(self.minutes@) == pushed.skip(dropped),
                    dropped > 0 ==> pushed.len() - dropped >= MAX_MINUTES,
                    *self == (AlertBook { minutes: self.minutes, ..*old(self) }),
                    pushed == start.push(new_minute(bucket)),
                decreases self.minutes@.len(),
            {
                let ghost before = self.minutes@;
                self.minutes.remove(0);
                proof {
                    assert(minute_views(self.minutes@) =~= minute_views(before).skip(1));
                    assert(pushed.skip(dropped).skip(1) =~= pushed.skip(dropped + 1));
                    dropped = dropped + 1;
                }
            }
            assert(minute_views(self.minutes@) =~= opened_minutes(start, now));
        }
        let ghost opened = opened_minutes(start, now);
        let last = self.minutes.len() - 1;
        let m = &self.minutes[last];
        assert(opened[last as int] == m@);
        let read_up = m.max_read.lt(&actual_read);
        let write_up = m.max_write.lt(&actual_write);
        let io_up = m.max_io.le(&top_io);
        let top = io_up && none.lt(&top_io);
        let changed = read_up || write_up || over || io_up;
        let noted_minute = Minute {
            bucket: m.bucket,
            max_io: if io_up {
                top_io
            } else {
                m.max_io
            },
            max_read: if read_up {
                actual_read
            } else {
                m.max_read
            },
            max_write: if write_up {
                actual_write
            } else {
                m.max_write
            },
            over: if over {
                m.over.saturating_add(1)
            } else {
                m.over
            },
            top_io: if top {
                top_io
            } else {
                m.top_io
            },
            top_cmd: if top {
                top_cmd.to_string()
            } else {
                m.top_cmd.clone()
            },
            top_pid: if top {
                top_pid
            } else {
                m.top_pid
            },
        };
        assert(noted_minute@ == with_reading(opened.last(), reading));
        let saved = if changed {
            Some(save_minute(&noted_minute))
        } else {
            None
        };
        self.minutes.set(last, noted_minute);
        assert(minute_views(self.minutes@) =~= noted(start, now, reading));
        saved
    }
}

/// The episodes that have not expired.
fn young_episodes(v: &Vec<Episode>, limit: u64, now: u64) -> (r: Vec<Episode>)
    requires
        limit == cutoff(now),
    ensures
        episode_views(r@) == kept_episodes(episode_views(v@), now),
{
    let ghost g = episode_views(v@);
    let ghost pred = |e: EpisodeView| e.end >= cutoff(now);
    let mut out: Vec<Episode> = Vec::new();
    proof {
        reveal(Seq::filter);
    }
    assert(episode_views(out@) =~= g.take(0).filter(pred));
    for i in 0..v.len()
        invariant
            limit == cutoff(now),
            g == episode_views(v@),
            pred == (|e: EpisodeView| e.end >= cutoff(now)),
            episode_views(out@) == g.take(i as int).filter(pred),
    {
        let ghost before = out@;
        assert(g.take(i as int + 1).drop_last() =~= g.take(i as int));
        assert(g[i as int] == v@[i as int]@);
        proof {
            reveal(Seq::filter);
        }
        if v[i].end >= limit {
            out.push(v[i].clone());
            assert(episode_views(out@) =~= episode_views(before).push(v@[i as int]@));
        }
    }
    assert(g.take(g.len() as int) =~= g);
    out
}

/// The minutes that have not expired.
fn young_minutes(v: &Vec<Minute>, limit: u64, now: u64) -> (r: Vec<Minute>)
    requires
        limit == cutoff(now),
    ensures
        minute_views(r@) == kept_minutes(minute_views(v@), now),
{
    let ghost g = minute_views(v@);
    let ghost pred = |m: MinuteView| minute_end(m.bucket) > cutoff(now);
    let mut out: Vec<Minute> = Vec::new();
    proof {
        reveal(Seq::filter);
    }
    assert(minute_views(out@) =~= g.take(0).filter(pred));
    for i in 0..v.len()
        invariant
            limit == cutoff(now),
            g == minute_views(v@),
            pred == (|m: MinuteView| minute_end(m.bucket) > cutoff(now)),
            minute_views(out@) == g.take(i as int).filter(pred),
    {
        let ghost before = out@;
        assert(g.take(i as int + 1).drop_last() =~= g.take(i as int));
        assert(g[i as int] == v@[i as int]@);
        proof {
            reveal(Seq::filter);
        }
        if end_of_minute(v[i].bucket) > limit {
            out.push(v[i].clone());
            assert(minute_views(out@) =~= minute_views(before).push(v@[i as int]@));
        }
    }
    assert(g.take(g.len() as int) =~= g);
    out
}

/// What one sample says of its minute.
pub open spec fn reading_of(
    threshold: Binary64,
    read: Binary64,
    write: Binary64,
    procs: Seq<SnapView>,
) -> Reading {
    let hot = hottest(procs);
    Reading {
        top_io: hot.0,
        top_cmd: hot.1,
        top_pid: hot.2,
        read,
        write,
        over: over_pids(threshold, procs).len() > 0,
    }
}

/// The episodes that end with a sample.
pub open spec fn ended_by(
    book: AlertBook,
    now: u64,
    elapsed_s: Binary64,
    procs: Seq<SnapView>,
) -> Seq<EpisodeView> {
    let a = touched_by_all(book.accounts(), now, duration(elapsed_s), book.threshold, procs);
    ending(a.open, over_pids(book.threshold, procs), now)
}

/// A greater value with its time, where it is greater.
pub open spec fn raised_peak(peak: (Binary64, u64), value: Binary64, now: u64) -> (Binary64, u64) {
    if peak.0.below(value) {
        (value, now)
    } else {
        peak
    }
}

/// Whether a book has taken in one sample, and what that leaves on disk.
pub open spec fn ingested(
    before: AlertBook,
    after: AlertBook,
    saves: Saves,
    now: u64,
    elapsed_s: Binary64,
    read: Binary64,
    write: Binary64,
    procs: Seq<SnapView>,
) -> bool {
    let still = over_pids(before.threshold, procs);
    let hot = hottest(procs);
    let over_now = ended_by(before, now, elapsed_s, procs);
    let minutes = kept_minutes(minute_views(before.minutes@), now);
    let reading = reading_of(before.threshold, read, write, procs);
    &&& after.threshold == before.threshold
    &&& after.started == before.started
    &&& after.samples == plus64(before.samples, 1)
    &&& after.alert_samples == if still.len() > 0 {
        plus64(before.alert_samples, 1)
    } else {
        before.alert_samples
    }
    &&& after.accounts() == settled(
        before.accounts(),
        now,
        duration(elapsed_s),
        before.threshold,
        procs,
    )
    &&& episode_views(after.closed@) == kept_episodes(
        over_now.reverse() + episode_views(before.closed@),
        now,
    )
    &&& minute_views(after.minutes@) == noted(minutes, now, reading)
    &&& saves.episodes@.len() == over_now.len()
    &&& forall|i: int|
        0 <= i < saves.episodes@.len() ==> saves_episode(#[trigger] saves.episodes@[i], over_now[i])
    &&& match saves.minute {
        Some(m) => changes(opened_minutes(minutes, now).last(), reading) && saves_minute(
            m,
            noted(minutes, now, reading).last(),
        ),
        None => !changes(opened_minutes(minutes, now).last(), reading),
    }
    &&& (after.peak_io, after.peak_io_at) == raised_peak(
        (before.peak_io, before.peak_io_at),
        hot.0,
        now,
    )
    &&& (after.peak_io_cmd@, after.peak_io_pid) == if before.peak_io.below(hot.0) {
        (hot.1, hot.2)
    } else {
        (before.peak_io_cmd@, before.peak_io_pid)
    }
    &&& (after.peak_write, after.peak_write_at) == raised_peak(
        (before.peak_write, before.peak_write_at),
        write,
        now,
    )
    &&& (after.peak_read, after.peak_read_at) == raised_peak(
        (before.peak_read, before.peak_read_at),
        read,
        now,
    )
}

/// The process with the greatest share: its share, command and number.
fn find_hottest(procs: &[ProcSnap]) -> (r: (Binary64, String, u32))
    ensures
        (r.0, r.1@, r.2) == hottest(snap_views(procs@)),
{
    let ghost g = snap_views(procs@);
    let mut io = Binary64::from_bits(0);
    let mut cmd: String = String::new();
    let mut pid: u32 = 0;
    assert(cmd@ =~= seq![]);
    for i in 0..procs.len()
        invariant
            g == snap_views(procs@),
            (io, cmd@, pid) == hottest(g.take(i as int)),
    {
        let p = &procs[i];
        assert(g.take(i as int + 1).drop_last() =~= g.take(i as int));
        assert(g[i as int] == p@);
        if io.lt(&p.io) {
            io = p.io;
            cmd = p.command.clone();
            pid = p.pid;
        }
    }
    assert(g.take(g.len() as int) =~= g);
    (io, cmd, pid)
}

/// Splits the open episodes into those that go on and those that end.
fn part_episodes(open: &Vec<Episode>, still: &Vec<u32>, now: u64) -> (r: (Vec<Episode>, Vec<Episode>))
    ensures
        episode_views(r.0@) == going_on(episode_views(open@), still@),
        episode_views(r.1@) == ending(episode_views(open@), still@, now),
{
    let ghost g = episode_views(open@);
    let ghost pred = |e: EpisodeView| still@.contains(e.pid);
    let mut on: Vec<Episode> = Vec::new();
    let mut off: Vec<Episode> = Vec::new();
    proof {
        reveal(Seq::filter);
    }
    assert(episode_views(on@) =~= g.take(0).filter(pred));
    assert(episode_views(off@) =~= ending(g.take(0), still@, now));
    for i in 0..open.len()
        invariant
            g == episode_views(open@),
            pred == (|e: EpisodeView| still@.contains(e.pid)),
            episode_views(on@) == g.take(i as int).filter(pred),
            episode_views(off@) == ending(g.take(i as int), still@, now),
    {
        let ghost on0 = on@;
        let ghost off0 = off@;
        assert(g.take(i as int + 1).drop_last() =~= g.take(i as int));
        assert(g[i as int] == open@[i as int]@);
        proof {
            reveal(Seq::filter);
        }
        if holds_pid(still, open[i].pid) {
            on.push(open[i].clone());
            assert(episode_views(on@) =~= episode_views(on0).push(g[i as int]));
        } else {
            let mut ep = open[i].clone();
            ep.open = false;
            ep.end = now;
            off.push(ep);
            assert(episode_views(off@) =~= episode_views(off0).push(ended(g[i as int], now)));
        }
    }
    assert(g.take(g.len() as int) =~= g);
    (on, off)
}

/// The episodes that ended, the last first, and those that were over before.
fn put_before(ended_now: &Vec<Episode>, closed: &Vec<Episode>) -> (r: Vec<Episode>)
    ensures
        episode_views(r@) == episode_views(ended_now@).reverse() + episode_views(closed@),
{
    let ghost e = episode_views(ended_now@);
    let ghost c = episode_views(closed@);
    let n = ended_now.len();
    let mut out: Vec<Episode> = Vec::new();
    for i in 0..n
        invariant
            n == ended_now@.len(),
            e == episode_views(ended_now@),
            out@.len() == i,
            forall|j: int| 0 <= j < i ==> (#[trigger] out@[j])@ == e[n - 1 - j],
    {
        out.push(ended_now[n - 1 - i].clone());
    }
    for i in 0..closed.len()
        invariant
            n == e.len(),
            c == episode_views(closed@),
            out@.len() == n + i,
            forall|j: int| 0 <= j < n ==> (#[trigger] out@[j])@ == e[n - 1 - j],
            forall|j: int| n <= j < n + i ==> (#[trigger] out@[j])@ == c[j - n],
    {
        out.push(closed[i].clone());
    }
    assert(episode_views(out@) =~= e.reverse() + c);
    out
}

/// The lines that episodes leave.
fn save_episodes(episodes: &Vec<Episode>) -> (r: Vec<Append>)
    ensures
        r@.len() == episodes@.len(),
        forall|i: int| 0 <= i < r@.len() ==> saves_episode(#[trigger] r@[i], episodes@[i]@),
{
    let mut out: Vec<Append> = Vec::new();
    for i in 0..episodes.len()
        invariant
            out@.len() == i,
            forall|j: int| 0 <= j < i ==> saves_episode(#[trigger] out@[j], episodes@[j]@),
    {
        out.push(save_episode(&episodes[i]));
    }
    out
}

impl AlertBook {
    /// Takes in the processes over the threshold, and lists them.
    fn touch_all(&mut self, now: u64, elapsed: Binary64, procs: &[ProcSnap]) -> (r: Vec<u32>)
        ensures
            r@ == over_pids(old(self).threshold, snap_views(procs@)),
            final(self).accounts() == touched_by_all(
                old(self).accounts(),
                now,
                elapsed,
                old(self).threshold,
                snap_views(procs@),
            ),
            *final(self) == (AlertBook {
                open: final(self).open,
                offenders: final(self).offenders,
                ..*old(self)
            }),
    {
        let ghost g = snap_views(procs@);
        let ghost start = self.accounts();
        let threshold = self.threshold;
        let epsilon = Binary64::from_bits(EPSILON_BITS);
        let mut pids: Vec<u32> = Vec::new();
        for i in 0..procs.len()
            invariant
                g == snap_views(procs@),
                threshold == old(self).threshold,
                epsilon == self::epsilon(),
                pids@ == over_pids(threshold, g.take(i as int)),
                start == old(self).accounts(),
                self.accounts() == touched_by_all(start, now, elapsed, threshold, g.take(i as int)),
                *self == (AlertBook {
                    open: self.open,
                    offenders: self.offenders,
                    ..*old(self)
                }),
        {
            let p = &procs[i];
            assert(g.take(i as int + 1).drop_last() =~= g.take(i as int));
            assert(g[i as int] == p@);
            if threshold.le(&p.io.plus(&epsilon)) {
                pids.push(p.pid);
                self.touch(now, elapsed, p);
            }
        }
        assert(g.take(g.len() as int) =~= g);
        pids
    }

    /// Takes in one sample of all processes. `actual_read` and `actual_write`
    /// are the rates of storage. Gives what is to be written to disk.
    pub fn ingest(
        &mut self,
        now: u64,
        elapsed_s: Binary64,
        actual_read: Binary64,
        actual_write: Binary64,
        procs: &[ProcSnap],
    ) -> (r: Saves)
        ensures
            old(self).wf() ==> final(self).wf(),
            ingested(
                *old(self),
                *final(self),
                r,
                now,
                elapsed_s,
                actual_read,
                actual_write,
                snap_views(procs@),
            ),
    {
        let none = Binary64::from_bits(0);
        self.samples = self.samples.saturating_add(1);
        let elapsed = if elapsed_s.is_finite() && none.lt(&elapsed_s) {
            elapsed_s
        } else {
            Binary64::from_u64(1)
        };
        if self.peak_write.lt(&actual_write) {
            self.peak_write = actual_write;
            self.peak_write_at = now;
        }
        if self.peak_read.lt(&actual_read) {
            self.peak_read = actual_read;
            self.peak_read_at = now;
        }
        let (hot_io, hot_cmd, hot_pid) = find_hottest(procs);
        if self.peak_io.lt(&hot_io) {
            self.peak_io = hot_io;
            self.peak_io_at = now;
            self.peak_io_cmd = hot_cmd.clone();
            self.peak_io_pid = hot_pid;
        }
        let still = self.touch_all(now, elapsed, procs);
        if still.len() > 0 {
            self.alert_samples = self.alert_samples.saturating_add(1);
        }
        let (on, finished) = part_episodes(&self.open, &still, now);
        let episodes = save_episodes(&finished);
        self.closed = put_before(&finished, &self.closed);
        self.open = on;
        self.retain(now);
        self.trim_offenders();
        let minute = self.note_minute(
            now,
            hot_io,
            hot_cmd.as_str(),
            hot_pid,
            actual_read,
            actual_write,
            still.len() > 0,
        );
        proof {
            let p = snap_views(procs@);
            if old(self).wf() {
                settled_in_order(
                    old(self).accounts(),
                    now,
                    duration(elapsed_s),
                    old(self).threshold,
                    p,
                );
            }
            let a = touched_by_all(
                old(self).accounts(),
                now,
                duration(elapsed_s),
                old(self).threshold,
                p,
            );
            let over_now = ending(a.open, still@, now);
            assert(episode_views(finished@) == over_now);
            assert forall|i: int| 0 <= i < episodes@.len() implies saves_episode(
                #[trigger] episodes@[i],
                over_now[i],
            ) by {
                assert(over_now[i] == finished@[i]@);
            }
        }
        Saves { episodes, minute }
    }
}

/// Whether one of the lines is of an episode of this process that ended at this
/// time.
pub open spec fn has_line(saves: Saves, pid: u32, now: u64) -> bool {
    exists|i: int, e: EpisodeView|
        0 <= i < saves.episodes@.len() && #[trigger] saves_episode(saves.episodes@[i], e) && e.pid
            == pid && !e.open && e.end == now
}

/// One sample over the threshold leaves a record: it is written with the first
/// sample after it in which the process is not over the threshold.
pub proof fn spike_is_saved(
    before: AlertBook,
    during: AlertBook,
    after: AlertBook,
    first: Saves,
    second: Saves,
    now: (u64, u64),
    elapsed_s: (Binary64, Binary64),
    read: (Binary64, Binary64),
    write: (Binary64, Binary64),
    procs: (Seq<SnapView>, Seq<SnapView>),
    k: int,
)
    requires
        ingested(before, during, first, now.0, elapsed_s.0, read.0, write.0, procs.0),
        ingested(during, after, second, now.1, elapsed_s.1, read.1, write.1, procs.1),
        0 <= k < procs.0.len(),
        over(before.threshold, procs.0[k]),
        !over_pids(before.threshold, procs.1).contains(procs.0[k].pid),
    ensures
        has_line(second, procs.0[k].pid, now.1),
{
    let pid = procs.0[k].pid;
    let t = before.threshold;
    spike_opens_an_episode(before.accounts(), now.0, duration(elapsed_s.0), t, procs.0, k);
    episode_ends(during.accounts(), now.1, duration(elapsed_s.1), t, procs.1, pid);
    let over_now = ended_by(during, now.1, elapsed_s.1, procs.1);
    assert(has_ended(over_now, pid, now.1));
    let i = choose|i: int|
        0 <= i < over_now.len() && (#[trigger] over_now[i]).pid == pid && !over_now[i].open
            && over_now[i].end == now.1;
    assert(saves_episode(second.episodes@[i], over_now[i]));
}

/// A process that is over the threshold in one sample alone leaves the record of
/// that sample.
pub proof fn lone_spike_is_saved(
    before: AlertBook,
    during: AlertBook,
    after: AlertBook,
    first: Saves,
    second: Saves,
    now: (u64, u64),
    elapsed_s: (Binary64, Binary64),
    read: (Binary64, Binary64),
    write: (Binary64, Binary64),
    procs: (Seq<SnapView>, Seq<SnapView>),
    k: int,
)
    requires
        before.wf(),
        ingested(before, during, first, now.0, elapsed_s.0, read.0, write.0, procs.0),
        ingested(during, after, second, now.1, elapsed_s.1, read.1, write.1, procs.1),
        once(procs.0),
        0 <= k < procs.0.len(),
        over(before.threshold, procs.0[k]),
        !has_episode(episode_views(before.open@), procs.0[k].pid),
        !over_pids(before.threshold, procs.1).contains(procs.0[k].pid),
    ensures
        exists|i: int|
            0 <= i < second.episodes@.len() && saves_episode(
                #[trigger] second.episodes@[i],
                ended(begun_episode(now.0, duration(elapsed_s.0), procs.0[k]), now.1),
            ),
{
    let t = before.threshold;
    let e = begun_episode(now.0, duration(elapsed_s.0), procs.0[k]);
    spike_begins_its_episode(before.accounts(), now.0, duration(elapsed_s.0), t, procs.0, k);
    quiet_sample_ends_the_episode(
        during.accounts(),
        now.1,
        duration(elapsed_s.1),
        t,
        procs.1,
        e,
    );
    let over_now = ended_by(during, now.1, elapsed_s.1, procs.1);
    let i = choose|i: int| 0 <= i < over_now.len() && over_now[i] == ended(e, now.1);
    assert(saves_episode(second.episodes@[i], over_now[i]));
}

/// Whether a threshold is between 1 and 100.
pub open spec fn in_range(threshold: Binary64) -> bool {
    whole(1).at_most(threshold) && threshold.at_most(whole(100))
}

/// A book's threshold stays between 1 and 100, whatever is asked for.
pub proof fn threshold_stays_in_range(book: AlertBook, value: Binary64)
    requires
        in_range(book.threshold),
    ensures
        in_range(retuned(book, value).threshold),
        in_range(held_threshold(value)),
{
    threshold_is_held(value);
}

/// No peak of a book falls, and none stays below the sample.
pub proof fn peaks_never_fall(
    before: AlertBook,
    after: AlertBook,
    saves: Saves,
    now: u64,
    elapsed_s: Binary64,
    read: Binary64,
    write: Binary64,
    procs: Seq<SnapView>,
)
    requires
        ingested(before, after, saves, now, elapsed_s, read, write, procs),
    ensures
        !after.peak_io.below(before.peak_io),
        !after.peak_io.below(hottest(procs).0),
        !after.peak_read.below(before.peak_read),
        !after.peak_read.below(read),
        !after.peak_write.below(before.peak_write),
        !after.peak_write.below(write),
{
}

// ---------------------------------------------------------------------------
// What a sample does to a book

/// A sample counts once, and as an alert where a process is over the threshold.
pub proof fn samples_are_counted(
    before: AlertBook,
    after: AlertBook,
    saves: Saves,
    now: u64,
    elapsed_s: Binary64,
    read: Binary64,
    write: Binary64,
    procs: Seq<SnapView>,
)
    requires
        ingested(before, after, saves, now, elapsed_s, read, write, procs),
        before.samples < u64::MAX,
        before.alert_samples < u64::MAX,
    ensures
        after.samples == before.samples + 1,
        after.threshold == before.threshold,
        after.started == before.started,
        (exists|k: int| 0 <= k < procs.len() && over(before.threshold, #[trigger] procs[k]))
            ==> after.alert_samples == before.alert_samples + 1,
        (forall|k: int| 0 <= k < procs.len() ==> !over(before.threshold, #[trigger] procs[k]))
            ==> after.alert_samples == before.alert_samples,
{
    over_pids_are_over(before.threshold, procs);
}

/// A process is listed as over the threshold exactly when it is.
proof fn over_pids_are_over(threshold: Binary64, procs: Seq<SnapView>)
    ensures
        (exists|k: int| 0 <= k < procs.len() && over(threshold, #[trigger] procs[k]))
            <==> over_pids(threshold, procs).len() > 0,
    decreases procs.len(),
{
    if procs.len() > 0 {
        let h = procs.drop_last();
        over_pids_are_over(threshold, h);
        if over(threshold, procs.last()) {
            assert(over(threshold, procs[procs.len() - 1]));
        } else {
            if exists|k: int| 0 <= k < procs.len() && over(threshold, #[trigger] procs[k]) {
                let k = choose|k: int| 0 <= k < procs.len() && over(threshold, #[trigger] procs[k]);
                assert(h[k] == procs[k]);
            }
            if exists|k: int| 0 <= k < h.len() && over(threshold, #[trigger] h[k]) {
                let k = choose|k: int| 0 <= k < h.len() && over(threshold, #[trigger] h[k]);
                assert(procs[k] == h[k]);
            }
        }
    }
}

/// Peaks are of samples: one that rises is that of this sample, with its time and
/// process; one that does not stays, with its own.
pub proof fn peaks_are_of_samples(
    before: AlertBook,
    after: AlertBook,
    saves: Saves,
    now: u64,
    elapsed_s: Binary64,
    read: Binary64,
    write: Binary64,
    procs: Seq<SnapView>,
)
    requires
        ingested(before, after, saves, now, elapsed_s, read, write, procs),
    ensures
        before.peak_read.below(read) ==> after.peak_read == read && after.peak_read_at == now,
        !before.peak_read.below(read) ==> after.peak_read == before.peak_read && after.peak_read_at
            == before.peak_read_at,
        before.peak_write.below(write) ==> after.peak_write == write && after.peak_write_at == now,
        !before.peak_write.below(write) ==> after.peak_write == before.peak_write
            && after.peak_write_at == before.peak_write_at,
        zero().at_most(before.peak_io) && before.peak_io.below(after.peak_io) ==> after.peak_io_at
            == now && exists|k: int|
            0 <= k < procs.len() && (#[trigger] procs[k]).io == after.peak_io && procs[k].command
                == after.peak_io_cmd@ && procs[k].pid == after.peak_io_pid,
        forall|k: int|
            0 <= k < procs.len() ==> !after.peak_io.below((#[trigger] procs[k]).io)
                || before.peak_io.nan(),
        !before.peak_io.below(after.peak_io) ==> after.peak_io == before.peak_io && after.peak_io_at
            == before.peak_io_at && after.peak_io_cmd@ == before.peak_io_cmd@ && after.peak_io_pid
            == before.peak_io_pid,
{
    hottest_is_greatest(procs);
    if zero().at_most(before.peak_io) && before.peak_io.below(after.peak_io) {
        let k = choose|k: int|
            0 <= k < procs.len() && hottest(procs) == (
                (#[trigger] procs[k]).io,
                procs[k].command,
                procs[k].pid,
            );
        assert(procs[k].io == after.peak_io);
    }
}

/// What ends with a sample is written down and kept, before all that was kept
/// earlier and has not expired.
pub proof fn ended_episodes_are_kept(
    before: AlertBook,
    after: AlertBook,
    saves: Saves,
    now: u64,
    elapsed_s: Binary64,
    read: Binary64,
    write: Binary64,
    procs: Seq<SnapView>,
    e: EpisodeView,
)
    requires
        ingested(before, after, saves, now, elapsed_s, read, write, procs),
    ensures
        before.accounts().open.contains(e) && !over_pids(before.threshold, procs).contains(e.pid)
            ==> episode_views(after.closed@).contains(EpisodeView { end: now, open: false, ..e }),
        episode_views(before.closed@).contains(e) && e.end + 7 * 86400 >= now ==> episode_views(
            after.closed@,
        ).contains(e),
        episode_views(after.closed@).contains(e) ==> e.end + 7 * 86400 >= now,
{
    let over_now = ended_by(before, now, elapsed_s, procs);
    let earlier = episode_views(before.closed@);
    let all = over_now.reverse() + earlier;
    let x = ended(e, now);
    if before.accounts().open.contains(e) && !over_pids(before.threshold, procs).contains(e.pid) {
        quiet_sample_ends_the_episode(
            before.accounts(),
            now,
            duration(elapsed_s),
            before.threshold,
            procs,
            e,
        );
        let i = choose|i: int| 0 <= i < over_now.len() && over_now[i] == x;
        assert(all[over_now.len() - 1 - i] == x);
        kept_for_seven_days(all, now, x);
    }
    if earlier.contains(e) {
        let i = choose|i: int| 0 <= i < earlier.len() && earlier[i] == e;
        assert(all[over_now.len() + i] == e);
    }
    kept_for_seven_days(all, now, e);
}

/// The minute that a sample belongs to is written down where the sample changes
/// it, as it then stands.
pub proof fn changed_minutes_are_written(
    before: AlertBook,
    after: AlertBook,
    saves: Saves,
    now: u64,
    elapsed_s: Binary64,
    read: Binary64,
    write: Binary64,
    procs: Seq<SnapView>,
)
    requires
        ingested(before, after, saves, now, elapsed_s, read, write, procs),
        over_pids(before.threshold, procs).len() > 0,
    ensures
        saves.minute is Some,
        saves_minute(saves.minute->0, minute_views(after.minutes@).last()),
{
}

/// A duration that is no positive number counts as one second.
pub proof fn durations_are_positive(elapsed_s: Binary64)
    ensures
        zero().below(duration(elapsed_s)) && duration(elapsed_s).finite(),
        zero().below(elapsed_s) && elapsed_s.finite() ==> duration(elapsed_s) == elapsed_s,
        !(zero().below(elapsed_s) && elapsed_s.finite()) ==> duration(elapsed_s) == whole(1),
{
    whole_is_exact(1);
    wholes_in_order(0, 1);
    whole_of_nothing();
}

/// The minute of a sample holds it: its peaks are not below the sample's rates
/// and shares, and it is the minute that the sample was made in.
pub proof fn minute_holds_the_sample(
    before: AlertBook,
    after: AlertBook,
    saves: Saves,
    now: u64,
    elapsed_s: Binary64,
    read: Binary64,
    write: Binary64,
    procs: Seq<SnapView>,
)
    requires
        ingested(before, after, saves, now, elapsed_s, read, write, procs),
    ensures
        ({
            let m = minute_views(after.minutes@).last();
            &&& m.bucket == now / 60
            &&& !m.max_read.below(read)
            &&& !m.max_write.below(write)
            &&& !m.max_io.nan() ==> forall|k: int|
                0 <= k < procs.len() ==> !m.max_io.below((#[trigger] procs[k]).io)
        }),
{
    hottest_is_greatest(procs);
    let minutes = kept_minutes(minute_views(before.minutes@), now);
    let r = reading_of(before.threshold, read, write, procs);
    minute_keeps_peaks(opened_minutes(minutes, now).last(), r);
    let m = minute_views(after.minutes@).last();
    let hot = hottest(procs).0;
    if !m.max_io.nan() {
        assert forall|k: int| 0 <= k < procs.len() implies !m.max_io.below(
            (#[trigger] procs[k]).io,
        ) by {
            assert(!hot.below(procs[k].io));
        }
    }
}

/// A threshold that is asked for, in whole percent, is taken; the same one
/// changes nothing.
pub proof fn threshold_is_taken(book: AlertBook, a: int, b: int)
    requires
        1 <= a <= 100,
        1 <= b <= 100,
        book.threshold == whole(a),
    ensures
        retuned(book, whole(b)).threshold == whole(b),
        moves(book.threshold, whole(b)) <==> a != b,
        retuned(book, whole(b)) == (AlertBook { threshold: whole(b), ..book }),
{
    whole_is_exact(b);
    wholes_in_order(1, b);
    wholes_in_order(b, 100);
    assert(held_threshold(whole(b)) == whole(b));
    distance_of_wholes(a, b);
    part_of_one(1_000_000);
    let d = if a < b {
        b - a
    } else {
        a - b
    };
    whole_of_nothing();
    if d > 0 {
        wholes_in_order(1, d);
    }
}

/// A threshold below 1 is held at 1, one above 100 at 100, and what is no finite
/// number is 20.
pub proof fn thresholds_are_held_in_percent(value: Binary64)
    ensures
        value.finite() && value.below(whole(1)) ==> held_threshold(value) == whole(1),
        value.finite() && whole(100).below(value) ==> held_threshold(value) == whole(100),
        value.finite() && whole(1).at_most(value) && value.at_most(whole(100)) ==> held_threshold(
            value,
        ) == value,
        !value.finite() ==> held_threshold(value) == whole(20),
{
    wholes_in_order(1, 100);
}

/// Records of one day go to one file: episodes by their end, minutes by their
/// first second.
pub proof fn records_of_a_day_share_a_file(
    a: Append,
    e: EpisodeView,
    b: Append,
    f: EpisodeView,
    c: Append,
    m: MinuteView,
)
    requires
        saves_episode(a, e),
        saves_episode(b, f),
        saves_minute(c, m),
        m.bucket * 60 <= u64::MAX,
    ensures
        e.end as int / 86400 == f.end as int / 86400 ==> a.file@ == b.file@,
        e.end as int / 86400 == m.bucket as int / 1440 ==> a.file@ == c.file@,
        a.folder == b.folder && a.folder != c.folder,
{
    let x = choose|day: Seq<char>| #[trigger]
        date_text(day, day_of(e.end)) && a.file@ == day + ".jsonl"@;
    let y = choose|day: Seq<char>| #[trigger]
        date_text(day, day_of(f.end)) && b.file@ == day + ".jsonl"@;
    let t = (m.bucket * 60) as u64;
    let z = choose|day: Seq<char>| #[trigger]
        date_text(day, day_of(t)) && c.file@ == day + ".jsonl"@;
    days_have_24_hours(t);
    if day_of(e.end) == day_of(f.end) {
        date_text_is_unique(x, y, day_of(e.end));
    }
    if day_of(e.end) == day_of(t) {
        date_text_is_unique(x, z, day_of(e.end));
    }
}

} // verus!
