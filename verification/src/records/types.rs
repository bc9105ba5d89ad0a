//! What the book holds, and what its parts stand for.

use vstd::prelude::*;

use crate::binary64::Binary64;

verus! {

/// A process in one sample.
pub struct ProcSnap {
    pub pid: u32,
    pub user: String,
    pub command: String,
    pub io: Binary64,
    pub read: Binary64,
    pub write: Binary64,
}

/// What a `ProcSnap` holds.
pub struct SnapView {
    pub pid: u32,
    pub user: Seq<char>,
    pub command: Seq<char>,
    pub io: Binary64,
    pub read: Binary64,
    pub write: Binary64,
}

impl View for ProcSnap {
    type V = SnapView;

    open spec fn view(&self) -> SnapView {
        SnapView {
            pid: self.pid,
            user: self.user@,
            command: self.command@,
            io: self.io,
            read: self.read,
            write: self.write,
        }
    }
}

impl Clone for ProcSnap {
    fn clone(&self) -> (r: ProcSnap)
        ensures
            r == *self,
    {
        ProcSnap {
            pid: self.pid,
            user: self.user.clone(),
            command: self.command.clone(),
            io: self.io,
            read: self.read,
            write: self.write,
        }
    }
}

pub open spec fn snap_views(s: Seq<ProcSnap>) -> Seq<SnapView> {
    Seq::new(s.len(), |i: int| s[i]@)
}

/// A time in which a process was over the threshold in every sample.
pub struct Episode {
    pub pid: u32,
    pub user: String,
    pub command: String,
    pub start: u64,
    pub end: u64,
    pub samples: u32,
    pub over_s: Binary64,
    pub max_io: Binary64,
    pub last_io: Binary64,
    pub max_read: Binary64,
    pub max_write: Binary64,
    /// Not over yet.
    pub open: bool,
}

/// What an `Episode` holds.
pub struct EpisodeView {
    pub pid: u32,
    pub user: Seq<char>,
    pub command: Seq<char>,
    pub start: u64,
    pub end: u64,
    pub samples: u32,
    pub over_s: Binary64,
    pub max_io: Binary64,
    pub last_io: Binary64,
    pub max_read: Binary64,
    pub max_write: Binary64,
    pub open: bool,
}

impl View for Episode {
    type V = EpisodeView;

    open spec fn view(&self) -> EpisodeView {
        EpisodeView {
            pid: self.pid,
            user: self.user@,
            command: self.command@,
            start: self.start,
            end: self.end,
            samples: self.samples,
            over_s: self.over_s,
            max_io: self.max_io,
            last_io: self.last_io,
            max_read: self.max_read,
            max_write: self.max_write,
            open: self.open,
        }
    }
}

impl Clone for Episode {
    fn clone(&self) -> (r: Episode)
        ensures
            r == *self,
    {
        Episode {
            pid: self.pid,
            user: self.user.clone(),
            command: self.command.clone(),
            start: self.start,
            end: self.end,
            samples: self.samples,
            over_s: self.over_s,
            max_io: self.max_io,
            last_io: self.last_io,
            max_read: self.max_read,
            max_write: self.max_write,
            open: self.open,
        }
    }
}

pub open spec fn episode_views(s: Seq<Episode>) -> Seq<EpisodeView> {
    Seq::new(s.len(), |i: int| s[i]@)
}

pub open spec fn episode_pids(s: Seq<EpisodeView>) -> Seq<u64> {
    Seq::new(s.len(), |i: int| s[i].pid as u64)
}

/// A process with all its episodes.
pub struct Offender {
    pub pid: u32,
    pub user: String,
    pub command: String,
    pub episodes: u32,
    pub samples: u32,
    pub over_s: Binary64,
    pub max_io: Binary64,
    pub max_read: Binary64,
    pub max_write: Binary64,
    pub last: u64,
}

/// What an `Offender` holds.
pub struct OffenderView {
    pub pid: u32,
    pub user: Seq<char>,
    pub command: Seq<char>,
    pub episodes: u32,
    pub samples: u32,
    pub over_s: Binary64,
    pub max_io: Binary64,
    pub max_read: Binary64,
    pub max_write: Binary64,
    pub last: u64,
}

impl View for Offender {
    type V = OffenderView;

    open spec fn view(&self) -> OffenderView {
        OffenderView {
            pid: self.pid,
            user: self.user@,
            command: self.command@,
            episodes: self.episodes,
            samples: self.samples,
            over_s: self.over_s,
            max_io: self.max_io,
            max_read: self.max_read,
            max_write: self.max_write,
            last: self.last,
        }
    }
}

impl Clone for Offender {
    fn clone(&self) -> (r: Offender)
        ensures
            r == *self,
    {
        Offender {
            pid: self.pid,
            user: self.user.clone(),
            command: self.command.clone(),
            episodes: self.episodes,
            samples: self.samples,
            over_s: self.over_s,
            max_io: self.max_io,
            max_read: self.max_read,
            max_write: self.max_write,
            last: self.last,
        }
    }
}

pub open spec fn offender_views(s: Seq<Offender>) -> Seq<OffenderView> {
    Seq::new(s.len(), |i: int| s[i]@)
}

pub open spec fn offender_pids(s: Seq<OffenderView>) -> Seq<u64> {
    Seq::new(s.len(), |i: int| s[i].pid as u64)
}

/// The peaks of one minute.
pub struct Minute {
    /// Minutes since the first of January 1970.
    pub bucket: u64,
    pub max_io: Binary64,
    pub max_read: Binary64,
    pub max_write: Binary64,
    /// How many samples had a process over the threshold.
    pub over: u32,
    pub top_io: Binary64,
    pub top_cmd: String,
    pub top_pid: u32,
}

/// What a `Minute` holds.
pub struct MinuteView {
    pub bucket: u64,
    pub max_io: Binary64,
    pub max_read: Binary64,
    pub max_write: Binary64,
    pub over: u32,
    pub top_io: Binary64,
    pub top_cmd: Seq<char>,
    pub top_pid: u32,
}

impl View for Minute {
    type V = MinuteView;

    open spec fn view(&self) -> MinuteView {
        MinuteView {
            bucket: self.bucket,
            max_io: self.max_io,
            max_read: self.max_read,
            max_write: self.max_write,
            over: self.over,
            top_io: self.top_io,
            top_cmd: self.top_cmd@,
            top_pid: self.top_pid,
        }
    }
}

impl Clone for Minute {
    fn clone(&self) -> (r: Minute)
        ensures
            r == *self,
    {
        Minute {
            bucket: self.bucket,
            max_io: self.max_io,
            max_read: self.max_read,
            max_write: self.max_write,
            over: self.over,
            top_io: self.top_io,
            top_cmd: self.top_cmd.clone(),
            top_pid: self.top_pid,
        }
    }
}

pub open spec fn minute_views(s: Seq<Minute>) -> Seq<MinuteView> {
    Seq::new(s.len(), |i: int| s[i]@)
}

pub open spec fn minute_buckets(s: Seq<MinuteView>) -> Seq<u64> {
    Seq::new(s.len(), |i: int| s[i].bucket)
}

} // verus!
