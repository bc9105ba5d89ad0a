//! The priority of IO scheduling, as the PRIO column shows it.
//!
//! What the kernel holds for a thread counts first. A thread that was never
//! given a class gets one from its scheduling policy and niceness: a common
//! one is `be/` with `(nice + 20) / 5`, so `be/4` by default.

use vstd::prelude::*;

use crate::syscall;
use crate::text::{decimal, push_decimal};

verus! {

/// Where the class begins in a priority's bits.
pub const CLASS_SHIFT: i32 = 13;

/// The number of levels in a class: the level takes the bits below the class.
pub const LEVELS: i32 = 8192;

pub const CLASS_RT: i32 = 1;

pub const CLASS_BE: i32 = 2;

pub const CLASS_IDLE: i32 = 3;

/// Whether a priority names a class of its own.
pub open spec fn has_class(raw: Option<i32>) -> bool {
    raw matches Some(p) && p >= LEVELS
}

/// The class that a scheduling policy stands for.
pub open spec fn sched_class(policy: u32) -> int {
    if policy == 1 || policy == 2 {
        CLASS_RT as int
    } else if policy == 5 {
        CLASS_IDLE as int
    } else {
        CLASS_BE as int
    }
}

/// The level that a niceness stands for.
pub open spec fn sched_level(nice: int) -> int {
    if nice < -20 {
        0
    } else if nice >= 20 {
        7
    } else {
        (nice + 20) / 5
    }
}

/// A class and a level, as they are shown.
pub open spec fn shown(class: int, level: int) -> Seq<char> {
    if class == CLASS_RT {
        "rt/"@ + decimal(level)
    } else if class == CLASS_BE {
        "be/"@ + decimal(level)
    } else if class == CLASS_IDLE {
        "idle"@
    } else {
        "?"@
    }
}

/// The priority that is shown.
pub open spec fn priority(raw: Option<i32>, nice: int, policy: u32) -> Seq<char> {
    if has_class(raw) {
        shown(raw->0 as int / LEVELS as int, raw->0 as int % LEVELS as int)
    } else {
        shown(sched_class(policy), sched_level(nice))
    }
}

/// The priority of a thread, from the kernel's reply to `ioprio_get` and from
/// its niceness and policy. `None` stands for a machine without that call.
pub fn read_ioprio(reply: Option<isize>, nice: i64, policy: u32) -> (r: String)
    requires
        has_class(syscall::priority_reply(reply)) || nice <= i64::MAX - 20,
    ensures
        r@ == priority(syscall::priority_reply(reply), nice as int, policy),
{
    format_ioprio(syscall::ioprio_get(reply), nice, policy)
}

/// The priority `raw`, or the one that niceness and policy stand for where
/// there is none or it has no class.
pub fn format_ioprio(raw: Option<i32>, nice: i64, policy: u32) -> (r: String)
    requires
        has_class(raw) || nice <= i64::MAX - 20,
    ensures
        r@ == priority(raw, nice as int, policy),
{
    let prio = match raw {
        Some(p) => {
            assert(((p >> 13) > 0) == (p >= 8192)) by (bit_vector);
            if (p >> CLASS_SHIFT) > 0 {
                p
            } else {
                from_sched(nice, policy)
            }
        },
        None => from_sched(nice, policy),
    };
    assert(prio >= 0 ==> (prio >> 13) == prio / 8192 && (prio & 8191) == prio % 8192)
        by (bit_vector);
    assert(1i32 << 13 == 8192) by (bit_vector);
    let class = prio >> CLASS_SHIFT;
    let data = prio & ((1 << CLASS_SHIFT) - 1);
    let mut out: String = String::new();
    if class == CLASS_RT {
        out.append("rt/");
        push_decimal(&mut out, data as u64);
    } else if class == CLASS_BE {
        out.append("be/");
        push_decimal(&mut out, data as u64);
    } else if class == CLASS_IDLE {
        out.append("idle");
    } else {
        out.append("?");
    }
    proof {
        assert(Seq::<char>::empty() + "rt/"@ =~= "rt/"@);
        assert(Seq::<char>::empty() + "be/"@ =~= "be/"@);
        assert(Seq::<char>::empty() + "idle"@ =~= "idle"@);
        assert(Seq::<char>::empty() + "?"@ =~= "?"@);
    }
    out
}

/// The kernel's rule for a thread without a class.
pub fn from_sched(nice: i64, policy: u32) -> (r: i32)
    requires
        nice <= i64::MAX - 20,
    ensures
        r == sched_class(policy) * LEVELS + sched_level(nice as int),
{
    let n: i64 = nice + 20;
    let level: i32 = if n < 0 {
        0
    } else if n / 5 > 7 {
        7
    } else {
        (n / 5) as i32
    };
    let class: i32 = match policy {
        1 | 2 => CLASS_RT,
        5 => CLASS_IDLE,
        _ => CLASS_BE,
    };
    assert((class << 13) | level == class * 8192 + level) by (bit_vector)
        requires
            1 <= class <= 3,
            0 <= level <= 7,
    ;
    (class << CLASS_SHIFT) | level
}

/// Whether `read_ioprio` can be asked.
pub fn ioprio_fits(reply: Option<isize>, nice: i64) -> (r: bool)
    ensures
        r == (has_class(syscall::priority_reply(reply)) || nice <= i64::MAX - 20),
{
    if nice <= i64::MAX - 20 {
        return true;
    }
    match syscall::ioprio_get(reply) {
        Some(p) => p >= LEVELS,
        None => false,
    }
}

/// Each five steps of niceness from -20 on are a level, of eight.
pub proof fn levels_are_five_steps(level: int, step: int)
    requires
        0 <= level < 8,
        0 <= step < 5,
    ensures
        sched_level(-20 + 5 * level + step) == level,
{
}

/// A niceness beyond the ends counts as the end, and a greater one has no lower
/// level.
pub proof fn levels_rise_with_niceness(a: int, b: int)
    requires
        a <= b,
    ensures
        0 <= sched_level(a) <= sched_level(b) <= 7,
        a <= -20 ==> sched_level(a) == 0,
        b >= 15 ==> sched_level(b) == 7,
{
}

/// What was set with `ionice` wins over policy and niceness.
pub proof fn set_priorities_win(class: int, level: int, nice: int, policy: u32)
    requires
        1 <= class <= 3,
        0 <= level < 8,
    ensures
        priority(Some((class * 8192 + level) as i32), nice, policy) == if class == 1 {
            "rt/"@ + decimal(level)
        } else if class == 2 {
            "be/"@ + decimal(level)
        } else {
            "idle"@
        },
{
}

/// Without one, the policies of real time have the class of real time, that of
/// idling the class of idling, and all others best effort.
pub proof fn policies_have_their_class(nice: int, policy: u32)
    requires
        -20 <= nice < 20,
    ensures
        policy == 1 || policy == 2 ==> priority(None, nice, policy) == "rt/"@ + decimal(
            (nice + 20) / 5,
        ),
        policy == 5 ==> priority(None, nice, policy) == "idle"@,
        policy != 1 && policy != 2 && policy != 5 ==> priority(None, nice, policy) == "be/"@
            + decimal((nice + 20) / 5),
        priority(Some(0), nice, policy) == priority(None, nice, policy),
{
}

} // verus!
