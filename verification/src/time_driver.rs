//! A 64-bit clock from two 32-bit halves, and a 32-bit alarm on it.

use vstd::prelude::*;

verus! {

/// The clock from a reading of the high half, the low half and the high half again;
/// `None` if the high half moved in between, and the reading is to be repeated.
pub fn now_us(hi: u32, lo: u32, hi2: u32) -> (r: Option<u64>)
    ensures
        r == time_read(hi, lo, hi2),
{
    if hi == hi2 {
        Some(hi as u64 * 0x1_0000_0000 + lo as u64)
    } else {
        None
    }
}

/// When the alarm for a deadline is to fire: soon if it has passed, no later than the
/// alarm can reach if it is far, and at the deadline otherwise.
pub open spec fn alarm_time(now: u64, at: u64) -> u64 {
    if at <= now {
        ((now + 2) % 0x1_0000_0000_0000_0000) as u64
    } else if at - now > u32::MAX {
        ((now + u32::MAX) % 0x1_0000_0000_0000_0000) as u64
    } else {
        at
    }
}

/// The value of the alarm register for the deadline `at`; `None` where there is no
/// deadline, and the alarm is to be switched off.
pub fn arm_alarm(now: u64, at: u64) -> (r: Option<u32>)
    ensures
        r == alarm_word(now, at),
{
    if at == u64::MAX {
        return None;
    }
    let target: u64 = if at <= now {
        now.wrapping_add(2)
    } else if at - now > u32::MAX as u64 {
        now.wrapping_add(u32::MAX as u64)
    } else {
        at
    };
    Some((target % 0x1_0000_0000) as u32)
}

/// No deadline is missed: the alarm fires after now, no later than the deadline or, if
/// that has passed, two ticks from now, and within reach of its 32 bits. A far deadline
/// is reached through alarms on the way.
pub proof fn lemma_alarm_in_time(now: u64, at: u64)
    requires
        now + u32::MAX <= u64::MAX,
    ensures
        now < alarm_time(now, at) <= now + u32::MAX,
        at > now ==> alarm_time(now, at) <= at,
        at <= now ==> alarm_time(now, at) == now + 2,
{
}

/// The alarm is at the deadline where it can be: a deadline ahead and within reach is met on
/// the tick.
pub proof fn lemma_alarm_on_time(now: u64, at: u64)
    requires
        now < at <= now + u32::MAX,
    ensures
        alarm_time(now, at) == at,
{
}

/// The time that a stable reading of the two halves tells; none where the upper half moved.
pub open spec fn time_read(hi: u32, lo: u32, hi2: u32) -> Option<u64> {
    if hi == hi2 {
        Some((hi * 0x1_0000_0000 + lo) as u64)
    } else {
        None
    }
}

/// A reading counts exactly where the upper half stood still, and its halves are the two
/// that were read.
pub proof fn lemma_time_read(hi: u32, lo: u32, hi2: u32)
    ensures
        time_read(hi, lo, hi2) is Some <==> hi == hi2,
        time_read(hi, lo, hi2) matches Some(t) ==> t / 0x1_0000_0000 == hi && t % 0x1_0000_0000
            == lo,
{
}

/// The value of the alarm register, if the alarm is to be on.
pub open spec fn alarm_word(now: u64, at: u64) -> Option<u32> {
    if at == u64::MAX {
        None
    } else {
        Some((alarm_time(now, at) % 0x1_0000_0000) as u32)
    }
}

/// The alarm is off only where there is no deadline; else its register holds the lower half
/// of the time at which it fires.
pub proof fn lemma_alarm_word(now: u64, at: u64)
    ensures
        alarm_word(now, at) is None <==> at == u64::MAX,
        alarm_word(now, at) matches Some(w) ==> (alarm_time(now, at) - w) % 0x1_0000_0000 == 0,
{
}

} // verus!
