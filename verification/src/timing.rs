//! Wall-clock time, slots and the inherent data built from them.

use vstd::prelude::*;
use crate::hash::H256;

verus! {

/// Nanoseconds in a second.
pub const NANOS_PER_SEC: u32 = 1_000_000_000;

/// A span of time: whole seconds and the nanoseconds past them.
#[derive(Clone, Copy, Debug, PartialEq, Eq, Structural)]
pub struct TimeSpan {
    /// Whole seconds.
    pub secs: u64,
    /// Nanoseconds past the whole seconds.
    pub nanos: u32,
}

impl TimeSpan {
    /// The nanoseconds are a fraction of a second.
    pub open spec fn wf(&self) -> bool {
        self.nanos < NANOS_PER_SEC
    }

    /// The span in nanoseconds.
    pub open spec fn total_nanos(&self) -> int {
        self.secs * 1_000_000_000 + self.nanos
    }
}

/// The clock's reading, a `std::time::SystemTime`; nothing is known of what
/// it holds.
#[verifier::external_type_specification]
#[verifier::external_body]
pub struct ExSystemTime(std::time::SystemTime);

/// `SystemTime::now`: the clock's current reading. What it reads depends on
/// the clock, so nothing is stated of it.
#[verifier::external_body]
fn system_now() -> (r: std::time::SystemTime) {
    std::time::SystemTime::now()
}

/// `SystemTime::duration_since(UNIX_EPOCH)`: the time since the Unix epoch,
/// or `None` when the reading is earlier. Which reading is earlier is not
/// visible here, so nothing is stated of the outcome.
#[verifier::external_body]
fn duration_since_unix_epoch(t: &std::time::SystemTime) -> (r: Option<std::time::Duration>) {
    match t.duration_since(std::time::UNIX_EPOCH) {
        Ok(d) => Some(d),
        Err(_) => None,
    }
}

/// `Duration::as_secs`: the whole seconds of a span, which is not visible
/// here, so nothing is stated of them.
#[verifier::external_body]
fn duration_secs(d: &std::time::Duration) -> (r: u64) {
    d.as_secs()
}

/// `Duration::subsec_nanos`: the nanoseconds past the whole seconds, which
/// its documentation bounds below one second.
#[verifier::external_body]
fn duration_subsec_nanos(d: &std::time::Duration) -> (r: u32)
    ensures
        r < NANOS_PER_SEC,
{
    d.subsec_nanos()
}

/// The time since the Unix epoch, or `None` when the clock reads earlier.
pub fn timestamp_now() -> (r: Option<TimeSpan>)
    ensures
        r matches Some(t) ==> t.wf(),
{
    let now = system_now();
    match duration_since_unix_epoch(&now) {
        Some(d) => Some(TimeSpan { secs: duration_secs(&d), nanos: duration_subsec_nanos(&d) }),
        None => None,
    }
}

/// The timestamp in seconds and the slot it falls in.
pub fn timestamp_and_slot(now: TimeSpan, slot_duration: u64) -> (r: (u64, u64))
    requires
        slot_duration > 0,
    ensures
        r == (now.secs, now.secs / slot_duration),
{
    (now.secs, now.secs / slot_duration)
}

/// The current timestamp in seconds and slot, or `None` when the clock
/// reads before the Unix epoch.
pub fn timestamp_and_slot_now(slot_duration: u64) -> (r: Option<(u64, u64)>)
    requires
        slot_duration > 0,
    ensures
        r matches Some((t, s)) ==> s == t / slot_duration,
{
    match timestamp_now() {
        Some(now) => Some(timestamp_and_slot(now, slot_duration)),
        None => None,
    }
}

/// The current time in whole seconds since the Unix epoch, or `None` when
/// the clock reads earlier. Which second it is depends on the clock, so no
/// clause names it.
pub fn current_timestamp() -> (r: Option<u64>) {
    match timestamp_now() {
        Some(now) => Some(now.secs),
        None => None,
    }
}

/// The current slot, or `None` when the clock reads before the Unix epoch.
/// Which slot it is depends on the clock; it is one whose start, in
/// seconds, fits in 64 bits.
pub fn slot_now(slot_duration: u64) -> (r: Option<u64>)
    requires
        slot_duration > 0,
    ensures
        r matches Some(s) ==> s * slot_duration <= u64::MAX,
{
    match timestamp_and_slot_now(slot_duration) {
        Some((t, slot)) => {
            proof {
                vstd::arithmetic::div_mod::lemma_fundamental_div_mod(t as int, slot_duration as int);
                assert(slot * slot_duration <= t) by (nonlinear_arith)
                    requires
                        slot == t / slot_duration,
                        slot_duration > 0,
                ;
            }
            Some(slot)
        },
        None => None,
    }
}

/// The time from `now` until the next slot begins.
pub fn time_until_next(now: TimeSpan, slot_duration: u64) -> (r: TimeSpan)
    requires
        slot_duration > 0,
        now.wf(),
    ensures
        r.wf(),
        now.total_nanos() + r.total_nanos() == (now.secs / slot_duration + 1) * slot_duration * 1_000_000_000,
{
    let remaining_full_secs = slot_duration - (now.secs % slot_duration) - 1;
    let remaining_nanos = NANOS_PER_SEC - now.nanos;
    proof {
        let q = now.secs / slot_duration;
        let m = now.secs % slot_duration;
        vstd::arithmetic::div_mod::lemma_fundamental_div_mod(now.secs as int, slot_duration as int);
        assert(now.secs == slot_duration * q + m);
        assert((q + 1) * slot_duration * 1_000_000_000 == (slot_duration * q + slot_duration) * 1_000_000_000)
            by (nonlinear_arith);
    }
    if remaining_nanos >= NANOS_PER_SEC {
        TimeSpan { secs: remaining_full_secs + 1, nanos: remaining_nanos - NANOS_PER_SEC }
    } else {
        TimeSpan { secs: remaining_full_secs, nanos: remaining_nanos }
    }
}

/// Randao inherent data: the reveal for the slot.
#[derive(Clone, Copy, Debug)]
pub struct RandaoInherentData {
    /// The randao reveal.
    pub randao_reveal: H256,
}

/// Timestamp inherent data: the time and the slot it falls in.
#[derive(Clone, Copy, Debug, PartialEq, Eq, Structural)]
pub struct TimestampInherentData {
    /// Seconds since the Unix epoch.
    pub timestamp: u64,
    /// The slot of the timestamp.
    pub slot: u64,
}

/// Provides the timestamp inherent data of the current slot.
#[derive(Clone, Copy, Debug, PartialEq, Eq, Structural)]
pub struct TimestampInherentDataProvider {
    /// Slot duration in seconds.
    pub slot_duration: u64,
}

impl TimestampInherentDataProvider {
    /// A provider for slots of `slot_duration` seconds.
    pub fn new(slot_duration: u64) -> (r: Self)
        ensures
            r.slot_duration == slot_duration,
    {
        TimestampInherentDataProvider { slot_duration }
    }

    /// The inherent data for the current time, or `None` when the clock
    /// reads before the Unix epoch.
    pub fn inherent_data(&self) -> (r: Option<TimestampInherentData>)
        requires
            self.slot_duration > 0,
        ensures
            r matches Some(d) ==> d.slot == d.timestamp / self.slot_duration,
    {
        match timestamp_and_slot_now(self.slot_duration) {
            Some((timestamp, slot)) => Some(TimestampInherentData { timestamp, slot }),
            None => None,
        }
    }
}

} // verus!
