//! Points in time, as seconds and nanoseconds since the Unix epoch.

use vstd::prelude::*;

verus! {

/// A point in time: `secs` seconds and `nanos` nanoseconds after the Unix epoch.
#[derive(Debug, Clone, Copy, PartialEq, Eq, Structural, Hash)]
pub struct Timestamp {
    pub secs: u64,
    pub nanos: u32,
}

/// Nanoseconds since the epoch.
pub open spec fn as_nanos(t: Timestamp) -> int {
    t.secs * 1_000_000_000 + t.nanos
}

impl Timestamp {
    /// The Unix epoch itself.
    pub fn epoch() -> (t: Timestamp)
        ensures
            t == (Timestamp { secs: 0, nanos: 0 }),
    {
        Timestamp { secs: 0, nanos: 0 }
    }

    /// `secs` whole seconds after the epoch.
    pub fn from_secs(secs: u64) -> (t: Timestamp)
        ensures
            t == (Timestamp { secs, nanos: 0 }),
    {
        Timestamp { secs, nanos: 0 }
    }

    /// Nanoseconds since the epoch.
    pub fn nanos_since_epoch(&self) -> (n: u128)
        ensures
            n == as_nanos(*self),
    {
        (self.secs as u128) * 1_000_000_000u128 + (self.nanos as u128)
    }
}

/// Whether more than `secs` seconds passed from `earlier` to `now`; `false` when
/// `now` is before `earlier`, as `SystemTime::duration_since` fails then.
pub open spec fn more_than_secs_between(earlier: Timestamp, now: Timestamp, secs: u64) -> bool {
    as_nanos(now) >= as_nanos(earlier) && as_nanos(now) - as_nanos(earlier) > secs * 1_000_000_000
}

/// Whether more than `secs` seconds passed from `earlier` to `now`.
pub fn more_than_secs_since(earlier: Timestamp, now: Timestamp, secs: u64) -> (older: bool)
    ensures
        older == more_than_secs_between(earlier, now, secs),
{
    let then = earlier.nanos_since_epoch();
    let current = now.nanos_since_epoch();
    if current < then {
        return false;
    }
    current - then > (secs as u128) * 1_000_000_000u128
}

/// `secs` seconds after `t`, stopping at the last second a timestamp can hold.
pub open spec fn plus_secs(t: Timestamp, secs: u64) -> Timestamp {
    Timestamp {
        secs: if t.secs + secs <= u64::MAX {
            (t.secs + secs) as u64
        } else {
            u64::MAX
        },
        nanos: t.nanos,
    }
}

/// `secs` seconds after `t`, stopping at the last second a timestamp can hold.
pub fn add_secs(t: Timestamp, secs: u64) -> (later: Timestamp)
    ensures
        later == plus_secs(t, secs),
{
    Timestamp { secs: t.secs.saturating_add(secs), nanos: t.nanos }
}

/// The current time.
///
/// Trusted: `std::time::SystemTime::now`, read as the time since the Unix epoch
/// (a clock set before the epoch reads as the epoch). Nothing is claimed of it:
/// it is whatever the clock says.
#[verifier::external_body]
pub(crate) fn now() -> Timestamp {
    let elapsed = std::time::SystemTime::now()
        .duration_since(std::time::UNIX_EPOCH)
        .unwrap_or_default();
    Timestamp { secs: elapsed.as_secs(), nanos: elapsed.subsec_nanos() }
}

/// Law: adding seconds to a time moves its whole seconds on by that many and
/// keeps its fraction, stopping at the largest time there is.
pub proof fn lemma_plus_secs(t: Timestamp, secs: u64)
    ensures
        t.secs + secs <= u64::MAX ==> plus_secs(t, secs).secs == t.secs + secs,
        t.secs + secs > u64::MAX ==> plus_secs(t, secs).secs == u64::MAX,
        plus_secs(t, secs).nanos == t.nanos,
{
}

} // verus!
