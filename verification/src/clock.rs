//! Points in time, and their form in the database.

use vstd::prelude::*;

verus! {

/// Nanoseconds since the Unix epoch of the first instant of the year -9999.
pub const MIN_NANOS: i128 = -377_705_116_800_000_000_000;

/// Nanoseconds since the Unix epoch of the last instant of the year 9999.
pub const MAX_NANOS: i128 = 253_402_300_799_999_999_999;

/// A UTC instant, in nanoseconds since the Unix epoch.
#[derive(Debug, Clone, Copy, PartialEq, Eq, Structural, PartialOrd, Ord)]
pub struct Timestamp {
    pub nanos: i128,
}

impl Timestamp {
    /// The instants of the years -9999 to 9999, which a date can express.
    pub open spec fn wf(self) -> bool {
        MIN_NANOS <= self.nanos <= MAX_NANOS
    }

    /// The instant as stored: milliseconds since the epoch, the fraction
    /// dropped toward zero.
    pub open spec fn ms(self) -> int {
        if self.nanos >= 0 {
            self.nanos as int / 1_000_000
        } else {
            -((-self.nanos) / 1_000_000)
        }
    }

    /// The instant that `ms` stored milliseconds stand for: the epoch where
    /// no date can express it.
    pub open spec fn of_ms(ms: int) -> Timestamp {
        if MIN_NANOS <= ms * 1_000_000 <= MAX_NANOS {
            Timestamp { nanos: (ms * 1_000_000) as i128 }
        } else {
            Timestamp { nanos: 0 }
        }
    }

    /// The present instant, as the system clock has it.
    pub fn now() -> (r: Timestamp)
        ensures
            r.wf(),
    {
        Timestamp { nanos: now_nanos() }
    }

    /// The instant this many nanoseconds before this one, or the first that a
    /// date can express where that one is later.
    pub open spec fn less(self, nanos: int) -> Timestamp {
        if self.nanos - nanos < MIN_NANOS {
            Timestamp { nanos: MIN_NANOS }
        } else {
            Timestamp { nanos: (self.nanos - nanos) as i128 }
        }
    }

    /// The instant `seconds` and `nanoseconds` before this one, or the first
    /// that a date can express where that one is later.
    pub fn earlier_by(self, seconds: u64, nanoseconds: u32) -> (r: Timestamp)
        requires
            self.wf(),
        ensures
            r == self.less(seconds * 1_000_000_000 + nanoseconds),
            r.wf(),
    {
        let nanos: i128 = self.nanos - (seconds as i128 * 1_000_000_000 + nanoseconds as i128);
        if nanos < MIN_NANOS {
            Timestamp { nanos: MIN_NANOS }
        } else {
            Timestamp { nanos }
        }
    }

    /// The instant `days` before this one, or the first that a date can express
    /// where that one is later.
    pub fn earlier_by_days(self, days: u64) -> (r: Timestamp)
        requires
            self.wf(),
        ensures
            r == self.less(days * 86_400_000_000_000),
            r.wf(),
    {
        let nanos: i128 = self.nanos - days as i128 * 86_400_000_000_000;
        if nanos < MIN_NANOS {
            Timestamp { nanos: MIN_NANOS }
        } else {
            Timestamp { nanos }
        }
    }

    /// The whole seconds from `earlier` to this instant, none where it is not
    /// earlier.
    pub open spec fn seconds_since(self, earlier: Timestamp) -> int {
        if self.nanos >= earlier.nanos {
            (self.nanos - earlier.nanos) / 1_000_000_000
        } else {
            0
        }
    }

    /// The whole seconds from `earlier` to this instant.
    pub fn since(self, earlier: Timestamp) -> (r: u64)
        requires
            self.wf(),
            earlier.wf(),
        ensures
            r == self.seconds_since(earlier),
    {
        if self.nanos >= earlier.nanos {
            ((self.nanos - earlier.nanos) / 1_000_000_000) as u64
        } else {
            0
        }
    }
}

/// `OffsetDateTime::now_utc` and `unix_timestamp_nanos`: the system clock, in
/// the range that a date can express. Which instant it is rests on the clock,
/// which can be set back, so nothing relates two calls. It panics where the
/// clock stands outside that range.
#[verifier::external_body]
fn now_nanos() -> (r: i128)
    ensures
        MIN_NANOS <= r <= MAX_NANOS,
{
    time::OffsetDateTime::now_utc().unix_timestamp_nanos()
}

/// `OffsetDateTime::from_unix_timestamp_nanos` and back: the same instant where
/// its second lies in the years -9999 to 9999, nothing elsewhere.
#[verifier::external_body]
fn dated_nanos(nanos: i128) -> (r: Option<i128>)
    ensures
        r == (if MIN_NANOS <= nanos <= MAX_NANOS {
            Some(nanos)
        } else {
            None
        }),
{
    time::OffsetDateTime::from_unix_timestamp_nanos(nanos).ok().map(|t| t.unix_timestamp_nanos())
}

/// Convert an instant to epoch **milliseconds** for storage.
pub fn to_epoch_ms(dt: Timestamp) -> (r: i64)
    requires
        dt.wf(),
    ensures
        r == dt.ms(),
{
    if dt.nanos >= 0 {
        (dt.nanos / 1_000_000) as i64
    } else {
        -(((-dt.nanos) / 1_000_000) as i64)
    }
}

/// Reconstruct an instant from epoch **milliseconds**.
pub fn from_epoch_ms(ms: i64) -> (r: Timestamp)
    ensures
        r == Timestamp::of_ms(ms as int),
        r.wf(),
{
    match dated_nanos(ms as i128 * 1_000_000) {
        Some(nanos) => Timestamp { nanos },
        None => Timestamp { nanos: 0 },
    }
}

/// Stored milliseconds fit into 64 bits.
pub proof fn lemma_ms_fits(dt: Timestamp)
    requires
        dt.wf(),
    ensures
        (dt.ms() as i64) as int == dt.ms(),
{
}

/// Storing the instant that stored milliseconds stand for gives the same
/// milliseconds, wherever a date can express them.
pub proof fn law_stored_ms_roundtrip(ms: int)
    requires
        MIN_NANOS <= ms * 1_000_000 <= MAX_NANOS,
    ensures
        Timestamp::of_ms(ms).ms() == ms,
{
}

/// An instant that was stored and read back is the same instant, its fraction
/// of a millisecond dropped toward zero.
pub proof fn law_stored_instant(dt: Timestamp)
    requires
        dt.wf(),
    ensures
        Timestamp::of_ms(dt.ms()).nanos == dt.ms() * 1_000_000,
        dt.nanos >= 0 ==> 0 <= dt.nanos - Timestamp::of_ms(dt.ms()).nanos < 1_000_000,
        dt.nanos < 0 ==> 0 <= Timestamp::of_ms(dt.ms()).nanos - dt.nanos < 1_000_000,
{
}

/// Storing keeps the order of instants.
pub proof fn law_stored_order(a: Timestamp, b: Timestamp)
    requires
        a.wf(),
        b.wf(),
        a.nanos <= b.nanos,
    ensures
        a.ms() <= b.ms(),
{
}

/// An instant is never stored as older than one that lies before it by a longer
/// time than all dates span.
pub proof fn law_nothing_is_older_than_all_dates(now: Timestamp, nanos: int, dt: Timestamp)
    requires
        now.wf(),
        dt.wf(),
        nanos > MAX_NANOS - MIN_NANOS,
    ensures
        dt.ms() >= now.less(nanos).ms(),
{
}

/// The instant before another one lies exactly that much earlier, wherever a
/// date can express it, and never later than a shorter time before it.
pub proof fn law_earlier_instants(now: Timestamp, nanos: int, more: int)
    requires
        now.wf(),
        0 <= nanos <= more,
    ensures
        now.nanos - nanos >= MIN_NANOS ==> now.less(nanos).nanos + nanos == now.nanos,
        now.less(more).nanos <= now.less(nanos).nanos <= now.nanos,
        now.less(nanos).wf(),
{
}

/// The seconds since an instant are those that have passed in full, and none
/// where it lies in the future.
pub proof fn law_whole_seconds(now: Timestamp, earlier: Timestamp)
    ensures
        now.nanos >= earlier.nanos ==> earlier.nanos + now.seconds_since(earlier) * 1_000_000_000
            <= now.nanos < earlier.nanos + (now.seconds_since(earlier) + 1) * 1_000_000_000,
        now.nanos < earlier.nanos ==> now.seconds_since(earlier) == 0,
{
}

/// Stored milliseconds that no date can express stand for the epoch.
pub proof fn law_unexpressible_instants(ms: int)
    ensures
        ms * 1_000_000 < MIN_NANOS || ms * 1_000_000 > MAX_NANOS ==> Timestamp::of_ms(ms).nanos
            == 0,
        Timestamp::of_ms(ms).wf(),
{
}

} // verus!
