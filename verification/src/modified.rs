//! When a file was last changed, and how that is written down.

use vstd::prelude::*;

verus! {

/// Nanoseconds in a second.
pub const NANOS_PER_SEC: u32 = 1_000_000_000;

/// The first second that can be written as a date: the start of the year -262143.
pub const EARLIEST_SECS: i64 = -8_334_601_228_800;

/// The last second that can be written as a date: the end of the year 262142.
pub const LATEST_SECS: i64 = 8_210_266_876_799;

/// What `chrono::DateTime::<Utc>::to_rfc3339` writes for the moment `nanos` nanoseconds after the
/// second `secs` since the start of 1970, UTC.
pub uninterp spec fn rfc3339_text(secs: int, nanos: int) -> Seq<char>;

/// Writes a moment with `chrono::DateTime::<Utc>::to_rfc3339`. The moment is handed over through
/// `chrono::DateTime::from_timestamp`, which has a value for every whole second from the start of
/// the year -262143 to the end of the year 262142, with less than a second added.
///
/// Trusted: the text depends on the two numbers alone, and there is one for each moment in that
/// range.
#[verifier::external_body]
fn utc_rfc3339(secs: i64, nanos: u32) -> (text: String)
    requires
        EARLIEST_SECS <= secs <= LATEST_SECS,
        nanos < NANOS_PER_SEC,
    ensures
        text@ == rfc3339_text(secs as int, nanos as int),
{
    chrono::DateTime::from_timestamp(secs, nanos).unwrap().to_rfc3339()
}

/// A moment, as its distance from the start of 1970, UTC.
#[derive(Debug, Clone, Copy, PartialEq, Eq)]
pub struct ModifiedTime {
    /// Whether the moment lies before 1970.
    pub before_epoch: bool,
    /// The whole seconds of the distance.
    pub secs: u64,
    /// The nanoseconds that the distance has beyond them.
    pub nanos: u32,
}

impl ModifiedTime {
    /// The nanoseconds from the start of 1970 to the moment, which are negative before 1970.
    pub open spec fn since_epoch(self) -> int {
        let distance = self.secs * NANOS_PER_SEC + self.nanos;
        if self.before_epoch {
            -distance
        } else {
            distance
        }
    }

    /// The last whole second that is not after the moment.
    pub open spec fn unix_secs(self) -> int {
        self.since_epoch() / (NANOS_PER_SEC as int)
    }

    /// The nanoseconds from that second to the moment.
    pub open spec fn unix_nanos(self) -> int {
        self.since_epoch() % (NANOS_PER_SEC as int)
    }

    /// Whether the moment can be written as a date.
    pub open spec fn has_date(self) -> bool {
        self.nanos < NANOS_PER_SEC && EARLIEST_SECS <= self.unix_secs() <= LATEST_SECS
    }

    /// The moment as a date and time in UTC, in the form of RFC 3339.
    pub open spec fn date_text(self) -> Seq<char> {
        rfc3339_text(self.unix_secs(), self.unix_nanos())
    }

    proof fn lemma_unix_time(self)
        requires
            self.nanos < NANOS_PER_SEC,
        ensures
            !self.before_epoch ==> self.unix_secs() == self.secs && self.unix_nanos() == self.nanos,
            self.before_epoch && self.nanos == 0 ==> self.unix_secs() == -self.secs
                && self.unix_nanos() == 0,
            self.before_epoch && self.nanos > 0 ==> self.unix_secs() == -self.secs - 1
                && self.unix_nanos() == NANOS_PER_SEC - self.nanos,
    {
    }

    /// Whether the moment can be written as a date.
    pub fn is_date(&self) -> (r: bool)
        ensures
            r == self.has_date(),
    {
        if self.nanos >= NANOS_PER_SEC {
            return false;
        }
        proof {
            self.lemma_unix_time();
        }
        if !self.before_epoch {
            self.secs <= 8_210_266_876_799
        } else if self.nanos == 0 {
            self.secs <= 8_334_601_228_800
        } else {
            self.secs < 8_334_601_228_800
        }
    }

    /// The moment as a date and time in UTC, in the form of RFC 3339.
    pub fn to_rfc3339(&self) -> (text: String)
        requires
            self.has_date(),
        ensures
            text@ == self.date_text(),
    {
        proof {
            self.lemma_unix_time();
        }
        if !self.before_epoch {
            utc_rfc3339(self.secs as i64, self.nanos)
        } else if self.nanos == 0 {
            utc_rfc3339(-(self.secs as i64), 0)
        } else {
            utc_rfc3339(-(self.secs as i64) - 1, NANOS_PER_SEC - self.nanos)
        }
    }
}

/// A moment is written as the one text for its seconds and nanoseconds. Before 1970 the seconds are
/// counted down to the last whole one before the moment, and the nanoseconds up from there.
pub proof fn law_moment_is_written(time: ModifiedTime)
    requires
        time.nanos < 1_000_000_000,
    ensures
        !time.before_epoch ==> time.date_text() == rfc3339_text(
            time.secs as int,
            time.nanos as int,
        ),
        time.before_epoch && time.nanos == 0 ==> time.date_text() == rfc3339_text(-time.secs, 0),
        time.before_epoch && time.nanos > 0 ==> time.date_text() == rfc3339_text(
            -time.secs - 1,
            1_000_000_000 - time.nanos,
        ),
{
    time.lemma_unix_time();
}

/// Which moments can be written: those from the start of the year -262143 to the end of the year
/// 262142.
pub proof fn law_moments_that_have_a_date(time: ModifiedTime)
    ensures
        time.has_date() <==> time.nanos < 1_000_000_000 && if !time.before_epoch {
            time.secs <= 8_210_266_876_799
        } else if time.nanos == 0 {
            time.secs <= 8_334_601_228_800
        } else {
            time.secs < 8_334_601_228_800
        },
{
    if time.nanos < NANOS_PER_SEC {
        time.lemma_unix_time();
    }
}

} // verus!
