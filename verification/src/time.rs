//! Commit timestamps: seconds since the epoch together with the commit's own
//! UTC offset. Weekday, hour, day and week derivations always use that
//! stored offset, never the machine's local timezone.

use vstd::arithmetic::div_mod::{
    lemma_hoist_over_denominator, lemma_mod_multiples_vanish,
};
use vstd::prelude::*;

verus! {

/// Seconds per minute/hour/day used by the local-time derivations.
pub const SECONDS_PER_MINUTE: i64 = 60;

pub const SECONDS_PER_HOUR: i64 = 3600;

pub const SECONDS_PER_DAY: i64 = 86400;

/// Largest magnitude of an epoch-second value the derivations accept;
/// far beyond any representable commit date, it keeps the shifted
/// arithmetic below inside `i64`.
pub const MAX_ABS_SECONDS: i64 = 4_000_000_000_000;

/// UTC offsets are accepted strictly inside one day, as the backend stores
/// them (minutes in the open interval -1440..1440).
pub const MAX_OFFSET_MINUTES: i32 = 1440;

/// Added to a local-seconds value to make it non-negative before dividing;
/// a multiple of a whole week of seconds (604800 * 13_000_000_000), so
/// weekday and hour are unchanged by the shift.
const SHIFT_SECONDS: i64 = 7_862_400_000_000_000;

/// `SHIFT_SECONDS / SECONDS_PER_DAY`: the number of whole days the shift adds.
const SHIFT_DAYS: i64 = 91_000_000_000;

/// `SHIFT_DAYS / 7`: the number of whole weeks the shift adds.
const SHIFT_WEEKS: i64 = 13_000_000_000;

/// A commit's author time: seconds since the Unix epoch plus the commit's
/// UTC offset in minutes. The epoch (day 0) fell on a Thursday.
#[derive(Clone, Copy, Debug, PartialEq, Eq, Structural)]
pub struct CommitTime {
    pub seconds: i64,
    pub offset_minutes: i32,
}

impl CommitTime {
    /// Both fields inside the ranges the derivations accept.
    pub open spec fn wf(self) -> bool {
        &&& -MAX_ABS_SECONDS <= self.seconds <= MAX_ABS_SECONDS
        &&& -MAX_OFFSET_MINUTES < self.offset_minutes < MAX_OFFSET_MINUTES
    }

    pub fn new(seconds: i64, offset_minutes: i32) -> (t: CommitTime)
        requires
            -MAX_ABS_SECONDS <= seconds <= MAX_ABS_SECONDS,
            -MAX_OFFSET_MINUTES < offset_minutes < MAX_OFFSET_MINUTES,
        ensures
            t == (CommitTime { seconds, offset_minutes }),
            t.wf(),
    {
        CommitTime { seconds, offset_minutes }
    }

    /// Seconds since the epoch on the clock of the commit's own timezone.
    pub open spec fn local_seconds(self) -> int {
        self.seconds + self.offset_minutes * SECONDS_PER_MINUTE
    }

    /// Local days since the epoch (floor; negative before 1970).
    pub open spec fn day_index(self) -> int {
        self.local_seconds() / (SECONDS_PER_DAY as int)
    }

    /// Second within the local day, in `0..86400`.
    pub open spec fn second_of_day(self) -> int {
        self.local_seconds() % (SECONDS_PER_DAY as int)
    }

    /// Local hour of day, in `0..24`.
    pub open spec fn hour_index(self) -> int {
        self.second_of_day() / (SECONDS_PER_HOUR as int)
    }

    /// Local weekday with Monday = 0 .. Sunday = 6; day 0 (the epoch) was a
    /// Thursday, hence the offset of 3.
    pub open spec fn weekday_index(self) -> int {
        (self.day_index() + 3) % 7
    }

    /// Monday-aligned local week number, shifted so that weeks begin on
    /// Monday (floor; negative before the epoch's week).
    pub open spec fn week_index(self) -> int {
        (self.day_index() + 3) / 7
    }

    /// The local time, split into (day, weekday, hour, week), all derived
    /// from the commit's own offset.
    fn local_parts(&self) -> (r: (i64, u8, u8, i64))
        requires
            self.wf(),
        ensures
            r.0 == self.day_index(),
            r.1 == self.weekday_index(),
            r.2 == self.hour_index(),
            r.3 == self.week_index(),
            0 <= r.1 < 7,
            0 <= r.2 < 24,
    {
        let local: i64 = self.seconds + (self.offset_minutes as i64) * SECONDS_PER_MINUTE;
        let shifted: u64 = (local + SHIFT_SECONDS) as u64;
        let day_sh: u64 = shifted / (SECONDS_PER_DAY as u64);
        let sod: u64 = shifted % (SECONDS_PER_DAY as u64);
        let hour: u64 = sod / (SECONDS_PER_HOUR as u64);
        let wd: u64 = (day_sh + 3) % 7;
        let week_sh: u64 = (day_sh + 3) / 7;
        proof {
            let l = self.local_seconds();
            assert(SHIFT_SECONDS == 86400 * SHIFT_DAYS);
            lemma_mod_multiples_vanish(SHIFT_DAYS as int, l, 86400);
            lemma_hoist_over_denominator(l, SHIFT_DAYS as int, 86400nat);
            assert(day_sh == self.day_index() + SHIFT_DAYS);
            assert(day_sh + 3 == (self.day_index() + 3) + 7 * SHIFT_WEEKS);
            lemma_mod_multiples_vanish(SHIFT_WEEKS as int, self.day_index() + 3, 7);
            lemma_hoist_over_denominator(self.day_index() + 3, SHIFT_WEEKS as int, 7nat);
            assert(sod < 86400);
            assert(hour < 24);
        }
        (
            day_sh as i64 - SHIFT_DAYS,
            wd as u8,
            hour as u8,
            week_sh as i64 - SHIFT_WEEKS,
        )
    }

    /// Local days since the epoch, by the commit's own offset.
    pub fn day(&self) -> (d: i64)
        requires
            self.wf(),
        ensures
            d == self.day_index(),
    {
        self.local_parts().0
    }

    /// Local weekday, Monday = 0 .. Sunday = 6.
    pub fn weekday(&self) -> (d: u8)
        requires
            self.wf(),
        ensures
            d == self.weekday_index(),
            d < 7,
    {
        self.local_parts().1
    }

    /// Local hour of day, `0..24`.
    pub fn hour(&self) -> (h: u8)
        requires
            self.wf(),
        ensures
            h == self.hour_index(),
            h < 24,
    {
        self.local_parts().2
    }

    /// Monday-aligned local week number since the epoch.
    pub fn week(&self) -> (w: i64)
        requires
            self.wf(),
        ensures
            w == self.week_index(),
    {
        self.local_parts().3
    }
}

/// `a` is at or before `b`: ordered by instant, ties broken by the stored
/// offset so that the order is total and antisymmetric.
pub open spec fn time_le(a: CommitTime, b: CommitTime) -> bool {
    a.seconds < b.seconds || (a.seconds == b.seconds && a.offset_minutes <= b.offset_minutes)
}

/// Executable form of [`time_le`].
pub fn time_le_exec(a: &CommitTime, b: &CommitTime) -> (r: bool)
    ensures
        r == time_le(*a, *b),
{
    a.seconds < b.seconds || (a.seconds == b.seconds && a.offset_minutes <= b.offset_minutes)
}

} // verus!
