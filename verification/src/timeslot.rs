use vstd::prelude::*;

verus! {

/// Granularity of an uptime series: one bucket per hour or per day.
#[derive(Clone, Copy, PartialEq, Eq, Debug)]
pub enum SplitBy {
    Hour,
    Day,
}

pub const MINUTE_SECONDS: i64 = 60;
pub const HOUR_SECONDS: i64 = 3600;
pub const DAY_SECONDS: i64 = 86400;

/// Width of one bucket, in seconds.
pub open spec fn width_of(format: SplitBy) -> int {
    match format {
        SplitBy::Hour => 3600,
        SplitBy::Day => 86400,
    }
}

/// Start of the bucket of width `w` that contains time `t`
/// (both in seconds since the epoch).  For the day width this is
/// midnight UTC; for the hour width, the top of the hour.
pub open spec fn bucket_of(w: int, t: int) -> int {
    t - (t % w)
}

/// The minute slot of a timestamp: the idempotency key the recorder
/// uses, so that a cycle re-run within the same minute stores nothing new.
pub open spec fn slot_of(t: int) -> int {
    bucket_of(60, t)
}

/// Bucket width for `format`, in seconds.
pub fn width_seconds(format: SplitBy) -> (w: i64)
    ensures
        w == width_of(format),
{
    match format {
        SplitBy::Hour => HOUR_SECONDS,
        SplitBy::Day => DAY_SECONDS,
    }
}

/// Truncate `t` down to the start of its bucket of unit `format`.
/// Day-unit truncation zeroes the whole time of day, so boundaries
/// align to midnight UTC.
pub fn truncate_to(format: SplitBy, t: i64) -> (r: i64)
    requires
        0 <= t,
    ensures
        r == bucket_of(width_of(format), t as int),
        0 <= r <= t,
        r % (width_of(format) as i64) == 0,
{
    let w = width_seconds(format);
    let r = t - t % w;
    proof {
        vstd::arithmetic::div_mod::lemma_fundamental_div_mod(t as int, w as int);
        vstd::arithmetic::div_mod::lemma_mod_multiples_basic(t as int / (w as int), w as int);
    }
    r
}

/// Truncate `t` down to the start of its minute slot.
pub fn truncate_minute(t: i64) -> (r: i64)
    requires
        0 <= t,
    ensures
        r == slot_of(t as int),
        0 <= r <= t,
        r % 60 == 0,
{
    let r = t - t % MINUTE_SECONDS;
    proof {
        vstd::arithmetic::div_mod::lemma_fundamental_div_mod(t as int, 60);
        vstd::arithmetic::div_mod::lemma_mod_multiples_basic(t as int / 60, 60);
    }
    r
}

} // verus!
