use vstd::prelude::*;

verus! {

/// Slot spacing, in seconds, for spans shorter than two hours.
pub const MINUTE: i64 = 60;

/// Slot spacing, in seconds, for spans from two hours up to a day.
pub const FIVE_MINUTES: i64 = 300;

/// Slot spacing, in seconds, for spans of a day or more.
pub const ONE_HOUR: i64 = 3600;

/// Spans below this many seconds get one-minute slots.
pub const TWO_HOURS: i64 = 7200;

/// Spans below this many seconds (and at least two hours) get five-minute slots.
pub const ONE_DAY: i64 = 86400;

/// The slot spacing chosen for a requested span; the thresholds are half-open.
pub open spec fn granularity_spec(span: int) -> int {
    if span < 7200 {
        60
    } else if span < 86400 {
        300
    } else {
        3600
    }
}

/// Picks the spacing of output slots from the length of the requested range.
pub fn granularity(span: u64) -> (g: i64)
    ensures
        g == granularity_spec(span as int),
        g >= 60,
{
    if span < TWO_HOURS as u64 {
        MINUTE
    } else if span < ONE_DAY as u64 {
        FIVE_MINUTES
    } else {
        ONE_HOUR
    }
}

} // verus!
