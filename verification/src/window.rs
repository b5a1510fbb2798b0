//! Half-open time windows.
use vstd::prelude::*;

verus! {

/// Whether what lasts from `start` through `end` meets the window `[t0, t1)`.
pub open spec fn overlaps(start: i128, end: i128, t0: i128, t1: i128) -> bool {
    start < t1 && t0 <= end
}

/// Whether what lasts from `start` through `end` meets the window `[t0, t1)`.
pub fn meets_window(start: i128, end: i128, t0: i128, t1: i128) -> (r: bool)
    ensures
        r == overlaps(start, end, t0, t1),
{
    start < t1 && t0 <= end
}

/// An interval and a window that are not empty overlap exactly when they share
/// an instant.
pub proof fn law_overlap_is_a_shared_instant(start: i128, end: i128, t0: i128, t1: i128)
    requires
        start <= end,
        t0 < t1,
    ensures
        overlaps(start, end, t0, t1) <==> exists|t: int|
            #![trigger within(t, start, end)]
            within(t, start, end) && t0 <= t < t1,
{
    if overlaps(start, end, t0, t1) {
        let t: int = if start <= t0 {
            t0 as int
        } else {
            start as int
        };
        assert(within(t, start, end));
    }
}

/// Whether the instant `t` lies from `start` through `end`.
pub open spec fn within(t: int, start: i128, end: i128) -> bool {
    start <= t <= end
}

/// Two windows that meet end to end miss nothing: what overlaps both together
/// overlaps one of them.
pub proof fn law_adjacent_windows_miss_nothing(
    start: i128,
    end: i128,
    t0: i128,
    t1: i128,
    t2: i128,
)
    requires
        start <= end,
        t0 <= t1 <= t2,
    ensures
        overlaps(start, end, t0, t2) <==> overlaps(start, end, t0, t1) || overlaps(
            start,
            end,
            t1,
            t2,
        ),
{
}

} // verus!
