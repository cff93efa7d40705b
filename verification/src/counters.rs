//! The world's cumulative event counters and the per-window counts the
//! metrics log reports: each row counts what happened since the previous
//! row, and the first row counts everything so far.

use vstd::prelude::*;

verus! {

/// How many kinds of event are counted.
pub const EVENT_KINDS: usize = 6;

/// Cumulative event counts (or the counts of one window).
#[derive(Clone, Copy, Debug, PartialEq, Eq, Structural)]
pub struct EventCounts {
    pub births: u64,
    pub deaths_starve: u64,
    pub deaths_age: u64,
    pub deaths_predation: u64,
    pub bites: u64,
    /// Neighbour-hue observations, the denominator of the mean
    /// neighbour-hue distance.
    pub neighbor_hue_samples: u64,
}

/// The count of event kind `k` (in field order).
pub open spec fn kind(c: EventCounts, k: int) -> u64 {
    if k == 0 {
        c.births
    } else if k == 1 {
        c.deaths_starve
    } else if k == 2 {
        c.deaths_age
    } else if k == 3 {
        c.deaths_predation
    } else if k == 4 {
        c.bites
    } else {
        c.neighbor_hue_samples
    }
}

/// Every count of `a` is at most the matching count of `b`: cumulative
/// counters only grow.
pub open spec fn no_later_than(a: EventCounts, b: EventCounts) -> bool {
    forall|k: int| 0 <= k < EVENT_KINDS ==> #[trigger] kind(a, k) <= kind(b, k)
}

/// The counts of the window that ends at `current` and starts at `prev`,
/// or at the beginning of the run for the first row.
pub open spec fn window_of(current: EventCounts, prev: Option<EventCounts>, k: int) -> int {
    match prev {
        Some(p) => kind(current, k) - kind(p, k),
        None => kind(current, k) as int,
    }
}

/// What happened between the previous sample `prev` (none for the first
/// row) and `current`.
pub fn window(current: EventCounts, prev: Option<EventCounts>) -> (w: EventCounts)
    requires
        prev matches Some(p) ==> no_later_than(p, current),
    ensures
        forall|k: int| 0 <= k < EVENT_KINDS ==> #[trigger] kind(w, k) == window_of(current, prev, k),
{
    match prev {
        None => current,
        Some(p) => {
            assert(kind(p, 0) <= kind(current, 0));
            assert(kind(p, 1) <= kind(current, 1));
            assert(kind(p, 2) <= kind(current, 2));
            assert(kind(p, 3) <= kind(current, 3));
            assert(kind(p, 4) <= kind(current, 4));
            assert(kind(p, 5) <= kind(current, 5));
            EventCounts {
                births: current.births - p.births,
                deaths_starve: current.deaths_starve - p.deaths_starve,
                deaths_age: current.deaths_age - p.deaths_age,
                deaths_predation: current.deaths_predation - p.deaths_predation,
                bites: current.bites - p.bites,
                neighbor_hue_samples: current.neighbor_hue_samples - p.neighbor_hue_samples,
            }
        },
    }
}

/// The total of kind `k` over the rows logged at `samples`, in order: the
/// first row with no previous sample, each later one against the row
/// before it.
pub open spec fn logged_total(samples: Seq<EventCounts>, k: int) -> int
    decreases samples.len(),
{
    if samples.len() == 0 {
        0
    } else if samples.len() == 1 {
        window_of(samples[0], None, k)
    } else {
        logged_total(samples.drop_last(), k) + window_of(
            samples.last(),
            Some(samples[samples.len() - 2]),
            k,
        )
    }
}

/// Adding up a log's window counts gives back the cumulative count at its
/// last row: no event is lost or counted twice between rows.
pub proof fn lemma_windows_add_up(samples: Seq<EventCounts>, k: int)
    requires
        samples.len() > 0,
        0 <= k < EVENT_KINDS,
    ensures
        logged_total(samples, k) == kind(samples.last(), k),
    decreases samples.len(),
{
    if samples.len() > 1 {
        lemma_windows_add_up(samples.drop_last(), k);
    }
}

} // verus!
