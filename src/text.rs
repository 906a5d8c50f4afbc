//! Text for summaries and tooltips, written with std's formatting.
use vstd::prelude::*;

verus! {

/// The summary line for the given tick and counts.
pub uninterp spec fn summary_text(time: u64, waiting: usize, active: usize, parked: usize, peds: usize) -> Seq<char>;

/// The tooltip of pedestrian `p`.
pub uninterp spec fn greeting_text(p: usize) -> Seq<char>;

/// The tooltip of a parked car `c`.
pub uninterp spec fn parked_text(c: usize) -> Seq<char>;

/// The tooltip of a moving car `c` on `lane`, with the lane it waits for.
pub uninterp spec fn moving_text(c: usize, lane: usize, waiting_for: Option<usize>) -> Seq<char>;

/// Relies on std's `format!`: the text depends on the numbers alone.
#[verifier::external_body]
pub(crate) fn format_summary(time: u64, waiting: usize, active: usize, parked: usize, peds: usize) -> (r: String)
    ensures
        r@ == summary_text(time, waiting, active, parked, peds),
{
    format!("Time: {}, {} / {} active cars waiting, {} cars parked, {} pedestrians", time, waiting, active, parked, peds)
}

/// Relies on std's `format!`: the text depends on the id alone.
#[verifier::external_body]
pub(crate) fn format_greeting(p: usize) -> (r: String)
    ensures
        r@ == greeting_text(p),
{
    format!("Hello to {}", p)
}

/// Relies on std's `format!`: the text depends on the id alone.
#[verifier::external_body]
pub(crate) fn format_parked(c: usize) -> (r: String)
    ensures
        r@ == parked_text(c),
{
    format!("Car {} is parked", c)
}

/// Relies on std's `format!`: the text depends on the arguments alone.
#[verifier::external_body]
pub(crate) fn format_moving(c: usize, lane: usize, waiting_for: Option<usize>) -> (r: String)
    ensures
        r@ == moving_text(c, lane, waiting_for),
{
    format!("Car {} on lane {}, waiting for {:?}", c, lane, waiting_for)
}

} // verus!
