//! The path-finding fan-out: every request is answered on rayon's worker pool.
use vstd::prelude::*;
use rayon::prelude::{IntoParallelRefIterator, ParallelIterator};
use crate::network::{LaneID, RoadMap, pathfind};

verus! {

/// Relies on rayon's `par_iter().map(..).collect()` into a `Vec`: the closure runs once
/// per request, and the results come back in request order. Each closure only calls
/// `pathfind`, which reads the map and nothing else.
#[verifier::external_body]
pub(crate) fn find_paths(map: &RoadMap, requests: &Vec<(LaneID, LaneID)>) -> (r: Vec<Option<Vec<LaneID>>>)
    requires
        map.wf(),
    ensures
        r@.len() == requests@.len(),
        forall|i: int| 0 <= i < r@.len() && #[trigger] r@[i].is_some() ==> map.is_path(r@[i].unwrap()@, requests@[i].0, requests@[i].1),
        forall|i: int| 0 <= i < r@.len() && #[trigger] r@[i].is_none() ==> forall|p: Seq<LaneID>| !map.is_path(p, requests@[i].0, requests@[i].1),
{
    requests.par_iter().map(|&(start, goal)| pathfind(map, start, goal)).collect()
}

} // verus!
