//! Spawning agents: a single-threaded plan that draws every random choice, a
//! parallel path search, and a sequential commit in request order.
use vstd::prelude::*;
use rand::XorShiftRng;
use crate::network::{LaneID, LaneType, RoadMap, pathfind};
use crate::sim::{Sim, same_world};
use crate::driving::CarID;
use crate::rng::{gen_index, shuffle_lanes, choose_different};
use crate::parallel::find_paths;

verus! {

/// How many of `paths` were found.
pub open spec fn count_found(paths: Seq<Option<Vec<LaneID>>>) -> nat
    decreases paths.len(),
{
    if paths.len() == 0 {
        0
    } else {
        count_found(paths.drop_last()) + if paths.last().is_some() { 1nat } else { 0nat }
    }
}

/// The paths found among `paths`, in order.
pub open spec fn found_paths(paths: Seq<Option<Vec<LaneID>>>) -> Seq<Seq<LaneID>>
    decreases paths.len(),
{
    if paths.len() == 0 {
        Seq::empty()
    } else if paths.last().is_some() {
        found_paths(paths.drop_last()).push(paths.last().unwrap()@)
    } else {
        found_paths(paths.drop_last())
    }
}

/// How many of the trips `reqs` can be made.
pub open spec fn count_reachable(map: &RoadMap, reqs: Seq<(LaneID, LaneID)>) -> nat
    decreases reqs.len(),
{
    if reqs.len() == 0 {
        0
    } else {
        count_reachable(map, reqs.drop_last()) + if map.reachable(reqs.last().0, reqs.last().1) { 1nat } else { 0nat }
    }
}

/// When a path is found for exactly the trips that can be made, the found count is
/// the number of such trips, and the found paths have that many entries.
pub proof fn lemma_found_counts_reachable(map: &RoadMap, reqs: Seq<(LaneID, LaneID)>, paths: Seq<Option<Vec<LaneID>>>)
    requires
        paths.len() == reqs.len(),
        forall|i: int| 0 <= i < paths.len() ==> (#[trigger] paths[i].is_some() <==> map.reachable(reqs[i].0, reqs[i].1)),
    ensures
        count_found(paths) == count_reachable(map, reqs),
        found_paths(paths).len() == count_found(paths),
    decreases paths.len(),
{
    if paths.len() > 0 {
        let n = paths.len() - 1;
        assert(paths[n].is_some() <==> map.reachable(reqs[n].0, reqs[n].1));
        assert forall|i: int| 0 <= i < paths.drop_last().len() implies (#[trigger] paths.drop_last()[i].is_some()
            <==> map.reachable(reqs.drop_last()[i].0, reqs.drop_last()[i].1)) by {
            assert(paths.drop_last()[i] == paths[i]);
            assert(reqs.drop_last()[i] == reqs[i]);
        }
        lemma_found_counts_reachable(map, reqs.drop_last(), paths.drop_last());
    }
}

/// Every found path is a path from its first lane to its last.
pub proof fn lemma_found_are_paths(map: &RoadMap, paths: Seq<Option<Vec<LaneID>>>)
    requires
        forall|i: int| 0 <= i < paths.len() && #[trigger] paths[i].is_some() ==> exists|a: LaneID, b: LaneID| map.is_path(paths[i].unwrap()@, a, b),
    ensures
        forall|k: int| 0 <= k < found_paths(paths).len() ==> map.is_path(#[trigger] found_paths(paths)[k], found_paths(paths)[k][0], found_paths(paths)[k].last()),
    decreases paths.len(),
{
    if paths.len() > 0 {
        let n = paths.len() - 1;
        assert forall|i: int| 0 <= i < paths.drop_last().len() && #[trigger] paths.drop_last()[i].is_some()
            implies exists|a: LaneID, b: LaneID| map.is_path(paths.drop_last()[i].unwrap()@, a, b) by {
            assert(paths.drop_last()[i] == paths[i]);
        }
        lemma_found_are_paths(map, paths.drop_last());
        let fp0 = found_paths(paths.drop_last());
        let fp = found_paths(paths);
        if paths[n].is_some() {
            let (a, b) = choose|a: LaneID, b: LaneID| map.is_path(paths[n].unwrap()@, a, b);
            assert forall|k: int| 0 <= k < fp.len() implies map.is_path(#[trigger] fp[k], fp[k][0], fp[k].last()) by {
                if k < fp0.len() {
                    assert(fp[k] == fp0[k]);
                } else {
                    assert(fp[k] == paths[n].unwrap()@);
                }
            }
        } else {
            assert(fp == fp0);
        }
    }
}

/// When every trip can be made, all of them count.
pub proof fn lemma_all_reachable(map: &RoadMap, reqs: Seq<(LaneID, LaneID)>)
    requires
        forall|i: int| 0 <= i < reqs.len() ==> map.reachable(#[trigger] reqs[i].0, reqs[i].1),
    ensures
        count_reachable(map, reqs) == reqs.len(),
    decreases reqs.len(),
{
    if reqs.len() > 0 {
        let n = reqs.len() - 1;
        assert(map.reachable(reqs[n].0, reqs[n].1));
        assert forall|i: int| 0 <= i < reqs.drop_last().len() implies map.reachable(#[trigger] reqs.drop_last()[i].0, reqs.drop_last()[i].1) by {
            assert(reqs.drop_last()[i] == reqs[i]);
        }
        lemma_all_reachable(map, reqs.drop_last());
    }
}

pub proof fn lemma_count_found_bound(paths: Seq<Option<Vec<LaneID>>>)
    ensures
        count_found(paths) <= paths.len(),
    decreases paths.len(),
{
    if paths.len() > 0 {
        lemma_count_found_bound(paths.drop_last());
    }
}

/// `g` can be the goal of a trip from `start`: another lane of the same type.
pub open spec fn is_candidate(map: &RoadMap, start: LaneID, g: LaneID) -> bool {
    g < map.lanes@.len() && g != start && map.lanes@[g as int].lane_type == map.lanes@[start as int].lane_type
}

pub open spec fn has_candidate(map: &RoadMap, start: LaneID) -> bool {
    exists|g: LaneID| is_candidate(map, start, g)
}

/// Every candidate goal of `start` is reachable from it.
pub open spec fn all_candidates_reachable(map: &RoadMap, start: LaneID) -> bool {
    forall|g: LaneID| is_candidate(map, start, g) ==> #[trigger] map.reachable(start, g)
}

/// The candidate goals of `start`, in lane order.
pub fn candidate_goals(map: &RoadMap, start: LaneID) -> (r: Vec<LaneID>)
    requires
        map.wf(),
        start < map.lanes@.len(),
    ensures
        forall|k: int| 0 <= k < r@.len() ==> is_candidate(map, start, #[trigger] r@[k]),
        forall|g: LaneID| is_candidate(map, start, g) ==> #[trigger] r@.contains(g),
{
    let lane_type = map.get_l(start).lane_type;
    let mut out: Vec<LaneID> = Vec::new();
    let lanes = map.all_lanes();
    let mut i: usize = 0;
    while i < lanes.len()
        invariant
            map.wf(),
            lanes@ == map.lanes@,
            i <= lanes@.len(),
            start < lanes@.len(),
            lane_type == map.lanes@[start as int].lane_type,
            forall|k: int| 0 <= k < out@.len() ==> is_candidate(map, start, #[trigger] out@[k]),
            forall|g: LaneID| g < i && is_candidate(map, start, g) ==> #[trigger] out@.contains(g),
        decreases lanes@.len() - i,
    {
        let l = &lanes[i];
        if l.lane_type == lane_type && l.id != start {
            let ghost prev = out@;
            out.push(l.id);
            proof {
                assert forall|g: LaneID| g < i + 1 && is_candidate(map, start, g) implies #[trigger] out@.contains(g) by {
                    if g < i {
                        assert(prev.contains(g));
                        let j = choose|j: int| 0 <= j < prev.len() && prev[j] == g;
                        assert(out@[j] == g);
                    } else {
                        assert(out@[prev.len() as int] == g);
                    }
                }
            }
        }
        i = i + 1;
    }
    out
}

/// The path from `start` to the candidate drawn at index `k`, if one exists.
pub fn path_to_candidate(map: &RoadMap, start: LaneID, candidates: &Vec<LaneID>, k: usize) -> (r: Option<Vec<LaneID>>)
    requires
        map.wf(),
        k < candidates@.len(),
    ensures
        r.is_some() <==> map.reachable(start, candidates@[k as int]),
        r.is_some() ==> map.is_path(r.unwrap()@, start, candidates@[k as int]),
{
    let r = pathfind(map, start, candidates[k]);
    proof {
        if r.is_some() {
            assert(map.is_path(r.unwrap()@, start, candidates@[k as int]));
        }
    }
    r
}

/// Picks a goal of the same lane type as `start`, other than `start`, uniformly, and
/// searches a path to it. `None` when no path reaches the goal drawn.
pub fn pick_goal_and_find_path(rng: &mut XorShiftRng, map: &RoadMap, start: LaneID) -> (r: Option<Vec<LaneID>>)
    requires
        map.wf(),
        start < map.lanes@.len(),
        has_candidate(map, start),
    ensures
        r.is_some() ==> map.is_path(r.unwrap()@, start, r.unwrap()@.last())
            && is_candidate(map, start, r.unwrap()@.last()),
        r.is_none() ==> exists|g: LaneID| is_candidate(map, start, g) && !map.reachable(start, g),
        all_candidates_reachable(map, start) ==> r.is_some(),
{
    let candidate_goals = candidate_goals(map, start);
    proof {
        let g = choose|g: LaneID| is_candidate(map, start, g);
        assert(candidate_goals@.contains(g));
    }
    let k = gen_index(rng, candidate_goals.len());
    let r = path_to_candidate(map, start, &candidate_goals, k);
    proof {
        let g = candidate_goals@[k as int];
        assert(is_candidate(map, start, g));
        if r.is_none() && all_candidates_reachable(map, start) {
            assert(map.reachable(start, g));
        }
    }
    r
}

/// One commit of a path result: `t` is `s` after trying to start a parked car along
/// `p`. The car parked last on the serving parking lane leaves parking and starts
/// when `s` accepts the start; otherwise nothing changes.
pub open spec fn commit_step(s: Sim, t: Sim, map: &RoadMap, p: Option<Vec<LaneID>>) -> bool {
    &&& t.driving_state.lanes@ == s.driving_state.lanes@
    &&& t.parking_state.lanes@ == s.parking_state.lanes@
    &&& t.car_id_counter == s.car_id_counter
    &&& t.walking_state == s.walking_state
    &&& t.time == s.time
    &&& if p.is_some() && s.can_start_parked_car(map, p.unwrap()@) {
        let c = t.driving_state.cars_view().last().id;
        &&& t.driving_state.cars_view().len() == s.driving_state.cars_view().len() + 1
        &&& t.driving_state.cars_view().drop_last() == s.driving_state.cars_view()
        &&& t.driving_state.cars_view().last().path == p.unwrap()@
        &&& s.parking_state.is_last_on(map.parking_lane_of(p.unwrap()@[0]).unwrap(), Some(c))
        &&& t.parking_state.spots@.len() == s.parking_state.spots@.len() - 1
        &&& !t.parking_state.has_car(c)
        &&& forall|c2: CarID| c2 != c ==> (#[trigger] t.parking_state.has_car(c2) <==> s.parking_state.has_car(c2))
    } else {
        &&& t.driving_state.cars_view() == s.driving_state.cars_view()
        &&& t.parking_state.spots@ == s.parking_state.spots@
    }
}

/// How many of the first `n` path results started a car, each judged in the state
/// `states[i]` that its commit met.
pub open spec fn started(map: &RoadMap, states: Seq<Sim>, paths: Seq<Option<Vec<LaneID>>>, n: nat) -> nat
    decreases n,
{
    if n == 0 {
        0
    } else {
        let i = n - 1;
        started(map, states, paths, i as nat)
            + if paths[i].is_some() && states[i].can_start_parked_car(map, paths[i].unwrap()@) { 1nat } else { 0nat }
    }
}

proof fn lemma_started_prefix(map: &RoadMap, a: Seq<Sim>, b: Seq<Sim>, paths: Seq<Option<Vec<LaneID>>>, n: nat)
    requires
        n <= a.len(),
        n <= b.len(),
        forall|j: int| 0 <= j < n ==> a[j] == b[j],
    ensures
        started(map, a, paths, n) == started(map, b, paths, n),
    decreases n,
{
    if n > 0 {
        lemma_started_prefix(map, a, b, paths, (n - 1) as nat);
        assert(a[n - 1] == b[n - 1]);
    }
}

/// The commits of `paths`, in order, lead from `states[0]` to `states.last()`.
pub open spec fn commit_trace(map: &RoadMap, states: Seq<Sim>, paths: Seq<Option<Vec<LaneID>>>) -> bool {
    &&& states.len() == paths.len() + 1
    &&& forall|i: int| 0 <= i < paths.len() ==> commit_step(#[trigger] states[i], states[i + 1], map, paths[i])
}

/// Lane `id` spawns a car: it is a driving lane, or a parking lane whose road has one.
pub open spec fn starts_car(map: &RoadMap, id: LaneID) -> bool {
    map.lanes@[id as int].lane_type == LaneType::Driving
        || (map.lanes@[id as int].lane_type == LaneType::Parking && map.driving_lane_of(id).is_some())
}

/// The driving lane a car spawned from lane `id` starts on.
pub open spec fn car_lane(map: &RoadMap, id: LaneID) -> LaneID {
    if map.lanes@[id as int].lane_type == LaneType::Driving { id } else { map.driving_lane_of(id).unwrap() }
}

impl Sim {
    /// The driving lanes on which no car stands.
    pub open spec fn empty_lanes(&self) -> Set<LaneID> {
        Set::new(|l: LaneID| self.driving_state.lanes@.contains(l) && !self.driving_state.occupied(l))
    }

    /// Goal selection needs two distinct lanes once any is asked for.
    pub open spec fn can_plan_cars(&self, num_cars: usize) -> bool {
        num_cars > 0 && (exists|l: LaneID| self.empty_lanes().contains(l)) ==> exists|a: LaneID, b: LaneID|
            a != b && self.empty_lanes().contains(a) && self.empty_lanes().contains(b)
    }

    /// Draws the start and goal of each car to spawn: the empty driving lanes are
    /// shuffled, the first `num_cars` of them are the starts, and each goal is another
    /// empty driving lane. Only the random stream changes.
    pub fn plan_parked_cars(&mut self, num_cars: usize) -> (r: Vec<(LaneID, LaneID)>)
        requires
            old(self).wf(),
            old(self).can_plan_cars(num_cars),
        ensures
            final(self).driving_state == old(self).driving_state,
            final(self).parking_state == old(self).parking_state,
            final(self).walking_state == old(self).walking_state,
            final(self).intersection_state == old(self).intersection_state,
            final(self).time == old(self).time,
            final(self).car_id_counter == old(self).car_id_counter,
            final(self).debug == old(self).debug,
            r@.len() == if num_cars < old(self).empty_lanes().len() { num_cars as nat } else { old(self).empty_lanes().len() },
            forall|i: int| 0 <= i < r@.len() ==> old(self).empty_lanes().contains((#[trigger] r@[i]).0)
                && old(self).empty_lanes().contains(r@[i].1) && r@[i].0 != r@[i].1,
            forall|i: int, j: int| 0 <= i < j < r@.len() ==> (#[trigger] r@[i]).0 != (#[trigger] r@[j]).0,
    {
        let ghost empty = self.empty_lanes();
        let mut driving_lanes = self.driving_state.get_empty_lanes();
        let ghost before = driving_lanes@;
        if driving_lanes.len() > 0 {
            shuffle_lanes(&mut self.rng, &mut driving_lanes);
        }
        proof {
            broadcast use vstd::seq_lib::to_multiset_contains;
            before.lemma_multiset_has_no_duplicates();
            assert forall|x: LaneID| driving_lanes@.to_multiset().contains(x) implies driving_lanes@.to_multiset().count(x) == 1 by {
                assert(before.to_multiset().contains(x));
            }
            driving_lanes@.lemma_multiset_has_no_duplicates_conv();
            assert forall|x: LaneID| #[trigger] driving_lanes@.contains(x) <==> empty.contains(x) by {
                assert(driving_lanes@.contains(x) <==> driving_lanes@.to_multiset().count(x) > 0);
                assert(before.contains(x) <==> before.to_multiset().count(x) > 0);
            }
            driving_lanes@.unique_seq_to_set();
            assert(driving_lanes@.to_set() =~= empty);
        }
        let n = if num_cars < driving_lanes.len() { num_cars } else { driving_lanes.len() };
        let mut requested_paths: Vec<(LaneID, LaneID)> = Vec::new();
        let mut i: usize = 0;
        while i < n
            invariant
                i <= n,
                n <= driving_lanes@.len(),
                self.driving_state == old(self).driving_state,
                self.parking_state == old(self).parking_state,
                self.walking_state == old(self).walking_state,
                self.intersection_state == old(self).intersection_state,
                self.time == old(self).time,
                self.car_id_counter == old(self).car_id_counter,
                self.debug == old(self).debug,
                n > 0 ==> num_cars > 0,
                driving_lanes@.no_duplicates(),
                forall|x: LaneID| #[trigger] driving_lanes@.contains(x) <==> empty.contains(x),
                num_cars > 0 && (exists|l: LaneID| empty.contains(l)) ==> exists|a: LaneID, b: LaneID|
                    a != b && empty.contains(a) && empty.contains(b),
                requested_paths@.len() == i,
                forall|k: int| 0 <= k < i ==> (#[trigger] requested_paths@[k]).0 == driving_lanes@[k]
                    && empty.contains(requested_paths@[k].1) && requested_paths@[k].0 != requested_paths@[k].1,
            decreases n - i,
        {
            let start = driving_lanes[i];
            proof {
                assert(driving_lanes@.contains(start));
                let (a, b) = choose|a: LaneID, b: LaneID| a != b && empty.contains(a) && empty.contains(b);
                let other = if a != start { a } else { b };
                assert(driving_lanes@.contains(other));
                let j = choose|j: int| 0 <= j < driving_lanes@.len() && driving_lanes@[j] == other;
                assert(driving_lanes@[j] != start);
            }
            let goal = choose_different(&mut self.rng, &driving_lanes, start);
            requested_paths.push((start, goal));
            i = i + 1;
        }
        proof {
            assert forall|a: int, b: int| 0 <= a < b < requested_paths@.len() implies
                (#[trigger] requested_paths@[a]).0 != (#[trigger] requested_paths@[b]).0 by {
                assert(requested_paths@[a].0 == driving_lanes@[a]);
                assert(requested_paths@[b].0 == driving_lanes@[b]);
            }
            assert forall|k: int| 0 <= k < requested_paths@.len() implies empty.contains((#[trigger] requested_paths@[k]).0) by {
                assert(driving_lanes@.contains(driving_lanes@[k]));
            }
        }
        requested_paths
    }

    /// Starts a parked car along each found path, in order; returns how many started.
    pub fn commit_parked_cars(&mut self, map: &RoadMap, paths: &Vec<Option<Vec<LaneID>>>) -> (r: usize)
        requires
            old(self).wf(),
            map.wf(),
            forall|i: int| 0 <= i < paths@.len() && #[trigger] paths@[i].is_some() ==> paths@[i].unwrap()@.len() >= 1
                && paths@[i].unwrap()@[0] < map.lanes@.len(),
        ensures
            final(self).wf(),
            r <= count_found(paths@),
            paths@.len() > 0 && paths@[0].is_some() && old(self).can_start_parked_car(map, paths@[0].unwrap()@) ==> r >= 1,
            exists|states: Seq<Sim>| commit_trace(map, states, paths@) && states[0] == *old(self)
                && states.last() == *final(self) && r == started(map, states, paths@, paths@.len() as nat),
            final(self).rng == old(self).rng,
            final(self).intersection_state == old(self).intersection_state,
            final(self).debug == old(self).debug,
            final(self).driving_state.cars_view().len() == old(self).driving_state.cars_view().len() + r,
            final(self).driving_state.cars_view().subrange(0, old(self).driving_state.cars_view().len() as int)
                == old(self).driving_state.cars_view(),
            final(self).parking_state.spots@.len() + r == old(self).parking_state.spots@.len(),
            final(self).walking_state == old(self).walking_state,
            final(self).time == old(self).time,
            final(self).car_id_counter == old(self).car_id_counter,
    {
        let mut actual: usize = 0;
        let mut i: usize = 0;
        let ghost mut states: Seq<Sim> = seq![*self];
        while i < paths.len()
            invariant
                self.wf(),
                map.wf(),
                i <= paths@.len(),
                forall|k: int| 0 <= k < paths@.len() && #[trigger] paths@[k].is_some() ==> paths@[k].unwrap()@.len() >= 1
                    && paths@[k].unwrap()@[0] < map.lanes@.len(),
                actual <= count_found(paths@.subrange(0, i as int)),
                i == 0 ==> self.parking_state.spots@ == old(self).parking_state.spots@
                    && self.driving_state.cars@ == old(self).driving_state.cars@
                    && self.driving_state.lanes@ == old(self).driving_state.lanes@,
                i > 0 && paths@[0].is_some() && old(self).can_start_parked_car(map, paths@[0].unwrap()@) ==> actual >= 1,
                states.len() == i + 1,
                states[0] == *old(self),
                states.last() == *self,
                forall|j: int| 0 <= j < i ==> commit_step(#[trigger] states[j], states[j + 1], map, paths@[j]),
                actual == started(map, states, paths@, i as nat),
                self.rng == old(self).rng,
                self.intersection_state == old(self).intersection_state,
                self.debug == old(self).debug,
                self.driving_state.cars_view().len() == old(self).driving_state.cars_view().len() + actual,
                self.driving_state.cars_view().subrange(0, old(self).driving_state.cars_view().len() as int)
                    == old(self).driving_state.cars_view(),
                self.parking_state.spots@.len() + actual == old(self).parking_state.spots@.len(),
                self.walking_state == old(self).walking_state,
                self.time == old(self).time,
                self.car_id_counter == old(self).car_id_counter,
            decreases paths@.len() - i,
        {
            assert(paths@.subrange(0, i as int + 1).drop_last() =~= paths@.subrange(0, i as int));
            proof { lemma_count_found_bound(paths@.subrange(0, i as int)); }
            if let Some(steps) = &paths[i] {
                let steps = steps.clone();
                assert(steps@ =~= paths@[i as int].unwrap()@);
                let ghost prev = self.driving_state.cars_view();
                if self.start_parked_car(map, steps) {
                    actual = actual + 1;
                    assert(self.driving_state.cars_view().subrange(0, old(self).driving_state.cars_view().len() as int)
                        =~= prev.subrange(0, old(self).driving_state.cars_view().len() as int));
                }
            }
            proof {
                let s0 = states;
                states = states.push(*self);
                assert(commit_step(s0[i as int], *self, map, paths@[i as int]));
                assert forall|j: int| 0 <= j < i + 1 implies commit_step(#[trigger] states[j], states[j + 1], map, paths@[j]) by {
                    if j < i {
                        assert(states[j] == s0[j]);
                        assert(states[j + 1] == s0[j + 1]);
                    }
                }
                lemma_started_prefix(map, s0, states, paths@, i as nat);
                assert(states[i as int] == s0[i as int]);
            }
            i = i + 1;
        }
        assert(paths@.subrange(0, paths@.len() as int) =~= paths@);
        actual
    }

    /// Spawns up to `num_cars` parked cars, each along a path from an empty driving
    /// lane to another. Returns how many were asked of the path finder and how many
    /// started.
    pub fn start_many_parked_cars(&mut self, map: &RoadMap, num_cars: usize) -> (r: (usize, usize))
        requires
            old(self).wf(),
            map.wf(),
            old(self).can_plan_cars(num_cars),
        ensures
            final(self).wf(),
            r.0 == if num_cars < old(self).empty_lanes().len() { num_cars as nat } else { old(self).empty_lanes().len() },
            r.1 <= r.0,
            final(self).driving_state.cars_view().len() == old(self).driving_state.cars_view().len() + r.1,
            final(self).driving_state.cars_view().subrange(0, old(self).driving_state.cars_view().len() as int)
                == old(self).driving_state.cars_view(),
            final(self).parking_state.spots@.len() + r.1 == old(self).parking_state.spots@.len(),
            final(self).walking_state == old(self).walking_state,
            final(self).time == old(self).time,
            final(self).car_id_counter == old(self).car_id_counter,
            final(self).intersection_state == old(self).intersection_state,
            final(self).debug == old(self).debug,
            exists|reqs: Seq<(LaneID, LaneID)>, paths: Seq<Option<Vec<LaneID>>>, states: Seq<Sim>|
                reqs.len() == r.0 && paths.len() == reqs.len()
                && (forall|i: int| 0 <= i < reqs.len() ==> old(self).empty_lanes().contains((#[trigger] reqs[i]).0)
                    && old(self).empty_lanes().contains(reqs[i].1) && reqs[i].0 != reqs[i].1)
                && (forall|i: int| 0 <= i < paths.len() ==> (#[trigger] paths[i].is_some() <==> map.reachable(reqs[i].0, reqs[i].1)))
                && (forall|i: int| 0 <= i < paths.len() && #[trigger] paths[i].is_some() ==> map.is_path(paths[i].unwrap()@, reqs[i].0, reqs[i].1))
                && commit_trace(map, states, paths) && same_world(&states[0], &*old(self)) && states.last() == *final(self)
                && r.1 == started(map, states, paths, paths.len() as nat),
            num_cars == 0 ==> r == (0usize, 0usize)
                && final(self).driving_state == old(self).driving_state
                && final(self).parking_state == old(self).parking_state
                && final(self).intersection_state == old(self).intersection_state
                && final(self).debug == old(self).debug,
    {
        let requested_paths = self.plan_parked_cars(num_cars);
        let ghost planned = *self;
        if requested_paths.len() == 0 {
            proof {
                let paths: Seq<Option<Vec<LaneID>>> = Seq::empty();
                let states = seq![*self];
                assert(commit_trace(map, states, paths));
                assert(same_world(&states[0], &*old(self)));
                assert(started(map, states, paths, 0) == 0);
            }
            return (0, 0);
        }
        let paths = find_paths(map, &requested_paths);
        let actual = self.commit_parked_cars(map, &paths);
        proof {
            lemma_count_found_bound(paths@);
            let reqs = requested_paths@;
            assert forall|i: int| 0 <= i < paths@.len() implies (#[trigger] paths@[i].is_some() <==> map.reachable(reqs[i].0, reqs[i].1)) by {
                if paths@[i].is_some() {
                    assert(map.is_path(paths@[i].unwrap()@, reqs[i].0, reqs[i].1));
                }
            }
            let states = choose|states: Seq<Sim>| commit_trace(map, states, paths@) && states[0] == planned
                && states.last() == *self && actual == started(map, states, paths@, paths@.len() as nat);
            assert(same_world(&states[0], &*old(self)));
        }
        (requested_paths.len(), actual)
    }

    /// Adds one pedestrian for each found path, in order; returns how many.
    pub fn commit_pedestrians(&mut self, map: &RoadMap, paths: &Vec<Option<Vec<LaneID>>>) -> (r: usize)
        requires
            old(self).wf(),
            forall|i: int| 0 <= i < paths@.len() && #[trigger] paths@[i].is_some() ==> paths@[i].unwrap()@.len() >= 1,
        ensures
            final(self).wf(),
            r == count_found(paths@),
            final(self).walking_state.peds_view().len() == old(self).walking_state.peds_view().len() + r,
            forall|k: int| 0 <= k < r ==> (#[trigger] final(self).walking_state.peds_view()[old(self).walking_state.peds_view().len() + k]).path
                == found_paths(paths@)[k],
            final(self).rng == old(self).rng,
            final(self).walking_state.peds_view().subrange(0, old(self).walking_state.peds_view().len() as int)
                == old(self).walking_state.peds_view(),
            final(self).walking_state.closed_lanes@ == old(self).walking_state.closed_lanes@,
            final(self).walking_state.closed_turns@ == old(self).walking_state.closed_turns@,
            final(self).driving_state == old(self).driving_state,
            final(self).parking_state == old(self).parking_state,
            final(self).intersection_state == old(self).intersection_state,
            final(self).time == old(self).time,
            final(self).car_id_counter == old(self).car_id_counter,
            final(self).debug == old(self).debug,
    {
        let mut actual: usize = 0;
        let mut i: usize = 0;
        while i < paths.len()
            invariant
                self.wf(),
                i <= paths@.len(),
                forall|k: int| 0 <= k < paths@.len() && #[trigger] paths@[k].is_some() ==> paths@[k].unwrap()@.len() >= 1,
                actual == count_found(paths@.subrange(0, i as int)),
                actual == found_paths(paths@.subrange(0, i as int)).len(),
                self.walking_state.peds_view().len() == old(self).walking_state.peds_view().len() + actual,
                forall|k: int| 0 <= k < actual ==> (#[trigger] self.walking_state.peds_view()[old(self).walking_state.peds_view().len() + k]).path
                    == found_paths(paths@.subrange(0, i as int))[k],
                self.rng == old(self).rng,
                self.walking_state.peds_view().subrange(0, old(self).walking_state.peds_view().len() as int)
                    == old(self).walking_state.peds_view(),
                self.walking_state.closed_lanes@ == old(self).walking_state.closed_lanes@,
                self.walking_state.closed_turns@ == old(self).walking_state.closed_turns@,
                self.driving_state == old(self).driving_state,
                self.parking_state == old(self).parking_state,
                self.intersection_state == old(self).intersection_state,
                self.time == old(self).time,
                self.car_id_counter == old(self).car_id_counter,
                self.debug == old(self).debug,
            decreases paths@.len() - i,
        {
            assert(paths@.subrange(0, i as int + 1).drop_last() =~= paths@.subrange(0, i as int));
            proof {
                lemma_count_found_bound(paths@.subrange(0, i as int));
            }
            if let Some(steps) = &paths[i] {
                let steps = steps.clone();
                assert(steps@ =~= paths@[i as int].unwrap()@);
                let ghost prev = self.walking_state.peds_view();
                self.walking_state.seed_pedestrian(map, steps);
                proof {
                    let o = old(self).walking_state.peds_view().len();
                    let fp = found_paths(paths@.subrange(0, i as int + 1));
                    assert(fp == found_paths(paths@.subrange(0, i as int)).push(paths@[i as int].unwrap()@));
                    assert forall|k: int| 0 <= k < actual + 1 implies (#[trigger] self.walking_state.peds_view()[o + k]).path == fp[k] by {
                        if k < actual {
                            assert(self.walking_state.peds_view()[o + k] == prev[o + k]);
                        }
                    }
                }
                actual = actual + 1;
                assert(self.walking_state.peds_view().subrange(0, old(self).walking_state.peds_view().len() as int)
                    =~= prev.subrange(0, old(self).walking_state.peds_view().len() as int));
            }
            i = i + 1;
        }
        assert(paths@.subrange(0, paths@.len() as int) =~= paths@);
        actual
    }
}

/// The map has two distinct sidewalks.
pub open spec fn has_two_sidewalks(map: &RoadMap) -> bool {
    exists|a: int, b: int| 0 <= a < map.lanes@.len() && 0 <= b < map.lanes@.len() && a != b
        && (#[trigger] map.lanes@[a]).lane_type == LaneType::Sidewalk && (#[trigger] map.lanes@[b]).lane_type == LaneType::Sidewalk
}

impl Sim {
    /// Draws the start and goal of each pedestrian to spawn: each start is a sidewalk
    /// drawn uniformly, each goal another sidewalk. Only the random stream changes.
    pub fn plan_pedestrians(&mut self, map: &RoadMap, num: usize) -> (r: Vec<(LaneID, LaneID)>)
        requires
            map.wf(),
            num == 0 || has_two_sidewalks(map),
        ensures
            final(self).driving_state == old(self).driving_state,
            final(self).parking_state == old(self).parking_state,
            final(self).walking_state == old(self).walking_state,
            final(self).intersection_state == old(self).intersection_state,
            final(self).time == old(self).time,
            final(self).car_id_counter == old(self).car_id_counter,
            final(self).debug == old(self).debug,
            r@.len() == num,
            forall|i: int| 0 <= i < r@.len() ==> (#[trigger] r@[i]).0 < map.lanes@.len() && r@[i].1 < map.lanes@.len()
                && map.lanes@[r@[i].0 as int].lane_type == LaneType::Sidewalk
                && map.lanes@[r@[i].1 as int].lane_type == LaneType::Sidewalk
                && r@[i].0 != r@[i].1,
    {
        let mut sidewalks: Vec<LaneID> = Vec::new();
        let lanes = map.all_lanes();
        let mut i: usize = 0;
        while i < lanes.len()
            invariant
                map.wf(),
                lanes@ == map.lanes@,
                i <= lanes@.len(),
                forall|k: int| 0 <= k < sidewalks@.len() ==> #[trigger] sidewalks@[k] < lanes@.len()
                    && map.lanes@[sidewalks@[k] as int].lane_type == LaneType::Sidewalk,
                forall|x: int| 0 <= x < i && (#[trigger] map.lanes@[x]).lane_type == LaneType::Sidewalk
                    ==> sidewalks@.contains(x as LaneID),
            decreases lanes@.len() - i,
        {
            let l = &lanes[i];
            if l.lane_type == LaneType::Sidewalk {
                let ghost prev = sidewalks@;
                sidewalks.push(l.id);
                proof {
                    assert forall|x: int| 0 <= x < i + 1 && (#[trigger] map.lanes@[x]).lane_type == LaneType::Sidewalk
                        implies sidewalks@.contains(x as LaneID) by {
                        if x < i {
                            let j = choose|j: int| 0 <= j < prev.len() && prev[j] == x as LaneID;
                            assert(sidewalks@[j] == x as LaneID);
                        } else {
                            assert(sidewalks@[prev.len() as int] == x as LaneID);
                        }
                    }
                }
            }
            i = i + 1;
        }
        let mut requested_paths: Vec<(LaneID, LaneID)> = Vec::new();
        let mut n: usize = 0;
        while n < num
            invariant
                map.wf(),
                n <= num,
                num == 0 || has_two_sidewalks(map),
                forall|k: int| 0 <= k < sidewalks@.len() ==> #[trigger] sidewalks@[k] < map.lanes@.len()
                    && map.lanes@[sidewalks@[k] as int].lane_type == LaneType::Sidewalk,
                forall|x: int| 0 <= x < map.lanes@.len() && (#[trigger] map.lanes@[x]).lane_type == LaneType::Sidewalk
                    ==> sidewalks@.contains(x as LaneID),
                requested_paths@.len() == n,
                forall|k: int| 0 <= k < requested_paths@.len() ==> (#[trigger] requested_paths@[k]).0 < map.lanes@.len()
                    && requested_paths@[k].1 < map.lanes@.len()
                    && map.lanes@[requested_paths@[k].0 as int].lane_type == LaneType::Sidewalk
                    && map.lanes@[requested_paths@[k].1 as int].lane_type == LaneType::Sidewalk
                    && requested_paths@[k].0 != requested_paths@[k].1,
                self.driving_state == old(self).driving_state,
                self.parking_state == old(self).parking_state,
                self.walking_state == old(self).walking_state,
                self.intersection_state == old(self).intersection_state,
                self.time == old(self).time,
                self.car_id_counter == old(self).car_id_counter,
                self.debug == old(self).debug,
            decreases num - n,
        {
            let ghost ab = choose|a: int, b: int| 0 <= a < map.lanes@.len() && 0 <= b < map.lanes@.len() && a != b
                && (#[trigger] map.lanes@[a]).lane_type == LaneType::Sidewalk && (#[trigger] map.lanes@[b]).lane_type == LaneType::Sidewalk;
            proof {
                assert(sidewalks@.contains(ab.0 as LaneID));
                assert(sidewalks@.contains(ab.1 as LaneID));
                let ja = choose|j: int| 0 <= j < sidewalks@.len() && sidewalks@[j] == ab.0 as LaneID;
                let jb = choose|j: int| 0 <= j < sidewalks@.len() && sidewalks@[j] == ab.1 as LaneID;
                assert(ja != jb);
            }
            let start = sidewalks[gen_index(&mut self.rng, sidewalks.len())];
            proof {
                let ja = choose|j: int| 0 <= j < sidewalks@.len() && sidewalks@[j] == ab.0 as LaneID;
                let jb = choose|j: int| 0 <= j < sidewalks@.len() && sidewalks@[j] == ab.1 as LaneID;
                if sidewalks@[ja] == start {
                    assert(sidewalks@[jb] != start);
                }
            }
            let goal = choose_different(&mut self.rng, &sidewalks, start);
            proof {
                let j = choose|j: int| 0 <= j < sidewalks@.len() && sidewalks@[j] == goal;
                assert(sidewalks@[j] == goal);
            }
            requested_paths.push((start, goal));
            n = n + 1;
        }
        requested_paths
    }

    /// Spawns up to `num` pedestrians, each walking from a random sidewalk to another.
    /// A request whose path is not found is skipped. Returns how many were requested
    /// and how many were spawned.
    pub fn seed_pedestrians(&mut self, map: &RoadMap, num: usize) -> (r: (usize, usize))
        requires
            old(self).wf(),
            map.wf(),
            num == 0 || has_two_sidewalks(map),
        ensures
            final(self).wf(),
            r.0 == num,
            r.1 <= num,
            final(self).walking_state.peds_view().len() == old(self).walking_state.peds_view().len() + r.1,
            final(self).walking_state.peds_view().subrange(0, old(self).walking_state.peds_view().len() as int)
                == old(self).walking_state.peds_view(),
            exists|reqs: Seq<(LaneID, LaneID)>| reqs.len() == num
                && (forall|i: int| 0 <= i < reqs.len() ==> is_candidate(map, (#[trigger] reqs[i]).0, reqs[i].1)
                    && map.lanes@[reqs[i].0 as int].lane_type == LaneType::Sidewalk)
                && r.1 == count_reachable(map, reqs),
            (forall|a: LaneID, b: LaneID| is_candidate(map, a, b) && map.lanes@[a as int].lane_type == LaneType::Sidewalk
                ==> #[trigger] map.reachable(a, b)) ==> r.1 == num,
            forall|k: int| old(self).walking_state.peds_view().len() <= k < final(self).walking_state.peds_view().len() ==>
                map.is_path((#[trigger] final(self).walking_state.peds_view()[k]).path,
                    final(self).walking_state.peds_view()[k].path[0], final(self).walking_state.peds_view()[k].path.last()),
            final(self).driving_state == old(self).driving_state,
            final(self).parking_state == old(self).parking_state,
            final(self).intersection_state == old(self).intersection_state,
            final(self).time == old(self).time,
            final(self).car_id_counter == old(self).car_id_counter,
            final(self).debug == old(self).debug,
    {
        let requested_paths = self.plan_pedestrians(map, num);
        let paths = find_paths(map, &requested_paths);
        let ghost o = self.walking_state.peds_view().len();
        let actual = self.commit_pedestrians(map, &paths);
        proof {
            lemma_count_found_bound(paths@);
            let reqs = requested_paths@;
            assert forall|i: int| 0 <= i < paths@.len() implies (#[trigger] paths@[i].is_some() <==> map.reachable(reqs[i].0, reqs[i].1)) by {
                if paths@[i].is_some() {
                    assert(map.is_path(paths@[i].unwrap()@, reqs[i].0, reqs[i].1));
                }
            }
            lemma_found_counts_reachable(map, reqs, paths@);
            lemma_found_are_paths(map, paths@);
            assert forall|i: int| 0 <= i < reqs.len() implies is_candidate(map, (#[trigger] reqs[i]).0, reqs[i].1)
                && map.lanes@[reqs[i].0 as int].lane_type == LaneType::Sidewalk by {}
            if forall|a: LaneID, b: LaneID| is_candidate(map, a, b) && map.lanes@[a as int].lane_type == LaneType::Sidewalk
                ==> #[trigger] map.reachable(a, b) {
                assert forall|i: int| 0 <= i < reqs.len() implies map.reachable(#[trigger] reqs[i].0, reqs[i].1) by {
                    assert(is_candidate(map, reqs[i].0, reqs[i].1));
                }
                lemma_all_reachable(map, reqs);
            }
            assert forall|k: int| o <= k < self.walking_state.peds_view().len() implies
                map.is_path((#[trigger] self.walking_state.peds_view()[k]).path,
                    self.walking_state.peds_view()[k].path[0], self.walking_state.peds_view()[k].path.last()) by {
                assert(self.walking_state.peds_view()[o + (k - o)].path == found_paths(paths@)[k - o]);
            }
        }
        (num, actual)
    }

    /// Spawns one agent on lane `id`: a pedestrian on a sidewalk, or a parked car of the
    /// road's parking lane on a driving lane (a parking lane stands for its road's
    /// driving lane). The goal is another lane of the same type. Biking lanes spawn
    /// nothing.
    pub fn start_agent(&mut self, map: &RoadMap, id: LaneID) -> (r: bool)
        requires
            old(self).wf(),
            map.wf(),
            id < map.lanes@.len(),
            map.lanes@[id as int].lane_type == LaneType::Sidewalk || map.lanes@[id as int].lane_type == LaneType::Driving
                ==> has_candidate(map, id),
            map.lanes@[id as int].lane_type == LaneType::Parking && map.driving_lane_of(id).is_some()
                ==> has_candidate(map, map.driving_lane_of(id).unwrap()),
        ensures
            final(self).wf(),
            final(self).time == old(self).time,
            final(self).car_id_counter == old(self).car_id_counter,
            final(self).debug == old(self).debug,
            final(self).intersection_state == old(self).intersection_state,
            map.lanes@[id as int].lane_type == LaneType::Biking ==> !r,
            map.lanes@[id as int].lane_type == LaneType::Parking && map.driving_lane_of(id).is_none() ==> !r,
            map.lanes@[id as int].lane_type == LaneType::Biking
                || (map.lanes@[id as int].lane_type == LaneType::Parking && map.driving_lane_of(id).is_none())
                ==> final(self).rng == old(self).rng,
            !r ==> final(self).driving_state.cars_view() == old(self).driving_state.cars_view()
                && final(self).parking_state.spots@ == old(self).parking_state.spots@
                && final(self).walking_state.peds_view() == old(self).walking_state.peds_view(),
            map.lanes@[id as int].lane_type == LaneType::Sidewalk && all_candidates_reachable(map, id) ==> r,
            map.lanes@[id as int].lane_type == LaneType::Sidewalk && !r ==>
                exists|g: LaneID| is_candidate(map, id, g) && !map.reachable(id, g),
            r && map.lanes@[id as int].lane_type == LaneType::Sidewalk ==>
                final(self).walking_state.peds_view().len() == old(self).walking_state.peds_view().len() + 1
                && final(self).walking_state.peds_view().drop_last() == old(self).walking_state.peds_view()
                && map.is_path(final(self).walking_state.peds_view().last().path, id, final(self).walking_state.peds_view().last().path.last())
                && is_candidate(map, id, final(self).walking_state.peds_view().last().path.last())
                && final(self).driving_state == old(self).driving_state
                && final(self).parking_state == old(self).parking_state,
            starts_car(map, id) && all_candidates_reachable(map, car_lane(map, id))
                && old(self).can_start_parked_car(map, seq![car_lane(map, id)]) ==> r,
            starts_car(map, id) && !r ==> (exists|g: LaneID| is_candidate(map, car_lane(map, id), g) && !map.reachable(car_lane(map, id), g))
                || !old(self).can_start_parked_car(map, seq![car_lane(map, id)]),
            starts_car(map, id) && r ==>
                final(self).driving_state.cars_view().len() == old(self).driving_state.cars_view().len() + 1
                && final(self).driving_state.cars_view().drop_last() == old(self).driving_state.cars_view()
                && map.is_path(final(self).driving_state.cars_view().last().path, car_lane(map, id),
                    final(self).driving_state.cars_view().last().path.last())
                && is_candidate(map, car_lane(map, id), final(self).driving_state.cars_view().last().path.last())
                && final(self).parking_state.spots@.len() == old(self).parking_state.spots@.len() - 1
                && old(self).parking_state.has_car(final(self).driving_state.cars_view().last().id)
                && !final(self).parking_state.has_car(final(self).driving_state.cars_view().last().id)
                && final(self).walking_state == old(self).walking_state,
    {
        let lane_type = map.get_l(id).lane_type;
        let driving_lane = match lane_type {
            LaneType::Sidewalk => {
                if let Some(path) = pick_goal_and_find_path(&mut self.rng, map, id) {
                    self.walking_state.seed_pedestrian(map, path);
                    return true;
                } else {
                    return false;
                }
            },
            LaneType::Driving => id,
            LaneType::Parking => {
                if let Some(driving) = map.find_driving_lane(id) {
                    driving
                } else {
                    return false;
                }
            },
            LaneType::Biking => {
                return false;
            },
        };
        assert(driving_lane < map.lanes@.len());
        let ghost s0 = *self;
        if let Some(path) = pick_goal_and_find_path(&mut self.rng, map, driving_lane) {
            let ghost p = path@;
            assert(p[0] == seq![driving_lane][0]);
            assert(s0.can_start_parked_car(map, p) == s0.can_start_parked_car(map, seq![driving_lane]));
            let ok = self.start_parked_car(map, path);
            assert(ok ==> self.driving_state.cars_view().last().path == p);
            return ok;
        }
        proof {
            assert(driving_lane == car_lane(map, id));
            assert(exists|g: LaneID| is_candidate(map, driving_lane, g) && !map.reachable(driving_lane, g));
            assert(!all_candidates_reachable(map, driving_lane));
        }
        false
    }
}

} // verus!
