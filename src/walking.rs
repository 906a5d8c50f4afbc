//! Pedestrians: each walks its path one sidewalk per tick.
use vstd::prelude::*;
use crate::network::{LaneID, TurnID, RoadMap};
use crate::idset::{id_set, insert_id, remove_id, contains_id, sorted};
use crate::intersections::{IntersectionSimState, Tick};

verus! {

/// Identifies a pedestrian for the whole run.
pub type PedestrianID = usize;

pub struct Pedestrian {
    pub id: PedestrianID,
    /// The lanes still to walk; the first is the lane the pedestrian is on.
    pub path: Vec<LaneID>,
}

pub struct PedView {
    pub id: PedestrianID,
    pub path: Seq<LaneID>,
}

impl View for Pedestrian {
    type V = PedView;

    open spec fn view(&self) -> PedView {
        PedView { id: self.id, path: self.path@ }
    }
}

/// A turn of the map, not closed, leads from `a` to `b`.
pub open spec fn open_turn(map: &RoadMap, closed_turns: Seq<TurnID>, a: LaneID, b: LaneID) -> bool {
    exists|k: int| 0 <= k < map.turns@.len() && (#[trigger] map.turns@[k]).src == a && map.turns@[k].dst == b
        && !closed_turns.contains(k as TurnID)
}

pub open spec fn can_walk(p: PedView, map: &RoadMap, closed_lanes: Seq<LaneID>, closed_turns: Seq<TurnID>) -> bool {
    p.path.len() > 1 && !closed_lanes.contains(p.path[1]) && open_turn(map, closed_turns, p.path[0], p.path[1])
}

/// The pedestrian after one tick: on to the next lane if the way is open, else in place.
pub open spec fn walk(p: PedView, map: &RoadMap, closed_lanes: Seq<LaneID>, closed_turns: Seq<TurnID>) -> PedView {
    if can_walk(p, map, closed_lanes, closed_turns) {
        PedView { path: p.path.subrange(1, p.path.len() as int), ..p }
    } else {
        p
    }
}

/// The lanes that the pedestrians of `peds` enter in one tick, in order.
pub open spec fn walk_entries(peds: Seq<PedView>, map: &RoadMap, closed_lanes: Seq<LaneID>, closed_turns: Seq<TurnID>) -> Seq<LaneID>
    decreases peds.len(),
{
    if peds.len() == 0 {
        Seq::empty()
    } else {
        let p = peds.last();
        let rest = walk_entries(peds.drop_last(), map, closed_lanes, closed_turns);
        if can_walk(p, map, closed_lanes, closed_turns) {
            rest.push(p.path[1])
        } else {
            rest
        }
    }
}

pub struct WalkingSimState {
    /// Pedestrian `i` is stored at index `i`.
    pub peds: Vec<Pedestrian>,
    /// Sidewalks taken out by edits.
    pub closed_lanes: Vec<LaneID>,
    /// Turns between sidewalks taken out by edits.
    pub closed_turns: Vec<TurnID>,
}

impl WalkingSimState {
    pub open spec fn peds_view(&self) -> Seq<PedView> {
        self.peds@.map_values(|p: Pedestrian| p@)
    }

    pub open spec fn wf(&self) -> bool {
        &&& self.closed_lanes@.no_duplicates()
        &&& self.closed_turns@.no_duplicates()
        &&& sorted(self.closed_lanes@)
        &&& sorted(self.closed_turns@)
        &&& forall|i: int| 0 <= i < self.peds@.len() ==> (#[trigger] self.peds@[i]).id == i && self.peds@[i].path@.len() >= 1
    }

    /// A state with no pedestrian, where every sidewalk and turn is open.
    pub fn new() -> (r: WalkingSimState)
        ensures
            r.wf(),
            r.peds@.len() == 0,
            r.closed_lanes@.len() == 0,
            r.closed_turns@.len() == 0,
    {
        WalkingSimState { peds: Vec::new(), closed_lanes: Vec::new(), closed_turns: Vec::new() }
    }

    pub fn edit_add_lane(&mut self, l: LaneID)
        requires
            old(self).wf(),
        ensures
            final(self).wf(),
            id_set(final(self).closed_lanes@) == id_set(old(self).closed_lanes@).remove(l),
            final(self).closed_turns@ == old(self).closed_turns@,
            final(self).peds@ == old(self).peds@,
    {
        remove_id(&mut self.closed_lanes, l);
    }

    pub fn edit_remove_lane(&mut self, l: LaneID)
        requires
            old(self).wf(),
        ensures
            final(self).wf(),
            id_set(final(self).closed_lanes@) == id_set(old(self).closed_lanes@).insert(l),
            final(self).closed_turns@ == old(self).closed_turns@,
            final(self).peds@ == old(self).peds@,
    {
        insert_id(&mut self.closed_lanes, l);
    }

    pub fn edit_add_turn(&mut self, t: TurnID)
        requires
            old(self).wf(),
        ensures
            final(self).wf(),
            id_set(final(self).closed_turns@) == id_set(old(self).closed_turns@).remove(t),
            final(self).closed_lanes@ == old(self).closed_lanes@,
            final(self).peds@ == old(self).peds@,
    {
        remove_id(&mut self.closed_turns, t);
    }

    pub fn edit_remove_turn(&mut self, t: TurnID)
        requires
            old(self).wf(),
        ensures
            final(self).wf(),
            id_set(final(self).closed_turns@) == id_set(old(self).closed_turns@).insert(t),
            final(self).closed_lanes@ == old(self).closed_lanes@,
            final(self).peds@ == old(self).peds@,
    {
        insert_id(&mut self.closed_turns, t);
    }

    /// Adds a pedestrian on the first lane of `path`, to walk it; returns its id.
    pub fn seed_pedestrian(&mut self, map: &RoadMap, path: Vec<LaneID>) -> (r: PedestrianID)
        requires
            old(self).wf(),
            path@.len() >= 1,
        ensures
            final(self).wf(),
            r == old(self).peds@.len(),
            final(self).peds_view() == old(self).peds_view().push(PedView { id: r, path: path@ }),
            final(self).closed_lanes@ == old(self).closed_lanes@,
            final(self).closed_turns@ == old(self).closed_turns@,
    {
        let id = self.peds.len();
        self.peds.push(Pedestrian { id, path });
        assert(self.peds_view() =~= old(self).peds_view().push(PedView { id, path: path@ }));
        id
    }

    /// How many pedestrians the state holds.
    pub fn total_count(&self) -> (r: usize)
        ensures
            r == self.peds@.len(),
    {
        self.peds.len()
    }

    #[verifier::loop_isolation(false)]
    fn can_move(&self, i: usize, map: &RoadMap) -> (r: bool)
        requires
            self.wf(),
            i < self.peds@.len(),
        ensures
            r == can_walk(self.peds@[i as int]@, map, self.closed_lanes@, self.closed_turns@),
    {
        let path = &self.peds[i].path;
        if path.len() <= 1 {
            return false;
        }
        let a = path[0];
        let b = path[1];
        if contains_id(&self.closed_lanes, b) {
            return false;
        }
        let mut k: usize = 0;
        while k < map.turns.len()
            invariant
                k <= map.turns@.len(),
                forall|j: int| 0 <= j < k ==> !((#[trigger] map.turns@[j]).src == a && map.turns@[j].dst == b
                    && !self.closed_turns@.contains(j as TurnID)),
            decreases map.turns@.len() - k,
        {
            if map.turns[k].src == a && map.turns[k].dst == b && !contains_id(&self.closed_turns, k) {
                return true;
            }
            k = k + 1;
        }
        false
    }

    /// Moves every pedestrian one tick along its path, posting each lane entered to
    /// the intersections, in the order the pedestrians are kept.
    pub fn step(&mut self, time: Tick, map: &RoadMap, intersections: &mut IntersectionSimState)
        requires
            old(self).wf(),
        ensures
            final(self).wf(),
            final(self).peds_view().len() == old(self).peds_view().len(),
            forall|i: int| 0 <= i < old(self).peds_view().len() ==> #[trigger] final(self).peds_view()[i]
                == walk(old(self).peds_view()[i], map, old(self).closed_lanes@, old(self).closed_turns@),
            final(self).closed_lanes@ == old(self).closed_lanes@,
            final(self).closed_turns@ == old(self).closed_turns@,
            final(intersections).requests@ == old(intersections).requests@
                + walk_entries(old(self).peds_view(), map, old(self).closed_lanes@, old(self).closed_turns@),
            final(intersections).last_served == old(intersections).last_served,
    {
        let ghost start = self.peds_view();
        let ghost cl = self.closed_lanes@;
        let ghost ct = self.closed_turns@;
        let mut i: usize = 0;
        while i < self.peds.len()
            invariant
                self.wf(),
                i <= self.peds@.len(),
                self.peds@.len() == start.len(),
                self.closed_lanes@ == cl,
                self.closed_turns@ == ct,
                forall|k: int| 0 <= k < i ==> #[trigger] self.peds_view()[k] == walk(start[k], map, cl, ct),
                forall|k: int| i <= k < start.len() ==> #[trigger] self.peds_view()[k] == start[k],
                intersections.requests@ == old(intersections).requests@ + walk_entries(start.subrange(0, i as int), map, cl, ct),
                intersections.last_served == old(intersections).last_served,
            decreases start.len() - i,
        {
            let ghost pv = self.peds_view();
            assert(pv[i as int] == start[i as int]);
            let ghost before = self.peds@;
            let movable = self.can_move(i, map);
            assert(start.subrange(0, i as int + 1).drop_last() =~= start.subrange(0, i as int));
            if movable {
                let id = self.peds[i].id;
                let mut p = self.peds[i].path.clone();
                assert(p@ =~= self.peds@[i as int].path@);
                let next = p[1];
                p.remove(0);
                intersections.post(next);
                self.peds.set(i, Pedestrian { id, path: p });
                assert(self.peds@[i as int]@.path =~= start[i as int].path.subrange(1, start[i as int].path.len() as int));
                proof {
                    assert forall|k: int| 0 <= k < self.peds@.len() implies (#[trigger] self.peds@[k]).id == k && self.peds@[k].path@.len() >= 1 by {
                        if k != i {
                            assert(self.peds@[k] == before[k]);
                        }
                    }
                    assert forall|k: int| 0 <= k < start.len() && k != i implies #[trigger] self.peds_view()[k] == pv[k] by {
                        assert(self.peds@[k] == before[k]);
                    }
                }
            }
            i = i + 1;
        }
        assert(start.subrange(0, start.len() as int) =~= start);
    }
}

} // verus!
