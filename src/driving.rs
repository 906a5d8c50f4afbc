//! Cars in motion: each follows its path one lane per tick.
use vstd::prelude::*;
use crate::network::{LaneID, TurnID, RoadMap, LaneType, lanes_of_type, road_turns};
use crate::idset::{id_set, insert_id, remove_id, contains_id, sorted};
use crate::intersections::{IntersectionSimState, Tick};

verus! {

/// Identifies a car for the whole run.
pub type CarID = usize;

pub struct DrivingCar {
    pub id: CarID,
    /// The lanes still to travel; the first is the lane the car is on.
    pub path: Vec<LaneID>,
    /// The lane the car could not enter on its last step.
    pub waiting_for: Option<LaneID>,
    pub debug: bool,
}

pub struct CarView {
    pub id: CarID,
    pub path: Seq<LaneID>,
    pub waiting_for: Option<LaneID>,
    pub debug: bool,
}

impl View for DrivingCar {
    type V = CarView;

    open spec fn view(&self) -> CarView {
        CarView { id: self.id, path: self.path@, waiting_for: self.waiting_for, debug: self.debug }
    }
}

/// A turn that the state knows leads from `a` to `b`.
pub open spec fn has_turn(map: &RoadMap, turns: Seq<TurnID>, a: LaneID, b: LaneID) -> bool {
    exists|k: int| 0 <= k < turns.len() && #[trigger] turns[k] < map.turns@.len()
        && map.turns@[turns[k] as int].src == a && map.turns@[turns[k] as int].dst == b
}

/// Whether a car on `c.path` can enter its next lane this tick.
pub open spec fn can_advance(c: CarView, map: &RoadMap, lanes: Seq<LaneID>, turns: Seq<TurnID>) -> bool {
    c.path.len() > 1 && lanes.contains(c.path[1]) && has_turn(map, turns, c.path[0], c.path[1])
}

/// The car after one tick: it enters its next lane if it can, and otherwise waits for it.
/// A car on the last lane of its path stays where it is.
pub open spec fn advance(c: CarView, map: &RoadMap, lanes: Seq<LaneID>, turns: Seq<TurnID>) -> CarView {
    if c.path.len() <= 1 {
        c
    } else if can_advance(c, map, lanes, turns) {
        CarView { path: c.path.subrange(1, c.path.len() as int), waiting_for: None, ..c }
    } else {
        CarView { waiting_for: Some(c.path[1]), ..c }
    }
}

/// The lanes that the cars of `cars` enter in one tick, in order.
pub open spec fn entries(cars: Seq<CarView>, map: &RoadMap, lanes: Seq<LaneID>, turns: Seq<TurnID>) -> Seq<LaneID>
    decreases cars.len(),
{
    if cars.len() == 0 {
        Seq::empty()
    } else {
        let c = cars.last();
        let rest = entries(cars.drop_last(), map, lanes, turns);
        if can_advance(c, map, lanes, turns) {
            rest.push(c.path[1])
        } else {
            rest
        }
    }
}

pub struct DrivingSimState {
    pub cars: Vec<DrivingCar>,
    /// The driving lanes this state serves.
    pub lanes: Vec<LaneID>,
    /// The turns between driving lanes this state serves.
    pub turns: Vec<TurnID>,
}

impl DrivingSimState {
    pub open spec fn cars_view(&self) -> Seq<CarView> {
        self.cars@.map_values(|c: DrivingCar| c@)
    }

    pub open spec fn has_car(&self, c: CarID) -> bool {
        exists|i: int| 0 <= i < self.cars@.len() && (#[trigger] self.cars@[i]).id == c
    }

    /// Some car stands on lane `l`.
    pub open spec fn occupied(&self, l: LaneID) -> bool {
        exists|i: int| 0 <= i < self.cars@.len() && (#[trigger] self.cars@[i]).path@[0] == l
    }

    pub open spec fn wf(&self) -> bool {
        &&& self.lanes@.no_duplicates()
        &&& self.turns@.no_duplicates()
        &&& sorted(self.lanes@)
        &&& sorted(self.turns@)
        &&& forall|i: int, j: int| 0 <= i < j < self.cars@.len() ==> (#[trigger] self.cars@[i]).id != (#[trigger] self.cars@[j]).id
        &&& forall|i: int| 0 <= i < self.cars@.len() ==> (#[trigger] self.cars@[i]).path@.len() >= 1
    }

    /// A state serving no lane and no turn, with no car.
    pub fn empty() -> (r: DrivingSimState)
        ensures
            r.wf(),
            r.cars@.len() == 0,
            r.lanes@.len() == 0,
            r.turns@.len() == 0,
    {
        DrivingSimState { cars: Vec::new(), lanes: Vec::new(), turns: Vec::new() }
    }

    /// A state serving every driving lane of `map` and every turn not between sidewalks.
    pub fn new(map: &RoadMap) -> (r: DrivingSimState)
        requires
            map.wf(),
        ensures
            r.wf(),
            r.cars@.len() == 0,
            forall|l: LaneID| #[trigger] id_set(r.lanes@).contains(l) <==> l < map.lanes@.len()
                && map.lanes@[l as int].lane_type == LaneType::Driving,
            forall|t: TurnID| #[trigger] id_set(r.turns@).contains(t) <==> t < map.turns@.len()
                && !map.turns@[t as int].between_sidewalks,
            r.lanes@ == lanes_of_type(map.lanes@, LaneType::Driving),
            r.turns@ == road_turns(map.turns@),
    {
        let mut s = DrivingSimState::empty();
        let mut i: usize = 0;
        while i < map.lanes.len()
            invariant
                map.wf(),
                i <= map.lanes@.len(),
                s.wf(),
                s.cars@.len() == 0,
                s.turns@.len() == 0,
                forall|l: LaneID| #[trigger] id_set(s.lanes@).contains(l) <==> l < i
                    && map.lanes@[l as int].lane_type == LaneType::Driving,
                s.lanes@ == lanes_of_type(map.lanes@.subrange(0, i as int), LaneType::Driving),
            decreases map.lanes@.len() - i,
        {
            assert(map.lanes@.subrange(0, i as int + 1).drop_last() =~= map.lanes@.subrange(0, i as int));
            if map.lanes[i].lane_type == LaneType::Driving {
                assert(!id_set(s.lanes@).contains(i));
                assert forall|k: int| 0 <= k < s.lanes@.len() implies s.lanes@[k] < i by {
                    assert(s.lanes@.contains(s.lanes@[k]));
                    assert(id_set(s.lanes@).contains(s.lanes@[k]));
                }
                s.edit_add_lane(i);
            }
            i = i + 1;
        }
        assert(map.lanes@.subrange(0, map.lanes@.len() as int) =~= map.lanes@);
        let mut k: usize = 0;
        while k < map.turns.len()
            invariant
                map.wf(),
                k <= map.turns@.len(),
                s.wf(),
                s.cars@.len() == 0,
                forall|l: LaneID| #[trigger] id_set(s.lanes@).contains(l) <==> l < map.lanes@.len()
                    && map.lanes@[l as int].lane_type == LaneType::Driving,
                forall|t: TurnID| #[trigger] id_set(s.turns@).contains(t) <==> t < k
                    && !map.turns@[t as int].between_sidewalks,
                s.lanes@ == lanes_of_type(map.lanes@, LaneType::Driving),
                s.turns@ == road_turns(map.turns@.subrange(0, k as int)),
            decreases map.turns@.len() - k,
        {
            assert(map.turns@.subrange(0, k as int + 1).drop_last() =~= map.turns@.subrange(0, k as int));
            if !map.turns[k].between_sidewalks {
                assert(!id_set(s.turns@).contains(k));
                assert forall|j: int| 0 <= j < s.turns@.len() implies s.turns@[j] < k by {
                    assert(s.turns@.contains(s.turns@[j]));
                    assert(id_set(s.turns@).contains(s.turns@[j]));
                }
                s.edit_add_turn(k);
            }
            k = k + 1;
        }
        assert(map.turns@.subrange(0, map.turns@.len() as int) =~= map.turns@);
        s
    }

    pub fn edit_add_lane(&mut self, l: LaneID)
        requires
            old(self).wf(),
        ensures
            final(self).wf(),
            id_set(final(self).lanes@) == id_set(old(self).lanes@).insert(l),
            !old(self).lanes@.contains(l) && (forall|k: int| 0 <= k < old(self).lanes@.len() ==> old(self).lanes@[k] < l)
                ==> final(self).lanes@ == old(self).lanes@.push(l),
            final(self).turns@ == old(self).turns@,
            final(self).cars@ == old(self).cars@,
    {
        insert_id(&mut self.lanes, l);
    }

    pub fn edit_remove_lane(&mut self, l: LaneID)
        requires
            old(self).wf(),
        ensures
            final(self).wf(),
            id_set(final(self).lanes@) == id_set(old(self).lanes@).remove(l),
            final(self).turns@ == old(self).turns@,
            final(self).cars@ == old(self).cars@,
    {
        remove_id(&mut self.lanes, l);
    }

    pub fn edit_add_turn(&mut self, t: TurnID)
        requires
            old(self).wf(),
        ensures
            final(self).wf(),
            id_set(final(self).turns@) == id_set(old(self).turns@).insert(t),
            !old(self).turns@.contains(t) && (forall|k: int| 0 <= k < old(self).turns@.len() ==> old(self).turns@[k] < t)
                ==> final(self).turns@ == old(self).turns@.push(t),
            final(self).lanes@ == old(self).lanes@,
            final(self).cars@ == old(self).cars@,
    {
        insert_id(&mut self.turns, t);
    }

    pub fn edit_remove_turn(&mut self, t: TurnID)
        requires
            old(self).wf(),
        ensures
            final(self).wf(),
            id_set(final(self).turns@) == id_set(old(self).turns@).remove(t),
            final(self).lanes@ == old(self).lanes@,
            final(self).cars@ == old(self).cars@,
    {
        remove_id(&mut self.turns, t);
    }

    /// The index of car `c`, if this state holds it.
    pub fn find_car(&self, c: CarID) -> (r: Option<usize>)
        ensures
            r.is_none() <==> !self.has_car(c),
            r.is_some() ==> r.unwrap() < self.cars@.len() && self.cars@[r.unwrap() as int].id == c,
    {
        let mut i: usize = 0;
        while i < self.cars.len()
            invariant
                i <= self.cars@.len(),
                forall|k: int| 0 <= k < i ==> (#[trigger] self.cars@[k]).id != c,
            decreases self.cars@.len() - i,
        {
            if self.cars[i].id == c {
                return Some(i);
            }
            i = i + 1;
        }
        None
    }

    /// Whether some car stands on lane `l`.
    pub fn is_occupied(&self, l: LaneID) -> (r: bool)
        requires
            self.wf(),
        ensures
            r == self.occupied(l),
    {
        let mut i: usize = 0;
        while i < self.cars.len()
            invariant
                self.wf(),
                i <= self.cars@.len(),
                forall|k: int| 0 <= k < i ==> (#[trigger] self.cars@[k]).path@[0] != l,
            decreases self.cars@.len() - i,
        {
            if self.cars[i].path[0] == l {
                return true;
            }
            i = i + 1;
        }
        false
    }

    /// The lanes this state serves on which no car stands, in the order the state keeps them.
    pub fn get_empty_lanes(&self) -> (r: Vec<LaneID>)
        requires
            self.wf(),
        ensures
            r@.no_duplicates(),
            forall|l: LaneID| #[trigger] r@.contains(l) <==> self.lanes@.contains(l) && !self.occupied(l),
    {
        let mut out: Vec<LaneID> = Vec::new();
        let mut i: usize = 0;
        while i < self.lanes.len()
            invariant
                self.wf(),
                i <= self.lanes@.len(),
                out@.no_duplicates(),
                forall|l: LaneID| #[trigger] out@.contains(l) <==> (exists|k: int| 0 <= k < i && self.lanes@[k] == l)
                    && !self.occupied(l),
            decreases self.lanes@.len() - i,
        {
            let l = self.lanes[i];
            if !self.is_occupied(l) {
                let ghost prev = out@;
                proof {
                    assert(!prev.contains(l)) by {
                        if prev.contains(l) {
                            let k = choose|k: int| 0 <= k < i && self.lanes@[k] == l;
                            assert(self.lanes@[k] == self.lanes@[i as int]);
                        }
                    }
                }
                out.push(l);
                proof {
                    assert forall|z: LaneID| #[trigger] out@.contains(z) <==> prev.contains(z) || z == l by {
                        if out@.contains(z) {
                            let j = choose|j: int| 0 <= j < out@.len() && out@[j] == z;
                            if j < prev.len() {
                                assert(prev[j] == z);
                            }
                        }
                        if prev.contains(z) {
                            let j = choose|j: int| 0 <= j < prev.len() && prev[j] == z;
                            assert(out@[j] == z);
                        }
                        if z == l {
                            assert(out@[prev.len() as int] == z);
                        }
                    }
                    assert forall|a: int, b: int| 0 <= a < b < out@.len() implies out@[a] != out@[b] by {
                        if b == out@.len() - 1 {
                            assert(prev[a] == out@[a]);
                            assert(prev.contains(out@[a]));
                        }
                    }
                }
            }
            proof {
                assert forall|z: LaneID| #[trigger] out@.contains(z) <==> (exists|k: int| 0 <= k < i + 1 && self.lanes@[k] == z)
                    && !self.occupied(z) by {
                    if exists|k: int| 0 <= k < i + 1 && self.lanes@[k] == z {
                        let k = choose|k: int| 0 <= k < i + 1 && self.lanes@[k] == z;
                        if k == i {
                            assert(z == l);
                        }
                    }
                }
            }
            i = i + 1;
        }
        proof {
            assert forall|z: LaneID| self.lanes@.contains(z) implies exists|k: int| 0 <= k < i && self.lanes@[k] == z by {
                let k = choose|k: int| 0 <= k < self.lanes@.len() && self.lanes@[k] == z;
                assert(self.lanes@[k] == z);
            }
        }
        out
    }
}

impl DrivingSimState {
    /// Hands car `car` the route `path` and starts it on the path's first lane. The start
    /// is refused when that lane is not served, a car already stands on it, or the car
    /// is already moving.
    pub fn start_car_on_lane(&mut self, time: Tick, car: CarID, path: Vec<LaneID>) -> (r: bool)
        requires
            old(self).wf(),
            path@.len() >= 1,
        ensures
            final(self).wf(),
            r == (old(self).lanes@.contains(path@[0]) && !old(self).occupied(path@[0]) && !old(self).has_car(car)),
            r ==> final(self).cars_view() == old(self).cars_view().push(
                CarView { id: car, path: path@, waiting_for: None, debug: false },
            ),
            !r ==> final(self).cars@ == old(self).cars@,
            final(self).lanes@ == old(self).lanes@,
            final(self).turns@ == old(self).turns@,
    {
        let first = path[0];
        if !contains_id(&self.lanes, first) || self.is_occupied(first) || self.find_car(car).is_some() {
            return false;
        }
        let ghost prev = self.cars@;
        self.cars.push(DrivingCar { id: car, path, waiting_for: None, debug: false });
        proof {
            assert forall|i: int, j: int| 0 <= i < j < self.cars@.len() implies (#[trigger] self.cars@[i]).id != (#[trigger] self.cars@[j]).id by {
                if j == self.cars@.len() - 1 {
                    assert(prev[i] == self.cars@[i]);
                }
            }
            assert(self.cars_view() =~= old(self).cars_view().push(
                CarView { id: car, path: path@, waiting_for: None, debug: false },
            ));
        }
        true
    }

    /// Whether the car at index `i` can enter its next lane.
    #[verifier::loop_isolation(false)]
    fn can_move(&self, i: usize, map: &RoadMap) -> (r: bool)
        requires
            self.wf(),
            i < self.cars@.len(),
        ensures
            r == can_advance(self.cars@[i as int]@, map, self.lanes@, self.turns@),
    {
        let path = &self.cars[i].path;
        if path.len() <= 1 {
            return false;
        }
        let a = path[0];
        let b = path[1];
        if !contains_id(&self.lanes, b) {
            return false;
        }
        let mut k: usize = 0;
        while k < self.turns.len()
            invariant
                k <= self.turns@.len(),
                forall|j: int| 0 <= j < k ==> !(#[trigger] self.turns@[j] < map.turns@.len()
                    && map.turns@[self.turns@[j] as int].src == a && map.turns@[self.turns@[j] as int].dst == b),
            decreases self.turns@.len() - k,
        {
            let t = self.turns[k];
            if t < map.turns.len() && map.turns[t].src == a && map.turns[t].dst == b {
                return true;
            }
            k = k + 1;
        }
        false
    }

    /// Moves every car one tick along its path, posting each lane entered to the
    /// intersections, in the order the cars are kept.
    pub fn step(&mut self, time: Tick, map: &RoadMap, intersections: &mut IntersectionSimState)
        requires
            old(self).wf(),
        ensures
            final(self).wf(),
            final(self).cars_view().len() == old(self).cars_view().len(),
            forall|i: int| 0 <= i < old(self).cars_view().len() ==> #[trigger] final(self).cars_view()[i]
                == advance(old(self).cars_view()[i], map, old(self).lanes@, old(self).turns@),
            final(self).lanes@ == old(self).lanes@,
            final(self).turns@ == old(self).turns@,
            final(intersections).requests@ == old(intersections).requests@
                + entries(old(self).cars_view(), map, old(self).lanes@, old(self).turns@),
            final(intersections).last_served == old(intersections).last_served,
    {
        let ghost start = self.cars_view();
        let ghost lanes = self.lanes@;
        let ghost turns = self.turns@;
        let mut i: usize = 0;
        while i < self.cars.len()
            invariant
                self.wf(),
                i <= self.cars@.len(),
                self.cars@.len() == start.len(),
                self.lanes@ == lanes,
                self.turns@ == turns,
                forall|k: int| 0 <= k < i ==> #[trigger] self.cars_view()[k] == advance(start[k], map, lanes, turns),
                forall|k: int| i <= k < start.len() ==> #[trigger] self.cars_view()[k] == start[k],
                intersections.requests@ == old(intersections).requests@ + entries(start.subrange(0, i as int), map, lanes, turns),
                intersections.last_served == old(intersections).last_served,
            decreases start.len() - i,
        {
            let ghost cv = self.cars_view();
            assert(cv[i as int] == start[i as int]);
            let ghost before = self.cars@;
            let movable = self.can_move(i, map);
            assert(start.subrange(0, i as int + 1).drop_last() =~= start.subrange(0, i as int));
            if self.cars[i].path.len() > 1 {
                let id = self.cars[i].id;
                let debug = self.cars[i].debug;
                if movable {
                    let mut p = self.cars[i].path.clone();
                    assert(p@ =~= self.cars@[i as int].path@);
                    let next = p[1];
                    p.remove(0);
                    intersections.post(next);
                    self.cars.set(i, DrivingCar { id, path: p, waiting_for: None, debug });
                    assert(self.cars@[i as int]@.path =~= start[i as int].path.subrange(1, start[i as int].path.len() as int));
                } else {
                    let p = self.cars[i].path.clone();
                    assert(p@ =~= self.cars@[i as int].path@);
                    let next = p[1];
                    self.cars.set(i, DrivingCar { id, path: p, waiting_for: Some(next), debug });
                }
                proof {
                    assert forall|a: int, b: int| 0 <= a < b < self.cars@.len() implies (#[trigger] self.cars@[a]).id != (#[trigger] self.cars@[b]).id by {
                        assert(self.cars@[a].id == before[a].id);
                        assert(self.cars@[b].id == before[b].id);
                    }
                    assert forall|k: int| 0 <= k < self.cars@.len() implies (#[trigger] self.cars@[k]).path@.len() >= 1 by {
                        if k != i {
                            assert(self.cars@[k] == before[k]);
                        }
                    }
                    assert forall|k: int| 0 <= k < start.len() && k != i implies #[trigger] self.cars_view()[k] == cv[k] by {
                        assert(self.cars@[k] == before[k]);
                    }
                }
            }
            i = i + 1;
        }
        assert(start.subrange(0, start.len() as int) =~= start);
    }
}

impl DrivingSimState {
    /// Sets the debug flag of the car at index `i`.
    pub fn set_debug(&mut self, i: usize, flag: bool)
        requires
            old(self).wf(),
            i < old(self).cars@.len(),
        ensures
            final(self).wf(),
            final(self).cars_view() == old(self).cars_view().update(i as int, CarView { debug: flag, ..old(self).cars_view()[i as int] }),
            final(self).cars@.len() == old(self).cars@.len(),
            forall|k: int| 0 <= k < old(self).cars@.len() ==> (#[trigger] final(self).cars@[k]).id == old(self).cars@[k].id,
            forall|c: CarID| #[trigger] final(self).has_car(c) <==> old(self).has_car(c),
            final(self).lanes@ == old(self).lanes@,
            final(self).turns@ == old(self).turns@,
    {
        let ghost before = self.cars@;
        let id = self.cars[i].id;
        let waiting_for = self.cars[i].waiting_for;
        let path = self.cars[i].path.clone();
        assert(path@ =~= self.cars@[i as int].path@);
        self.cars.set(i, DrivingCar { id, path, waiting_for, debug: flag });
        proof {
            assert forall|a: int, b: int| 0 <= a < b < self.cars@.len() implies (#[trigger] self.cars@[a]).id != (#[trigger] self.cars@[b]).id by {
                assert(self.cars@[a].id == before[a].id);
                assert(self.cars@[b].id == before[b].id);
            }
            assert forall|k: int| 0 <= k < self.cars@.len() implies (#[trigger] self.cars@[k]).path@.len() >= 1 by {
                if k != i {
                    assert(self.cars@[k] == before[k]);
                }
            }
            assert(self.cars_view() =~= old(self).cars_view().update(i as int, CarView { debug: flag, ..old(self).cars_view()[i as int] }));
            assert forall|k: int| 0 <= k < old(self).cars@.len() implies (#[trigger] self.cars@[k]).id == old(self).cars@[k].id by {
                if k != i {
                    assert(self.cars@[k] == before[k]);
                }
            }
            assert forall|c: CarID| #[trigger] self.has_car(c) <==> old(self).has_car(c) by {
                if self.has_car(c) {
                    let j = choose|j: int| 0 <= j < self.cars@.len() && (#[trigger] self.cars@[j]).id == c;
                    assert(old(self).cars@[j].id == c);
                }
                if old(self).has_car(c) {
                    let j = choose|j: int| 0 <= j < old(self).cars@.len() && (#[trigger] old(self).cars@[j]).id == c;
                    assert(self.cars@[j].id == c);
                }
            }
        }
    }
}

} // verus!
