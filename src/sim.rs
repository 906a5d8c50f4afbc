//! The simulation orchestrator: it owns the random stream, the clock, the car id
//! counter and the four sub-simulators, and routes every command to them.
use vstd::prelude::*;
use rand::XorShiftRng;
use crate::network::{LaneID, LaneType, RoadMap, Turn, lanes_of_type, road_turns};
use crate::idset::{id_set, contains_id, lemma_sorted_unique};
use crate::driving::{CarID, CarView, DrivingCar, DrivingSimState, advance, entries};
use crate::parking::ParkingSimState;
use crate::walking::{WalkingSimState, walk, walk_entries};
use crate::intersections::{IntersectionSimState, Tick};
use crate::rng::{rng_from_seed, rng_from_entropy, seeded_rng};

verus! {

#[derive(Clone, Copy, PartialEq, Eq, Structural, Debug)]
pub enum CarState {
    Moving,
    Stuck,
    Parked,
}

/// The aggregate root of a run. Two simulations are compared by everything but the
/// random stream's cursor (see `same_world`).
pub struct Sim {
    /// The single random stream; every random choice of a spawn draws from it.
    pub rng: XorShiftRng,
    pub time: Tick,
    /// The id the next new car takes.
    pub car_id_counter: usize,
    /// The car last chosen for debugging.
    pub debug: Option<CarID>,
    pub intersection_state: IntersectionSimState,
    pub driving_state: DrivingSimState,
    pub parking_state: ParkingSimState,
    pub walking_state: WalkingSimState,
}

/// A lane set after a lane of `kind` changed from `old_type` to `new_type`: the lane
/// leaves the set if it was of that kind and joins it if it now is.
pub open spec fn retyped(s: Set<LaneID>, id: LaneID, old_type: LaneType, new_type: LaneType, kind: LaneType) -> Set<LaneID> {
    let left = if old_type == kind { s.remove(id) } else { s };
    if new_type == kind { left.insert(id) } else { left }
}

impl Sim {
    /// No car is both moving and parked, and every car id was handed out by the
    /// counter.
    pub open spec fn owns_cars_exclusively(&self) -> bool {
        &&& forall|c: CarID| #[trigger] self.driving_state.has_car(c) ==> c < self.car_id_counter
            && !self.parking_state.has_car(c)
        &&& forall|c: CarID| #[trigger] self.parking_state.has_car(c) ==> c < self.car_id_counter
    }

    pub open spec fn wf(&self) -> bool {
        &&& self.driving_state.wf()
        &&& self.parking_state.wf()
        &&& self.walking_state.wf()
        &&& self.owns_cars_exclusively()
    }

    /// The classification of car `c`.
    pub open spec fn car_state_of(&self, c: CarID) -> CarState {
        if exists|i: int| 0 <= i < self.driving_state.cars_view().len() && (#[trigger] self.driving_state.cars_view()[i]).id == c
            && self.driving_state.cars_view()[i].waiting_for.is_none() {
            CarState::Moving
        } else if exists|i: int| 0 <= i < self.driving_state.cars_view().len() && (#[trigger] self.driving_state.cars_view()[i]).id == c {
            CarState::Stuck
        } else {
            CarState::Parked
        }
    }

    /// A simulation of `map` at tick zero with no agent. The random stream is seeded
    /// with `rng_seed` when one is given, and from the operating system otherwise.
    pub fn new(map: &RoadMap, rng_seed: Option<u8>) -> (s: Sim)
        requires
            map.wf(),
        ensures
            s.wf(),
            s.time == 0,
            s.car_id_counter == 0,
            s.debug.is_none(),
            s.driving_state.cars@.len() == 0,
            s.parking_state.spots@.len() == 0,
            s.walking_state.peds@.len() == 0,
            s.intersection_state.requests@.len() == 0,
            s.intersection_state.last_served == 0,
            s.walking_state.closed_lanes@.len() == 0,
            s.walking_state.closed_turns@.len() == 0,
            s.driving_state.lanes@ == lanes_of_type(map.lanes@, LaneType::Driving),
            s.driving_state.turns@ == road_turns(map.turns@),
            s.parking_state.lanes@ == lanes_of_type(map.lanes@, LaneType::Parking),
            rng_seed.is_some() ==> s.rng == seeded_rng(rng_seed.unwrap()),
            forall|l: LaneID| #[trigger] id_set(s.driving_state.lanes@).contains(l) <==> l < map.lanes@.len()
                && map.lanes@[l as int].lane_type == LaneType::Driving,
            forall|l: LaneID| #[trigger] id_set(s.parking_state.lanes@).contains(l) <==> l < map.lanes@.len()
                && map.lanes@[l as int].lane_type == LaneType::Parking,
    {
        let rng = match rng_seed {
            Some(seed) => rng_from_seed(seed),
            None => rng_from_entropy(),
        };
        Sim {
            rng,
            intersection_state: IntersectionSimState::new(),
            driving_state: DrivingSimState::new(map),
            parking_state: ParkingSimState::new(map),
            walking_state: WalkingSimState::new(),
            time: 0,
            car_id_counter: 0,
            debug: None,
        }
    }

    /// What `edit_lane_type` does: lane `id` changed from `old_type` to `new_type`.
    pub open spec fn lane_edited(&self, next: &Sim, id: LaneID, old_type: LaneType, new_type: LaneType) -> bool {
        &&& id_set(next.driving_state.lanes@) == retyped(id_set(self.driving_state.lanes@), id, old_type, new_type, LaneType::Driving)
        &&& id_set(next.parking_state.lanes@) == retyped(id_set(self.parking_state.lanes@), id, old_type, new_type, LaneType::Parking)
        &&& id_set(next.walking_state.closed_lanes@).complement() == retyped(
            id_set(self.walking_state.closed_lanes@).complement(), id, old_type, new_type, LaneType::Sidewalk)
        &&& next.driving_state.cars@ == self.driving_state.cars@
        &&& next.driving_state.turns@ == self.driving_state.turns@
        &&& next.walking_state.peds@ == self.walking_state.peds@
        &&& next.walking_state.closed_turns@ == self.walking_state.closed_turns@
        &&& old_type != LaneType::Parking ==> next.parking_state.spots@ == self.parking_state.spots@
        &&& old_type == LaneType::Parking ==> forall|p: (LaneID, CarID)| #[trigger] next.parking_state.spots@.contains(p)
            <==> self.parking_state.spots@.contains(p) && p.0 != id
        &&& old_type == LaneType::Parking && (forall|k: int| 0 <= k < self.parking_state.spots@.len()
            ==> (#[trigger] self.parking_state.spots@[k]).0 != id) ==> next.parking_state.spots@ == self.parking_state.spots@
        &&& next.time == self.time
        &&& next.car_id_counter == self.car_id_counter
        &&& next.debug == self.debug
        &&& next.intersection_state == self.intersection_state
        &&& next.rng == self.rng
    }

    /// Moves lane `id` from the sub-simulator of its old type to the one of the type
    /// `map` now gives it. Biking lanes have no sub-simulator.
    pub fn edit_lane_type(&mut self, id: LaneID, old_type: LaneType, map: &RoadMap)
        requires
            old(self).wf(),
            map.wf(),
            id < map.lanes@.len(),
        ensures
            final(self).wf(),
            old(self).lane_edited(&*final(self), id, old_type, map.lanes@[id as int].lane_type),
            old_type == LaneType::Biking && map.lanes@[id as int].lane_type == LaneType::Biking ==> *final(self) == *old(self),
    {
        let ghost s0 = *self;
        match old_type {
            LaneType::Driving => self.driving_state.edit_remove_lane(id),
            LaneType::Parking => self.parking_state.edit_remove_lane(id),
            LaneType::Sidewalk => self.walking_state.edit_remove_lane(id),
            LaneType::Biking => {},
        };
        let ghost s1 = *self;
        let l = map.get_l(id);
        match l.lane_type {
            LaneType::Driving => self.driving_state.edit_add_lane(id),
            LaneType::Parking => self.parking_state.edit_add_lane(l),
            LaneType::Sidewalk => self.walking_state.edit_add_lane(id),
            LaneType::Biking => {},
        };
        proof {
            assert forall|c: CarID| #[trigger] self.parking_state.has_car(c) implies s0.parking_state.has_car(c) by {
                assert(self.parking_state.spots@ == s1.parking_state.spots@);
                assert(s1.parking_state.has_car(c));
            }
            assert forall|c: CarID| #[trigger] self.driving_state.has_car(c) implies s0.driving_state.has_car(c)
                && !self.parking_state.has_car(c) by {
                let i = choose|i: int| 0 <= i < self.driving_state.cars@.len() && (#[trigger] self.driving_state.cars@[i]).id == c;
                assert(s0.driving_state.cars@[i].id == c);
                assert(s0.driving_state.has_car(c));
                if self.parking_state.has_car(c) {
                    assert(s0.parking_state.has_car(c));
                }
            }
            assert(id_set(self.walking_state.closed_lanes@).complement() =~= retyped(
                id_set(s0.walking_state.closed_lanes@).complement(), id, old_type, l.lane_type, LaneType::Sidewalk));
        }
    }

    /// Takes turn `t` out of the sub-simulator that serves it.
    pub fn edit_remove_turn(&mut self, t: &Turn)
        requires
            old(self).wf(),
        ensures
            final(self).wf(),
            t.between_sidewalks ==> id_set(final(self).walking_state.closed_turns@) == id_set(old(self).walking_state.closed_turns@).insert(t.id)
                && final(self).driving_state.turns@ == old(self).driving_state.turns@,
            !t.between_sidewalks ==> id_set(final(self).driving_state.turns@) == id_set(old(self).driving_state.turns@).remove(t.id)
                && final(self).walking_state.closed_turns@ == old(self).walking_state.closed_turns@,
            final(self).driving_state.cars@ == old(self).driving_state.cars@,
            final(self).driving_state.lanes@ == old(self).driving_state.lanes@,
            final(self).walking_state.peds@ == old(self).walking_state.peds@,
            final(self).walking_state.closed_lanes@ == old(self).walking_state.closed_lanes@,
            final(self).parking_state == old(self).parking_state,
            final(self).intersection_state == old(self).intersection_state,
            final(self).time == old(self).time,
            final(self).car_id_counter == old(self).car_id_counter,
            final(self).debug == old(self).debug,
            final(self).rng == old(self).rng,
    {
        let ghost s0 = *self;
        if t.between_sidewalks {
            self.walking_state.edit_remove_turn(t.id);
        } else {
            self.driving_state.edit_remove_turn(t.id);
        }
        proof {
            assert forall|c: CarID| #[trigger] self.driving_state.has_car(c) implies s0.driving_state.has_car(c) by {
                let i = choose|i: int| 0 <= i < self.driving_state.cars@.len() && (#[trigger] self.driving_state.cars@[i]).id == c;
                assert(s0.driving_state.cars@[i].id == c);
            }
        }
    }

    /// Hands turn `t` to the sub-simulator that serves it.
    pub fn edit_add_turn(&mut self, t: &Turn, map: &RoadMap)
        requires
            old(self).wf(),
        ensures
            final(self).wf(),
            t.between_sidewalks ==> id_set(final(self).walking_state.closed_turns@) == id_set(old(self).walking_state.closed_turns@).remove(t.id)
                && final(self).driving_state.turns@ == old(self).driving_state.turns@,
            !t.between_sidewalks ==> id_set(final(self).driving_state.turns@) == id_set(old(self).driving_state.turns@).insert(t.id)
                && final(self).walking_state.closed_turns@ == old(self).walking_state.closed_turns@,
            final(self).driving_state.cars@ == old(self).driving_state.cars@,
            final(self).driving_state.lanes@ == old(self).driving_state.lanes@,
            final(self).walking_state.peds@ == old(self).walking_state.peds@,
            final(self).walking_state.closed_lanes@ == old(self).walking_state.closed_lanes@,
            final(self).parking_state == old(self).parking_state,
            final(self).intersection_state == old(self).intersection_state,
            final(self).time == old(self).time,
            final(self).car_id_counter == old(self).car_id_counter,
            final(self).debug == old(self).debug,
            final(self).rng == old(self).rng,
    {
        let ghost s0 = *self;
        if t.between_sidewalks {
            self.walking_state.edit_add_turn(t.id);
        } else {
            self.driving_state.edit_add_turn(t.id);
        }
        proof {
            assert forall|c: CarID| #[trigger] self.driving_state.has_car(c) implies s0.driving_state.has_car(c) by {
                let i = choose|i: int| 0 <= i < self.driving_state.cars@.len() && (#[trigger] self.driving_state.cars@[i]).id == c;
                assert(s0.driving_state.cars@[i].id == c);
            }
        }
    }

    /// Parks new cars in the free spots of the parking lanes, each spot taken with
    /// probability `percent` in a hundred.
    pub fn seed_parked_cars(&mut self, percent: u8)
        requires
            old(self).wf(),
        ensures
            final(self).wf(),
            final(self).car_id_counter >= old(self).car_id_counter,
            final(self).parking_state.spots@.len() == old(self).parking_state.spots@.len()
                + (final(self).car_id_counter - old(self).car_id_counter),
            final(self).parking_state.spots@.subrange(0, old(self).parking_state.spots@.len() as int)
                == old(self).parking_state.spots@,
            forall|k: int| old(self).parking_state.spots@.len() <= k < final(self).parking_state.spots@.len() ==>
                old(self).car_id_counter <= (#[trigger] final(self).parking_state.spots@[k]).1 < final(self).car_id_counter,
            final(self).parking_state.lanes@ == old(self).parking_state.lanes@,
            final(self).driving_state == old(self).driving_state,
            final(self).walking_state == old(self).walking_state,
            final(self).intersection_state == old(self).intersection_state,
            final(self).time == old(self).time,
            final(self).debug == old(self).debug,
            percent == 0 ==> final(self).car_id_counter == old(self).car_id_counter,
    {
        let ghost s0 = *self;
        self.parking_state.seed_random_cars(&mut self.rng, percent, &mut self.car_id_counter);
        proof {
            assert forall|c: CarID| #[trigger] self.driving_state.has_car(c) implies c < self.car_id_counter
                && !self.parking_state.has_car(c) by {
                assert(s0.driving_state.has_car(c));
                if self.parking_state.has_car(c) {
                    let k = choose|k: int| 0 <= k < self.parking_state.spots@.len() && (#[trigger] self.parking_state.spots@[k]).1 == c;
                    if k < s0.parking_state.spots@.len() {
                        assert(self.parking_state.spots@.subrange(0, s0.parking_state.spots@.len() as int)[k] == s0.parking_state.spots@[k]);
                        assert(s0.parking_state.has_car(c));
                    }
                }
            }
        }
    }

    /// Classifies car `c`: parked when no car of that id moves, else stuck when it
    /// waits to enter a lane, else moving.
    pub fn get_car_state(&self, c: CarID) -> (r: CarState)
        requires
            self.driving_state.wf(),
        ensures
            r == self.car_state_of(c),
    {
        match self.driving_state.find_car(c) {
            Some(i) => {
                if self.driving_state.cars[i].waiting_for.is_none() {
                    assert(self.driving_state.cars_view()[i as int].id == c);
                    CarState::Moving
                } else {
                    proof {
                        assert forall|k: int| 0 <= k < self.driving_state.cars@.len() && (#[trigger] self.driving_state.cars@[k]).id == c
                            implies self.driving_state.cars@[k].waiting_for.is_some() by {
                            if k != i {
                                assert(self.driving_state.cars@[k].id != self.driving_state.cars@[i as int].id);
                            }
                        }
                    }
                    proof {
                        assert forall|k: int| 0 <= k < self.driving_state.cars_view().len() && (#[trigger] self.driving_state.cars_view()[k]).id == c
                            implies self.driving_state.cars_view()[k].waiting_for.is_some() by {
                            assert(self.driving_state.cars@[k].id == c);
                        }
                        assert(self.driving_state.cars_view()[i as int].id == c);
                    }
                    CarState::Stuck
                }
            },
            None => {
                proof {
                    assert forall|k: int| 0 <= k < self.driving_state.cars_view().len() implies
                        (#[trigger] self.driving_state.cars_view()[k]).id != c by {
                        assert(self.driving_state.cars@[k].id == self.driving_state.cars_view()[k].id);
                    }
                }
                CarState::Parked
            },
        }
    }
}

impl Sim {
    /// The conditions under which a parked car starts along `steps`: a parking lane
    /// serves the first lane, a car is parked there, and the driving sub-simulator
    /// has room on the first lane.
    pub open spec fn can_start_parked_car(&self, map: &RoadMap, steps: Seq<LaneID>) -> bool {
        &&& map.parking_lane_of(steps[0]).is_some()
        &&& self.parking_state.has_car_on(map.parking_lane_of(steps[0]).unwrap())
        &&& self.driving_state.lanes@.contains(steps[0])
        &&& !self.driving_state.occupied(steps[0])
    }

    /// Takes the car parked last on the parking lane that serves the first lane of
    /// `steps` and starts it along `steps`. Fails, changing nothing, when no parking
    /// lane serves that lane, no car is parked there, or the driving sub-simulator
    /// refuses the start.
    pub fn start_parked_car(&mut self, map: &RoadMap, steps: Vec<LaneID>) -> (r: bool)
        requires
            old(self).wf(),
            map.wf(),
            steps@.len() >= 1,
            steps@[0] < map.lanes@.len(),
        ensures
            final(self).wf(),
            r == old(self).can_start_parked_car(map, steps@),
            r ==> final(self).driving_state.cars_view().len() == old(self).driving_state.cars_view().len() + 1
                && final(self).driving_state.cars_view().drop_last() == old(self).driving_state.cars_view()
                && final(self).driving_state.cars_view().last().path == steps@
                && final(self).parking_state.spots@.len() == old(self).parking_state.spots@.len() - 1,
            !r ==> final(self).driving_state.cars_view() == old(self).driving_state.cars_view()
                && final(self).parking_state.spots@ == old(self).parking_state.spots@,
            final(self).driving_state.lanes@ == old(self).driving_state.lanes@,
            final(self).driving_state.turns@ == old(self).driving_state.turns@,
            final(self).parking_state.lanes@ == old(self).parking_state.lanes@,
            final(self).walking_state == old(self).walking_state,
            final(self).intersection_state == old(self).intersection_state,
            final(self).time == old(self).time,
            final(self).car_id_counter == old(self).car_id_counter,
            final(self).debug == old(self).debug,
            final(self).rng == old(self).rng,
            r ==> old(self).parking_state.is_last_on(map.parking_lane_of(steps@[0]).unwrap(),
                    Some(final(self).driving_state.cars_view().last().id))
                && old(self).parking_state.has_car(final(self).driving_state.cars_view().last().id)
                && !final(self).parking_state.has_car(final(self).driving_state.cars_view().last().id)
                && forall|c: CarID| c != final(self).driving_state.cars_view().last().id ==>
                    (#[trigger] final(self).parking_state.has_car(c) <==> old(self).parking_state.has_car(c)),
    {
        let driving_lane = steps[0];
        let ghost s0 = *self;
        if let Some(parking_lane) = map.find_parking_lane(driving_lane) {
            if let Some(car) = self.parking_state.get_last_parked_car(parking_lane) {
                proof {
                    let j = choose|j: int| 0 <= j < s0.parking_state.spots@.len() && #[trigger] s0.parking_state.spots@[j] == (parking_lane, car)
                        && forall|k: int| j < k < s0.parking_state.spots@.len() ==> (#[trigger] s0.parking_state.spots@[k]).0 != parking_lane;
                    assert(s0.parking_state.spots@[j].1 == car);
                    assert(s0.parking_state.has_car(car));
                    assert(s0.parking_state.spots@[j].0 == parking_lane);
                    assert(s0.parking_state.has_car_on(parking_lane));
                }
                let ghost cv = steps@;
                if self.driving_state.start_car_on_lane(self.time, car, steps) {
                    self.parking_state.remove_last_parked_car(parking_lane, car);
                    proof {
                        assert forall|c: CarID| #[trigger] self.driving_state.has_car(c) implies c < self.car_id_counter
                            && !self.parking_state.has_car(c) by {
                            let i = choose|i: int| 0 <= i < self.driving_state.cars@.len() && (#[trigger] self.driving_state.cars@[i]).id == c;
                            assert(self.driving_state.cars_view()[i].id == c);
                            if i < s0.driving_state.cars@.len() {
                                assert(s0.driving_state.cars_view()[i].id == c);
                                assert(s0.driving_state.cars@[i].id == c);
                                assert(s0.driving_state.has_car(c));
                            }
                        }
                        assert forall|c: CarID| #[trigger] self.parking_state.has_car(c) implies c < self.car_id_counter by {
                            assert(s0.parking_state.has_car(c));
                        }
                        assert(self.driving_state.cars_view().drop_last() =~= s0.driving_state.cars_view());
                    }
                    return true;
                }
                proof {
                    assert forall|c: CarID| #[trigger] self.driving_state.has_car(c) implies s0.driving_state.has_car(c) by {
                        let i = choose|i: int| 0 <= i < self.driving_state.cars@.len() && (#[trigger] self.driving_state.cars@[i]).id == c;
                        assert(s0.driving_state.cars@[i].id == c);
                    }
                }
            } else {
                proof {
                    if s0.parking_state.has_car_on(parking_lane) {
                        let i = choose|i: int| 0 <= i < s0.parking_state.spots@.len() && (#[trigger] s0.parking_state.spots@[i]).0 == parking_lane;
                    }
                }
            }
        }
        false
    }
}

/// Two simulations hold the same world: every state but the random stream's cursor
/// agrees.
pub open spec fn same_world(a: &Sim, b: &Sim) -> bool {
    &&& a.time == b.time
    &&& a.car_id_counter == b.car_id_counter
    &&& a.debug == b.debug
    &&& a.driving_state.cars_view() == b.driving_state.cars_view()
    &&& a.driving_state.lanes@ == b.driving_state.lanes@
    &&& a.driving_state.turns@ == b.driving_state.turns@
    &&& a.parking_state.spots@ == b.parking_state.spots@
    &&& a.parking_state.lanes@ == b.parking_state.lanes@
    &&& a.walking_state.peds_view() == b.walking_state.peds_view()
    &&& a.walking_state.closed_lanes@ == b.walking_state.closed_lanes@
    &&& a.walking_state.closed_turns@ == b.walking_state.closed_turns@
    &&& a.intersection_state.requests@ == b.intersection_state.requests@
    &&& a.intersection_state.last_served == b.intersection_state.last_served
}

/// Whether car `c` parks now: it is on the last lane of its route, and a parking lane
/// that the parking sub-simulator serves serves that lane.
pub open spec fn arrives(c: CarView, map: &RoadMap, parking_lanes: Seq<LaneID>) -> bool {
    &&& c.path.len() == 1
    &&& c.path[0] < map.lanes@.len()
    &&& map.parking_lane_of(c.path[0]).is_some()
    &&& parking_lanes.contains(map.parking_lane_of(c.path[0]).unwrap())
}

/// The cars of `cars` that keep moving, in order.
pub open spec fn still_moving(cars: Seq<CarView>, map: &RoadMap, parking_lanes: Seq<LaneID>) -> Seq<CarView>
    decreases cars.len(),
{
    if cars.len() == 0 {
        Seq::empty()
    } else {
        let rest = still_moving(cars.drop_last(), map, parking_lanes);
        if arrives(cars.last(), map, parking_lanes) { rest } else { rest.push(cars.last()) }
    }
}

/// The spots taken by the cars of `cars` that park, in order.
pub open spec fn newly_parked(cars: Seq<CarView>, map: &RoadMap, parking_lanes: Seq<LaneID>) -> Seq<(LaneID, CarID)>
    decreases cars.len(),
{
    if cars.len() == 0 {
        Seq::empty()
    } else {
        let rest = newly_parked(cars.drop_last(), map, parking_lanes);
        let c = cars.last();
        if arrives(c, map, parking_lanes) {
            rest.push((map.parking_lane_of(c.path[0]).unwrap(), c.id))
        } else {
            rest
        }
    }
}

/// The cars of `s` after each moved once.
pub open spec fn advanced_cars(s: &Sim, map: &RoadMap) -> Seq<CarView> {
    Seq::new(s.driving_state.cars_view().len(), |i: int| advance(s.driving_state.cars_view()[i], map,
        s.driving_state.lanes@, s.driving_state.turns@))
}

/// What one `step` does to `s`, giving `t`: the clock advances by one tick, every car
/// and every pedestrian moves once, the intersections serve what was posted, and the
/// cars that reached the end of their route park.
pub open spec fn stepped(s: &Sim, t: &Sim, map: &RoadMap) -> bool {
    let cl = s.walking_state.closed_lanes@;
    let ct = s.walking_state.closed_turns@;
    let moved = advanced_cars(s, map);
    &&& t.time == s.time + 1
    &&& t.rng == s.rng
    &&& t.car_id_counter == s.car_id_counter
    &&& t.debug == s.debug
    &&& t.driving_state.cars_view() == still_moving(moved, map, s.parking_state.lanes@)
    &&& t.driving_state.lanes@ == s.driving_state.lanes@
    &&& t.driving_state.turns@ == s.driving_state.turns@
    &&& t.parking_state.spots@ == s.parking_state.spots@ + newly_parked(moved, map, s.parking_state.lanes@)
    &&& t.parking_state.lanes@ == s.parking_state.lanes@
    &&& t.walking_state.peds_view().len() == s.walking_state.peds_view().len()
    &&& forall|i: int| 0 <= i < s.walking_state.peds_view().len() ==> #[trigger] t.walking_state.peds_view()[i]
        == walk(s.walking_state.peds_view()[i], map, cl, ct)
    &&& t.walking_state.closed_lanes@ == cl
    &&& t.walking_state.closed_turns@ == ct
    &&& t.intersection_state.requests@.len() == 0
    &&& t.intersection_state.last_served == s.intersection_state.requests@.len()
        + entries(s.driving_state.cars_view(), map, s.driving_state.lanes@, s.driving_state.turns@).len()
        + walk_entries(s.walking_state.peds_view(), map, cl, ct).len()
}

impl Sim {
    /// Advances the clock by one tick, then steps the driving, walking and
    /// intersection sub-simulators, in that order: the intersections see every
    /// request that cars and pedestrians posted during the tick. Cars at the end of
    /// their route then park.
    pub fn step(&mut self, map: &RoadMap)
        requires
            old(self).wf(),
            map.wf(),
            old(self).time < u64::MAX,
        ensures
            final(self).wf(),
            stepped(&*old(self), &*final(self), map),
    {
        let ghost s0 = *self;
        self.time = self.time + 1;
        self.driving_state.step(self.time, map, &mut self.intersection_state);
        self.walking_state.step(self.time, map, &mut self.intersection_state);
        self.intersection_state.step(self.time);
        proof {
            assert forall|c: CarID| #[trigger] self.driving_state.has_car(c) <==> s0.driving_state.has_car(c) by {
                if self.driving_state.has_car(c) {
                    let i = choose|i: int| 0 <= i < self.driving_state.cars@.len() && (#[trigger] self.driving_state.cars@[i]).id == c;
                    assert(self.driving_state.cars_view()[i].id == c);
                    assert(s0.driving_state.cars_view()[i].id == c);
                    assert(s0.driving_state.cars@[i].id == c);
                }
                if s0.driving_state.has_car(c) {
                    let i = choose|i: int| 0 <= i < s0.driving_state.cars@.len() && (#[trigger] s0.driving_state.cars@[i]).id == c;
                    assert(s0.driving_state.cars_view()[i].id == c);
                    assert(self.driving_state.cars_view()[i].id == c);
                    assert(self.driving_state.cars@[i].id == c);
                }
            }
            assert forall|c: CarID| #[trigger] self.parking_state.has_car(c) <==> s0.parking_state.has_car(c) by {}
            assert(self.driving_state.cars_view() =~= advanced_cars(&s0, map));
        }
        self.park_arrived_cars(map);
    }
}

impl Sim {
    /// Moves every car that has reached the last lane of its route, where a served
    /// parking lane serves that lane, from the driving to the parking sub-simulator.
    pub fn park_arrived_cars(&mut self, map: &RoadMap)
        requires
            old(self).wf(),
            map.wf(),
        ensures
            final(self).wf(),
            final(self).driving_state.cars_view() == still_moving(old(self).driving_state.cars_view(), map, old(self).parking_state.lanes@),
            final(self).parking_state.spots@ == old(self).parking_state.spots@
                + newly_parked(old(self).driving_state.cars_view(), map, old(self).parking_state.lanes@),
            final(self).driving_state.lanes@ == old(self).driving_state.lanes@,
            final(self).driving_state.turns@ == old(self).driving_state.turns@,
            final(self).parking_state.lanes@ == old(self).parking_state.lanes@,
            final(self).walking_state == old(self).walking_state,
            final(self).intersection_state == old(self).intersection_state,
            final(self).time == old(self).time,
            final(self).car_id_counter == old(self).car_id_counter,
            final(self).rng == old(self).rng,
            final(self).debug == old(self).debug,
    {
        let ghost cars0 = self.driving_state.cars_view();
        let ghost pl = self.parking_state.lanes@;
        let ghost spots0 = self.parking_state.spots@;
        let ghost counter = self.car_id_counter;
        proof {
            assert forall|a: int, b: int| 0 <= a < b < cars0.len() implies (#[trigger] cars0[a]).id != (#[trigger] cars0[b]).id by {
                assert(self.driving_state.cars@[a].id != self.driving_state.cars@[b].id);
            }
            assert forall|k: int| 0 <= k < cars0.len() implies (#[trigger] cars0[k]).path.len() >= 1
                && cars0[k].id < counter && !self.parking_state.has_car(cars0[k].id) by {
                assert(self.driving_state.cars@[k].path@.len() >= 1);
                assert(self.driving_state.has_car(self.driving_state.cars@[k].id));
            }
            assert forall|s: int| 0 <= s < spots0.len() implies (#[trigger] spots0[s]).1 < counter by {
                assert(self.parking_state.has_car(spots0[s].1));
            }
        }
        let n = self.driving_state.cars.len();
        let mut kept: Vec<DrivingCar> = Vec::new();
        let mut i: usize = 0;
        while i < n
            invariant
                map.wf(),
                n == cars0.len(),
                i <= n,
                self.driving_state.cars@.len() == n - i,
                forall|k: int| 0 <= k < n - i ==> (#[trigger] self.driving_state.cars@[k])@ == cars0[i + k],
                forall|a: int, b: int| 0 <= a < b < cars0.len() ==> (#[trigger] cars0[a]).id != (#[trigger] cars0[b]).id,
                forall|k: int| 0 <= k < cars0.len() ==> (#[trigger] cars0[k]).path.len() >= 1
                    && cars0[k].id < counter && !(exists|s: int| 0 <= s < spots0.len() && (#[trigger] spots0[s]).1 == cars0[k].id),
                kept@.map_values(|c: DrivingCar| c@) == still_moving(cars0.subrange(0, i as int), map, pl),
                self.parking_state.spots@ == spots0 + newly_parked(cars0.subrange(0, i as int), map, pl),
                forall|a: int, b: int| 0 <= a < b < spots0.len() ==> (#[trigger] spots0[a]).1 != (#[trigger] spots0[b]).1,
                forall|s: int| 0 <= s < spots0.len() ==> (#[trigger] spots0[s]).1 < counter,
                forall|k: int| 0 <= k < kept@.len() ==> exists|j: int| 0 <= j < i && (#[trigger] kept@[k])@ == #[trigger] cars0[j],
                forall|s: int| spots0.len() <= s < self.parking_state.spots@.len() ==> exists|j: int| 0 <= j < i
                    && (#[trigger] self.parking_state.spots@[s]).1 == #[trigger] cars0[j].id,
                forall|a: int, b: int| 0 <= a < b < kept@.len() ==> (#[trigger] kept@[a]).id != (#[trigger] kept@[b]).id,
                forall|k: int, s: int| 0 <= k < kept@.len() && spots0.len() <= s < self.parking_state.spots@.len()
                    ==> (#[trigger] kept@[k]).id != (#[trigger] self.parking_state.spots@[s]).1,
                forall|a: int, b: int| 0 <= a < b < self.parking_state.spots@.len()
                    ==> (#[trigger] self.parking_state.spots@[a]).1 != (#[trigger] self.parking_state.spots@[b]).1,
                self.parking_state.lanes@ == pl,
                pl.no_duplicates(),
                self.driving_state.lanes@ == old(self).driving_state.lanes@,
                self.driving_state.turns@ == old(self).driving_state.turns@,
                self.walking_state == old(self).walking_state,
                self.intersection_state == old(self).intersection_state,
                self.time == old(self).time,
                self.car_id_counter == counter,
                self.rng == old(self).rng,
                self.debug == old(self).debug,
            decreases n - i,
        {
            let car = self.driving_state.cars.remove(0);
            assert(car@ == cars0[i as int]);
            let ghost sub = cars0.subrange(0, i as int + 1);
            assert(sub.drop_last() =~= cars0.subrange(0, i as int));
            assert(sub.last() == cars0[i as int]);
            proof {
                assert forall|k: int| 0 <= k < n - (i + 1) implies (#[trigger] self.driving_state.cars@[k])@ == cars0[i + 1 + k] by {}
            }
            let mut target: Option<LaneID> = None;
            if car.path.len() == 1 && car.path[0] < map.lanes.len() {
                if let Some(p) = map.find_parking_lane(car.path[0]) {
                    if contains_id(&self.parking_state.lanes, p) {
                        target = Some(p);
                    }
                }
            }
            assert(target.is_some() == arrives(cars0[i as int], map, pl));
            let ghost kept_before = kept@;
            let ghost spots_before = self.parking_state.spots@;
            match target {
                Some(p) => {
                    self.parking_state.spots.push((p, car.id));
                    proof {
                        assert(self.parking_state.spots@ =~= spots0 + newly_parked(sub, map, pl));
                        assert forall|s: int| spots0.len() <= s < self.parking_state.spots@.len() implies exists|j: int| 0 <= j < i + 1
                            && (#[trigger] self.parking_state.spots@[s]).1 == #[trigger] cars0[j].id by {
                            if s < spots_before.len() {
                                assert(self.parking_state.spots@[s] == spots_before[s]);
                            } else {
                                assert(self.parking_state.spots@[s].1 == cars0[i as int].id);
                            }
                        }
                        assert forall|k: int| 0 <= k < kept@.len() implies exists|j: int| 0 <= j < i + 1 && (#[trigger] kept@[k])@ == #[trigger] cars0[j] by {
                            let j = choose|j: int| 0 <= j < i && (#[trigger] kept@[k])@ == #[trigger] cars0[j];
                        }
                        assert forall|k: int, s: int| 0 <= k < kept@.len() && spots0.len() <= s < self.parking_state.spots@.len()
                            implies (#[trigger] kept@[k]).id != (#[trigger] self.parking_state.spots@[s]).1 by {
                            if s < spots_before.len() {
                                assert(self.parking_state.spots@[s] == spots_before[s]);
                            } else {
                                let j = choose|j: int| 0 <= j < i && (#[trigger] kept@[k])@ == #[trigger] cars0[j];
                                assert(cars0[j].id != cars0[i as int].id);
                            }
                        }
                        assert forall|a: int, b: int| 0 <= a < b < self.parking_state.spots@.len()
                            implies (#[trigger] self.parking_state.spots@[a]).1 != (#[trigger] self.parking_state.spots@[b]).1 by {
                            if b == spots_before.len() {
                                assert(self.parking_state.spots@[a] == spots_before[a]);
                                if a < spots0.len() {
                                    assert(spots_before[a] == spots0[a]);
                                } else {
                                    let j = choose|j: int| 0 <= j < i && (#[trigger] spots_before[a]).1 == #[trigger] cars0[j].id;
                                    assert(cars0[j].id != cars0[i as int].id);
                                }
                            } else {
                                assert(self.parking_state.spots@[a] == spots_before[a]);
                                assert(self.parking_state.spots@[b] == spots_before[b]);
                            }
                        }
                    }
                },
                None => {
                    kept.push(car);
                    proof {
                        assert(kept@.map_values(|c: DrivingCar| c@) =~= still_moving(sub, map, pl));
                        assert forall|k: int| 0 <= k < kept@.len() implies exists|j: int| 0 <= j < i + 1 && (#[trigger] kept@[k])@ == #[trigger] cars0[j] by {
                            if k < kept_before.len() {
                                assert(kept@[k] == kept_before[k]);
                                let j = choose|j: int| 0 <= j < i && (#[trigger] kept_before[k])@ == #[trigger] cars0[j];
                            } else {
                                assert(kept@[k]@ == cars0[i as int]);
                            }
                        }
                        assert forall|a: int, b: int| 0 <= a < b < kept@.len() implies (#[trigger] kept@[a]).id != (#[trigger] kept@[b]).id by {
                            assert(kept@[a] == kept_before[a]);
                            if b == kept_before.len() {
                                let j = choose|j: int| 0 <= j < i && (#[trigger] kept_before[a])@ == #[trigger] cars0[j];
                                assert(cars0[j].id != cars0[i as int].id);
                            } else {
                                assert(kept@[b] == kept_before[b]);
                            }
                        }
                        assert forall|k: int, s: int| 0 <= k < kept@.len() && spots0.len() <= s < self.parking_state.spots@.len()
                            implies (#[trigger] kept@[k]).id != (#[trigger] self.parking_state.spots@[s]).1 by {
                            if k < kept_before.len() {
                                assert(kept@[k] == kept_before[k]);
                            } else {
                                let j = choose|j: int| 0 <= j < i && (#[trigger] self.parking_state.spots@[s]).1 == #[trigger] cars0[j].id;
                                assert(cars0[j].id != cars0[i as int].id);
                            }
                        }
                    }
                },
            }
            i = i + 1;
        }
        self.driving_state.cars = kept;
        proof {
            assert(cars0.subrange(0, n as int) =~= cars0);
            assert forall|k: int| 0 <= k < self.driving_state.cars@.len() implies (#[trigger] self.driving_state.cars@[k]).path@.len() >= 1
                && self.driving_state.cars@[k].id < counter by {
                let j = choose|j: int| 0 <= j < n && (#[trigger] self.driving_state.cars@[k])@ == #[trigger] cars0[j];
            }
            assert forall|c: CarID| #[trigger] self.driving_state.has_car(c) implies c < self.car_id_counter
                && !self.parking_state.has_car(c) by {
                let k = choose|k: int| 0 <= k < self.driving_state.cars@.len() && (#[trigger] self.driving_state.cars@[k]).id == c;
                let j = choose|j: int| 0 <= j < n && (#[trigger] self.driving_state.cars@[k])@ == #[trigger] cars0[j];
                if self.parking_state.has_car(c) {
                    let s = choose|s: int| 0 <= s < self.parking_state.spots@.len() && (#[trigger] self.parking_state.spots@[s]).1 == c;
                    if s < spots0.len() {
                        assert(self.parking_state.spots@[s] == spots0[s]);
                    }
                }
            }
            assert forall|c: CarID| #[trigger] self.parking_state.has_car(c) implies c < self.car_id_counter by {
                let s = choose|s: int| 0 <= s < self.parking_state.spots@.len() && (#[trigger] self.parking_state.spots@[s]).1 == c;
                if s < spots0.len() {
                    assert(self.parking_state.spots@[s] == spots0[s]);
                } else {
                    let j = choose|j: int| 0 <= j < n && (#[trigger] self.parking_state.spots@[s]).1 == #[trigger] cars0[j].id;
                }
            }
        }
    }
}

/// Determinism: two simulations that hold the same world and take one step on the
/// same map hold the same world again, and classify every car alike.
pub proof fn lemma_step_deterministic(a0: &Sim, b0: &Sim, a1: &Sim, b1: &Sim, map: &RoadMap)
    requires
        same_world(a0, b0),
        stepped(a0, a1, map),
        stepped(b0, b1, map),
    ensures
        same_world(a1, b1),
        forall|c: CarID| #[trigger] a1.car_state_of(c) == b1.car_state_of(c),
{
    assert(advanced_cars(a0, map) =~= advanced_cars(b0, map));
    assert(a1.driving_state.cars_view() =~= b1.driving_state.cars_view());
    assert(a1.walking_state.peds_view() =~= b1.walking_state.peds_view());
    assert(a1.intersection_state.requests@ =~= b1.intersection_state.requests@);
}

/// Mutual exclusion: in a well-formed simulation no car is both moving and parked,
/// and every car's id was handed out by the counter.
pub proof fn lemma_exclusive_ownership(s: &Sim, c: CarID)
    requires
        s.wf(),
    ensures
        !(s.driving_state.has_car(c) && s.parking_state.has_car(c)),
        s.driving_state.has_car(c) || s.parking_state.has_car(c) ==> c < s.car_id_counter,
{
}

/// A car exists when it moves or is parked.
pub open spec fn car_exists(s: &Sim, c: CarID) -> bool {
    (exists|i: int| 0 <= i < s.driving_state.cars_view().len() && (#[trigger] s.driving_state.cars_view()[i]).id == c)
        || s.parking_state.has_car(c)
}

/// Each car of `cars` either keeps moving or parks, and nothing else does.
pub proof fn lemma_arrivals_split(cars: Seq<CarView>, map: &RoadMap, pl: Seq<LaneID>)
    ensures
        forall|i: int| 0 <= i < cars.len() ==>
            (exists|j: int| 0 <= j < still_moving(cars, map, pl).len() && (#[trigger] still_moving(cars, map, pl)[j]).id == (#[trigger] cars[i]).id)
            || (exists|j: int| 0 <= j < newly_parked(cars, map, pl).len() && (#[trigger] newly_parked(cars, map, pl)[j]).1 == cars[i].id),
        forall|j: int| 0 <= j < still_moving(cars, map, pl).len() ==>
            exists|i: int| 0 <= i < cars.len() && (#[trigger] cars[i]).id == (#[trigger] still_moving(cars, map, pl)[j]).id,
        forall|j: int| 0 <= j < newly_parked(cars, map, pl).len() ==>
            exists|i: int| 0 <= i < cars.len() && (#[trigger] cars[i]).id == (#[trigger] newly_parked(cars, map, pl)[j]).1,
    decreases cars.len(),
{
    if cars.len() > 0 {
        let rest = cars.drop_last();
        lemma_arrivals_split(rest, map, pl);
        let sm0 = still_moving(rest, map, pl);
        let np0 = newly_parked(rest, map, pl);
        let sm = still_moving(cars, map, pl);
        let np = newly_parked(cars, map, pl);
        let n = cars.len() - 1;
        assert forall|i: int| 0 <= i < cars.len() implies
            (exists|j: int| 0 <= j < sm.len() && (#[trigger] sm[j]).id == (#[trigger] cars[i]).id)
            || (exists|j: int| 0 <= j < np.len() && (#[trigger] np[j]).1 == cars[i].id) by {
            if i < n {
                assert(rest[i] == cars[i]);
                if exists|j: int| 0 <= j < sm0.len() && (#[trigger] sm0[j]).id == rest[i].id {
                    let j = choose|j: int| 0 <= j < sm0.len() && (#[trigger] sm0[j]).id == rest[i].id;
                    assert(sm[j] == sm0[j]);
                } else {
                    let j = choose|j: int| 0 <= j < np0.len() && (#[trigger] np0[j]).1 == rest[i].id;
                    assert(np[j] == np0[j]);
                }
            } else if arrives(cars.last(), map, pl) {
                assert(np[np0.len() as int].1 == cars[i].id);
            } else {
                assert(sm[sm0.len() as int].id == cars[i].id);
            }
        }
        assert forall|j: int| 0 <= j < sm.len() implies exists|i: int| 0 <= i < cars.len() && (#[trigger] cars[i]).id == (#[trigger] sm[j]).id by {
            if j < sm0.len() {
                assert(sm[j] == sm0[j]);
                let i = choose|i: int| 0 <= i < rest.len() && (#[trigger] rest[i]).id == sm0[j].id;
                assert(cars[i] == rest[i]);
            } else {
                assert(cars[n].id == sm[j].id);
            }
        }
        assert forall|j: int| 0 <= j < np.len() implies exists|i: int| 0 <= i < cars.len() && (#[trigger] cars[i]).id == (#[trigger] np[j]).1 by {
            if j < np0.len() {
                assert(np[j] == np0[j]);
                let i = choose|i: int| 0 <= i < rest.len() && (#[trigger] rest[i]).id == np0[j].1;
                assert(cars[i] == rest[i]);
            } else {
                assert(cars[n].id == np[j].1);
            }
        }
    }
}

/// Whether car `c` is among `cars` or `spots`.
pub open spec fn listed(cars: Seq<CarView>, spots: Seq<(LaneID, CarID)>, c: CarID) -> bool {
    (exists|i: int| 0 <= i < cars.len() && (#[trigger] cars[i]).id == c)
        || (exists|k: int| 0 <= k < spots.len() && (#[trigger] spots[k]).1 == c)
}

proof fn lemma_parking_keeps_ids(cv: Seq<CarView>, moved: Seq<CarView>, spots: Seq<(LaneID, CarID)>,
    map: &RoadMap, pl: Seq<LaneID>, c: CarID)
    requires
        moved.len() == cv.len(),
        forall|i: int| 0 <= i < cv.len() ==> (#[trigger] moved[i]).id == cv[i].id,
    ensures
        listed(cv, spots, c) <==> listed(still_moving(moved, map, pl), spots + newly_parked(moved, map, pl), c),
{
    lemma_arrivals_split(moved, map, pl);
    let sm = still_moving(moved, map, pl);
    let np = newly_parked(moved, map, pl);
    let all = spots + np;
    if exists|i: int| 0 <= i < cv.len() && (#[trigger] cv[i]).id == c {
        let i = choose|i: int| 0 <= i < cv.len() && (#[trigger] cv[i]).id == c;
        assert(moved[i].id == c);
        if !(exists|j: int| 0 <= j < sm.len() && (#[trigger] sm[j]).id == moved[i].id) {
            let j = choose|j: int| 0 <= j < np.len() && (#[trigger] np[j]).1 == moved[i].id;
            assert(all[spots.len() + j].1 == c);
        }
    }
    if exists|k: int| 0 <= k < spots.len() && (#[trigger] spots[k]).1 == c {
        let k = choose|k: int| 0 <= k < spots.len() && (#[trigger] spots[k]).1 == c;
        assert(all[k].1 == c);
    }
    if exists|j: int| 0 <= j < sm.len() && (#[trigger] sm[j]).id == c {
        let j = choose|j: int| 0 <= j < sm.len() && (#[trigger] sm[j]).id == c;
        let i = choose|i: int| 0 <= i < moved.len() && (#[trigger] moved[i]).id == sm[j].id;
        assert(cv[i].id == c);
    }
    if exists|k: int| 0 <= k < all.len() && (#[trigger] all[k]).1 == c {
        let k = choose|k: int| 0 <= k < all.len() && (#[trigger] all[k]).1 == c;
        if k < spots.len() {
            assert(spots[k].1 == c);
        } else {
            assert(np[k - spots.len()].1 == c);
            let i = choose|i: int| 0 <= i < moved.len() && (#[trigger] moved[i]).id == np[k - spots.len()].1;
            assert(cv[i].id == c);
        }
    }
}

/// A step loses no car and creates none: a car exists after the step exactly when it
/// existed before, moving or parked.
pub proof fn lemma_step_keeps_every_car(s: &Sim, t: &Sim, map: &RoadMap, c: CarID)
    requires
        stepped(s, t, map),
    ensures
        car_exists(s, c) <==> car_exists(t, c),
{
    let moved = advanced_cars(s, map);
    let cv = s.driving_state.cars_view();
    assert forall|i: int| 0 <= i < cv.len() implies (#[trigger] moved[i]).id == cv[i].id by {}
    lemma_parking_keeps_ids(cv, moved, s.parking_state.spots@, map, s.parking_state.lanes@, c);
    assert(car_exists(s, c) == listed(cv, s.parking_state.spots@, c));
    assert(car_exists(t, c) == listed(t.driving_state.cars_view(), t.parking_state.spots@, c));
}

/// Edit round trip: turning a driving lane into a parking lane and straight back
/// leaves every sub-simulator as it was, provided no car was parked on that lane.
pub proof fn lemma_edit_round_trip(s0: &Sim, s1: &Sim, s2: &Sim, l: LaneID)
    requires
        s0.wf(),
        s2.wf(),
        s0.lane_edited(s1, l, LaneType::Driving, LaneType::Parking),
        s1.lane_edited(s2, l, LaneType::Parking, LaneType::Driving),
        id_set(s0.driving_state.lanes@).contains(l),
        !id_set(s0.parking_state.lanes@).contains(l),
        forall|k: int| 0 <= k < s0.parking_state.spots@.len() ==> (#[trigger] s0.parking_state.spots@[k]).0 != l,
    ensures
        id_set(s2.driving_state.lanes@) == id_set(s0.driving_state.lanes@),
        id_set(s2.parking_state.lanes@) == id_set(s0.parking_state.lanes@),
        id_set(s2.walking_state.closed_lanes@) == id_set(s0.walking_state.closed_lanes@),
        s2.parking_state.spots@ == s0.parking_state.spots@,
        s2.driving_state.cars@ == s0.driving_state.cars@,
        s2.driving_state.turns@ == s0.driving_state.turns@,
        s2.walking_state.peds@ == s0.walking_state.peds@,
        s2.walking_state.closed_turns@ == s0.walking_state.closed_turns@,
        s2.time == s0.time,
        s2.car_id_counter == s0.car_id_counter,
        s2.debug == s0.debug,
        s2.intersection_state == s0.intersection_state,
        s2.rng == s0.rng,
        s2.driving_state.lanes@ == s0.driving_state.lanes@,
        s2.parking_state.lanes@ == s0.parking_state.lanes@,
        s2.walking_state.closed_lanes@ == s0.walking_state.closed_lanes@,
{
    assert(id_set(s2.driving_state.lanes@) =~= id_set(s0.driving_state.lanes@));
    assert(id_set(s2.parking_state.lanes@) =~= id_set(s0.parking_state.lanes@));
    let c0 = id_set(s0.walking_state.closed_lanes@);
    let c2 = id_set(s2.walking_state.closed_lanes@);
    assert(c2.complement() =~= c0.complement());
    assert forall|x: LaneID| c2.contains(x) <==> c0.contains(x) by {
        assert(c2.complement().contains(x) == c0.complement().contains(x));
    }
    assert(c2 =~= c0);
    lemma_sorted_unique(s2.driving_state.lanes@, s0.driving_state.lanes@);
    lemma_sorted_unique(s2.parking_state.lanes@, s0.parking_state.lanes@);
    lemma_sorted_unique(s2.walking_state.closed_lanes@, s0.walking_state.closed_lanes@);
}

} // verus!
