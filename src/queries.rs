//! Read-only projections of the simulation for drawing, tooltips and summaries,
//! and the debug toggle.
use vstd::prelude::*;
use crate::network::{LaneID, LaneType, RoadMap, TurnID};
use crate::driving::{CarID, CarView};
use crate::walking::PedestrianID;
use crate::intersections::Tick;
use crate::sim::Sim;
use crate::text::{summary_text, greeting_text, parked_text, moving_text, format_summary, format_greeting, format_parked, format_moving};

verus! {

#[derive(Clone, Copy, PartialEq, Eq, Structural, Debug)]
pub struct DrawCar {
    pub id: CarID,
    pub lane: LaneID,
    pub parked: bool,
}

#[derive(Clone, Copy, PartialEq, Eq, Structural, Debug)]
pub struct DrawPedestrian {
    pub id: PedestrianID,
    pub lane: LaneID,
}

/// How many cars of `cars` wait to enter a lane.
pub open spec fn count_waiting(cars: Seq<CarView>) -> nat
    decreases cars.len(),
{
    if cars.len() == 0 {
        0
    } else {
        count_waiting(cars.drop_last()) + if cars.last().waiting_for.is_some() { 1nat } else { 0nat }
    }
}

pub proof fn lemma_count_waiting_bound(cars: Seq<CarView>)
    ensures
        count_waiting(cars) <= cars.len(),
    decreases cars.len(),
{
    if cars.len() > 0 {
        lemma_count_waiting_bound(cars.drop_last());
    }
}

/// A car drawn at `d` is car `c` of the moving cars, on lane `d.lane`.
pub open spec fn draws_moving(s: &Sim, d: DrawCar) -> bool {
    !d.parked && exists|i: int| 0 <= i < s.driving_state.cars_view().len()
        && (#[trigger] s.driving_state.cars_view()[i]).id == d.id && s.driving_state.cars_view()[i].path[0] == d.lane
}

/// A car drawn at `d` is parked on lane `d.lane`.
pub open spec fn draws_parked(s: &Sim, d: DrawCar) -> bool {
    d.parked && s.parking_state.spots@.contains((d.lane, d.id))
}

impl Sim {
    /// Where car `id` is drawn: on the lane it drives, or on the lane it is parked.
    pub fn get_draw_car(&self, id: CarID, map: &RoadMap) -> (r: Option<DrawCar>)
        requires
            self.wf(),
        ensures
            r.is_some() <==> self.driving_state.has_car(id) || self.parking_state.has_car(id),
            r.is_some() ==> r.unwrap().id == id && r.unwrap().parked == !self.driving_state.has_car(id)
                && (draws_moving(self, r.unwrap()) || draws_parked(self, r.unwrap())),
    {
        if let Some(i) = self.driving_state.find_car(id) {
            let d = DrawCar { id, lane: self.driving_state.cars[i].path[0], parked: false };
            assert(self.driving_state.cars_view()[i as int].id == id);
            return Some(d);
        }
        let mut k: usize = 0;
        while k < self.parking_state.spots.len()
            invariant
                k <= self.parking_state.spots@.len(),
                !self.driving_state.has_car(id),
                forall|j: int| 0 <= j < k ==> (#[trigger] self.parking_state.spots@[j]).1 != id,
            decreases self.parking_state.spots@.len() - k,
        {
            if self.parking_state.spots[k].1 == id {
                let d = DrawCar { id, lane: self.parking_state.spots[k].0, parked: true };
                assert(self.parking_state.spots@[k as int] == (d.lane, id));
                assert(self.parking_state.spots@.contains((d.lane, id)));
                return Some(d);
            }
            k = k + 1;
        }
        None
    }

    /// Where pedestrian `id` is drawn.
    pub fn get_draw_ped(&self, id: PedestrianID, map: &RoadMap) -> (r: Option<DrawPedestrian>)
        requires
            self.wf(),
        ensures
            r.is_some() <==> id < self.walking_state.peds_view().len(),
            r.is_some() ==> r.unwrap() == (DrawPedestrian { id, lane: self.walking_state.peds_view()[id as int].path[0] }),
    {
        if id < self.walking_state.peds.len() {
            Some(DrawPedestrian { id, lane: self.walking_state.peds[id].path[0] })
        } else {
            None
        }
    }

    /// The moving cars on lane `l`.
    fn moving_cars_on_lane(&self, l: LaneID) -> (r: Vec<DrawCar>)
        requires
            self.wf(),
        ensures
            forall|k: int| 0 <= k < r@.len() ==> draws_moving(self, #[trigger] r@[k]) && r@[k].lane == l,
            forall|i: int| 0 <= i < self.driving_state.cars_view().len() && (#[trigger] self.driving_state.cars_view()[i]).path[0] == l
                ==> exists|k: int| 0 <= k < r@.len() && (#[trigger] r@[k]).id == self.driving_state.cars_view()[i].id,
    {
        let mut out: Vec<DrawCar> = Vec::new();
        let mut i: usize = 0;
        while i < self.driving_state.cars.len()
            invariant
                self.wf(),
                i <= self.driving_state.cars@.len(),
                forall|k: int| 0 <= k < out@.len() ==> draws_moving(self, #[trigger] out@[k]) && out@[k].lane == l,
                forall|j: int| 0 <= j < i && (#[trigger] self.driving_state.cars_view()[j]).path[0] == l
                    ==> exists|k: int| 0 <= k < out@.len() && (#[trigger] out@[k]).id == self.driving_state.cars_view()[j].id,
            decreases self.driving_state.cars@.len() - i,
        {
            let c = &self.driving_state.cars[i];
            assert(self.driving_state.cars_view()[i as int] == c@);
            if c.path[0] == l {
                let ghost prev = out@;
                out.push(DrawCar { id: c.id, lane: l, parked: false });
                proof {
                    assert forall|k: int| 0 <= k < out@.len() implies draws_moving(self, #[trigger] out@[k]) && out@[k].lane == l by {
                        if k < prev.len() {
                            assert(out@[k] == prev[k]);
                        }
                    }
                    assert forall|j: int| 0 <= j < i + 1 && (#[trigger] self.driving_state.cars_view()[j]).path[0] == l
                        implies exists|k: int| 0 <= k < out@.len() && (#[trigger] out@[k]).id == self.driving_state.cars_view()[j].id by {
                        if j < i {
                            let k = choose|k: int| 0 <= k < prev.len() && (#[trigger] prev[k]).id == self.driving_state.cars_view()[j].id;
                            assert(out@[k] == prev[k]);
                        } else {
                            assert(out@[prev.len() as int].id == self.driving_state.cars_view()[j].id);
                        }
                    }
                }
            }
            i = i + 1;
        }
        out
    }

    /// The parked cars on lane `l`, in the order they were parked.
    fn parked_cars_on_lane(&self, l: LaneID) -> (r: Vec<DrawCar>)
        ensures
            forall|k: int| 0 <= k < r@.len() ==> draws_parked(self, #[trigger] r@[k]) && r@[k].lane == l,
            forall|p: (LaneID, CarID)| #[trigger] self.parking_state.spots@.contains(p) && p.0 == l
                ==> r@.contains(DrawCar { id: p.1, lane: l, parked: true }),
    {
        let mut out: Vec<DrawCar> = Vec::new();
        let mut i: usize = 0;
        while i < self.parking_state.spots.len()
            invariant
                i <= self.parking_state.spots@.len(),
                forall|k: int| 0 <= k < out@.len() ==> draws_parked(self, #[trigger] out@[k]) && out@[k].lane == l,
                forall|j: int| 0 <= j < i && (#[trigger] self.parking_state.spots@[j]).0 == l
                    ==> out@.contains(DrawCar { id: self.parking_state.spots@[j].1, lane: l, parked: true }),
            decreases self.parking_state.spots@.len() - i,
        {
            let p = self.parking_state.spots[i];
            if p.0 == l {
                let ghost prev = out@;
                out.push(DrawCar { id: p.1, lane: l, parked: true });
                proof {
                    assert(self.parking_state.spots@.contains(p)) by {
                        assert(self.parking_state.spots@[i as int] == p);
                    }
                    assert forall|k: int| 0 <= k < out@.len() implies draws_parked(self, #[trigger] out@[k]) && out@[k].lane == l by {
                        if k < prev.len() {
                            assert(out@[k] == prev[k]);
                        }
                    }
                    assert forall|j: int| 0 <= j < i + 1 && (#[trigger] self.parking_state.spots@[j]).0 == l
                        implies out@.contains(DrawCar { id: self.parking_state.spots@[j].1, lane: l, parked: true }) by {
                        if j < i {
                            let d = DrawCar { id: self.parking_state.spots@[j].1, lane: l, parked: true };
                            let k = choose|k: int| 0 <= k < prev.len() && prev[k] == d;
                            assert(out@[k] == d);
                        } else {
                            assert(out@[prev.len() as int] == DrawCar { id: self.parking_state.spots@[j].1, lane: l, parked: true });
                        }
                    }
                }
            }
            i = i + 1;
        }
        proof {
            assert forall|p: (LaneID, CarID)| #[trigger] self.parking_state.spots@.contains(p) && p.0 == l
                implies out@.contains(DrawCar { id: p.1, lane: l, parked: true }) by {
                let j = choose|j: int| 0 <= j < self.parking_state.spots@.len() && self.parking_state.spots@[j] == p;
                assert(self.parking_state.spots@[j].0 == l);
            }
        }
        out
    }

    /// The cars drawn on lane `l`: the moving ones on a driving lane, the parked ones
    /// on a parking lane, none elsewhere.
    pub fn get_draw_cars_on_lane(&self, l: LaneID, map: &RoadMap) -> (r: Vec<DrawCar>)
        requires
            self.wf(),
            l < map.lanes@.len(),
        ensures
            map.lanes@[l as int].lane_type == LaneType::Driving ==> (forall|k: int| 0 <= k < r@.len() ==> draws_moving(self, #[trigger] r@[k]) && r@[k].lane == l)
                && forall|i: int| 0 <= i < self.driving_state.cars_view().len() && (#[trigger] self.driving_state.cars_view()[i]).path[0] == l
                    ==> exists|k: int| 0 <= k < r@.len() && (#[trigger] r@[k]).id == self.driving_state.cars_view()[i].id,
            map.lanes@[l as int].lane_type == LaneType::Parking ==> (forall|k: int| 0 <= k < r@.len() ==> draws_parked(self, #[trigger] r@[k]) && r@[k].lane == l)
                && forall|p: (LaneID, CarID)| #[trigger] self.parking_state.spots@.contains(p) && p.0 == l
                    ==> r@.contains(DrawCar { id: p.1, lane: l, parked: true }),
            map.lanes@[l as int].lane_type == LaneType::Sidewalk || map.lanes@[l as int].lane_type == LaneType::Biking ==> r@.len() == 0,
    {
        match map.get_l(l).lane_type {
            LaneType::Driving => self.moving_cars_on_lane(l),
            LaneType::Parking => self.parked_cars_on_lane(l),
            LaneType::Sidewalk => Vec::new(),
            LaneType::Biking => Vec::new(),
        }
    }

    /// The cars waiting at turn `t`: on its source lane, waiting to enter its target.
    pub fn get_draw_cars_on_turn(&self, t: TurnID, map: &RoadMap) -> (r: Vec<DrawCar>)
        requires
            self.wf(),
            t < map.turns@.len(),
        ensures
            forall|k: int| 0 <= k < r@.len() ==> draws_moving(self, #[trigger] r@[k]) && r@[k].lane == map.turns@[t as int].src,
            forall|i: int| 0 <= i < self.driving_state.cars_view().len() && (#[trigger] self.driving_state.cars_view()[i]).path[0] == map.turns@[t as int].src
                && self.driving_state.cars_view()[i].waiting_for == Some(map.turns@[t as int].dst)
                ==> exists|k: int| 0 <= k < r@.len() && (#[trigger] r@[k]).id == self.driving_state.cars_view()[i].id,
    {
        let src = map.get_t(t).src;
        let dst = map.get_t(t).dst;
        let mut out: Vec<DrawCar> = Vec::new();
        let mut i: usize = 0;
        while i < self.driving_state.cars.len()
            invariant
                self.wf(),
                src == map.turns@[t as int].src,
                dst == map.turns@[t as int].dst,
                i <= self.driving_state.cars@.len(),
                forall|k: int| 0 <= k < out@.len() ==> draws_moving(self, #[trigger] out@[k]) && out@[k].lane == src,
                forall|j: int| 0 <= j < i && (#[trigger] self.driving_state.cars_view()[j]).path[0] == src
                    && self.driving_state.cars_view()[j].waiting_for == Some(dst)
                    ==> exists|k: int| 0 <= k < out@.len() && (#[trigger] out@[k]).id == self.driving_state.cars_view()[j].id,
            decreases self.driving_state.cars@.len() - i,
        {
            let c = &self.driving_state.cars[i];
            assert(self.driving_state.cars_view()[i as int] == c@);
            if c.path[0] == src && c.waiting_for == Some(dst) {
                let ghost prev = out@;
                out.push(DrawCar { id: c.id, lane: src, parked: false });
                proof {
                    assert forall|k: int| 0 <= k < out@.len() implies draws_moving(self, #[trigger] out@[k]) && out@[k].lane == src by {
                        if k < prev.len() {
                            assert(out@[k] == prev[k]);
                        }
                    }
                    assert forall|j: int| 0 <= j < i + 1 && (#[trigger] self.driving_state.cars_view()[j]).path[0] == src
                        && self.driving_state.cars_view()[j].waiting_for == Some(dst)
                        implies exists|k: int| 0 <= k < out@.len() && (#[trigger] out@[k]).id == self.driving_state.cars_view()[j].id by {
                        if j < i {
                            let k = choose|k: int| 0 <= k < prev.len() && (#[trigger] prev[k]).id == self.driving_state.cars_view()[j].id;
                            assert(out@[k] == prev[k]);
                        } else {
                            assert(out@[prev.len() as int].id == self.driving_state.cars_view()[j].id);
                        }
                    }
                }
            }
            i = i + 1;
        }
        out
    }
}

impl Sim {
    /// The pedestrians on lane `l`, by id.
    pub fn get_draw_peds_on_lane(&self, l: LaneID, map: &RoadMap) -> (r: Vec<DrawPedestrian>)
        requires
            self.wf(),
        ensures
            forall|k: int| 0 <= k < r@.len() ==> (#[trigger] r@[k]).lane == l && r@[k].id < self.walking_state.peds_view().len()
                && self.walking_state.peds_view()[r@[k].id as int].path[0] == l,
            forall|i: int| 0 <= i < self.walking_state.peds_view().len() && (#[trigger] self.walking_state.peds_view()[i]).path[0] == l
                ==> r@.contains(DrawPedestrian { id: i as PedestrianID, lane: l }),
    {
        let mut out: Vec<DrawPedestrian> = Vec::new();
        let mut i: usize = 0;
        while i < self.walking_state.peds.len()
            invariant
                self.wf(),
                i <= self.walking_state.peds@.len(),
                forall|k: int| 0 <= k < out@.len() ==> (#[trigger] out@[k]).lane == l && out@[k].id < self.walking_state.peds_view().len()
                    && self.walking_state.peds_view()[out@[k].id as int].path[0] == l,
                forall|j: int| 0 <= j < i && (#[trigger] self.walking_state.peds_view()[j]).path[0] == l
                    ==> out@.contains(DrawPedestrian { id: j as PedestrianID, lane: l }),
            decreases self.walking_state.peds@.len() - i,
        {
            assert(self.walking_state.peds_view()[i as int] == self.walking_state.peds@[i as int]@);
            if self.walking_state.peds[i].path[0] == l {
                let ghost prev = out@;
                out.push(DrawPedestrian { id: i, lane: l });
                proof {
                    assert forall|k: int| 0 <= k < out@.len() implies (#[trigger] out@[k]).lane == l && out@[k].id < self.walking_state.peds_view().len()
                        && self.walking_state.peds_view()[out@[k].id as int].path[0] == l by {
                        if k < prev.len() {
                            assert(out@[k] == prev[k]);
                        }
                    }
                    assert forall|j: int| 0 <= j < i + 1 && (#[trigger] self.walking_state.peds_view()[j]).path[0] == l
                        implies out@.contains(DrawPedestrian { id: j as PedestrianID, lane: l }) by {
                        let d = DrawPedestrian { id: j as PedestrianID, lane: l };
                        if j < i {
                            let k = choose|k: int| 0 <= k < prev.len() && prev[k] == d;
                            assert(out@[k] == d);
                        } else {
                            assert(out@[prev.len() as int] == d);
                        }
                    }
                }
            }
            i = i + 1;
        }
        out
    }

    /// The pedestrians about to cross turn `t`: on its source lane, with its target next.
    pub fn get_draw_peds_on_turn(&self, t: TurnID, map: &RoadMap) -> (r: Vec<DrawPedestrian>)
        requires
            self.wf(),
            t < map.turns@.len(),
        ensures
            forall|k: int| 0 <= k < r@.len() ==> (#[trigger] r@[k]).lane == map.turns@[t as int].src
                && r@[k].id < self.walking_state.peds_view().len()
                && self.walking_state.peds_view()[r@[k].id as int].path.len() > 1
                && self.walking_state.peds_view()[r@[k].id as int].path[0] == map.turns@[t as int].src
                && self.walking_state.peds_view()[r@[k].id as int].path[1] == map.turns@[t as int].dst,
            forall|i: int| 0 <= i < self.walking_state.peds_view().len() && (#[trigger] self.walking_state.peds_view()[i]).path.len() > 1
                && self.walking_state.peds_view()[i].path[0] == map.turns@[t as int].src
                && self.walking_state.peds_view()[i].path[1] == map.turns@[t as int].dst
                ==> r@.contains(DrawPedestrian { id: i as PedestrianID, lane: map.turns@[t as int].src }),
    {
        let src = map.get_t(t).src;
        let dst = map.get_t(t).dst;
        let mut out: Vec<DrawPedestrian> = Vec::new();
        let mut i: usize = 0;
        while i < self.walking_state.peds.len()
            invariant
                self.wf(),
                src == map.turns@[t as int].src,
                dst == map.turns@[t as int].dst,
                i <= self.walking_state.peds@.len(),
                forall|k: int| 0 <= k < out@.len() ==> (#[trigger] out@[k]).lane == src
                    && out@[k].id < self.walking_state.peds_view().len()
                    && self.walking_state.peds_view()[out@[k].id as int].path.len() > 1
                    && self.walking_state.peds_view()[out@[k].id as int].path[0] == src
                    && self.walking_state.peds_view()[out@[k].id as int].path[1] == dst,
                forall|j: int| 0 <= j < i && (#[trigger] self.walking_state.peds_view()[j]).path.len() > 1
                    && self.walking_state.peds_view()[j].path[0] == src && self.walking_state.peds_view()[j].path[1] == dst
                    ==> out@.contains(DrawPedestrian { id: j as PedestrianID, lane: src }),
            decreases self.walking_state.peds@.len() - i,
        {
            assert(self.walking_state.peds_view()[i as int] == self.walking_state.peds@[i as int]@);
            let path = &self.walking_state.peds[i].path;
            if path.len() > 1 && path[0] == src && path[1] == dst {
                let ghost prev = out@;
                out.push(DrawPedestrian { id: i, lane: src });
                proof {
                    assert forall|k: int| 0 <= k < out@.len() implies (#[trigger] out@[k]).lane == src
                        && out@[k].id < self.walking_state.peds_view().len()
                        && self.walking_state.peds_view()[out@[k].id as int].path.len() > 1
                        && self.walking_state.peds_view()[out@[k].id as int].path[0] == src
                        && self.walking_state.peds_view()[out@[k].id as int].path[1] == dst by {
                        if k < prev.len() {
                            assert(out@[k] == prev[k]);
                        }
                    }
                    assert forall|j: int| 0 <= j < i + 1 && (#[trigger] self.walking_state.peds_view()[j]).path.len() > 1
                        && self.walking_state.peds_view()[j].path[0] == src && self.walking_state.peds_view()[j].path[1] == dst
                        implies out@.contains(DrawPedestrian { id: j as PedestrianID, lane: src }) by {
                        let d = DrawPedestrian { id: j as PedestrianID, lane: src };
                        if j < i {
                            let k = choose|k: int| 0 <= k < prev.len() && prev[k] == d;
                            assert(out@[k] == d);
                        } else {
                            assert(out@[prev.len() as int] == d);
                        }
                    }
                }
            }
            i = i + 1;
        }
        out
    }

    /// One line on the state of the run: the tick, how many moving cars wait, how many
    /// cars move, how many are parked, and how many pedestrians there are.
    pub fn summary(&self) -> (r: String)
        requires
            self.wf(),
        ensures
            r@ == summary_text(self.time, count_waiting(self.driving_state.cars_view()) as usize,
                self.driving_state.cars@.len() as usize, self.parking_state.spots@.len() as usize,
                self.walking_state.peds@.len() as usize),
    {
        let ghost cars = self.driving_state.cars_view();
        let mut waiting: usize = 0;
        let mut i: usize = 0;
        while i < self.driving_state.cars.len()
            invariant
                cars == self.driving_state.cars_view(),
                i <= cars.len(),
                waiting == count_waiting(cars.subrange(0, i as int)),
            decreases cars.len() - i,
        {
            assert(cars.subrange(0, i as int + 1).drop_last() =~= cars.subrange(0, i as int));
            proof { lemma_count_waiting_bound(cars.subrange(0, i as int)); }
            assert(cars[i as int] == self.driving_state.cars@[i as int]@);
            if self.driving_state.cars[i].waiting_for.is_some() {
                waiting = waiting + 1;
            }
            i = i + 1;
        }
        assert(cars.subrange(0, cars.len() as int) =~= cars);
        format_summary(self.time, waiting, self.driving_state.cars.len(), self.parking_state.total_count(),
            self.walking_state.total_count())
    }

    /// The path still ahead of pedestrian `id`, for inspection.
    pub fn debug_ped(&self, id: PedestrianID) -> (r: Option<Vec<LaneID>>)
        requires
            self.wf(),
        ensures
            r.is_some() <==> id < self.walking_state.peds_view().len(),
            r.is_some() ==> r.unwrap()@ == self.walking_state.peds_view()[id as int].path,
    {
        if id < self.walking_state.peds.len() {
            let p = self.walking_state.peds[id].path.clone();
            assert(p@ =~= self.walking_state.peds_view()[id as int].path);
            Some(p)
        } else {
            None
        }
    }

    pub fn ped_tooltip(&self, p: PedestrianID) -> (r: Vec<String>)
        ensures
            r@.len() == 1,
            r@[0]@ == greeting_text(p),
    {
        vec![format_greeting(p)]
    }

    /// One line on a moving car, or that it is parked.
    pub fn car_tooltip(&self, car: CarID) -> (r: Vec<String>)
        requires
            self.wf(),
        ensures
            r@.len() == 1,
            !self.driving_state.has_car(car) ==> r@[0]@ == parked_text(car),
            self.driving_state.has_car(car) ==> exists|i: int| 0 <= i < self.driving_state.cars_view().len()
                && (#[trigger] self.driving_state.cars_view()[i]).id == car
                && r@[0]@ == moving_text(car, self.driving_state.cars_view()[i].path[0], self.driving_state.cars_view()[i].waiting_for),
    {
        if let Some(i) = self.driving_state.find_car(car) {
            let c = &self.driving_state.cars[i];
            assert(self.driving_state.cars_view()[i as int] == c@);
            vec![format_moving(car, c.path[0], c.waiting_for)]
        } else {
            vec![format_parked(car)]
        }
    }

    /// Switches debugging of car `id`. The car debugged before, if another, stops being
    /// debugged; it must still be moving. Returns whether `id` is a moving car; only then does it become the
    /// debugged car, its flag flipped.
    pub fn toggle_debug(&mut self, id: CarID) -> (r: bool)
        requires
            old(self).wf(),
            old(self).debug.is_some() && old(self).debug.unwrap() != id ==> old(self).driving_state.has_car(old(self).debug.unwrap()),
        ensures
            final(self).wf(),
            r == old(self).driving_state.has_car(id),
            r ==> final(self).debug == Some(id),
            !r ==> final(self).debug == old(self).debug,
            final(self).driving_state.cars_view().len() == old(self).driving_state.cars_view().len(),
            forall|k: int| 0 <= k < old(self).driving_state.cars_view().len() ==> {
                let c = #[trigger] old(self).driving_state.cars_view()[k];
                let d = final(self).driving_state.cars_view()[k];
                &&& d.id == c.id && d.path == c.path && d.waiting_for == c.waiting_for
                &&& c.id == id ==> d.debug == !c.debug
                &&& c.id != id && old(self).debug == Some(c.id) ==> !d.debug
                &&& c.id != id && old(self).debug != Some(c.id) ==> d.debug == c.debug
            },
            final(self).parking_state == old(self).parking_state,
            final(self).walking_state == old(self).walking_state,
            final(self).time == old(self).time,
            final(self).car_id_counter == old(self).car_id_counter,
            final(self).intersection_state == old(self).intersection_state,
            final(self).rng == old(self).rng,
    {
        let ghost s0 = *self;
        if let Some(c) = self.debug {
            if c != id {
                if let Some(i) = self.driving_state.find_car(c) {
                    self.driving_state.set_debug(i, false);
                    proof {
                        assert forall|k: int| 0 <= k < s0.driving_state.cars_view().len() && k != i implies
                            (#[trigger] s0.driving_state.cars_view()[k]).id != c by {
                            assert(s0.driving_state.cars@[k].id == s0.driving_state.cars_view()[k].id);
                            assert(s0.driving_state.cars@[i as int].id == c);
                        }
                    }
                }
            }
        }
        let ghost s1 = *self;
        if let Some(i) = self.driving_state.find_car(id) {
            let flag = !self.driving_state.cars[i].debug;
            assert(s1.driving_state.cars_view()[i as int].debug == s1.driving_state.cars@[i as int].debug);
            self.driving_state.set_debug(i, flag);
            self.debug = Some(id);
            proof {
                assert forall|k: int| 0 <= k < s1.driving_state.cars_view().len() && k != i implies
                    (#[trigger] s1.driving_state.cars_view()[k]).id != id by {
                    assert(s1.driving_state.cars@[k].id == s1.driving_state.cars_view()[k].id);
                    assert(s1.driving_state.cars@[i as int].id == id);
                }
                assert(self.driving_state.cars@[i as int].id == id);
            }
            true
        } else {
            false
        }
    }

    /// The ticks simulated since tick `since`.
    pub fn ticks_since(&self, since: Tick) -> (r: u64)
        requires
            since <= self.time,
        ensures
            r == self.time - since,
    {
        self.time - since
    }
}

} // verus!
