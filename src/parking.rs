//! Parked cars: each parking lane holds a stack of cars, the last parked on top.
use vstd::prelude::*;
use rand::XorShiftRng;
use crate::network::{Lane, LaneID, RoadMap, LaneType, lanes_of_type};
use crate::idset::{id_set, insert_id, remove_id, sorted};
use crate::driving::CarID;
use crate::rng::gen_index;

verus! {

/// The spots a parking lane offers.
pub const SPOTS_PER_LANE: usize = 4;

pub struct ParkingSimState {
    /// Parked cars with their lane, in the order they were parked.
    pub spots: Vec<(LaneID, CarID)>,
    /// The parking lanes this state serves.
    pub lanes: Vec<LaneID>,
}

impl ParkingSimState {
    pub open spec fn has_car(&self, c: CarID) -> bool {
        exists|i: int| 0 <= i < self.spots@.len() && (#[trigger] self.spots@[i]).1 == c
    }

    /// Some car is parked on lane `l`.
    pub open spec fn has_car_on(&self, l: LaneID) -> bool {
        exists|i: int| 0 <= i < self.spots@.len() && (#[trigger] self.spots@[i]).0 == l
    }

    pub open spec fn wf(&self) -> bool {
        &&& self.lanes@.no_duplicates()
        &&& sorted(self.lanes@)
        &&& forall|i: int, j: int| 0 <= i < j < self.spots@.len() ==> (#[trigger] self.spots@[i]).1 != (#[trigger] self.spots@[j]).1
    }

    /// The car parked last on lane `l`, if any.
    pub open spec fn is_last_on(&self, l: LaneID, r: Option<CarID>) -> bool {
        match r {
            None => forall|k: int| 0 <= k < self.spots@.len() ==> (#[trigger] self.spots@[k]).0 != l,
            Some(c) => exists|j: int| 0 <= j < self.spots@.len() && #[trigger] self.spots@[j] == (l, c)
                && forall|k: int| j < k < self.spots@.len() ==> (#[trigger] self.spots@[k]).0 != l,
        }
    }

    /// A state serving every parking lane of `map`, with no car.
    pub fn new(map: &RoadMap) -> (r: ParkingSimState)
        requires
            map.wf(),
        ensures
            r.wf(),
            r.spots@.len() == 0,
            forall|l: LaneID| #[trigger] id_set(r.lanes@).contains(l) <==> l < map.lanes@.len()
                && map.lanes@[l as int].lane_type == LaneType::Parking,
            r.lanes@ == lanes_of_type(map.lanes@, LaneType::Parking),
    {
        let mut s = ParkingSimState { spots: Vec::new(), lanes: Vec::new() };
        let mut i: usize = 0;
        while i < map.lanes.len()
            invariant
                map.wf(),
                i <= map.lanes@.len(),
                s.wf(),
                s.spots@.len() == 0,
                forall|l: LaneID| #[trigger] id_set(s.lanes@).contains(l) <==> l < i
                    && map.lanes@[l as int].lane_type == LaneType::Parking,
                s.lanes@ == lanes_of_type(map.lanes@.subrange(0, i as int), LaneType::Parking),
            decreases map.lanes@.len() - i,
        {
            assert(map.lanes@.subrange(0, i as int + 1).drop_last() =~= map.lanes@.subrange(0, i as int));
            if map.lanes[i].lane_type == LaneType::Parking {
                assert(!id_set(s.lanes@).contains(i));
                assert forall|k: int| 0 <= k < s.lanes@.len() implies s.lanes@[k] < i by {
                    assert(s.lanes@.contains(s.lanes@[k]));
                    assert(id_set(s.lanes@).contains(s.lanes@[k]));
                }
                insert_id(&mut s.lanes, i);
            }
            i = i + 1;
        }
        assert(map.lanes@.subrange(0, map.lanes@.len() as int) =~= map.lanes@);
        s
    }

    pub fn edit_add_lane(&mut self, l: &Lane)
        requires
            old(self).wf(),
        ensures
            final(self).wf(),
            id_set(final(self).lanes@) == id_set(old(self).lanes@).insert(l.id),
            final(self).spots@ == old(self).spots@,
    {
        insert_id(&mut self.lanes, l.id);
    }

    /// Stops serving lane `id`; the cars parked there leave the simulation.
    pub fn edit_remove_lane(&mut self, id: LaneID)
        requires
            old(self).wf(),
        ensures
            final(self).wf(),
            id_set(final(self).lanes@) == id_set(old(self).lanes@).remove(id),
            forall|p: (LaneID, CarID)| #[trigger] final(self).spots@.contains(p) <==> old(self).spots@.contains(p) && p.0 != id,
            forall|c: CarID| #[trigger] final(self).has_car(c) ==> old(self).has_car(c),
            (forall|k: int| 0 <= k < old(self).spots@.len() ==> (#[trigger] old(self).spots@[k]).0 != id)
                ==> final(self).spots@ == old(self).spots@,
    {
        remove_id(&mut self.lanes, id);
        let mut out: Vec<(LaneID, CarID)> = Vec::new();
        let mut i: usize = 0;
        while i < self.spots.len()
            invariant
                i <= self.spots@.len(),
                self.spots@ == old(self).spots@,
                old(self).wf(),
                forall|a: int, b: int| 0 <= a < b < out@.len() ==> (#[trigger] out@[a]).1 != (#[trigger] out@[b]).1,
                forall|a: int| 0 <= a < out@.len() ==> exists|k: int| 0 <= k < i && #[trigger] out@[a] == self.spots@[k],
                forall|p: (LaneID, CarID)| #[trigger] out@.contains(p) <==> (exists|k: int| 0 <= k < i && self.spots@[k] == p) && p.0 != id,
                (forall|k: int| 0 <= k < i ==> (#[trigger] self.spots@[k]).0 != id) ==> out@ == self.spots@.subrange(0, i as int),
            decreases self.spots@.len() - i,
        {
            let p = self.spots[i];
            let ghost prev = out@;
            if p.0 != id {
                out.push(p);
                proof {
                    assert forall|a: int, b: int| 0 <= a < b < out@.len() implies (#[trigger] out@[a]).1 != (#[trigger] out@[b]).1 by {
                        if b == out@.len() - 1 {
                            assert(prev[a] == out@[a]);
                            let k = choose|k: int| 0 <= k < i && #[trigger] prev[a] == self.spots@[k];
                            assert(self.spots@[k].1 != self.spots@[i as int].1);
                        }
                    }
                    assert forall|a: int| 0 <= a < out@.len() implies exists|k: int| 0 <= k < i + 1 && #[trigger] out@[a] == self.spots@[k] by {
                        if a < prev.len() {
                            assert(prev[a] == out@[a]);
                        } else {
                            assert(out@[a] == self.spots@[i as int]);
                        }
                    }
                    assert forall|q: (LaneID, CarID)| #[trigger] out@.contains(q) <==> (exists|k: int| 0 <= k < i + 1 && self.spots@[k] == q) && q.0 != id by {
                        if out@.contains(q) {
                            let j = choose|j: int| 0 <= j < out@.len() && out@[j] == q;
                            if j < prev.len() {
                                assert(prev[j] == q);
                                assert(prev.contains(q));
                            }
                        }
                        if (exists|k: int| 0 <= k < i + 1 && self.spots@[k] == q) && q.0 != id {
                            let k = choose|k: int| 0 <= k < i + 1 && self.spots@[k] == q;
                            if k < i {
                                assert(prev.contains(q));
                                let j = choose|j: int| 0 <= j < prev.len() && prev[j] == q;
                                assert(out@[j] == q);
                            } else {
                                assert(out@[prev.len() as int] == q);
                            }
                        }
                    }
                    if forall|k: int| 0 <= k < i + 1 ==> (#[trigger] self.spots@[k]).0 != id {
                        assert(out@ =~= self.spots@.subrange(0, i as int + 1));
                    }
                }
            } else {
                proof {
                    assert forall|q: (LaneID, CarID)| #[trigger] out@.contains(q) <==> (exists|k: int| 0 <= k < i + 1 && self.spots@[k] == q) && q.0 != id by {
                        if (exists|k: int| 0 <= k < i + 1 && self.spots@[k] == q) && q.0 != id {
                            let k = choose|k: int| 0 <= k < i + 1 && self.spots@[k] == q;
                            assert(k < i);
                        }
                    }
                    assert forall|a: int| 0 <= a < out@.len() implies exists|k: int| 0 <= k < i + 1 && #[trigger] out@[a] == self.spots@[k] by {
                        let k = choose|k: int| 0 <= k < i && #[trigger] out@[a] == self.spots@[k];
                    }
                    assert(!(forall|k: int| 0 <= k < i + 1 ==> (#[trigger] self.spots@[k]).0 != id)) by {
                        assert(self.spots@[i as int].0 == id);
                    }
                }
            }
            i = i + 1;
        }
        proof {
            assert forall|p: (LaneID, CarID)| #[trigger] out@.contains(p) <==> old(self).spots@.contains(p) && p.0 != id by {
                if old(self).spots@.contains(p) {
                    let k = choose|k: int| 0 <= k < old(self).spots@.len() && old(self).spots@[k] == p;
                    assert(self.spots@[k] == p);
                }
            }
            assert forall|c: CarID| exists|a: int| 0 <= a < out@.len() && (#[trigger] out@[a]).1 == c implies old(self).has_car(c) by {
                let a = choose|a: int| 0 <= a < out@.len() && (#[trigger] out@[a]).1 == c;
                let k = choose|k: int| 0 <= k < i && #[trigger] out@[a] == self.spots@[k];
                assert(old(self).spots@[k].1 == c);
            }
            assert(self.spots@.subrange(0, self.spots@.len() as int) =~= self.spots@);
        }
        self.spots = out;
    }

    /// The car parked last on lane `l`, if any.
    pub fn get_last_parked_car(&self, l: LaneID) -> (r: Option<CarID>)
        ensures
            self.is_last_on(l, r),
    {
        let mut i: usize = self.spots.len();
        while i > 0
            invariant
                i <= self.spots@.len(),
                forall|k: int| i <= k < self.spots@.len() ==> (#[trigger] self.spots@[k]).0 != l,
            decreases i,
        {
            i = i - 1;
            if self.spots[i].0 == l {
                let c = self.spots[i].1;
                assert(self.spots@[i as int] == (l, c));
                return Some(c);
            }
        }
        None
    }

    /// Takes car `car` off lane `l`.
    #[verifier::loop_isolation(false)]
    pub fn remove_last_parked_car(&mut self, l: LaneID, car: CarID)
        requires
            old(self).wf(),
        ensures
            final(self).wf(),
            final(self).lanes@ == old(self).lanes@,
            !final(self).has_car(car),
            forall|c: CarID| c != car ==> (#[trigger] final(self).has_car(c) <==> old(self).has_car(c)),
            old(self).has_car(car) ==> final(self).spots@.len() == old(self).spots@.len() - 1,
            !old(self).has_car(car) ==> final(self).spots@ == old(self).spots@,
    {
        let mut i: usize = 0;
        while i < self.spots.len()
            invariant
                i <= self.spots@.len(),
                self.spots@ == old(self).spots@,
                self.lanes@ == old(self).lanes@,
                old(self).wf(),
                forall|k: int| 0 <= k < i ==> (#[trigger] self.spots@[k]).1 != car,
            decreases self.spots@.len() - i,
        {
            if self.spots[i].1 == car {
                let ghost before = self.spots@;
                self.spots.remove(i);
                proof {
                    assert forall|a: int, b: int| 0 <= a < b < self.spots@.len() implies (#[trigger] self.spots@[a]).1 != (#[trigger] self.spots@[b]).1 by {
                        let a2 = if a < i { a } else { a + 1 };
                        let b2 = if b < i { b } else { b + 1 };
                        assert(self.spots@[a] == before[a2]);
                        assert(self.spots@[b] == before[b2]);
                        assert(before[a2].1 != before[b2].1);
                    }
                    assert forall|k: int| 0 <= k < self.spots@.len() implies (#[trigger] self.spots@[k]).1 != car by {
                        let k2 = if k < i { k } else { k + 1 };
                        assert(self.spots@[k] == before[k2]);
                        assert(before[k2].1 != before[i as int].1);
                    }
                    assert forall|c: CarID| c != car implies (#[trigger] self.has_car(c) <==> old(self).has_car(c)) by {
                        if old(self).has_car(c) {
                            let k = choose|k: int| 0 <= k < before.len() && (#[trigger] before[k]).1 == c;
                            if k < i {
                                assert(self.spots@[k] == before[k]);
                            } else {
                                assert(k != i);
                                assert(self.spots@[k - 1] == before[k]);
                            }
                        }
                        if self.has_car(c) {
                            let k = choose|k: int| 0 <= k < self.spots@.len() && (#[trigger] self.spots@[k]).1 == c;
                            let k2 = if k < i { k } else { k + 1 };
                            assert(self.spots@[k] == before[k2]);
                        }
                    }
                }
                return;
            }
            i = i + 1;
        }
    }

    /// How many cars stand on lane `l`.
    fn count_on(&self, l: LaneID) -> (r: usize)
        ensures
            r <= self.spots@.len(),
    {
        let mut n: usize = 0;
        let mut i: usize = 0;
        while i < self.spots.len()
            invariant
                i <= self.spots@.len(),
                n <= i,
            decreases self.spots@.len() - i,
        {
            if self.spots[i].0 == l {
                n = n + 1;
            }
            i = i + 1;
        }
        n
    }

    /// Fills each free spot of each served lane with a new car with probability
    /// `percent` in a hundred. New cars take their ids from `counter`, which grows by
    /// one for each; seeding stops when the counter can grow no more.
    pub fn seed_random_cars(&mut self, rng: &mut XorShiftRng, percent: u8, counter: &mut usize)
        requires
            old(self).wf(),
            forall|c: CarID| #[trigger] old(self).has_car(c) ==> c < *old(counter),
        ensures
            final(self).wf(),
            final(self).lanes@ == old(self).lanes@,
            *final(counter) >= *old(counter),
            final(self).spots@.len() == old(self).spots@.len() + (*final(counter) - *old(counter)),
            final(self).spots@.subrange(0, old(self).spots@.len() as int) == old(self).spots@,
            forall|k: int| old(self).spots@.len() <= k < final(self).spots@.len() ==>
                *old(counter) <= (#[trigger] final(self).spots@[k]).1 < *final(counter),
            forall|c: CarID| #[trigger] final(self).has_car(c) ==> c < *final(counter),
            percent == 0 ==> *final(counter) == *old(counter),
    {
        let ghost start = self.spots@;
        let ghost c0 = *counter;
        let mut li: usize = 0;
        while li < self.lanes.len()
            invariant
                self.wf(),
                self.lanes@ == old(self).lanes@,
                li <= self.lanes@.len(),
                *counter >= c0,
                self.spots@.len() == start.len() + (*counter - c0),
                self.spots@.subrange(0, start.len() as int) == start,
                forall|k: int| start.len() <= k < self.spots@.len() ==> c0 <= (#[trigger] self.spots@[k]).1 < *counter,
                forall|c: CarID| #[trigger] self.has_car(c) ==> c < *counter,
                percent == 0 ==> *counter == c0,
            decreases self.lanes@.len() - li,
        {
            let lane = self.lanes[li];
            let mut s: usize = self.count_on(lane);
            while s < SPOTS_PER_LANE
                invariant
                    self.wf(),
                    self.lanes@ == old(self).lanes@,
                    *counter >= c0,
                    self.spots@.len() == start.len() + (*counter - c0),
                    self.spots@.subrange(0, start.len() as int) == start,
                    forall|k: int| start.len() <= k < self.spots@.len() ==> c0 <= (#[trigger] self.spots@[k]).1 < *counter,
                    forall|c: CarID| #[trigger] self.has_car(c) ==> c < *counter,
                    percent == 0 ==> *counter == c0,
                decreases SPOTS_PER_LANE - s,
            {
                let draw = gen_index(rng, 100);
                if draw < percent as usize && *counter < usize::MAX {
                    let id = *counter;
                    proof {
                        assert forall|k: int| 0 <= k < self.spots@.len() implies (#[trigger] self.spots@[k]).1 < id by {
                            assert(self.has_car(self.spots@[k].1));
                        }
                    }
                    let ghost before = self.spots@;
                    self.spots.push((lane, id));
                    *counter = id + 1;
                    proof {
                        assert forall|a: int, b: int| 0 <= a < b < self.spots@.len() implies (#[trigger] self.spots@[a]).1 != (#[trigger] self.spots@[b]).1 by {
                            if b == self.spots@.len() - 1 {
                                assert(before[a] == self.spots@[a]);
                            }
                        }
                        assert forall|k: int| start.len() <= k < self.spots@.len() implies c0 <= (#[trigger] self.spots@[k]).1 < *counter by {
                            if k < before.len() {
                                assert(self.spots@[k] == before[k]);
                            }
                        }
                        assert forall|c: CarID| #[trigger] self.has_car(c) implies c < *counter by {
                            let k = choose|k: int| 0 <= k < self.spots@.len() && (#[trigger] self.spots@[k]).1 == c;
                            if k < before.len() {
                                assert(before[k].1 == c);
                            }
                        }
                        assert(self.spots@.subrange(0, start.len() as int) =~= start) by {
                            assert(before.subrange(0, start.len() as int) == start);
                            assert forall|k: int| 0 <= k < start.len() implies self.spots@[k] == before[k] by {}
                        }
                    }
                }
                s = s + 1;
            }
            li = li + 1;
        }
    }

    /// How many cars are parked.
    pub fn total_count(&self) -> (r: usize)
        ensures
            r == self.spots@.len(),
    {
        self.spots.len()
    }
}

} // verus!
