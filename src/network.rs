//! The road network: lanes grouped into roads, and turns between lanes.
use vstd::prelude::*;

verus! {

/// Index of a lane in its map.
pub type LaneID = usize;

/// Index of a turn in its map.
pub type TurnID = usize;

/// Index of a road in its map.
pub type RoadID = usize;

#[derive(Clone, Copy, PartialEq, Eq, Structural, Debug)]
pub enum LaneType {
    Driving,
    Parking,
    Sidewalk,
    Biking,
}

#[derive(Clone, Copy, PartialEq, Eq, Structural, Debug)]
pub struct Lane {
    pub id: LaneID,
    pub lane_type: LaneType,
    pub road: RoadID,
}

#[derive(Clone, Copy, PartialEq, Eq, Structural, Debug)]
pub struct Turn {
    pub id: TurnID,
    pub src: LaneID,
    pub dst: LaneID,
    /// Set when both ends of the turn are sidewalks.
    pub between_sidewalks: bool,
}

/// A read-only road network. Lane `i` and turn `i` are stored at index `i`.
pub struct RoadMap {
    pub lanes: Vec<Lane>,
    pub turns: Vec<Turn>,
    pub num_roads: usize,
}

/// The first lane of `road` whose type is `t`, if any.
pub open spec fn is_first_lane_of(lanes: Seq<Lane>, road: RoadID, t: LaneType, r: Option<LaneID>) -> bool {
    match r {
        None => forall|j: int| 0 <= j < lanes.len() ==> !((#[trigger] lanes[j]).road == road && lanes[j].lane_type == t),
        Some(x) => {
            &&& x < lanes.len()
            &&& lanes[x as int].road == road
            &&& lanes[x as int].lane_type == t
            &&& forall|j: int| 0 <= j < x ==> !((#[trigger] lanes[j]).road == road && lanes[j].lane_type == t)
        },
    }
}

/// The first lane of `road` whose type is `t`, as a value.
pub open spec fn first_lane_of(lanes: Seq<Lane>, road: RoadID, t: LaneType) -> Option<LaneID> {
    if exists|x: LaneID| is_first_lane_of(lanes, road, t, Some(x)) {
        Some(choose|x: LaneID| is_first_lane_of(lanes, road, t, Some(x)))
    } else {
        None
    }
}

/// At most one answer meets `is_first_lane_of`.
pub proof fn lemma_first_lane_unique(lanes: Seq<Lane>, road: RoadID, t: LaneType, r: Option<LaneID>)
    requires
        is_first_lane_of(lanes, road, t, r),
    ensures
        r == first_lane_of(lanes, road, t),
{
    match r {
        None => {
            if exists|x: LaneID| is_first_lane_of(lanes, road, t, Some(x)) {
                let x = choose|x: LaneID| is_first_lane_of(lanes, road, t, Some(x));
                assert(lanes[x as int].road == road);
            }
        },
        Some(x) => {
            let y = choose|y: LaneID| is_first_lane_of(lanes, road, t, Some(y));
            if y < x {
                assert(lanes[y as int].road == road);
            } else if x < y {
                assert(lanes[x as int].road == road);
            }
        },
    }
}

/// The ids of the lanes of type `t`, in increasing order.
pub open spec fn lanes_of_type(lanes: Seq<Lane>, t: LaneType) -> Seq<LaneID>
    decreases lanes.len(),
{
    if lanes.len() == 0 {
        Seq::empty()
    } else {
        let rest = lanes_of_type(lanes.drop_last(), t);
        if lanes.last().lane_type == t { rest.push((lanes.len() - 1) as LaneID) } else { rest }
    }
}

/// The ids of the turns that do not join two sidewalks, in increasing order.
pub open spec fn road_turns(turns: Seq<Turn>) -> Seq<TurnID>
    decreases turns.len(),
{
    if turns.len() == 0 {
        Seq::empty()
    } else {
        let rest = road_turns(turns.drop_last());
        if !turns.last().between_sidewalks { rest.push((turns.len() - 1) as TurnID) } else { rest }
    }
}

impl RoadMap {
    pub open spec fn wf(&self) -> bool {
        &&& forall|i: int| 0 <= i < self.lanes.len() ==> (#[trigger] self.lanes[i]).id == i
            && self.lanes[i].road < self.num_roads
        &&& forall|i: int| 0 <= i < self.turns.len() ==> (#[trigger] self.turns[i]).id == i
            && self.turns[i].src < self.lanes.len() && self.turns[i].dst < self.lanes.len()
    }

    /// The parking lane that serves lane `l`.
    pub open spec fn parking_lane_of(&self, l: LaneID) -> Option<LaneID> {
        first_lane_of(self.lanes@, self.lanes@[l as int].road, LaneType::Parking)
    }

    /// The driving lane that serves lane `l`.
    pub open spec fn driving_lane_of(&self, l: LaneID) -> Option<LaneID> {
        first_lane_of(self.lanes@, self.lanes@[l as int].road, LaneType::Driving)
    }

    pub open spec fn lane_type_of(&self, l: LaneID) -> LaneType {
        self.lanes@[l as int].lane_type
    }

    /// Some turn of the map leads from `a` to `b`.
    pub open spec fn connected(&self, a: LaneID, b: LaneID) -> bool {
        exists|t: int| 0 <= t < self.turns.len() && (#[trigger] self.turns[t]).src == a && self.turns[t].dst == b
    }

    /// Some path leads from `a` to `b`.
    pub open spec fn reachable(&self, a: LaneID, b: LaneID) -> bool {
        exists|p: Seq<LaneID>| self.is_path(p, a, b)
    }

    /// `p` is a sequence of lanes from `start` to `goal`, each joined to the next by a turn.
    pub open spec fn is_path(&self, p: Seq<LaneID>, start: LaneID, goal: LaneID) -> bool {
        &&& p.len() >= 1
        &&& p[0] == start
        &&& p.last() == goal
        &&& forall|i: int| 0 <= i < p.len() ==> #[trigger] p[i] < self.lanes.len()
        &&& forall|i: int| 0 <= i < p.len() - 1 ==> self.connected(#[trigger] p[i], p[i + 1])
    }

    pub fn new() -> (m: RoadMap)
        ensures
            m.wf(),
            m.lanes@.len() == 0,
            m.turns@.len() == 0,
            m.num_roads == 0,
    {
        RoadMap { lanes: Vec::new(), turns: Vec::new(), num_roads: 0 }
    }

    /// Adds an empty road and returns its id.
    pub fn add_road(&mut self) -> (r: RoadID)
        requires
            old(self).wf(),
            old(self).num_roads < usize::MAX,
        ensures
            final(self).wf(),
            r == old(self).num_roads,
            final(self).num_roads == old(self).num_roads + 1,
            final(self).lanes@ == old(self).lanes@,
            final(self).turns@ == old(self).turns@,
    {
        let r = self.num_roads;
        self.num_roads = self.num_roads + 1;
        r
    }

    /// Adds a lane of type `lane_type` to `road` and returns its id.
    pub fn add_lane(&mut self, road: RoadID, lane_type: LaneType) -> (r: LaneID)
        requires
            old(self).wf(),
            road < old(self).num_roads,
        ensures
            final(self).wf(),
            r == old(self).lanes@.len(),
            final(self).lanes@ == old(self).lanes@.push(Lane { id: r, lane_type, road }),
            final(self).turns@ == old(self).turns@,
            final(self).num_roads == old(self).num_roads,
    {
        let id = self.lanes.len();
        self.lanes.push(Lane { id, lane_type, road });
        id
    }

    /// Adds a turn from `src` to `dst` and returns its id.
    pub fn add_turn(&mut self, src: LaneID, dst: LaneID) -> (r: TurnID)
        requires
            old(self).wf(),
            src < old(self).lanes@.len(),
            dst < old(self).lanes@.len(),
        ensures
            final(self).wf(),
            r == old(self).turns@.len(),
            final(self).turns@ == old(self).turns@.push(Turn {
                id: r,
                src,
                dst,
                between_sidewalks: old(self).lane_type_of(src) == LaneType::Sidewalk
                    && old(self).lane_type_of(dst) == LaneType::Sidewalk,
            }),
            final(self).lanes@ == old(self).lanes@,
            final(self).num_roads == old(self).num_roads,
    {
        let id = self.turns.len();
        let between_sidewalks = self.lanes[src].lane_type == LaneType::Sidewalk
            && self.lanes[dst].lane_type == LaneType::Sidewalk;
        self.turns.push(Turn { id, src, dst, between_sidewalks });
        id
    }

    /// Changes the type of lane `id`, as a live edit of the map does.
    pub fn set_lane_type(&mut self, id: LaneID, lane_type: LaneType)
        requires
            old(self).wf(),
            id < old(self).lanes@.len(),
        ensures
            final(self).wf(),
            final(self).lanes@ == old(self).lanes@.update(
                id as int,
                Lane { id, lane_type, road: old(self).lanes@[id as int].road },
            ),
            final(self).turns@ == old(self).turns@,
            final(self).num_roads == old(self).num_roads,
    {
        let road = self.lanes[id].road;
        self.lanes.set(id, Lane { id, lane_type, road });
    }

    pub fn get_l(&self, id: LaneID) -> (r: &Lane)
        requires
            id < self.lanes@.len(),
        ensures
            *r == self.lanes@[id as int],
    {
        &self.lanes[id]
    }

    pub fn get_t(&self, id: TurnID) -> (r: &Turn)
        requires
            id < self.turns@.len(),
        ensures
            *r == self.turns@[id as int],
    {
        &self.turns[id]
    }

    pub fn all_lanes(&self) -> (r: &Vec<Lane>)
        ensures
            r@ == self.lanes@,
    {
        &self.lanes
    }

    /// The first lane of the road that holds `id` whose type is `t`.
    pub fn find_lane_of_type(&self, id: LaneID, t: LaneType) -> (r: Option<LaneID>)
        requires
            self.wf(),
            id < self.lanes@.len(),
        ensures
            is_first_lane_of(self.lanes@, self.lanes@[id as int].road, t, r),
    {
        let road = self.lanes[id].road;
        let mut j: usize = 0;
        while j < self.lanes.len()
            invariant
                j <= self.lanes@.len(),
                id < self.lanes@.len(),
                road == self.lanes@[id as int].road,
                forall|k: int| 0 <= k < j ==> !((#[trigger] self.lanes@[k]).road == road && self.lanes@[k].lane_type == t),
            decreases self.lanes@.len() - j,
        {
            if self.lanes[j].road == road && self.lanes[j].lane_type == t {
                return Some(j);
            }
            j = j + 1;
        }
        None
    }

    /// The parking lane that serves lane `id`: the first parking lane of its road.
    pub fn find_parking_lane(&self, id: LaneID) -> (r: Option<LaneID>)
        requires
            self.wf(),
            id < self.lanes@.len(),
        ensures
            is_first_lane_of(self.lanes@, self.lanes@[id as int].road, LaneType::Parking, r),
            r == first_lane_of(self.lanes@, self.lanes@[id as int].road, LaneType::Parking),
    {
        let r = self.find_lane_of_type(id, LaneType::Parking);
        proof { lemma_first_lane_unique(self.lanes@, self.lanes@[id as int].road, LaneType::Parking, r); }
        r
    }

    /// The driving lane that serves lane `id`: the first driving lane of its road.
    pub fn find_driving_lane(&self, id: LaneID) -> (r: Option<LaneID>)
        requires
            self.wf(),
            id < self.lanes@.len(),
        ensures
            is_first_lane_of(self.lanes@, self.lanes@[id as int].road, LaneType::Driving, r),
            r == first_lane_of(self.lanes@, self.lanes@[id as int].road, LaneType::Driving),
    {
        let r = self.find_lane_of_type(id, LaneType::Driving);
        proof { lemma_first_lane_unique(self.lanes@, self.lanes@[id as int].road, LaneType::Driving, r); }
        r
    }
}

/// Distinct values below `m` number at most `m`.
proof fn lemma_distinct_below(s: Seq<usize>, m: nat)
    requires
        s.no_duplicates(),
        forall|k: int| 0 <= k < s.len() ==> (#[trigger] s[k]) < m,
    ensures
        s.len() <= m,
    decreases m,
{
    if m == 0 {
        if s.len() > 0 {
            assert(s[0] < 0);
        }
    } else if s.contains((m - 1) as usize) {
        let j = choose|j: int| 0 <= j < s.len() && s[j] == (m - 1) as usize;
        let t = s.remove(j);
        assert forall|k: int| 0 <= k < t.len() implies (#[trigger] t[k]) < m - 1 by {
            let k2 = if k < j { k } else { k + 1 };
            assert(t[k] == s[k2]);
            assert(k2 != j);
        }
        assert forall|a: int, b: int| 0 <= a < t.len() && 0 <= b < t.len() && a != b implies t[a] != t[b] by {
            let a2 = if a < j { a } else { a + 1 };
            let b2 = if b < j { b } else { b + 1 };
            assert(t[a] == s[a2]);
            assert(t[b] == s[b2]);
        }
        lemma_distinct_below(t, (m - 1) as nat);
    } else {
        assert forall|k: int| 0 <= k < s.len() implies (#[trigger] s[k]) < m - 1 by {
            assert(s[k] != (m - 1) as usize);
        }
        lemma_distinct_below(s, (m - 1) as nat);
    }
}

/// Distinct values below `n` that avoid one value below `n` number fewer than `n`.
proof fn lemma_distinct_avoiding(s: Seq<usize>, n: usize, x: usize)
    requires
        s.no_duplicates(),
        x < n,
        forall|k: int| 0 <= k < s.len() ==> (#[trigger] s[k]) < n && s[k] != x,
    ensures
        s.len() < n,
{
    let t = s.map_values(|v: usize| if v == (n - 1) as usize { x } else { v });
    assert forall|k: int| 0 <= k < t.len() implies (#[trigger] t[k]) < n - 1 by {
        if s[k] == (n - 1) as usize {
            assert(x != n - 1);
        }
    }
    assert forall|a: int, b: int| 0 <= a < t.len() && 0 <= b < t.len() && a != b implies t[a] != t[b] by {
        assert(s[a] != s[b]);
    }
    lemma_distinct_below(t, (n - 1) as nat);
}

/// A set of lanes that holds `p[0]` and is closed under the map's turns holds all of `p`.
proof fn lemma_closed_holds_path(map: &RoadMap, visited: Seq<bool>, p: Seq<LaneID>, k: int)
    requires
        p.len() >= 1,
        0 <= k < p.len(),
        visited.len() == map.lanes@.len(),
        forall|i: int| 0 <= i < p.len() ==> #[trigger] p[i] < map.lanes@.len(),
        forall|i: int| 0 <= i < p.len() - 1 ==> map.connected(#[trigger] p[i], p[i + 1]),
        visited[p[0] as int],
        forall|a: LaneID, b: LaneID| a < visited.len() && b < visited.len() && #[trigger] visited[a as int]
            && #[trigger] map.connected(a, b) ==> visited[b as int],
    ensures
        visited[p[k] as int],
    decreases k,
{
    if k > 0 {
        lemma_closed_holds_path(map, visited, p, k - 1);
        assert(map.connected(p[k - 1], p[k]));
    }
}

/// Searches the map breadth-first for a sequence of lanes from `start` to `goal`.
/// Each lane is entered at most once, so the path found is a shortest one in turns.
pub fn pathfind(map: &RoadMap, start: LaneID, goal: LaneID) -> (r: Option<Vec<LaneID>>)
    requires
        map.wf(),
    ensures
        r.is_some() ==> map.is_path(r.unwrap()@, start, goal),
        r.is_none() ==> forall|p: Seq<LaneID>| !map.is_path(p, start, goal),
        start == goal && start < map.lanes@.len() ==> r.is_some() && r.unwrap()@ == seq![start],
{
    let n = map.lanes.len();
    if start >= n || goal >= n {
        return None;
    }
    let mut visited: Vec<bool> = Vec::new();
    let mut v: usize = 0;
    while v < n
        invariant
            v <= n,
            visited@.len() == v,
            forall|k: int| 0 <= k < v ==> !visited@[k],
        decreases n - v,
    {
        visited.push(false);
        v = v + 1;
    }
    visited.set(start, true);
    let mut queue: Vec<Vec<LaneID>> = Vec::new();
    queue.push(vec![start]);
    assert(queue@[0]@ =~= seq![start]);
    proof {
        assert forall|x: int| 0 <= x < n implies (visited@[x] <==> exists|q: int| 0 <= q < queue@.len() && #[trigger] queue@[q]@.last() == x) by {
            assert(queue@[0]@.last() == start);
            if x != start {
                assert(!visited@[x]);
            }
        }
    }
    let mut i: usize = 0;
    while i < queue.len()
        invariant
            map.wf(),
            n == map.lanes@.len(),
            start < n,
            goal < n,
            visited@.len() == n,
            queue@.len() <= n,
            i <= queue@.len(),
            queue@.len() >= 1,
            start == goal ==> i == 0,
            queue@[0]@ == seq![start],
            forall|q: int| 0 <= q < queue@.len() ==> map.is_path(#[trigger] queue@[q]@, start, queue@[q]@.last()),
            forall|x: int| 0 <= x < n ==> (visited@[x] <==> exists|q: int| 0 <= q < queue@.len() && #[trigger] queue@[q]@.last() == x),
            forall|a: int, b: int| 0 <= a < b < queue@.len() ==> (#[trigger] queue@[a]@).last() != (#[trigger] queue@[b]@).last(),
            forall|q: int, t: int| 0 <= q < i && 0 <= t < map.turns@.len() && (#[trigger] map.turns@[t]).src == (#[trigger] queue@[q]@).last()
                ==> visited@[map.turns@[t].dst as int],
            forall|q: int| 0 <= q < i ==> (#[trigger] queue@[q]@).last() != goal,
        decreases n - i,
    {
        let last = queue[i][queue[i].len() - 1];
        if last == goal {
            let found = queue.remove(i);
            return Some(found);
        }
        let mut k: usize = 0;
        while k < map.turns.len()
            invariant
                map.wf(),
                n == map.lanes@.len(),
                start < n,
                visited@.len() == n,
                queue@.len() <= n,
                i < queue@.len(),
                queue@[0]@ == seq![start],
                last == queue@[i as int]@.last(),
                last != goal,
                forall|q: int| 0 <= q < queue@.len() ==> map.is_path(#[trigger] queue@[q]@, start, queue@[q]@.last()),
                forall|x: int| 0 <= x < n ==> (visited@[x] <==> exists|q: int| 0 <= q < queue@.len() && #[trigger] queue@[q]@.last() == x),
                forall|a: int, b: int| 0 <= a < b < queue@.len() ==> (#[trigger] queue@[a]@).last() != (#[trigger] queue@[b]@).last(),
                forall|q: int, t: int| 0 <= q < i && 0 <= t < map.turns@.len() && (#[trigger] map.turns@[t]).src == (#[trigger] queue@[q]@).last()
                    ==> visited@[map.turns@[t].dst as int],
                forall|t: int| 0 <= t < k && (#[trigger] map.turns@[t]).src == last ==> visited@[map.turns@[t].dst as int],
                forall|q: int| 0 <= q < i ==> (#[trigger] queue@[q]@).last() != goal,
            decreases map.turns@.len() - k,
        {
            let t = &map.turns[k];
            if t.src == last && !visited[t.dst] {
                let ghost ends = Seq::new(queue@.len(), |q: int| queue@[q]@.last());
                proof {
                    assert forall|a: int, b: int| 0 <= a < ends.len() && 0 <= b < ends.len() && a != b implies ends[a] != ends[b] by {
                        if a < b {
                            assert(queue@[a]@.last() != queue@[b]@.last());
                        } else {
                            assert(queue@[b]@.last() != queue@[a]@.last());
                        }
                    }
                    assert forall|q: int| 0 <= q < ends.len() implies (#[trigger] ends[q]) < n && ends[q] != t.dst by {
                        assert(map.is_path(queue@[q]@, start, queue@[q]@.last()));
                        assert(queue@[q]@[queue@[q]@.len() - 1] < n);
                        if ends[q] == t.dst {
                            assert(visited@[t.dst as int]);
                        }
                    }
                    lemma_distinct_avoiding(ends, n, t.dst);
                }
                let ghost old_queue = queue@;
                let ghost old_visited = visited@;
                visited.set(t.dst, true);
                let mut next = queue[i].clone();
                let ghost prev = queue@[i as int]@;
                assert(next@ =~= prev);
                next.push(t.dst);
                proof {
                    assert(map.connected(prev.last(), t.dst)) by {
                        assert(map.turns@[k as int].src == prev.last());
                    }
                    assert forall|j: int| 0 <= j < next@.len() - 1 implies map.connected(#[trigger] next@[j], next@[j + 1]) by {
                        if j < prev.len() - 1 {
                            assert(next@[j] == prev[j] && next@[j + 1] == prev[j + 1]);
                        }
                    }
                    assert forall|j: int| 0 <= j < next@.len() implies #[trigger] next@[j] < n by {
                        if j < prev.len() {
                            assert(next@[j] == prev[j]);
                        }
                    }
                }
                queue.push(next);
                proof {
                    let m = old_queue.len() as int;
                    assert(queue@[m]@.last() == t.dst);
                    assert forall|x: int| 0 <= x < n implies (visited@[x] <==> exists|q: int| 0 <= q < queue@.len() && #[trigger] queue@[q]@.last() == x) by {
                        if x == t.dst {
                        } else {
                            assert(visited@[x] == old_visited[x]);
                            if old_visited[x] {
                                let q = choose|q: int| 0 <= q < old_queue.len() && #[trigger] old_queue[q]@.last() == x;
                                assert(queue@[q] == old_queue[q]);
                            }
                            if exists|q: int| 0 <= q < queue@.len() && #[trigger] queue@[q]@.last() == x {
                                let q = choose|q: int| 0 <= q < queue@.len() && #[trigger] queue@[q]@.last() == x;
                                assert(q != m);
                                assert(queue@[q] == old_queue[q]);
                            }
                        }
                    }
                    assert forall|a: int, b: int| 0 <= a < b < queue@.len() implies (#[trigger] queue@[a]@).last() != (#[trigger] queue@[b]@).last() by {
                        assert(queue@[a] == old_queue[a]);
                        if b == m {
                            assert(!old_visited[t.dst as int]);
                            assert(old_queue[a]@.last() < n) by {
                                assert(map.is_path(old_queue[a]@, start, old_queue[a]@.last()));
                                assert(old_queue[a]@[old_queue[a]@.len() - 1] < n);
                            }
                        } else {
                            assert(queue@[b] == old_queue[b]);
                        }
                    }
                    assert forall|q: int| 0 <= q < queue@.len() implies map.is_path(#[trigger] queue@[q]@, start, queue@[q]@.last()) by {
                        if q < m {
                            assert(queue@[q] == old_queue[q]);
                        }
                    }
                    assert forall|q: int, u: int| 0 <= q < i && 0 <= u < map.turns@.len() && (#[trigger] map.turns@[u]).src == (#[trigger] queue@[q]@).last()
                        implies visited@[map.turns@[u].dst as int] by {
                        assert(queue@[q] == old_queue[q]);
                    }
                    assert forall|q: int| 0 <= q < i implies (#[trigger] queue@[q]@).last() != goal by {
                        assert(queue@[q] == old_queue[q]);
                    }
                }
            }
            k = k + 1;
        }
        i = i + 1;
    }
    proof {
        assert forall|a: LaneID, b: LaneID| a < visited@.len() && b < visited@.len() && #[trigger] visited@[a as int]
            && #[trigger] map.connected(a, b) implies visited@[b as int] by {
            let q = choose|q: int| 0 <= q < queue@.len() && #[trigger] queue@[q]@.last() == a as int;
            let t = choose|t: int| 0 <= t < map.turns@.len() && (#[trigger] map.turns@[t]).src == a && map.turns@[t].dst == b;
        }
        assert forall|p: Seq<LaneID>| !map.is_path(p, start, goal) by {
            if map.is_path(p, start, goal) {
                lemma_closed_holds_path(map, visited@, p, p.len() - 1);
                let q = choose|q: int| 0 <= q < queue@.len() && #[trigger] queue@[q]@.last() == goal as int;
            }
        }
    }
    None
}

} // verus!
