use vstd::prelude::*;

verus! {

/// A position in the world, on an integer grid.
#[derive(Clone, Copy, Debug, PartialEq, Eq, Structural)]
pub struct Point {
    pub x: i32,
    pub y: i32,
    pub z: i32,
}

/// Squared euclidean distance between two points.
pub open spec fn dist2_spec(a: Point, b: Point) -> int {
    (a.x - b.x) * (a.x - b.x) + (a.y - b.y) * (a.y - b.y) + (a.z - b.z) * (a.z - b.z)
}

fn axis_gap(a: i32, b: i32) -> (r: u128)
    ensures
        r == (if a >= b { a - b } else { b - a }),
        r < 0x1_0000_0000,
{
    if a >= b {
        (a as i64 - b as i64) as u128
    } else {
        (b as i64 - a as i64) as u128
    }
}

/// Squared euclidean distance between `a` and `b`.
pub fn dist2(a: Point, b: Point) -> (r: u128)
    ensures
        r == dist2_spec(a, b),
{
    let dx = axis_gap(a.x, b.x);
    let dy = axis_gap(a.y, b.y);
    let dz = axis_gap(a.z, b.z);
    assert(dx * dx == (a.x - b.x) * (a.x - b.x)) by (nonlinear_arith)
        requires dx == (if a.x >= b.x { a.x - b.x } else { b.x - a.x });
    assert(dy * dy == (a.y - b.y) * (a.y - b.y)) by (nonlinear_arith)
        requires dy == (if a.y >= b.y { a.y - b.y } else { b.y - a.y });
    assert(dz * dz == (a.z - b.z) * (a.z - b.z)) by (nonlinear_arith)
        requires dz == (if a.z >= b.z { a.z - b.z } else { b.z - a.z });
    assert(dx * dx < 0x1_0000_0000_0000_0000) by (nonlinear_arith)
        requires dx < 0x1_0000_0000;
    assert(dy * dy < 0x1_0000_0000_0000_0000) by (nonlinear_arith)
        requires dy < 0x1_0000_0000;
    assert(dz * dz < 0x1_0000_0000_0000_0000) by (nonlinear_arith)
        requires dz < 0x1_0000_0000;
    dx * dx + dy * dy + dz * dz
}

/// Index of a lane in the map's lane arena.
#[derive(Clone, Copy, Debug, PartialEq, Eq, Structural, Hash, PartialOrd, Ord)]
pub struct LaneID(pub usize);

/// Index of an intersection in the map's intersection arena.
#[derive(Clone, Copy, Debug, PartialEq, Eq, Structural, Hash, PartialOrd, Ord)]
pub struct IntersectionID(pub usize);

/// Index of a road in the map's road arena.
#[derive(Clone, Copy, Debug, PartialEq, Eq, Structural, Hash, PartialOrd, Ord)]
pub struct RoadID(pub usize);

/// Index of a parking spot in the spot registry.
#[derive(Clone, Copy, Debug, PartialEq, Eq, Structural, Hash, PartialOrd, Ord)]
pub struct ParkingSpotID(pub usize);

/// What a lane is for.
#[derive(Clone, Copy, Debug, PartialEq, Eq, Structural)]
pub enum LaneKind {
    Walking,
    Parking,
    Driving,
    Bus,
    Biking,
    Rail,
}

/// A directed lane between two intersections, owned by a road.
#[derive(Clone, Copy, Debug, PartialEq, Eq, Structural)]
pub struct Lane {
    pub kind: LaneKind,
    pub src: IntersectionID,
    pub dst: IntersectionID,
    pub parent: RoadID,
}

/// A directed connection from lane `src` to lane `dst` through an intersection.
#[derive(Clone, Copy, Debug, PartialEq, Eq, Structural)]
pub struct Turn {
    pub src: LaneID,
    pub dst: LaneID,
}

/// An intersection and the turns through it.
pub struct Intersection {
    pub turns: Vec<Turn>,
}

/// A road and its lanes, listed from the center outwards on each side.
pub struct Road {
    pub lanes_forward: Vec<(LaneID, LaneKind)>,
    pub lanes_backward: Vec<(LaneID, LaneKind)>,
}

/// An entry of the spatial index of lanes: a lane, its kind and where it lies.
#[derive(Clone, Copy, Debug, PartialEq, Eq, Structural)]
pub struct LaneAnchor {
    pub lane: LaneID,
    pub kind: LaneKind,
    pub pos: Point,
}

/// A parking spot placed along a parking lane.
#[derive(Clone, Copy, Debug, PartialEq, Eq, Structural)]
pub struct ParkingSpot {
    pub parent: LaneID,
    pub pos: Point,
}

/// The registry of parking spots; a removed spot leaves `None` in its slot.
pub struct ParkingSpots {
    pub spots: Vec<Option<ParkingSpot>>,
}

/// The road graph: arenas of lanes, intersections and roads (a removed
/// element leaves `None` in its slot), the spatial index of lanes, and the
/// parking spots.
pub struct RoadMap {
    pub lanes: Vec<Option<Lane>>,
    pub intersections: Vec<Option<Intersection>>,
    pub roads: Vec<Option<Road>>,
    pub lane_index: Vec<LaneAnchor>,
    pub parking: ParkingSpots,
}

impl Intersection {
    /// Whether the intersection has a turn from `src` to `dst`.
    pub open spec fn has_turn(&self, src: LaneID, dst: LaneID) -> bool {
        self.turns@.contains(Turn { src, dst })
    }

    /// The turns that leave `lane` through this intersection.
    pub fn turns_from(&self, lane: LaneID) -> (r: Vec<Turn>)
        ensures
            forall|t: Turn| #[trigger] r@.contains(t) <==> (self.turns@.contains(t) && t.src == lane),
    {
        let mut r: Vec<Turn> = Vec::new();
        let mut i: usize = 0;
        while i < self.turns.len()
            invariant
                i <= self.turns.len(),
                forall|t: Turn| #[trigger] r@.contains(t) <==> (exists|k: int| 0 <= k < i && self.turns@[k] == t) && t.src == lane,
            decreases self.turns.len() - i,
        {
            let t = self.turns[i];
            let ghost r0 = r@;
            if t.src == lane {
                r.push(t);
            }
            proof {
                assert forall|u: Turn| #[trigger] r@.contains(u) <==> (exists|k: int| 0 <= k < i + 1 && self.turns@[k] == u) && u.src == lane by {
                    if r@.contains(u) {
                        let j = choose|j: int| 0 <= j < r@.len() && r@[j] == u;
                        if j < r0.len() {
                            assert(r0[j] == u);
                            assert(r0.contains(u));
                            let k = choose|k: int| 0 <= k < i && self.turns@[k] == u;
                            assert(0 <= k < i + 1 && self.turns@[k] == u);
                        } else {
                            assert(self.turns@[i as int] == u);
                        }
                    }
                    if (exists|k: int| 0 <= k < i + 1 && self.turns@[k] == u) && u.src == lane {
                        let k = choose|k: int| 0 <= k < i + 1 && self.turns@[k] == u;
                        if k < i {
                            assert(r0.contains(u));
                            let j = choose|j: int| 0 <= j < r0.len() && r0[j] == u;
                            assert(r@[j] == u);
                        } else {
                            assert(r@[r@.len() - 1] == u);
                        }
                    }
                }
            }
            i += 1;
        }
        r
    }

    /// The turns that enter `lane` through this intersection.
    pub fn turns_to(&self, lane: LaneID) -> (r: Vec<Turn>)
        ensures
            forall|t: Turn| #[trigger] r@.contains(t) <==> (self.turns@.contains(t) && t.dst == lane),
    {
        let mut r: Vec<Turn> = Vec::new();
        let mut i: usize = 0;
        while i < self.turns.len()
            invariant
                i <= self.turns.len(),
                forall|t: Turn| #[trigger] r@.contains(t) <==> (exists|k: int| 0 <= k < i && self.turns@[k] == t) && t.dst == lane,
            decreases self.turns.len() - i,
        {
            let t = self.turns[i];
            let ghost r0 = r@;
            if t.dst == lane {
                r.push(t);
            }
            proof {
                assert forall|u: Turn| #[trigger] r@.contains(u) <==> (exists|k: int| 0 <= k < i + 1 && self.turns@[k] == u) && u.dst == lane by {
                    if r@.contains(u) {
                        let j = choose|j: int| 0 <= j < r@.len() && r@[j] == u;
                        if j < r0.len() {
                            assert(r0[j] == u);
                            assert(r0.contains(u));
                            let k = choose|k: int| 0 <= k < i && self.turns@[k] == u;
                            assert(0 <= k < i + 1 && self.turns@[k] == u);
                        } else {
                            assert(self.turns@[i as int] == u);
                        }
                    }
                    if (exists|k: int| 0 <= k < i + 1 && self.turns@[k] == u) && u.dst == lane {
                        let k = choose|k: int| 0 <= k < i + 1 && self.turns@[k] == u;
                        if k < i {
                            assert(r0.contains(u));
                            let j = choose|j: int| 0 <= j < r0.len() && r0[j] == u;
                            assert(r@[j] == u);
                        } else {
                            assert(r@[r@.len() - 1] == u);
                        }
                    }
                }
            }
            i += 1;
        }
        r
    }
}

/// The outermost parking lane of one side of a road.
pub open spec fn last_parking(side: Seq<(LaneID, LaneKind)>) -> Option<LaneID>
    decreases side.len(),
{
    if side.len() == 0 {
        None
    } else if side.last().1 == LaneKind::Parking {
        Some(side.last().0)
    } else {
        last_parking(side.drop_last())
    }
}

/// Whether `lane` is listed on one side of a road.
pub open spec fn side_has(side: Seq<(LaneID, LaneKind)>, lane: LaneID) -> bool {
    exists|i: int| 0 <= i < side.len() && #[trigger] side[i].0 == lane
}

fn side_contains(side: &Vec<(LaneID, LaneKind)>, lane: LaneID) -> (r: bool)
    ensures
        r == side_has(side@, lane),
{
    let mut i: usize = 0;
    while i < side.len()
        invariant
            i <= side.len(),
            forall|k: int| 0 <= k < i ==> #[trigger] side@[k].0 != lane,
        decreases side.len() - i,
    {
        if side[i].0 == lane {
            return true;
        }
        i += 1;
    }
    false
}

fn outermost_parking(side: &Vec<(LaneID, LaneKind)>) -> (r: Option<LaneID>)
    ensures
        r == last_parking(side@),
{
    let mut i: usize = side.len();
    assert(side@.take(i as int) =~= side@);
    while i > 0
        invariant
            i <= side.len(),
            last_parking(side@) == last_parking(side@.take(i as int)),
        decreases i,
    {
        let ghost prefix = side@.take(i as int);
        assert(prefix.drop_last() =~= side@.take(i - 1));
        if side[i - 1].1 == LaneKind::Parking {
            return Some(side[i - 1].0);
        }
        i -= 1;
    }
    assert(side@.take(0).len() == 0);
    None
}

impl Road {
    /// The parking lane on the same side of the road as `lane`, if any.
    pub open spec fn parking_next_to_spec(&self, lane: LaneID) -> Option<LaneID> {
        if side_has(self.lanes_forward@, lane) {
            last_parking(self.lanes_forward@)
        } else if side_has(self.lanes_backward@, lane) {
            last_parking(self.lanes_backward@)
        } else {
            None
        }
    }

    /// The parking lane on the same side of the road as `lane`: the outermost
    /// lane of kind `Parking` on that side, if there is one.
    pub fn parking_next_to(&self, lane: LaneID) -> (r: Option<LaneID>)
        ensures
            r == self.parking_next_to_spec(lane),
    {
        if side_contains(&self.lanes_forward, lane) {
            outermost_parking(&self.lanes_forward)
        } else if side_contains(&self.lanes_backward, lane) {
            outermost_parking(&self.lanes_backward)
        } else {
            None
        }
    }
}

/// Index of the anchor of kind `kind` nearest to `near` among `anchors`; on a
/// tie the first one.
pub open spec fn nearest_anchor(anchors: Seq<LaneAnchor>, kind: LaneKind, near: Point) -> Option<int>
    decreases anchors.len(),
{
    if anchors.len() == 0 {
        None
    } else {
        let rest = nearest_anchor(anchors.drop_last(), kind, near);
        let i = anchors.len() - 1;
        if anchors[i].kind == kind && (rest is None || dist2_spec(anchors[i].pos, near)
            < dist2_spec(anchors[rest->0].pos, near)) {
            Some(i)
        } else {
            rest
        }
    }
}

/// The anchor that `nearest_anchor` picks is of the requested kind and no
/// anchor of that kind is nearer; it picks none only when no anchor is of
/// that kind.
pub proof fn law_nearest_anchor_is_nearest(anchors: Seq<LaneAnchor>, kind: LaneKind, near: Point)
    ensures
        match nearest_anchor(anchors, kind, near) {
            Some(i) => {
                &&& 0 <= i < anchors.len()
                &&& anchors[i].kind == kind
                &&& forall|j: int| 0 <= j < anchors.len() && #[trigger] anchors[j].kind == kind
                    ==> dist2_spec(anchors[i].pos, near) <= dist2_spec(anchors[j].pos, near)
            },
            None => forall|j: int| 0 <= j < anchors.len() ==> #[trigger] anchors[j].kind != kind,
        },
    decreases anchors.len(),
{
    if anchors.len() > 0 {
        let rest = anchors.drop_last();
        law_nearest_anchor_is_nearest(rest, kind, near);
        let last = anchors.len() - 1;
        assert forall|j: int| 0 <= j < rest.len() implies #[trigger] rest[j] == anchors[j] by {}
        match nearest_anchor(anchors, kind, near) {
            Some(i) => {
                assert forall|j: int| 0 <= j < anchors.len() && #[trigger] anchors[j].kind == kind
                    implies dist2_spec(anchors[i].pos, near) <= dist2_spec(anchors[j].pos, near) by {
                    if j < last {
                        assert(rest[j].kind == kind);
                    }
                }
            },
            None => {
                assert forall|j: int| 0 <= j < anchors.len() implies #[trigger] anchors[j].kind != kind by {
                    if j < last {
                        assert(rest[j].kind != kind);
                    }
                }
            },
        }
    }
}

impl RoadMap {
    pub open spec fn lane_at(&self, id: LaneID) -> Option<Lane> {
        if id.0 < self.lanes@.len() {
            self.lanes@[id.0 as int]
        } else {
            None
        }
    }

    pub open spec fn intersection_at(&self, id: IntersectionID) -> Option<Intersection> {
        if id.0 < self.intersections@.len() {
            self.intersections@[id.0 as int]
        } else {
            None
        }
    }

    pub open spec fn road_at(&self, id: RoadID) -> Option<Road> {
        if id.0 < self.roads@.len() {
            self.roads@[id.0 as int]
        } else {
            None
        }
    }

    /// The lane that the spatial index gives as nearest to `near` among those
    /// of kind `kind`.
    pub open spec fn nearest_lane_spec(&self, near: Point, kind: LaneKind) -> Option<LaneID> {
        match nearest_anchor(self.lane_index@, kind, near) {
            Some(i) => Some(self.lane_index@[i].lane),
            None => None,
        }
    }

    pub fn lane(&self, id: LaneID) -> (r: Option<Lane>)
        ensures
            r == self.lane_at(id),
    {
        if id.0 < self.lanes.len() {
            self.lanes[id.0]
        } else {
            None
        }
    }

    pub fn intersection(&self, id: IntersectionID) -> (r: Option<&Intersection>)
        ensures
            match r {
                Some(x) => self.intersection_at(id) == Some(*x),
                None => self.intersection_at(id) is None,
            },
    {
        if id.0 < self.intersections.len() {
            match &self.intersections[id.0] {
                Some(x) => Some(x),
                None => None,
            }
        } else {
            None
        }
    }

    pub fn road(&self, id: RoadID) -> (r: Option<&Road>)
        ensures
            match r {
                Some(x) => self.road_at(id) == Some(*x),
                None => self.road_at(id) is None,
            },
    {
        if id.0 < self.roads.len() {
            match &self.roads[id.0] {
                Some(x) => Some(x),
                None => None,
            }
        } else {
            None
        }
    }

    /// The lane of kind `kind` that the spatial index places nearest to `near`
    /// (the first one on a tie), or `None` when the index holds no such lane.
    pub fn nearest_lane(&self, near: Point, kind: LaneKind) -> (r: Option<LaneID>)
        ensures
            r == self.nearest_lane_spec(near, kind),
    {
        let mut best: Option<usize> = None;
        let mut best_d: u128 = 0;
        let mut i: usize = 0;
        while i < self.lane_index.len()
            invariant
                i <= self.lane_index.len(),
                match best {
                    Some(b) => nearest_anchor(self.lane_index@.take(i as int), kind, near) == Some(b as int)
                        && b < i && best_d == dist2_spec(self.lane_index@[b as int].pos, near),
                    None => nearest_anchor(self.lane_index@.take(i as int), kind, near) is None,
                },
            decreases self.lane_index.len() - i,
        {
            let ghost prefix = self.lane_index@.take(i + 1);
            assert(prefix.drop_last() =~= self.lane_index@.take(i as int));
            let a = self.lane_index[i];
            if a.kind == kind {
                let d = dist2(a.pos, near);
                match best {
                    None => {
                        best = Some(i);
                        best_d = d;
                    },
                    Some(_) => {
                        if d < best_d {
                            best = Some(i);
                            best_d = d;
                        }
                    },
                }
            }
            i += 1;
        }
        assert(self.lane_index@.take(i as int) =~= self.lane_index@);
        match best {
            Some(b) => Some(self.lane_index[b].lane),
            None => None,
        }
    }
}

impl ParkingSpots {
    pub open spec fn spot_at(&self, id: ParkingSpotID) -> Option<ParkingSpot> {
        if id.0 < self.spots@.len() {
            self.spots@[id.0 as int]
        } else {
            None
        }
    }

    /// Whether spot `id` exists and lies along parking lane `lane`.
    pub open spec fn on_lane(&self, id: ParkingSpotID, lane: LaneID) -> bool {
        match self.spot_at(id) {
            Some(s) => s.parent == lane,
            None => false,
        }
    }

    /// Squared distance from spot `id` to `near`.
    pub open spec fn spot_dist(&self, id: ParkingSpotID, near: Point) -> int {
        dist2_spec(self.spot_at(id)->0.pos, near)
    }

    pub fn contains(&self, id: ParkingSpotID) -> (r: bool)
        ensures
            r == self.spot_at(id) is Some,
    {
        id.0 < self.spots.len() && self.spots[id.0].is_some()
    }

    pub fn get(&self, id: ParkingSpotID) -> (r: Option<&ParkingSpot>)
        ensures
            match r {
                Some(x) => self.spot_at(id) == Some(*x),
                None => self.spot_at(id) is None,
            },
    {
        if id.0 < self.spots.len() {
            match &self.spots[id.0] {
                Some(x) => Some(x),
                None => None,
            }
        } else {
            None
        }
    }

    /// The spots along parking lane `lane`, each once, nearest to `near` first.
    pub fn closest_spots(&self, lane: LaneID, near: Point) -> (r: Vec<ParkingSpotID>)
        ensures
            r@.no_duplicates(),
            forall|s: ParkingSpotID| #[trigger] r@.contains(s) <==> self.on_lane(s, lane),
            forall|a: int, b: int|
                0 <= a < b < r@.len() ==> self.spot_dist(r@[a], near) <= self.spot_dist(r@[b], near),
    {
        let mut r: Vec<ParkingSpotID> = Vec::new();
        let mut ds: Vec<u128> = Vec::new();
        let mut i: usize = 0;
        while i < self.spots.len()
            invariant
                i <= self.spots.len(),
                r@.len() == ds@.len(),
                r@.no_duplicates(),
                forall|k: int| 0 <= k < r@.len() ==> self.on_lane(#[trigger] r@[k], lane) && r@[k].0 < i
                    && ds@[k] == self.spot_dist(r@[k], near),
                forall|j: usize| j < i && self.on_lane(ParkingSpotID(j), lane) ==> #[trigger] r@.contains(ParkingSpotID(j)),
                forall|a: int, b: int| 0 <= a < b < ds@.len() ==> ds@[a] <= ds@[b],
            decreases self.spots.len() - i,
        {
            if let Some(s) = &self.spots[i] {
                if s.parent == lane {
                    let d = dist2(s.pos, near);
                    let mut p: usize = r.len();
                    while p > 0 && ds[p - 1] > d
                        invariant
                            p <= ds@.len(),
                            forall|q: int| p <= q < ds@.len() ==> ds@[q] > d,
                        decreases p,
                    {
                        p -= 1;
                    }
                    let ghost r0 = r@;
                    let ghost ds0 = ds@;
                    let id = ParkingSpotID(i);
                    r.insert(p, id);
                    ds.insert(p, d);
                    proof {
                        assert forall|q: int| 0 <= q < p implies ds0[q] <= d by {
                            assert(ds0[q] <= ds0[p - 1]);
                        }
                        assert forall|k: int| 0 <= k < r@.len() implies self.on_lane(#[trigger] r@[k], lane)
                            && r@[k].0 < i + 1 && ds@[k] == self.spot_dist(r@[k], near) by {
                            if k < p {
                                assert(r@[k] == r0[k]);
                            } else if k > p {
                                assert(r@[k] == r0[k - 1]);
                            }
                        }
                        assert forall|a: int, b: int| 0 <= a < b < ds@.len() implies ds@[a] <= ds@[b] by {
                            if b < p {
                            } else if b == p {
                            } else if a < p {
                                assert(ds@[b] == ds0[b - 1]);
                            } else if a == p {
                                assert(ds@[b] == ds0[b - 1]);
                            } else {
                                assert(ds@[b] == ds0[b - 1]);
                                assert(ds@[a] == ds0[a - 1]);
                            }
                        }
                        assert forall|a: int, b: int| 0 <= a < b < r@.len() implies r@[a] != r@[b] by {
                            if a == p {
                                assert(r@[b] == r0[b - 1]);
                            } else if b == p {
                                assert(r@[a] == r0[a]);
                            } else {
                                let a0 = if a < p { a } else { a - 1 };
                                let b0 = if b < p { b } else { b - 1 };
                                assert(r@[a] == r0[a0]);
                                assert(r@[b] == r0[b0]);
                            }
                        }
                        assert forall|j: usize| j < i + 1 && self.on_lane(ParkingSpotID(j), lane)
                            implies #[trigger] r@.contains(ParkingSpotID(j)) by {
                            if j == i {
                                assert(r@[p as int] == id);
                            } else {
                                assert(r0.contains(ParkingSpotID(j)));
                                let k = choose|k: int| 0 <= k < r0.len() && r0[k] == ParkingSpotID(j);
                                if k < p {
                                    assert(r@[k] == ParkingSpotID(j));
                                } else {
                                    assert(r@[k + 1] == ParkingSpotID(j));
                                }
                            }
                        }
                    }
                }
            }
            i += 1;
        }
        proof {
            assert forall|s: ParkingSpotID| #[trigger] r@.contains(s) implies self.on_lane(s, lane) by {
                let k = choose|k: int| 0 <= k < r@.len() && r@[k] == s;
            }
            assert forall|s: ParkingSpotID| self.on_lane(s, lane) implies #[trigger] r@.contains(s) by {
                assert(s == ParkingSpotID(s.0));
            }
        }
        r
    }
}

} // verus!
