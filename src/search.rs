use vstd::prelude::*;

use crate::map::{LaneID, LaneKind, ParkingSpotID, Point, RoadMap, Turn};
use crate::parking::{claim_outcome, ParkingManagement, ParkingReserveError, SpotReservation};
use std::collections::BTreeSet;

verus! {

/// How many rings of lanes around the starting lane a search examines.
pub const SEARCH_DEPTH: usize = 7;

/// Whether the search can look at lane `l`: the lane and both of its
/// intersections exist.
pub open spec fn examinable(map: &RoadMap, l: LaneID) -> bool {
    match map.lane_at(l) {
        Some(lane) => map.intersection_at(lane.src) is Some && map.intersection_at(lane.dst) is Some,
        None => false,
    }
}

/// Whether lane `to` is one turn away from lane `from`, in either direction
/// of travel: a turn from `from` at its end intersection, or a turn into
/// `from` at its start intersection.
pub open spec fn is_step(map: &RoadMap, from: LaneID, to: LaneID) -> bool {
    &&& examinable(map, from)
    &&& map.lane_at(to) is Some
    &&& {
        let lane = map.lane_at(from)->0;
        ||| map.intersection_at(lane.dst)->0.has_turn(from, to)
        ||| map.intersection_at(lane.src)->0.has_turn(to, from)
    }
}

/// The lanes one step away from some lane of `from`.
pub open spec fn step_set(map: &RoadMap, from: Set<LaneID>) -> Set<LaneID> {
    Set::new(|l: LaneID| exists|f: LaneID| #[trigger] from.contains(f) && is_step(map, f, l))
}

/// Ring `k` around `start`: the lanes at the end of a walk of exactly `k`
/// steps from `start`.
pub open spec fn ring(map: &RoadMap, start: LaneID, k: nat) -> Set<LaneID>
    decreases k,
{
    if k == 0 {
        set![start]
    } else {
        step_set(map, ring(map, start, (k - 1) as nat))
    }
}

/// Whether lane `l` is in ring `k` around `start`.
pub open spec fn in_ring(map: &RoadMap, start: LaneID, k: nat, l: LaneID) -> bool {
    ring(map, start, k).contains(l)
}

proof fn lemma_next_ring(map: &RoadMap, start: LaneID, k: nat, l: LaneID)
    ensures
        in_ring(map, start, k + 1, l) <==> exists|f: LaneID| #[trigger] in_ring(map, start, k, f) && is_step(map, f, l),
{
    let k1: nat = k + 1;
    assert((k1 - 1) as nat == k);
    assert(ring(map, start, k1) == step_set(map, ring(map, start, k)));
    if in_ring(map, start, k1, l) {
        let f = choose|f: LaneID| #[trigger] ring(map, start, k).contains(f) && is_step(map, f, l);
        assert(in_ring(map, start, k, f));
    }
    if exists|f: LaneID| #[trigger] in_ring(map, start, k, f) && is_step(map, f, l) {
        let f = choose|f: LaneID| #[trigger] in_ring(map, start, k, f) && is_step(map, f, l);
        assert(ring(map, start, k).contains(f));
    }
}

/// The parking lane that the search looks at beside lane `l`: the one that
/// `l`'s road places on its side.
pub open spec fn parking_beside(map: &RoadMap, l: LaneID) -> Option<LaneID> {
    if examinable(map, l) {
        match map.road_at(map.lane_at(l)->0.parent) {
            Some(road) => road.parking_next_to_spec(l),
            None => None,
        }
    } else {
        None
    }
}

/// Whether spot `s` is one that the search tries when it looks at lane `l`.
pub open spec fn is_candidate(map: &RoadMap, l: LaneID, s: ParkingSpotID) -> bool {
    match parking_beside(map, l) {
        Some(p) => map.parking.on_lane(s, p),
        None => false,
    }
}

/// Whether every spot beside the lanes of the first `depth` rings around
/// `start` is in `occ`.
pub open spec fn taken_within(map: &RoadMap, start: LaneID, occ: Set<ParkingSpotID>, depth: nat) -> bool {
    forall|k: nat, l: LaneID, s: ParkingSpotID|
        k < depth && #[trigger] in_ring(map, start, k, l) && #[trigger] is_candidate(map, l, s) ==> occ.contains(s)
}

/// Whether `s` is a free spot beside lane `l` and no free spot beside `l` is
/// nearer to `near`.
pub open spec fn nearest_free_beside(
    map: &RoadMap,
    l: LaneID,
    near: Point,
    occ: Set<ParkingSpotID>,
    s: ParkingSpotID,
) -> bool {
    &&& is_candidate(map, l, s)
    &&& !occ.contains(s)
    &&& forall|o: ParkingSpotID|
        #[trigger] is_candidate(map, l, o) && map.parking.spot_dist(o, near) < map.parking.spot_dist(s, near)
            ==> occ.contains(o)
}

/// The lane where a search from `near` starts, if the map can give it.
pub open spec fn start_lane(map: &RoadMap, near: Point) -> Option<LaneID> {
    match map.nearest_lane_spec(near, LaneKind::Driving) {
        Some(l) => if map.lane_at(l) is Some { Some(l) } else { None },
        None => None,
    }
}

fn add_lane(next: &mut Vec<LaneID>, seen: &mut BTreeSet<usize>, l: LaneID)
    requires
        old(next)@.no_duplicates(),
        forall|x: LaneID| #[trigger] old(next)@.contains(x) <==> old(seen)@.contains(x.0),
    ensures
        final(next)@.no_duplicates(),
        forall|x: LaneID| #[trigger] final(next)@.contains(x) <==> final(seen)@.contains(x.0),
        forall|x: LaneID| #[trigger] final(next)@.contains(x) <==> (old(next)@.contains(x) || x == l),
{
    let ghost n0 = next@;
    if seen.insert(l.0) {
        next.push(l);
        proof {
            assert(!n0.contains(l));
            assert forall|a: int, b: int| 0 <= a < b < next@.len() implies next@[a] != next@[b] by {
                if b == n0.len() {
                    assert(n0.contains(n0[a]));
                }
            }
            assert forall|x: LaneID| #[trigger] next@.contains(x) <==> (n0.contains(x) || x == l) by {
                if next@.contains(x) && x != l {
                    let k = choose|k: int| 0 <= k < next@.len() && next@[k] == x;
                    assert(n0[k] == x);
                }
                if n0.contains(x) {
                    let k = choose|k: int| 0 <= k < n0.len() && n0[k] == x;
                    assert(next@[k] == x);
                }
                if x == l {
                    assert(next@[n0.len() as int] == l);
                }
            }
            assert forall|x: LaneID| #[trigger] next@.contains(x) <==> seen@.contains(x.0) by {
                if x.0 == l.0 {
                    assert(x == l);
                }
            }
        }
    }
}

/// Adds to `next` every lane one step away from `lane_id`.
fn expand_lane(map: &RoadMap, lane_id: LaneID, next: &mut Vec<LaneID>, seen: &mut BTreeSet<usize>)
    requires
        old(next)@.no_duplicates(),
        forall|x: LaneID| #[trigger] old(next)@.contains(x) <==> old(seen)@.contains(x.0),
    ensures
        final(next)@.no_duplicates(),
        forall|x: LaneID| #[trigger] final(next)@.contains(x) <==> final(seen)@.contains(x.0),
        forall|x: LaneID|
            #[trigger] final(next)@.contains(x) <==> (old(next)@.contains(x) || is_step(map, lane_id, x)),
{
    let lane = match map.lane(lane_id) {
        Some(lane) => lane,
        None => return,
    };
    let inter_dst = match map.intersection(lane.dst) {
        Some(i) => i,
        None => return,
    };
    let inter_src = match map.intersection(lane.src) {
        Some(i) => i,
        None => return,
    };
    let ghost n0 = next@;
    let outgoing = inter_dst.turns_from(lane_id);
    let mut j: usize = 0;
    while j < outgoing.len()
        invariant
            j <= outgoing@.len(),
            next@.no_duplicates(),
            forall|x: LaneID| #[trigger] next@.contains(x) <==> seen@.contains(x.0),
            forall|x: LaneID| #[trigger] next@.contains(x) <==> (n0.contains(x) || (map.lane_at(x) is Some
                && exists|k: int| 0 <= k < j && #[trigger] outgoing@[k] == Turn { src: lane_id, dst: x })),
            forall|t: Turn| #[trigger] outgoing@.contains(t) <==> (inter_dst.turns@.contains(t) && t.src == lane_id),
        decreases outgoing.len() - j,
    {
        let t = outgoing[j];
        assert(outgoing@.contains(t));
        if map.lane(t.dst).is_some() {
            add_lane(next, seen, t.dst);
        }
        assert forall|x: LaneID| #[trigger] next@.contains(x) <==> (n0.contains(x) || (map.lane_at(x) is Some
            && exists|k: int| 0 <= k < j + 1 && #[trigger] outgoing@[k] == Turn { src: lane_id, dst: x })) by {
            if x == t.dst && map.lane_at(x) is Some {
                assert(outgoing@[j as int] == Turn { src: lane_id, dst: x });
            }
        }
        j += 1;
    }
    let ghost n1 = next@;
    let incoming = inter_src.turns_to(lane_id);
    let mut j: usize = 0;
    while j < incoming.len()
        invariant
            j <= incoming@.len(),
            next@.no_duplicates(),
            forall|x: LaneID| #[trigger] next@.contains(x) <==> seen@.contains(x.0),
            forall|x: LaneID| #[trigger] next@.contains(x) <==> (n1.contains(x) || (map.lane_at(x) is Some
                && exists|k: int| 0 <= k < j && #[trigger] incoming@[k] == Turn { src: x, dst: lane_id })),
            forall|t: Turn| #[trigger] incoming@.contains(t) <==> (inter_src.turns@.contains(t) && t.dst == lane_id),
        decreases incoming.len() - j,
    {
        let t = incoming[j];
        assert(incoming@.contains(t));
        if map.lane(t.src).is_some() {
            add_lane(next, seen, t.src);
        }
        assert forall|x: LaneID| #[trigger] next@.contains(x) <==> (n1.contains(x) || (map.lane_at(x) is Some
            && exists|k: int| 0 <= k < j + 1 && #[trigger] incoming@[k] == Turn { src: x, dst: lane_id })) by {
            if x == t.src && map.lane_at(x) is Some {
                assert(incoming@[j as int] == Turn { src: x, dst: lane_id });
            }
        }
        j += 1;
    }
    assert forall|x: LaneID| #[trigger] next@.contains(x) <==> (n0.contains(x) || is_step(map, lane_id, x)) by {
        let fwd = Turn { src: lane_id, dst: x };
        let bwd = Turn { src: x, dst: lane_id };
        if outgoing@.contains(fwd) {
            let k = choose|k: int| 0 <= k < outgoing@.len() && outgoing@[k] == fwd;
        }
        if incoming@.contains(bwd) {
            let k = choose|k: int| 0 <= k < incoming@.len() && incoming@[k] == bwd;
        }
    }
}

impl ParkingManagement {
    /// Claims the free spot nearest to `near` beside lane `lane_id`, if any.
    fn claim_beside(&mut self, map: &RoadMap, lane_id: LaneID, near: Point) -> (r: Option<SpotReservation>)
        ensures
            match r {
                Some(t) => final(self)@ == old(self)@.insert(t@) && nearest_free_beside(map, lane_id, near, old(self)@, t@),
                None => final(self)@ == old(self)@ && forall|s: ParkingSpotID|
                    #[trigger] is_candidate(map, lane_id, s) ==> old(self)@.contains(s),
            },
    {
        let lane = match map.lane(lane_id) {
            Some(lane) => lane,
            None => return None,
        };
        if map.intersection(lane.dst).is_none() || map.intersection(lane.src).is_none() {
            return None;
        }
        let road = match map.road(lane.parent) {
            Some(road) => road,
            None => return None,
        };
        let plane = match road.parking_next_to(lane_id) {
            Some(p) => p,
            None => return None,
        };
        assert(parking_beside(map, lane_id) == Some(plane));
        let spots = map.parking.closest_spots(plane, near);
        let mut c: usize = 0;
        while c < spots.len()
            invariant
                c <= spots@.len(),
                self@ == old(self)@,
                parking_beside(map, lane_id) == Some(plane),
                forall|k: int| 0 <= k < c ==> old(self)@.contains(#[trigger] spots@[k]),
                forall|s: ParkingSpotID| #[trigger] spots@.contains(s) <==> map.parking.on_lane(s, plane),
                forall|a: int, b: int| 0 <= a < b < spots@.len() ==>
                    map.parking.spot_dist(spots@[a], near) <= map.parking.spot_dist(spots@[b], near),
            decreases spots.len() - c,
        {
            let s = spots[c];
            let ghost before = self@;
            let got = self.claim(s);
            if let Some(t) = got {
                proof {
                    assert(spots@.contains(s));
                    assert(claim_outcome(before, s).1);
                    assert(!old(self)@.contains(s));
                    assert(self@ == old(self)@.insert(s));
                    assert(t@ == s);
                    assert(map.parking.on_lane(s, plane));
                    assert(is_candidate(map, lane_id, s));
                    assert forall|o: ParkingSpotID| #[trigger] is_candidate(map, lane_id, o)
                        && map.parking.spot_dist(o, near) < map.parking.spot_dist(s, near)
                        implies old(self)@.contains(o) by {
                        assert(map.parking.on_lane(o, plane));
                        assert(spots@.contains(o));
                        let k = choose|k: int| 0 <= k < spots@.len() && spots@[k] == o;
                        if k >= c {
                            assert(map.parking.spot_dist(spots@[c as int], near) <= map.parking.spot_dist(spots@[k], near));
                        }
                    }
                }
                return Some(t);
            }
            assert(self@ == old(self)@);
            c += 1;
        }
        proof {
            assert forall|s: ParkingSpotID| #[trigger] is_candidate(map, lane_id, s) implies old(self)@.contains(s) by {
                assert(spots@.contains(s));
                let k = choose|k: int| 0 <= k < spots@.len() && spots@[k] == s;
            }
        }
        None
    }
}

/// Whether `s` is what a search from `start` may claim: a spot beside a lane
/// of some ring within the search depth, the nearest free one beside that
/// lane, with every spot beside the lanes of the rings before it taken.
pub open spec fn found_in_search(
    map: &RoadMap,
    start: LaneID,
    near: Point,
    occ: Set<ParkingSpotID>,
    s: ParkingSpotID,
) -> bool {
    exists|k: nat, l: LaneID|
        #![trigger in_ring(map, start, k, l), nearest_free_beside(map, l, near, occ, s)]
        k < SEARCH_DEPTH && in_ring(map, start, k, l) && taken_within(map, start, occ, k)
            && nearest_free_beside(map, l, near, occ, s)
}

impl ParkingManagement {
    /// Finds and claims a parking spot near `near`. The search starts at the
    /// driving lane nearest to `near` and examines the lanes ring by ring,
    /// one more turn away each time, for `SEARCH_DEPTH` rings; beside each
    /// lane it tries the spots of the adjacent parking lane nearest first,
    /// and the first spot that it can claim ends the search.
    pub fn reserve_near(&mut self, near: Point, map: &RoadMap) -> (r: Result<SpotReservation, ParkingReserveError>)
        ensures
            r matches Err(ParkingReserveError::FindingNearestLane)
                <==> map.nearest_lane_spec(near, LaneKind::Driving) is None,
            r matches Err(ParkingReserveError::FetchingLaneData)
                <==> (map.nearest_lane_spec(near, LaneKind::Driving) is Some && start_lane(map, near) is None),
            r matches Err(ParkingReserveError::NoSpotFoundAfterSearch)
                <==> (start_lane(map, near) matches Some(st) && taken_within(map, st, old(self)@, SEARCH_DEPTH as nat)),
            r is Err ==> final(self)@ == old(self)@,
            r matches Ok(t) ==> {
                &&& final(self)@ == old(self)@.insert(t@)
                &&& !old(self)@.contains(t@)
                &&& found_in_search(map, start_lane(map, near)->0, near, old(self)@, t@)
            },
    {
        let start = match map.nearest_lane(near, LaneKind::Driving) {
            Some(l) => l,
            None => return Err(ParkingReserveError::FindingNearestLane),
        };
        if map.lane(start).is_none() {
            return Err(ParkingReserveError::FetchingLaneData);
        }
        let ghost occ = self@;
        let mut potential: Vec<LaneID> = vec![start];
        proof {
            assert forall|x: LaneID| #[trigger] potential@.contains(x) <==> in_ring(map, start, 0, x) by {
                if x == start {
                    assert(potential@[0] == x);
                }
            }
        }
        let mut hop: usize = 0;
        while hop < SEARCH_DEPTH
            invariant
                hop <= SEARCH_DEPTH,
                self@ == occ,
                occ == old(self)@,
                start_lane(map, near) == Some(start),
                potential@.no_duplicates(),
                forall|x: LaneID| #[trigger] potential@.contains(x) <==> in_ring(map, start, hop as nat, x),
                taken_within(map, start, occ, hop as nat),
            decreases SEARCH_DEPTH - hop,
        {
            let mut next: Vec<LaneID> = Vec::new();
            let mut seen: BTreeSet<usize> = BTreeSet::new();
            let mut i: usize = 0;
            while i < potential.len()
                invariant
                    i <= potential@.len(),
                    hop < SEARCH_DEPTH,
                    self@ == occ,
                    occ == old(self)@,
                    start_lane(map, near) == Some(start),
                    potential@.no_duplicates(),
                    forall|x: LaneID| #[trigger] potential@.contains(x) <==> in_ring(map, start, hop as nat, x),
                    taken_within(map, start, occ, hop as nat),
                    next@.no_duplicates(),
                    forall|x: LaneID| #[trigger] next@.contains(x) <==> seen@.contains(x.0),
                    forall|x: LaneID| #[trigger] next@.contains(x) <==>
                        exists|k: int| 0 <= k < i && #[trigger] is_step(map, potential@[k], x),
                    forall|k: int, s: ParkingSpotID| 0 <= k < i && #[trigger] is_candidate(map, potential@[k], s)
                        ==> occ.contains(s),
                decreases potential.len() - i,
            {
                let lane_id = potential[i];
                let ghost n0 = next@;
                expand_lane(map, lane_id, &mut next, &mut seen);
                proof {
                    assert forall|x: LaneID| #[trigger] next@.contains(x) <==>
                        exists|k: int| 0 <= k < i + 1 && #[trigger] is_step(map, potential@[k], x) by {
                        if is_step(map, lane_id, x) {
                            assert(is_step(map, potential@[i as int], x));
                        }
                        if n0.contains(x) {
                            let k = choose|k: int| 0 <= k < i && #[trigger] is_step(map, potential@[k], x);
                        }
                    }
                }
                match self.claim_beside(map, lane_id, near) {
                    Some(t) => {
                        proof {
                            assert(potential@.contains(lane_id));
                            assert(in_ring(map, start, hop as nat, lane_id));
                            assert(found_in_search(map, start, near, occ, t@));
                            assert(hop < SEARCH_DEPTH);
                            if taken_within(map, start, occ, SEARCH_DEPTH as nat) {
                                assert(is_candidate(map, lane_id, t@));
                                assert(occ.contains(t@));
                            }
                        }
                        return Ok(t);
                    },
                    None => {},
                }
                i += 1;
            }
            proof {
                let h = hop as nat;
                assert forall|x: LaneID| #[trigger] next@.contains(x) <==> in_ring(map, start, h + 1, x) by {
                    lemma_next_ring(map, start, h, x);
                    if next@.contains(x) {
                        let k = choose|k: int| 0 <= k < potential@.len() && #[trigger] is_step(map, potential@[k], x);
                        assert(potential@.contains(potential@[k]));
                        assert(in_ring(map, start, h, potential@[k]));
                    }
                    if in_ring(map, start, h + 1, x) {
                        let f = choose|f: LaneID| #[trigger] in_ring(map, start, h, f) && is_step(map, f, x);
                        assert(potential@.contains(f));
                        let k = choose|k: int| 0 <= k < potential@.len() && potential@[k] == f;
                        assert(is_step(map, potential@[k], x));
                    }
                }
                assert forall|k: nat, l: LaneID, s: ParkingSpotID|
                    k < h + 1 && #[trigger] in_ring(map, start, k, l) && #[trigger] is_candidate(map, l, s)
                    implies occ.contains(s) by {
                    if k == h {
                        assert(potential@.contains(l));
                        let j = choose|j: int| 0 <= j < potential@.len() && potential@[j] == l;
                        assert(is_candidate(map, potential@[j], s));
                    }
                }
            }
            potential = next;
            hop += 1;
        }
        Err(ParkingReserveError::NoSpotFoundAfterSearch)
    }
}

/// Every lane that a search reaches after its first ring is a lane of the
/// map, so no ring holds more lanes than the map has.
pub proof fn law_rings_stay_in_map(map: &RoadMap, start: LaneID, k: nat, l: LaneID)
    requires
        k > 0,
        in_ring(map, start, k, l),
    ensures
        map.lane_at(l) is Some,
        l.0 < map.lanes@.len(),
{
    lemma_next_ring(map, start, (k - 1) as nat, l);
    assert(((k - 1) as nat) + 1 == k);
}

} // verus!
