use parking::map::{
    Intersection, IntersectionID, Lane, LaneAnchor, LaneID, LaneKind, ParkingSpot, ParkingSpotID,
    ParkingSpots, Point, Road, RoadID, RoadMap, Turn,
};
use parking::parking::{ParkingManagement, ParkingReserveError};
use parking::search::SEARCH_DEPTH;

fn pt(x: i32, y: i32) -> Point {
    Point { x, y, z: 0 }
}

/// A chain of `n` driving lanes: lane `i` runs from intersection `i` to
/// intersection `i + 1`, where a turn leads on to lane `i + 1`.
fn chain(n: usize) -> RoadMap {
    let mut lanes = Vec::new();
    let mut intersections = Vec::new();
    let mut roads = Vec::new();
    let mut lane_index = Vec::new();
    for i in 0..n {
        lanes.push(Some(Lane {
            kind: LaneKind::Driving,
            src: IntersectionID(i),
            dst: IntersectionID(i + 1),
            parent: RoadID(i),
        }));
        roads.push(Some(Road {
            lanes_forward: vec![(LaneID(i), LaneKind::Driving)],
            lanes_backward: vec![],
        }));
        lane_index.push(LaneAnchor {
            lane: LaneID(i),
            kind: LaneKind::Driving,
            pos: pt(100 * i as i32, 0),
        });
    }
    for j in 0..=n {
        let mut turns = Vec::new();
        if j > 0 && j < n {
            turns.push(Turn {
                src: LaneID(j - 1),
                dst: LaneID(j),
            });
        }
        intersections.push(Some(Intersection { turns }));
    }
    RoadMap {
        lanes,
        intersections,
        roads,
        lane_index,
        parking: ParkingSpots { spots: vec![] },
    }
}

/// Adds a parking lane beside driving lane `beside`, with one spot at each
/// of `positions`; returns the ids of the new spots.
fn add_parking(map: &mut RoadMap, beside: usize, positions: &[Point]) -> Vec<ParkingSpotID> {
    let driving = map.lanes[beside].unwrap();
    let plane = LaneID(map.lanes.len());
    map.lanes.push(Some(Lane {
        kind: LaneKind::Parking,
        src: driving.src,
        dst: driving.dst,
        parent: driving.parent,
    }));
    map.roads[driving.parent.0]
        .as_mut()
        .unwrap()
        .lanes_forward
        .push((plane, LaneKind::Parking));
    let mut ids = Vec::new();
    for p in positions {
        ids.push(ParkingSpotID(map.parking.spots.len()));
        map.parking.spots.push(Some(ParkingSpot {
            parent: plane,
            pos: *p,
        }));
    }
    ids
}

#[test]
fn empty_graph_finds_no_lane() {
    let map = chain(0);
    let mut pm = ParkingManagement::new();
    let r = pm.reserve_near(pt(0, 0), &map);
    assert!(matches!(r, Err(ParkingReserveError::FindingNearestLane)));
}

#[test]
fn stale_lane_reference_fails_fetching_lane_data() {
    let mut map = chain(2);
    map.lanes[0] = None;
    map.lanes[1] = None;
    let mut pm = ParkingManagement::new();
    let r = pm.reserve_near(pt(0, 0), &map);
    assert!(matches!(r, Err(ParkingReserveError::FetchingLaneData)));
}

#[test]
fn no_parking_within_depth() {
    let mut map = chain(12);
    let spots = add_parking(&mut map, SEARCH_DEPTH, &[pt(700, 5)]);
    let mut pm = ParkingManagement::new();
    let r = pm.reserve_near(pt(0, 0), &map);
    assert!(matches!(r, Err(ParkingReserveError::NoSpotFoundAfterSearch)));
    assert!(pm.is_spot_free(spots[0]));
}

#[test]
fn parking_at_last_ring_is_found() {
    let mut map = chain(12);
    let spots = add_parking(&mut map, SEARCH_DEPTH - 1, &[pt(600, 5)]);
    let mut pm = ParkingManagement::new();
    let r = pm.reserve_near(pt(0, 0), &map).unwrap();
    assert_eq!(r.id(), spots[0]);
    assert!(!pm.is_spot_free(spots[0]));
    pm.free(r);
}

#[test]
fn nearest_of_three_spots_is_claimed() {
    let mut map = chain(3);
    // distances 10, 2 and 7 from the query point
    let spots = add_parking(&mut map, 1, &[pt(110, 0), pt(102, 0), pt(107, 0)]);
    let mut pm = ParkingManagement::new();
    let r = pm.reserve_near(pt(100, 0), &map).unwrap();
    assert_eq!(r.id(), spots[1]);
    assert!(!pm.is_spot_free(spots[1]));
    assert!(pm.is_spot_free(spots[0]));
    assert!(pm.is_spot_free(spots[2]));
    let r2 = pm.reserve_near(pt(100, 0), &map).unwrap();
    assert_eq!(r2.id(), spots[2]);
    let r3 = pm.reserve_near(pt(100, 0), &map).unwrap();
    assert_eq!(r3.id(), spots[0]);
    pm.free(r);
    pm.free(r2);
    pm.free(r3);
}

#[test]
fn all_spots_taken_leaves_set_unchanged() {
    let mut map = chain(4);
    let spots = add_parking(&mut map, 1, &[pt(110, 0), pt(120, 0)]);
    let mut pm = ParkingManagement::new();
    let a = pm.claim(spots[0]).unwrap();
    let b = pm.claim(spots[1]).unwrap();
    let r = pm.reserve_near(pt(100, 0), &map);
    assert!(matches!(r, Err(ParkingReserveError::NoSpotFoundAfterSearch)));
    assert!(!pm.is_spot_free(spots[0]));
    assert!(!pm.is_spot_free(spots[1]));
    assert!(pm.is_spot_free(ParkingSpotID(2)));
    assert!(pm.free(a));
    assert!(pm.free(b));
}

#[test]
fn earlier_ring_wins_over_nearer_spot() {
    let mut map = chain(6);
    let far = add_parking(&mut map, 0, &[pt(900, 0)]);
    let near = add_parking(&mut map, 2, &[pt(200, 0)]);
    let mut pm = ParkingManagement::new();
    let r = pm.reserve_near(pt(200, 0), &map).unwrap();
    // the start lane is the one whose anchor is nearest: lane 2
    assert_eq!(r.id(), near[0]);
    let r2 = pm.reserve_near(pt(200, 0), &map).unwrap();
    // lane 0 is two steps back from lane 2
    assert_eq!(r2.id(), far[0]);
    pm.free(r);
    pm.free(r2);
}

#[test]
fn missing_intersection_is_skipped() {
    let mut map = chain(5);
    let spots = add_parking(&mut map, 3, &[pt(300, 0)]);
    map.intersections[2] = None;
    let mut pm = ParkingManagement::new();
    let r = pm.reserve_near(pt(0, 0), &map);
    assert!(matches!(r, Err(ParkingReserveError::NoSpotFoundAfterSearch)));
    assert!(pm.is_spot_free(spots[0]));
}

#[test]
fn removed_spot_is_not_claimed() {
    let mut map = chain(3);
    let spots = add_parking(&mut map, 0, &[pt(1, 0), pt(50, 0)]);
    map.parking.spots[spots[0].0] = None;
    let mut pm = ParkingManagement::new();
    let r = pm.reserve_near(pt(0, 0), &map).unwrap();
    assert_eq!(r.id(), spots[1]);
    assert!(r.exists_in(&map.parking));
    assert_eq!(r.get(&map.parking).unwrap().pos, pt(50, 0));
    map.parking.spots[spots[1].0] = None;
    assert!(!r.exists_in(&map.parking));
    assert!(r.get(&map.parking).is_none());
    assert!(pm.free(r));
}
