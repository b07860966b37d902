use parking::map::{
    dist2, Intersection, LaneAnchor, LaneID, LaneKind, ParkingSpot, ParkingSpotID, ParkingSpots,
    Point, Road, RoadMap, Turn,
};

fn p3(x: i32, y: i32, z: i32) -> Point {
    Point { x, y, z }
}

#[test]
fn squared_distance_is_exact() {
    assert_eq!(dist2(p3(1, 2, 3), p3(4, 6, 3)), 25);
    assert_eq!(dist2(p3(-1, -1, -1), p3(1, 1, 1)), 12);
    let far = dist2(p3(i32::MIN, i32::MIN, i32::MIN), p3(i32::MAX, i32::MAX, i32::MAX));
    let side = (u32::MAX as u128) * (u32::MAX as u128);
    assert_eq!(far, 3 * side);
}

#[test]
fn turns_are_filtered_by_lane() {
    let inter = Intersection {
        turns: vec![
            Turn { src: LaneID(1), dst: LaneID(2) },
            Turn { src: LaneID(3), dst: LaneID(1) },
            Turn { src: LaneID(1), dst: LaneID(4) },
        ],
    };
    let from = inter.turns_from(LaneID(1));
    assert_eq!(from.len(), 2);
    assert!(from.iter().all(|t| t.src == LaneID(1)));
    let to = inter.turns_to(LaneID(1));
    assert_eq!(to, vec![Turn { src: LaneID(3), dst: LaneID(1) }]);
    assert!(inter.turns_to(LaneID(9)).is_empty());
}

#[test]
fn parking_next_to_picks_outermost_on_same_side() {
    let road = Road {
        lanes_forward: vec![
            (LaneID(0), LaneKind::Driving),
            (LaneID(1), LaneKind::Parking),
            (LaneID(2), LaneKind::Parking),
            (LaneID(3), LaneKind::Walking),
        ],
        lanes_backward: vec![(LaneID(4), LaneKind::Driving), (LaneID(5), LaneKind::Walking)],
    };
    assert_eq!(road.parking_next_to(LaneID(0)), Some(LaneID(2)));
    assert_eq!(road.parking_next_to(LaneID(4)), None);
    assert_eq!(road.parking_next_to(LaneID(8)), None);
}

#[test]
fn nearest_lane_filters_kind_and_keeps_first_on_tie() {
    let map = RoadMap {
        lanes: vec![],
        intersections: vec![],
        roads: vec![],
        lane_index: vec![
            LaneAnchor { lane: LaneID(0), kind: LaneKind::Walking, pos: p3(0, 0, 0) },
            LaneAnchor { lane: LaneID(1), kind: LaneKind::Driving, pos: p3(5, 0, 0) },
            LaneAnchor { lane: LaneID(2), kind: LaneKind::Driving, pos: p3(-5, 0, 0) },
            LaneAnchor { lane: LaneID(3), kind: LaneKind::Driving, pos: p3(9, 0, 0) },
        ],
        parking: ParkingSpots { spots: vec![] },
    };
    assert_eq!(map.nearest_lane(p3(0, 0, 0), LaneKind::Driving), Some(LaneID(1)));
    assert_eq!(map.nearest_lane(p3(8, 0, 0), LaneKind::Driving), Some(LaneID(3)));
    assert_eq!(map.nearest_lane(p3(8, 0, 0), LaneKind::Walking), Some(LaneID(0)));
    assert_eq!(map.nearest_lane(p3(0, 0, 0), LaneKind::Rail), None);
}

#[test]
fn closest_spots_are_sorted_and_restricted_to_lane() {
    let spot = |lane: usize, x: i32| Some(ParkingSpot { parent: LaneID(lane), pos: p3(x, 0, 0) });
    let spots = ParkingSpots {
        spots: vec![spot(7, 30), spot(8, 1), spot(7, -10), None, spot(7, 20), spot(7, 10)],
    };
    let got = spots.closest_spots(LaneID(7), p3(0, 0, 0));
    assert_eq!(
        got,
        vec![ParkingSpotID(2), ParkingSpotID(5), ParkingSpotID(4), ParkingSpotID(0)]
    );
    assert!(spots.closest_spots(LaneID(9), p3(0, 0, 0)).is_empty());
    assert!(spots.contains(ParkingSpotID(1)));
    assert!(!spots.contains(ParkingSpotID(3)));
    assert!(!spots.contains(ParkingSpotID(60)));
    assert_eq!(spots.get(ParkingSpotID(4)).unwrap().pos, p3(20, 0, 0));
}
