use parking::map::{LaneID, ParkingSpot, ParkingSpotID, ParkingSpots, Point};
use parking::parking::ParkingManagement;

#[test]
fn second_claim_of_a_spot_fails() {
    let mut pm = ParkingManagement::new();
    let a = pm.claim(ParkingSpotID(4)).unwrap();
    assert!(pm.claim(ParkingSpotID(4)).is_none());
    assert!(pm.claim(ParkingSpotID(5)).is_some());
    assert!(!pm.is_spot_free(ParkingSpotID(4)));
    assert!(pm.free(a));
}

#[test]
fn claim_then_free_makes_spot_free() {
    let mut pm = ParkingManagement::new();
    let a = pm.claim(ParkingSpotID(1)).unwrap();
    assert_eq!(a.id(), ParkingSpotID(1));
    assert!(!pm.is_spot_free(ParkingSpotID(1)));
    assert!(pm.free(a));
    assert!(pm.is_spot_free(ParkingSpotID(1)));
}

#[test]
fn claim_free_claim_again_succeeds() {
    let mut pm = ParkingManagement::default();
    let a = pm.claim(ParkingSpotID(0)).unwrap();
    assert!(pm.free(a));
    let again = pm.claim(ParkingSpotID(0));
    assert!(again.is_some());
    assert!(pm.free(again.unwrap()));
}

#[test]
fn freeing_an_absent_spot_reports_and_keeps_it_absent() {
    let mut issuer = ParkingManagement::new();
    let mut other = ParkingManagement::new();
    let a = issuer.claim(ParkingSpotID(3)).unwrap();
    assert!(!other.free(a));
    assert!(other.is_spot_free(ParkingSpotID(3)));
    assert!(!issuer.is_spot_free(ParkingSpotID(3)));
}

#[test]
fn is_free_reads_the_token_spot() {
    let mut pm = ParkingManagement::new();
    let mut other = ParkingManagement::new();
    let a = pm.claim(ParkingSpotID(2)).unwrap();
    assert!(!pm.is_free(a));
    let b = other.claim(ParkingSpotID(2)).unwrap();
    assert!(pm.is_free(b) == false);
    let c = other.claim(ParkingSpotID(9)).unwrap();
    assert!(pm.is_free(c));
}

#[test]
fn free_and_valid_needs_existing_spot() {
    let spots = ParkingSpots {
        spots: vec![
            Some(ParkingSpot {
                parent: LaneID(0),
                pos: Point { x: 0, y: 0, z: 0 },
            }),
            None,
        ],
    };
    let mut pm = ParkingManagement::new();
    assert!(pm.is_spot_free_and_valid(ParkingSpotID(0), &spots));
    assert!(!pm.is_spot_free_and_valid(ParkingSpotID(1), &spots));
    assert!(!pm.is_spot_free_and_valid(ParkingSpotID(7), &spots));
    let a = pm.claim(ParkingSpotID(0)).unwrap();
    assert!(!pm.is_spot_free_and_valid(ParkingSpotID(0), &spots));
    assert!(pm.free(a));
}
