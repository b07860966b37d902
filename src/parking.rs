use vstd::prelude::*;

use crate::map::{ParkingSpot, ParkingSpotID, ParkingSpots};
use std::collections::BTreeSet;

verus! {

/// Exclusive hold on one parking spot. It is made only by a successful claim
/// on a `ParkingManagement`, and is handed back with `ParkingManagement::free`;
/// it has no destructor that frees the spot, so a lost token leaves the spot
/// occupied rather than free.
#[must_use]
#[derive(Debug)]
pub struct SpotReservation(ParkingSpotID);

/// The set of occupied parking spots.
pub struct ParkingManagement {
    reserved_spots: BTreeSet<usize>,
}

/// Why a search for a spot gave up.
#[derive(Clone, Copy, Debug, PartialEq, Eq, Structural)]
pub enum ParkingReserveError {
    /// The spatial index holds no driving lane.
    FindingNearestLane,
    /// The spatial index names a lane that the map no longer holds.
    FetchingLaneData,
    /// Every spot beside the lanes within the search depth is taken.
    NoSpotFoundAfterSearch,
}

impl View for SpotReservation {
    type V = ParkingSpotID;

    closed spec fn view(&self) -> ParkingSpotID {
        self.0
    }
}

impl View for ParkingManagement {
    type V = Set<ParkingSpotID>;

    closed spec fn view(&self) -> Set<ParkingSpotID> {
        Set::new(|s: ParkingSpotID| self.reserved_spots@.contains(s.0))
    }
}

/// What a claim of `spot` does to the occupied set `occ`: the new set, and
/// whether the claim hands out a token.
pub open spec fn claim_outcome(occ: Set<ParkingSpotID>, spot: ParkingSpotID) -> (Set<ParkingSpotID>, bool) {
    (occ.insert(spot), !occ.contains(spot))
}

/// What releasing a token for `spot` does to the occupied set `occ`: the new
/// set, and whether the spot was in it.
pub open spec fn release_outcome(occ: Set<ParkingSpotID>, spot: ParkingSpotID) -> (Set<ParkingSpotID>, bool) {
    (occ.remove(spot), occ.contains(spot))
}

impl SpotReservation {
    /// The spot that this token holds.
    pub fn id(&self) -> (r: ParkingSpotID)
        ensures
            r == self@,
    {
        self.0
    }

    /// Whether the held spot still exists in the registry.
    pub fn exists_in(&self, spots: &ParkingSpots) -> (r: bool)
        ensures
            r == spots.spot_at(self@) is Some,
    {
        spots.contains(self.0)
    }

    /// The registry's record of the held spot, if it still exists.
    pub fn get<'a>(&self, spots: &'a ParkingSpots) -> (r: Option<&'a ParkingSpot>)
        ensures
            match r {
                Some(x) => spots.spot_at(self@) == Some(*x),
                None => spots.spot_at(self@) is None,
            },
    {
        spots.get(self.0)
    }
}

impl ParkingManagement {
    /// A ledger with no spot occupied.
    pub fn new() -> (r: ParkingManagement)
        ensures
            r@ == Set::<ParkingSpotID>::empty(),
    {
        let r = ParkingManagement { reserved_spots: BTreeSet::new() };
        assert(r@ =~= Set::<ParkingSpotID>::empty());
        r
    }

    /// Marks `spot` occupied and hands out its token, unless it already was.
    pub fn claim(&mut self, spot: ParkingSpotID) -> (r: Option<SpotReservation>)
        ensures
            (final(self)@, r is Some) == claim_outcome(old(self)@, spot),
            r matches Some(t) ==> t@ == spot,
    {
        let fresh = self.reserved_spots.insert(spot.0);
        assert(final(self)@ =~= old(self)@.insert(spot));
        if fresh {
            Some(SpotReservation(spot))
        } else {
            None
        }
    }

    /// Hands a token back and frees its spot. Returns whether the spot was
    /// occupied; `false` means the ledger was inconsistent with the token,
    /// and the spot is left free either way.
    pub fn free(&mut self, spot: SpotReservation) -> (was_reserved: bool)
        ensures
            (final(self)@, was_reserved) == release_outcome(old(self)@, spot@),
    {
        let was_reserved = self.reserved_spots.remove(&spot.0.0);
        assert(final(self)@ =~= old(self)@.remove(spot@));
        was_reserved
    }

    /// Whether the token's spot is free in this ledger. The token is used up:
    /// its spot is not freed by this call.
    pub fn is_free(&self, spot: SpotReservation) -> (r: bool)
        ensures
            r == !self@.contains(spot@),
    {
        self.is_spot_free(spot.0)
    }

    /// Whether `spot` is free.
    pub fn is_spot_free(&self, spot: ParkingSpotID) -> (r: bool)
        ensures
            r == !self@.contains(spot),
    {
        !self.reserved_spots.contains(&spot.0)
    }

    /// Whether `spot` is free and still exists in the registry.
    pub fn is_spot_free_and_valid(&self, spot: ParkingSpotID, spots: &ParkingSpots) -> (r: bool)
        ensures
            r == (!self@.contains(spot) && spots.spot_at(spot) is Some),
    {
        self.is_spot_free(spot) && spots.contains(spot)
    }
}

impl Default for ParkingManagement {
    fn default() -> (r: ParkingManagement)
        ensures
            r@ == Set::<ParkingSpotID>::empty(),
    {
        ParkingManagement::new()
    }
}

/// No spot is handed out twice: of two claims of one spot in a row the
/// second never succeeds, the first succeeds exactly when the spot was free,
/// and a held spot stays held whatever other spot is claimed next.
pub proof fn law_no_double_allocation(occ: Set<ParkingSpotID>, spot: ParkingSpotID, other: ParkingSpotID)
    ensures
        claim_outcome(occ, spot).1 <==> !occ.contains(spot),
        !claim_outcome(claim_outcome(occ, spot).0, spot).1,
        claim_outcome(claim_outcome(occ, spot).0, other).0.contains(spot),
{
}

/// Claiming a spot and then releasing its token leaves the spot free, puts
/// back the set as it was when the spot had been free, and lets the spot be
/// claimed again.
pub proof fn law_claim_release_round_trip(occ: Set<ParkingSpotID>, spot: ParkingSpotID)
    ensures
        ({
            let held = claim_outcome(occ, spot).0;
            let (after, was_reserved) = release_outcome(held, spot);
            &&& was_reserved
            &&& !after.contains(spot)
            &&& !occ.contains(spot) ==> after == occ
            &&& claim_outcome(after, spot).1
        }),
{
    let held = claim_outcome(occ, spot).0;
    if !occ.contains(spot) {
        assert(held.remove(spot) =~= occ);
    }
}

/// Releasing a token whose spot is not in the set reports it and leaves the
/// set as it was.
pub proof fn law_release_of_absent_spot(occ: Set<ParkingSpotID>, spot: ParkingSpotID)
    requires
        !occ.contains(spot),
    ensures
        release_outcome(occ, spot) == (occ, false),
{
    assert(occ.remove(spot) =~= occ);
}

} // verus!
