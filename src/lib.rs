//! Reservation of parking spots for agents on a road network.
//!
//! `map` holds the road graph that the search reads: arenas of lanes,
//! intersections and roads, a spatial index of lanes and the registry of
//! parking spots. `parking` holds the ledger of occupied spots and the
//! tokens that it hands out. `search` finds and claims a free spot near a
//! point with a bounded, ring-by-ring walk over the lane graph.
use vstd::prelude::*;

pub mod map;
pub mod parking;
pub mod search;

verus! {

} // verus!
