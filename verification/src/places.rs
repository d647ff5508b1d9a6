//! Plain attribute records that attach a position to a place.  They
//! carry no behaviour of their own: consumers hand their `position` to
//! the geometric queries.

use vstd::prelude::*;
use crate::coord::Coord;

verus! {

/// A bus stop: an identified place at a coordinate.
pub struct BusStop {
    pub position: Coord,
    pub id: String,
    pub name: String,
}

/// A train station: an identified place at a coordinate, tagged with
/// the region it belongs to.
pub struct TrainStation {
    pub name: String,
    pub id: String,
    pub region_id: u8,
    pub position: Coord,
}

} // verus!
