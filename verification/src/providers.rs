//! Capability interfaces for external transit services.  Providers
//! consume and produce `Coord` values; the geometry has no opinion on
//! their transport or live-status semantics, so the methods carry no
//! contracts and implementations live outside the verified core.

use vstd::prelude::*;
use crate::coord::Coord;

verus! {

/// A train station as an external provider reports it.
pub struct TrainStation {}

/// A trip between two stations as an external provider reports it.
pub struct TrainTrip {}

/// A bike-sharing station exposed by an external provider.
pub trait BikeSharingStation {
    fn get_position(&self) -> Coord;

    fn get_name(&self) -> Option<String>;

    fn get_id(&self) -> String;

    fn has_bikes(&self) -> Option<bool>;
}

/// An external train service: it resolves a coordinate to its nearest
/// station and fetches trips keyed by time.
pub trait TrainServiceProvider {
    fn get_name(&self) -> String;

    fn get_id(&self) -> String;

    fn get_nearest_station(&self, from: &Coord) -> TrainStation;

    fn get_trip(&self, from: &TrainStation, to: &TrainStation, at: u64) -> TrainTrip;

    fn get_train_delay() -> Option<i32>;
}

/// An external bike-sharing service: it resolves a coordinate to its
/// nearest station and lists its stations.
pub trait BikeSharingServiceProvider {
    type Station: BikeSharingStation;

    fn get_name(&self) -> String;

    fn get_id(&self) -> String;

    fn get_nearest_station(&self, from: &Coord) -> Self::Station;

    fn get_station_list(&self) -> Vec<Self::Station>;
}

} // verus!
