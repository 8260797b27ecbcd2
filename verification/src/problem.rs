//! Types of route planning: configuration, orderings of train visits and
//! route plans. Partial routes, trains and the planning problem itself are
//! not kept here: they are described by infrastructure and vehicle types
//! (route entries and exits, nodes, vehicles) that are not part of this
//! crate, and by lengths in floating point.

use vstd::prelude::*;

verus! {

/// A train, by number.
pub type TrainId = usize;

/// A visit of a train, by number.
pub type VisitId = usize;

/// A partial route: a route's number and the number of a part of it.
pub type PartialRouteId = (usize, usize);

/// An overlap, by number.
pub type OverlapId = usize;

/// How many partial routes a plan looks at before and after a point.
pub struct Config {
    pub n_before: usize,
    pub n_after: usize,
}

/// An ordering between two train visits: visit `a` comes before visit `b`.
pub struct TrainOrd {
    pub a: (TrainId, VisitId),
    pub b: (TrainId, VisitId),
}

/// A route plan: for each step, the partial routes taken and by which
/// train, if any.
pub type RoutePlan = Vec<Vec<(PartialRouteId, Option<TrainId>)>>;

} // verus!
