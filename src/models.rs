//! The canonical route model shared by the parser and the trip state machine.
use vstd::prelude::*;

verus! {

/// A WGS84 position in fixed point: the latitude in degrees is `lat / 10^precision`,
/// the longitude `lng / 10^precision`.
#[derive(Clone, Copy, Debug, PartialEq, Eq, Structural)]
pub struct GeographicCoordinate {
    pub lat: i64,
    pub lng: i64,
    pub precision: u32,
}

} // verus!

verus! {

/// One maneuver of a route and the geometry covered while performing it.
#[derive(Debug)]
pub struct RouteStep {
    pub start_location: GeographicCoordinate,
    pub end_location: GeographicCoordinate,
    /// The step's length in millimetres.
    pub distance: i64,
    pub road_name: String,
    pub instruction: String,
    pub geometry: Vec<GeographicCoordinate>,
}

/// What a `RouteStep` holds, as mathematical values.
pub struct RouteStepView {
    pub start_location: GeographicCoordinate,
    pub end_location: GeographicCoordinate,
    pub distance: int,
    pub road_name: Seq<char>,
    pub instruction: Seq<char>,
    pub geometry: Seq<GeographicCoordinate>,
}

impl View for RouteStep {
    type V = RouteStepView;

    open spec fn view(&self) -> RouteStepView {
        RouteStepView {
            start_location: self.start_location,
            end_location: self.end_location,
            distance: self.distance as int,
            road_name: self.road_name@,
            instruction: self.instruction@,
            geometry: self.geometry@,
        }
    }
}

impl RouteStepView {
    /// The step starts at the first point of its geometry and ends at the last.
    pub open spec fn is_anchored(self) -> bool {
        &&& self.geometry.len() >= 1
        &&& self.start_location == self.geometry[0]
        &&& self.end_location == self.geometry.last()
    }
}

impl RouteStep {
    /// An independent copy of the step.
    pub fn duplicate(&self) -> (r: RouteStep)
        ensures
            r@ == self@,
    {
        RouteStep {
            start_location: self.start_location,
            end_location: self.end_location,
            distance: self.distance,
            road_name: self.road_name.clone(),
            instruction: self.instruction.clone(),
            geometry: copy_coordinates(&self.geometry),
        }
    }
}

/// A route: its full geometry, the waypoints it visits and its steps, in order.
#[derive(Debug)]
pub struct Route {
    pub geometry: Vec<GeographicCoordinate>,
    pub waypoints: Vec<GeographicCoordinate>,
    pub steps: Vec<RouteStep>,
}

pub struct RouteView {
    pub geometry: Seq<GeographicCoordinate>,
    pub waypoints: Seq<GeographicCoordinate>,
    pub steps: Seq<RouteStepView>,
}

pub open spec fn steps_view(steps: Seq<RouteStep>) -> Seq<RouteStepView> {
    steps.map_values(|s: RouteStep| s@)
}

impl View for Route {
    type V = RouteView;

    open spec fn view(&self) -> RouteView {
        RouteView {
            geometry: self.geometry@,
            waypoints: self.waypoints@,
            steps: steps_view(self.steps@),
        }
    }
}

pub open spec fn routes_view(routes: Seq<Route>) -> Seq<RouteView> {
    routes.map_values(|r: Route| r@)
}

/// An independent copy of a coordinate sequence.
pub fn copy_coordinates(v: &Vec<GeographicCoordinate>) -> (r: Vec<GeographicCoordinate>)
    ensures
        r@ == v@,
{
    let mut r: Vec<GeographicCoordinate> = Vec::new();
    let mut i: usize = 0;
    while i < v.len()
        invariant
            i <= v@.len(),
            r@ == v@.subrange(0, i as int),
        decreases v.len() - i,
    {
        r.push(v[i]);
        i = i + 1;
    }
    assert(v@.subrange(0, v@.len() as int) == v@);
    r
}

} // verus!
