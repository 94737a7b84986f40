//! Reading OSRM-compatible route responses, including the extended dialect that
//! Valhalla and Mapbox produce: members that are not read are ignored.
use crate::codec::{decode_polyline, decoded};
use crate::json::{
    array_of, field, member, get_array, get_field, get_number, get_text, json_document, number_of,
    read_json, text_of, JsonValue,
};
use crate::models::{
    copy_coordinates, routes_view, steps_view, GeographicCoordinate, Route, RouteStep,
    RouteStepView, RouteView,
};
use crate::number::{parse_fixed, scaled_number};
use vstd::prelude::*;
use vstd::string::StringExecFns;

verus! {

/// Why a route response could not be used.
#[derive(Debug)]
pub enum ParseError {
    Parse { error: String },
}

impl ParseError {
    fn new(message: &str) -> (r: ParseError) {
        ParseError::Parse { error: String::from_str(message) }
    }
}

/// Distances are kept in millimetres.
pub const DISTANCE_SCALE: u32 = 3;

/// The instruction of a maneuver: its `instruction` text where it has one, else its
/// `type`, followed by a space and its `modifier` where it has one.
pub open spec fn spec_instruction(maneuver: JsonValue) -> Option<Seq<char>> {
    match maneuver {
        JsonValue::Object(_) => match text_of(field(maneuver, "instruction"@)) {
            Some(text) => Some(text),
            None => match text_of(field(maneuver, "type"@)) {
                Some(kind) => match text_of(field(maneuver, "modifier"@)) {
                    Some(modifier) => Some(kind + " "@ + modifier),
                    None => Some(kind),
                },
                None => None,
            },
        },
        _ => None,
    }
}

/// The step that a backend step describes at `precision`.
pub open spec fn spec_step(step: JsonValue, precision: u32) -> Option<RouteStepView> {
    match text_of(field(step, "geometry"@)) {
        None => None,
        Some(encoded) => match decoded(encoded, precision) {
            None => None,
            Some(points) => if points.len() == 0 {
                None
            } else {
                match number_of(field(step, "distance"@)) {
                    None => None,
                    Some(d) => match scaled_number(d, DISTANCE_SCALE as nat) {
                        None => None,
                        Some(distance) => match text_of(field(step, "name"@)) {
                            None => None,
                            Some(name) => match field(step, "maneuver"@) {
                                None => None,
                                Some(maneuver) => match spec_instruction(maneuver) {
                                    None => None,
                                    Some(instruction) => Some(
                                        RouteStepView {
                                            start_location: points[0],
                                            end_location: points.last(),
                                            distance: distance as int,
                                            road_name: name,
                                            instruction,
                                            geometry: points,
                                        },
                                    ),
                                },
                            },
                        },
                    },
                }
            },
        },
    }
}

/// The steps of the first `n` backend steps, in order.
pub open spec fn steps_upto(steps: Seq<JsonValue>, n: int, precision: u32) -> Option<Seq<RouteStepView>>
    decreases n,
{
    if n <= 0 {
        Some(Seq::empty())
    } else {
        match steps_upto(steps, n - 1, precision) {
            None => None,
            Some(prev) => match spec_step(steps[n - 1], precision) {
                None => None,
                Some(s) => Some(prev.push(s)),
            },
        }
    }
}

/// The steps of one leg.
pub open spec fn leg_steps(leg: JsonValue, precision: u32) -> Option<Seq<RouteStepView>> {
    match array_of(field(leg, "steps"@)) {
        None => None,
        Some(steps) => steps_upto(steps, steps.len() as int, precision),
    }
}

/// The steps of the first `n` legs, flattened in order.
pub open spec fn legs_upto(legs: Seq<JsonValue>, n: int, precision: u32) -> Option<Seq<RouteStepView>>
    decreases n,
{
    if n <= 0 {
        Some(Seq::empty())
    } else {
        match legs_upto(legs, n - 1, precision) {
            None => None,
            Some(prev) => match leg_steps(legs[n - 1], precision) {
                None => None,
                Some(s) => Some(prev + s),
            },
        }
    }
}

/// The route that a backend route describes, with the response's waypoints.
pub open spec fn spec_route(route: JsonValue, waypoints: Seq<GeographicCoordinate>, precision: u32) -> Option<RouteView> {
    match text_of(field(route, "geometry"@)) {
        None => None,
        Some(encoded) => match decoded(encoded, precision) {
            None => None,
            Some(geometry) => match array_of(field(route, "legs"@)) {
                None => None,
                Some(legs) => match legs_upto(legs, legs.len() as int, precision) {
                    None => None,
                    Some(steps) => Some(RouteView { geometry, waypoints, steps }),
                },
            },
        },
    }
}

/// The routes of the first `n` backend routes, in order.
pub open spec fn routes_upto(routes: Seq<JsonValue>, n: int, waypoints: Seq<GeographicCoordinate>, precision: u32) -> Option<Seq<RouteView>>
    decreases n,
{
    if n <= 0 {
        Some(Seq::empty())
    } else {
        match routes_upto(routes, n - 1, waypoints, precision) {
            None => None,
            Some(prev) => match spec_route(routes[n - 1], waypoints, precision) {
                None => None,
                Some(r) => Some(prev.push(r)),
            },
        }
    }
}

/// A waypoint's `location`, written `[longitude, latitude]`.
pub open spec fn spec_waypoint(waypoint: JsonValue, precision: u32) -> Option<GeographicCoordinate> {
    match array_of(field(waypoint, "location"@)) {
        Some(pair) => if pair.len() != 2 {
            None
        } else {
            match (pair[0], pair[1]) {
                (JsonValue::Number(lng), JsonValue::Number(lat)) => match (
                    scaled_number(lat@, precision as nat),
                    scaled_number(lng@, precision as nat),
                ) {
                    (Some(lat), Some(lng)) => Some(GeographicCoordinate { lat, lng, precision }),
                    _ => None,
                },
                _ => None,
            }
        },
        None => None,
    }
}

/// The first `n` waypoints, in order.
pub open spec fn waypoints_upto(waypoints: Seq<JsonValue>, n: int, precision: u32) -> Option<Seq<GeographicCoordinate>>
    decreases n,
{
    if n <= 0 {
        Some(Seq::empty())
    } else {
        match waypoints_upto(waypoints, n - 1, precision) {
            None => None,
            Some(prev) => match spec_waypoint(waypoints[n - 1], precision) {
                None => None,
                Some(w) => Some(prev.push(w)),
            },
        }
    }
}

/// The routes that a response document describes at `precision`, or `None` where it
/// does not follow the response schema.
pub open spec fn spec_routes(doc: JsonValue, precision: u32) -> Option<Seq<RouteView>> {
    match (array_of(field(doc, "routes"@)), array_of(field(doc, "waypoints"@))) {
        (Some(routes), Some(waypoints)) => match waypoints_upto(waypoints, waypoints.len() as int, precision) {
            None => None,
            Some(w) => routes_upto(routes, routes.len() as int, w, precision),
        },
        _ => None,
    }
}

proof fn lemma_steps_stay_failed(steps: Seq<JsonValue>, i: int, n: int, precision: u32)
    requires
        0 <= i <= n,
        steps_upto(steps, i, precision) is None,
    ensures
        steps_upto(steps, n, precision) is None,
    decreases n - i,
{
    if i < n {
        lemma_steps_stay_failed(steps, i, n - 1, precision);
    }
}

proof fn lemma_legs_stay_failed(legs: Seq<JsonValue>, i: int, n: int, precision: u32)
    requires
        0 <= i <= n,
        legs_upto(legs, i, precision) is None,
    ensures
        legs_upto(legs, n, precision) is None,
    decreases n - i,
{
    if i < n {
        lemma_legs_stay_failed(legs, i, n - 1, precision);
    }
}

proof fn lemma_routes_stay_failed(routes: Seq<JsonValue>, i: int, n: int, w: Seq<GeographicCoordinate>, precision: u32)
    requires
        0 <= i <= n,
        routes_upto(routes, i, w, precision) is None,
    ensures
        routes_upto(routes, n, w, precision) is None,
    decreases n - i,
{
    if i < n {
        lemma_routes_stay_failed(routes, i, n - 1, w, precision);
    }
}

proof fn lemma_waypoints_stay_failed(ws: Seq<JsonValue>, i: int, n: int, precision: u32)
    requires
        0 <= i <= n,
        waypoints_upto(ws, i, precision) is None,
    ensures
        waypoints_upto(ws, n, precision) is None,
    decreases n - i,
{
    if i < n {
        lemma_waypoints_stay_failed(ws, i, n - 1, precision);
    }
}

/// The instruction text of a maneuver.
fn instruction_of(maneuver: &JsonValue) -> (r: Result<String, ParseError>)
    ensures
        match spec_instruction(*maneuver) {
            Some(t) => r is Ok && r->Ok_0@ == t,
            None => r is Err,
        },
{
    match maneuver {
        JsonValue::Object(_) => {},
        _ => {
            return Err(ParseError::new("maneuver is not an object"));
        },
    }
    if let Some(text) = get_text(maneuver, "instruction") {
        return Ok(text.clone());
    }
    match get_text(maneuver, "type") {
        Some(kind) => match get_text(maneuver, "modifier") {
            Some(modifier) => Ok(kind.clone().concat(" ").concat(modifier.as_str())),
            None => Ok(kind.clone()),
        },
        None => Err(ParseError::new("maneuver has neither instruction nor type")),
    }
}

impl RouteStep {
    /// Builds a step from a backend step, decoding its geometry at `polyline_precision`.
    pub fn from_osrm(value: &JsonValue, polyline_precision: u32) -> (r: Result<RouteStep, ParseError>)
        ensures
            match spec_step(*value, polyline_precision) {
                Some(s) => r is Ok && r->Ok_0@ == s,
                None => r is Err,
            },
    {
        let encoded = match get_text(value, "geometry") {
            Some(g) => g,
            None => {
                return Err(ParseError::new("step has no geometry"));
            },
        };
        let geometry = match decode_polyline(encoded.as_str(), polyline_precision) {
            Ok(points) => points,
            Err(e) => {
                return Err(ParseError::Parse { error: e.message() });
            },
        };
        if geometry.len() == 0 {
            return Err(ParseError::new("No coordinates in geometry"));
        }
        let start_location = geometry[0];
        let end_location = geometry[geometry.len() - 1];
        let distance = match get_number(value, "distance") {
            Some(d) => match parse_fixed(d.as_str(), DISTANCE_SCALE) {
                Some(mm) => mm,
                None => {
                    return Err(ParseError::new("step distance is out of range"));
                },
            },
            None => {
                return Err(ParseError::new("step has no distance"));
            },
        };
        let road_name = match get_text(value, "name") {
            Some(n) => n.clone(),
            None => {
                return Err(ParseError::new("step has no name"));
            },
        };
        let instruction = match get_field(value, "maneuver") {
            Some(m) => instruction_of(m)?,
            None => {
                return Err(ParseError::new("step has no maneuver"));
            },
        };
        Ok(RouteStep { start_location, end_location, distance, road_name, instruction, geometry })
    }
}

/// The steps of one leg.
fn steps_of_leg(leg: &JsonValue, precision: u32) -> (r: Result<Vec<RouteStep>, ParseError>)
    ensures
        match leg_steps(*leg, precision) {
            Some(s) => r is Ok && steps_view(r->Ok_0@) == s,
            None => r is Err,
        },
{
    let steps = match get_array(leg, "steps") {
        Some(s) => s,
        None => {
            return Err(ParseError::new("leg has no steps"));
        },
    };
    let mut out: Vec<RouteStep> = Vec::new();
    let mut i: usize = 0;
    while i < steps.len()
        invariant
            i <= steps@.len(),
            array_of(field(*leg, "steps"@)) == Some(steps@),
            steps_upto(steps@, i as int, precision) == Some(steps_view(out@)),
        decreases steps.len() - i,
    {
        let step = match RouteStep::from_osrm(&steps[i], precision) {
            Ok(s) => s,
            Err(e) => {
                proof {
                    lemma_steps_stay_failed(steps@, i as int + 1, steps@.len() as int, precision);
                }
                return Err(e);
            },
        };
        let ghost before = out@;
        out.push(step);
        assert(steps_view(out@) =~= steps_view(before).push(step@));
        i = i + 1;
    }
    Ok(out)
}

/// One route of the response, carrying its own copy of the waypoints.
fn route_from_osrm(route: &JsonValue, waypoints: &Vec<GeographicCoordinate>, precision: u32) -> (r: Result<Route, ParseError>)
    ensures
        match spec_route(*route, waypoints@, precision) {
            Some(v) => r is Ok && r->Ok_0@ == v,
            None => r is Err,
        },
{
    let encoded = match get_text(route, "geometry") {
        Some(g) => g,
        None => {
            return Err(ParseError::new("route has no geometry"));
        },
    };
    let geometry = match decode_polyline(encoded.as_str(), precision) {
        Ok(points) => points,
        Err(e) => {
            return Err(ParseError::Parse { error: e.message() });
        },
    };
    let legs = match get_array(route, "legs") {
        Some(l) => l,
        None => {
            return Err(ParseError::new("route has no legs"));
        },
    };
    let mut steps: Vec<RouteStep> = Vec::new();
    let mut i: usize = 0;
    while i < legs.len()
        invariant
            i <= legs@.len(),
            array_of(field(*route, "legs"@)) == Some(legs@),
            text_of(field(*route, "geometry"@)) == Some(encoded@),
            decoded(encoded@, precision) == Some(geometry@),
            legs_upto(legs@, i as int, precision) == Some(steps_view(steps@)),
        decreases legs.len() - i,
    {
        let mut more = match steps_of_leg(&legs[i], precision) {
            Ok(s) => s,
            Err(e) => {
                proof {
                    lemma_legs_stay_failed(legs@, i as int + 1, legs@.len() as int, precision);
                }
                return Err(e);
            },
        };
        let ghost before = steps@;
        let ghost added = more@;
        steps.append(&mut more);
        assert(steps_view(steps@) =~= steps_view(before) + steps_view(added));
        i = i + 1;
    }
    Ok(Route { geometry, waypoints: copy_coordinates(waypoints), steps })
}

/// A waypoint's location.
fn waypoint_from_osrm(waypoint: &JsonValue, precision: u32) -> (r: Result<GeographicCoordinate, ParseError>)
    ensures
        match spec_waypoint(*waypoint, precision) {
            Some(c) => r == Ok::<GeographicCoordinate, ParseError>(c),
            None => r is Err,
        },
{
    let pair = match get_array(waypoint, "location") {
        Some(p) => p,
        None => {
            return Err(ParseError::new("waypoint has no location"));
        },
    };
    if pair.len() != 2 {
        return Err(ParseError::new("waypoint location is not a pair"));
    }
    match (&pair[0], &pair[1]) {
        (JsonValue::Number(lng), JsonValue::Number(lat)) => {
            match (parse_fixed(lat.as_str(), precision), parse_fixed(lng.as_str(), precision)) {
                (Some(lat), Some(lng)) => Ok(GeographicCoordinate { lat, lng, precision }),
                _ => Err(ParseError::new("waypoint coordinate is out of range")),
            }
        },
        _ => Err(ParseError::new("waypoint location is not numeric")),
    }
}

/// Reads the routes of a response document, decoding polylines at `precision`.
pub fn routes_from_json(doc: &JsonValue, precision: u32) -> (r: Result<Vec<Route>, ParseError>)
    ensures
        match spec_routes(*doc, precision) {
            Some(v) => r is Ok && routes_view(r->Ok_0@) == v,
            None => r is Err,
        },
{
    let routes = match get_array(doc, "routes") {
        Some(r) => r,
        None => {
            return Err(ParseError::new("response has no routes"));
        },
    };
    let raw_waypoints = match get_array(doc, "waypoints") {
        Some(w) => w,
        None => {
            return Err(ParseError::new("response has no waypoints"));
        },
    };
    let mut waypoints: Vec<GeographicCoordinate> = Vec::new();
    let mut i: usize = 0;
    while i < raw_waypoints.len()
        invariant
            i <= raw_waypoints@.len(),
            array_of(field(*doc, "routes"@)) == Some(routes@),
            array_of(field(*doc, "waypoints"@)) == Some(raw_waypoints@),
            waypoints_upto(raw_waypoints@, i as int, precision) == Some(waypoints@),
        decreases raw_waypoints.len() - i,
    {
        let w = match waypoint_from_osrm(&raw_waypoints[i], precision) {
            Ok(w) => w,
            Err(e) => {
                proof {
                    lemma_waypoints_stay_failed(raw_waypoints@, i as int + 1, raw_waypoints@.len() as int, precision);
                }
                return Err(e);
            },
        };
        waypoints.push(w);
        i = i + 1;
    }
    let mut out: Vec<Route> = Vec::new();
    let mut j: usize = 0;
    while j < routes.len()
        invariant
            j <= routes@.len(),
            array_of(field(*doc, "routes"@)) == Some(routes@),
            array_of(field(*doc, "waypoints"@)) == Some(raw_waypoints@),
            waypoints_upto(raw_waypoints@, raw_waypoints@.len() as int, precision) == Some(waypoints@),
            routes_upto(routes@, j as int, waypoints@, precision) == Some(routes_view(out@)),
        decreases routes.len() - j,
    {
        let route = match route_from_osrm(&routes[j], &waypoints, precision) {
            Ok(r) => r,
            Err(e) => {
                proof {
                    lemma_routes_stay_failed(routes@, j as int + 1, routes@.len() as int, waypoints@, precision);
                }
                return Err(e);
            },
        };
        let ghost before = out@;
        out.push(route);
        assert(routes_view(out@) =~= routes_view(before).push(route@));
        j = j + 1;
    }
    Ok(out)
}

/// A response parser for OSRM-compatible routing backends. Members that the
/// Valhalla and Mapbox dialects add are accepted and ignored.
#[derive(Debug)]
pub struct OsrmResponseParser {
    polyline_precision: u32,
}

impl OsrmResponseParser {
    /// The number of decimal places at which polylines are decoded.
    pub closed spec fn precision(&self) -> u32 {
        self.polyline_precision
    }

    pub fn new(polyline_precision: u32) -> (r: Self)
        ensures
            r.precision() == polyline_precision,
    {
        Self { polyline_precision }
    }

    /// Parses a raw response: the routes it holds, in order, each with the
    /// response's waypoints.
    pub fn parse_response(&self, response: Vec<u8>) -> (r: Result<Vec<Route>, ParseError>)
        ensures
            match json_document(response@) {
                Some(doc) => match spec_routes(doc, self.precision()) {
                    Some(v) => r is Ok && routes_view(r->Ok_0@) == v,
                    None => r is Err,
                },
                None => r is Err,
            },
    {
        match read_json(response.as_slice()) {
            Some(doc) => routes_from_json(&doc, self.polyline_precision),
            None => Err(ParseError::new("response is not JSON")),
        }
    }
}

proof fn lemma_steps_anchored(steps: Seq<JsonValue>, n: int, precision: u32)
    requires
        steps_upto(steps, n, precision) is Some,
    ensures
        forall|k: int| 0 <= k < steps_upto(steps, n, precision)->Some_0.len() ==> (#[trigger] steps_upto(steps, n, precision)->Some_0[k]).is_anchored(),
    decreases n,
{
    if n > 0 {
        lemma_steps_anchored(steps, n - 1, precision);
    }
}

proof fn lemma_legs_anchored(legs: Seq<JsonValue>, n: int, precision: u32)
    requires
        legs_upto(legs, n, precision) is Some,
    ensures
        forall|k: int| 0 <= k < legs_upto(legs, n, precision)->Some_0.len() ==> (#[trigger] legs_upto(legs, n, precision)->Some_0[k]).is_anchored(),
    decreases n,
{
    if n > 0 {
        lemma_legs_anchored(legs, n - 1, precision);
        let steps = array_of(field(legs[n - 1], "steps"@))->Some_0;
        lemma_steps_anchored(steps, steps.len() as int, precision);
        let prev = legs_upto(legs, n - 1, precision)->Some_0;
        let more = leg_steps(legs[n - 1], precision)->Some_0;
        assert forall|k: int| 0 <= k < (prev + more).len() implies (#[trigger] (prev + more)[k]).is_anchored() by {
            if k >= prev.len() {
                assert((prev + more)[k] == more[k - prev.len()]);
            }
        }
    }
}

proof fn lemma_routes_anchored(routes: Seq<JsonValue>, n: int, w: Seq<GeographicCoordinate>, precision: u32)
    requires
        routes_upto(routes, n, w, precision) is Some,
    ensures
        forall|k: int, m: int| 0 <= k < routes_upto(routes, n, w, precision)->Some_0.len()
            && 0 <= m < routes_upto(routes, n, w, precision)->Some_0[k].steps.len()
            ==> (#[trigger] routes_upto(routes, n, w, precision)->Some_0[k].steps[m]).is_anchored(),
    decreases n,
{
    if n > 0 {
        lemma_routes_anchored(routes, n - 1, w, precision);
        let legs = array_of(field(routes[n - 1], "legs"@))->Some_0;
        lemma_legs_anchored(legs, legs.len() as int, precision);
    }
}

/// Every parsed step starts at the first point of its geometry and ends at the last
/// (which is its start where the geometry has one point).
pub proof fn lemma_parsed_steps_anchored(doc: JsonValue, precision: u32)
    requires
        spec_routes(doc, precision) is Some,
    ensures
        forall|k: int, m: int| 0 <= k < spec_routes(doc, precision)->Some_0.len()
            && 0 <= m < spec_routes(doc, precision)->Some_0[k].steps.len()
            ==> (#[trigger] spec_routes(doc, precision)->Some_0[k].steps[m]).is_anchored(),
{
    let routes = array_of(field(doc, "routes"@))->Some_0;
    let ws = array_of(field(doc, "waypoints"@))->Some_0;
    let w = waypoints_upto(ws, ws.len() as int, precision)->Some_0;
    lemma_routes_anchored(routes, routes.len() as int, w, precision);
}

/// A response with a route whose geometry does not decode is rejected whole.
pub proof fn lemma_malformed_route_geometry_rejected(doc: JsonValue, precision: u32, i: int)
    requires
        array_of(field(doc, "routes"@)) is Some,
        0 <= i < array_of(field(doc, "routes"@))->Some_0.len(),
        text_of(field(array_of(field(doc, "routes"@))->Some_0[i], "geometry"@)) matches Some(g)
            && decoded(g, precision) is None,
    ensures
        spec_routes(doc, precision) is None,
{
    let routes = array_of(field(doc, "routes"@))->Some_0;
    if let Some(ws) = array_of(field(doc, "waypoints"@)) {
        if let Some(w) = waypoints_upto(ws, ws.len() as int, precision) {
            assert(spec_route(routes[i], w, precision) is None);
            lemma_routes_stay_failed(routes, i + 1, routes.len() as int, w, precision);
        }
    }
}

/// The `k`th step of leg `l` of route `i` of a response document.
pub open spec fn step_at(doc: JsonValue, i: int, l: int, k: int) -> Option<JsonValue> {
    match array_of(field(doc, "routes"@)) {
        Some(routes) => if 0 <= i < routes.len() {
            match array_of(field(routes[i], "legs"@)) {
                Some(legs) => if 0 <= l < legs.len() {
                    match array_of(field(legs[l], "steps"@)) {
                        Some(steps) => if 0 <= k < steps.len() {
                            Some(steps[k])
                        } else {
                            None
                        },
                        None => None,
                    }
                } else {
                    None
                },
                None => None,
            }
        } else {
            None
        },
        None => None,
    }
}

/// A response with a step whose geometry does not decode is rejected whole.
pub proof fn lemma_malformed_step_geometry_rejected(doc: JsonValue, precision: u32, i: int, l: int, k: int)
    requires
        step_at(doc, i, l, k) is Some,
        text_of(field(step_at(doc, i, l, k)->Some_0, "geometry"@)) is Some,
        decoded(text_of(field(step_at(doc, i, l, k)->Some_0, "geometry"@))->Some_0, precision) is None,
    ensures
        spec_routes(doc, precision) is None,
{
    let routes = array_of(field(doc, "routes"@))->Some_0;
    let legs = array_of(field(routes[i], "legs"@))->Some_0;
    let steps = array_of(field(legs[l], "steps"@))->Some_0;
    lemma_steps_stay_failed(steps, k + 1, steps.len() as int, precision);
    lemma_legs_stay_failed(legs, l + 1, legs.len() as int, precision);
    if let Some(ws) = array_of(field(doc, "waypoints"@)) {
        if let Some(w) = waypoints_upto(ws, ws.len() as int, precision) {
            lemma_routes_stay_failed(routes, i + 1, routes.len() as int, w, precision);
        }
    }
}

/// `rich` holds everything that `plain` holds, to `depth` levels of nesting: an
/// object has at least the members of the other (and perhaps more), whose values
/// extend theirs; an array has as many items, each extending the other's; any other
/// value is the same. Past `depth` levels the two are the same.
pub open spec fn extends(rich: JsonValue, plain: JsonValue, depth: nat) -> bool
    decreases depth,
{
    if depth == 0 {
        rich == plain
    } else {
        match plain {
            JsonValue::Array(ps) => match rich {
                JsonValue::Array(rs) => rs@.len() == ps@.len() && forall|i: int|
                    0 <= i < ps@.len() ==> extends(#[trigger] rs@[i], ps@[i], (depth - 1) as nat),
                _ => false,
            },
            JsonValue::Object(pe) => match rich {
                JsonValue::Object(_) => forall|k: Seq<char>| #[trigger] member(pe@, k) is Some ==> (
                    field(rich, k) is Some && extends(
                        field(rich, k)->Some_0,
                        member(pe@, k)->Some_0,
                        (depth - 1) as nat,
                    )),
                _ => false,
            },
            _ => rich == plain,
        }
    }
}

/// Two steps that agree in everything but their instruction text.
pub open spec fn same_course(a: RouteStepView, b: RouteStepView) -> bool {
    &&& a.start_location == b.start_location
    &&& a.end_location == b.end_location
    &&& a.distance == b.distance
    &&& a.road_name == b.road_name
    &&& a.geometry == b.geometry
}

pub open spec fn same_courses(a: Seq<RouteStepView>, b: Seq<RouteStepView>) -> bool {
    &&& a.len() == b.len()
    &&& forall|i: int| 0 <= i < a.len() ==> same_course(#[trigger] a[i], b[i])
}

proof fn lemma_field_extends(rich: JsonValue, plain: JsonValue, depth: nat, key: Seq<char>)
    requires
        extends(rich, plain, depth),
        depth >= 1,
        field(plain, key) is Some,
    ensures
        field(rich, key) is Some,
        extends(field(rich, key)->Some_0, field(plain, key)->Some_0, (depth - 1) as nat),
{
    let pe = match plain {
        JsonValue::Object(pe) => pe,
        _ => arbitrary(),
    };
    assert(member(pe@, key) is Some);
}

proof fn lemma_scalar_extends(rich: JsonValue, plain: JsonValue, depth: nat)
    requires
        extends(rich, plain, depth),
        !(plain is Array),
        !(plain is Object),
    ensures
        rich == plain,
{
}

proof fn lemma_text_field_kept(rich: JsonValue, plain: JsonValue, depth: nat, key: Seq<char>)
    requires
        extends(rich, plain, depth),
        depth >= 1,
        text_of(field(plain, key)) is Some,
    ensures
        text_of(field(rich, key)) == text_of(field(plain, key)),
{
    lemma_field_extends(rich, plain, depth, key);
    lemma_scalar_extends(field(rich, key)->Some_0, field(plain, key)->Some_0, (depth - 1) as nat);
}

proof fn lemma_number_field_kept(rich: JsonValue, plain: JsonValue, depth: nat, key: Seq<char>)
    requires
        extends(rich, plain, depth),
        depth >= 1,
        number_of(field(plain, key)) is Some,
    ensures
        number_of(field(rich, key)) == number_of(field(plain, key)),
{
    lemma_field_extends(rich, plain, depth, key);
    lemma_scalar_extends(field(rich, key)->Some_0, field(plain, key)->Some_0, (depth - 1) as nat);
}

proof fn lemma_array_field_kept(rich: JsonValue, plain: JsonValue, depth: nat, key: Seq<char>)
    requires
        extends(rich, plain, depth),
        depth >= 2,
        array_of(field(plain, key)) is Some,
    ensures
        array_of(field(rich, key)) is Some,
        array_of(field(rich, key))->Some_0.len() == array_of(field(plain, key))->Some_0.len(),
        forall|i: int| 0 <= i < array_of(field(plain, key))->Some_0.len() ==> extends(
            #[trigger] array_of(field(rich, key))->Some_0[i],
            array_of(field(plain, key))->Some_0[i],
            (depth - 2) as nat,
        ),
{
    lemma_field_extends(rich, plain, depth, key);
}

proof fn lemma_instruction_kept(rich: JsonValue, plain: JsonValue, depth: nat)
    requires
        extends(rich, plain, depth),
        depth >= 1,
        spec_instruction(plain) is Some,
    ensures
        spec_instruction(rich) is Some,
        text_of(field(plain, "instruction"@)) is Some ==> spec_instruction(rich) == spec_instruction(plain),
{
    if text_of(field(plain, "instruction"@)) is Some {
        lemma_text_field_kept(rich, plain, depth, "instruction"@);
    } else {
        lemma_text_field_kept(rich, plain, depth, "type"@);
    }
}

proof fn lemma_step_kept(rich: JsonValue, plain: JsonValue, depth: nat, precision: u32)
    requires
        extends(rich, plain, depth),
        depth >= 2,
        spec_step(plain, precision) is Some,
    ensures
        spec_step(rich, precision) is Some,
        same_course(spec_step(rich, precision)->Some_0, spec_step(plain, precision)->Some_0),
{
    lemma_text_field_kept(rich, plain, depth, "geometry"@);
    lemma_number_field_kept(rich, plain, depth, "distance"@);
    lemma_text_field_kept(rich, plain, depth, "name"@);
    lemma_field_extends(rich, plain, depth, "maneuver"@);
    lemma_instruction_kept(field(rich, "maneuver"@)->Some_0, field(plain, "maneuver"@)->Some_0, (depth - 1) as nat);
}

proof fn lemma_steps_kept(rich: Seq<JsonValue>, plain: Seq<JsonValue>, n: int, depth: nat, precision: u32)
    requires
        rich.len() == plain.len(),
        0 <= n <= plain.len(),
        forall|i: int| 0 <= i < plain.len() ==> extends(#[trigger] rich[i], plain[i], depth),
        depth >= 2,
        steps_upto(plain, n, precision) is Some,
    ensures
        steps_upto(rich, n, precision) is Some,
        same_courses(steps_upto(rich, n, precision)->Some_0, steps_upto(plain, n, precision)->Some_0),
    decreases n,
{
    if n > 0 {
        lemma_steps_kept(rich, plain, n - 1, depth, precision);
        lemma_step_kept(rich[n - 1], plain[n - 1], depth, precision);
        let a = steps_upto(rich, n - 1, precision)->Some_0;
        let b = steps_upto(plain, n - 1, precision)->Some_0;
        let x = spec_step(rich[n - 1], precision)->Some_0;
        let y = spec_step(plain[n - 1], precision)->Some_0;
        assert forall|i: int| 0 <= i < a.push(x).len() implies same_course(#[trigger] a.push(x)[i], b.push(y)[i]) by {
            if i < a.len() {
                assert(a.push(x)[i] == a[i]);
                assert(b.push(y)[i] == b[i]);
            }
        }
    }
}

proof fn lemma_legs_kept(rich: Seq<JsonValue>, plain: Seq<JsonValue>, n: int, depth: nat, precision: u32)
    requires
        rich.len() == plain.len(),
        0 <= n <= plain.len(),
        forall|i: int| 0 <= i < plain.len() ==> extends(#[trigger] rich[i], plain[i], depth),
        depth >= 4,
        legs_upto(plain, n, precision) is Some,
    ensures
        legs_upto(rich, n, precision) is Some,
        same_courses(legs_upto(rich, n, precision)->Some_0, legs_upto(plain, n, precision)->Some_0),
    decreases n,
{
    if n > 0 {
        lemma_legs_kept(rich, plain, n - 1, depth, precision);
        lemma_array_field_kept(rich[n - 1], plain[n - 1], depth, "steps"@);
        let rs = array_of(field(rich[n - 1], "steps"@))->Some_0;
        let ps = array_of(field(plain[n - 1], "steps"@))->Some_0;
        lemma_steps_kept(rs, ps, ps.len() as int, (depth - 2) as nat, precision);
        let a = legs_upto(rich, n - 1, precision)->Some_0;
        let b = legs_upto(plain, n - 1, precision)->Some_0;
        let x = leg_steps(rich[n - 1], precision)->Some_0;
        let y = leg_steps(plain[n - 1], precision)->Some_0;
        assert forall|i: int| 0 <= i < (a + x).len() implies same_course(#[trigger] (a + x)[i], (b + y)[i]) by {
            if i < a.len() {
                assert((a + x)[i] == a[i]);
                assert((b + y)[i] == b[i]);
            } else {
                assert((a + x)[i] == x[i - a.len()]);
                assert((b + y)[i] == y[i - a.len()]);
            }
        }
    }
}

/// Two routes with the same geometry, waypoints and step courses.
pub open spec fn same_route_course(a: RouteView, b: RouteView) -> bool {
    &&& a.geometry == b.geometry
    &&& a.waypoints == b.waypoints
    &&& same_courses(a.steps, b.steps)
}

proof fn lemma_routes_kept(rich: Seq<JsonValue>, plain: Seq<JsonValue>, n: int, w: Seq<GeographicCoordinate>, depth: nat, precision: u32)
    requires
        rich.len() == plain.len(),
        0 <= n <= plain.len(),
        forall|i: int| 0 <= i < plain.len() ==> extends(#[trigger] rich[i], plain[i], depth),
        depth >= 6,
        routes_upto(plain, n, w, precision) is Some,
    ensures
        routes_upto(rich, n, w, precision) is Some,
        routes_upto(rich, n, w, precision)->Some_0.len() == n,
        routes_upto(plain, n, w, precision)->Some_0.len() == n,
        forall|i: int| 0 <= i < n ==> same_route_course(
            #[trigger] routes_upto(rich, n, w, precision)->Some_0[i],
            routes_upto(plain, n, w, precision)->Some_0[i],
        ),
    decreases n,
{
    if n > 0 {
        lemma_routes_kept(rich, plain, n - 1, w, depth, precision);
        lemma_text_field_kept(rich[n - 1], plain[n - 1], depth, "geometry"@);
        lemma_array_field_kept(rich[n - 1], plain[n - 1], depth, "legs"@);
        let rl = array_of(field(rich[n - 1], "legs"@))->Some_0;
        let pl = array_of(field(plain[n - 1], "legs"@))->Some_0;
        lemma_legs_kept(rl, pl, pl.len() as int, (depth - 2) as nat, precision);
        let a = routes_upto(rich, n - 1, w, precision)->Some_0;
        let b = routes_upto(plain, n - 1, w, precision)->Some_0;
        let x = spec_route(rich[n - 1], w, precision)->Some_0;
        let y = spec_route(plain[n - 1], w, precision)->Some_0;
        assert forall|i: int| 0 <= i < n implies same_route_course(#[trigger] a.push(x)[i], b.push(y)[i]) by {
            if i < n - 1 {
                assert(a.push(x)[i] == a[i]);
                assert(b.push(y)[i] == b[i]);
            }
        }
    }
}

proof fn lemma_waypoints_kept(rich: Seq<JsonValue>, plain: Seq<JsonValue>, n: int, depth: nat, precision: u32)
    requires
        rich.len() == plain.len(),
        0 <= n <= plain.len(),
        forall|i: int| 0 <= i < plain.len() ==> extends(#[trigger] rich[i], plain[i], depth),
        depth >= 3,
        waypoints_upto(plain, n, precision) is Some,
    ensures
        waypoints_upto(rich, n, precision) == waypoints_upto(plain, n, precision),
    decreases n,
{
    if n > 0 {
        lemma_waypoints_kept(rich, plain, n - 1, depth, precision);
        lemma_array_field_kept(rich[n - 1], plain[n - 1], depth, "location"@);
        let r = array_of(field(rich[n - 1], "location"@))->Some_0;
        let p = array_of(field(plain[n - 1], "location"@))->Some_0;
        lemma_scalar_extends(r[0], p[0], (depth - 2) as nat);
        lemma_scalar_extends(r[1], p[1], (depth - 2) as nat);
    }
}

/// Dialect tolerance: a response that adds members anywhere to one that parses
/// parses too, into as many routes with the same geometry, waypoints and steps; only
/// an instruction text that the added members supply may differ.
pub proof fn lemma_dialect_equivalence(rich: JsonValue, plain: JsonValue, depth: nat, precision: u32)
    requires
        extends(rich, plain, depth),
        depth >= 8,
        spec_routes(plain, precision) is Some,
    ensures
        spec_routes(rich, precision) is Some,
        spec_routes(rich, precision)->Some_0.len() == spec_routes(plain, precision)->Some_0.len(),
        forall|i: int| 0 <= i < spec_routes(plain, precision)->Some_0.len() ==> same_route_course(
            #[trigger] spec_routes(rich, precision)->Some_0[i],
            spec_routes(plain, precision)->Some_0[i],
        ),
{
    lemma_array_field_kept(rich, plain, depth, "routes"@);
    lemma_array_field_kept(rich, plain, depth, "waypoints"@);
    let rw = array_of(field(rich, "waypoints"@))->Some_0;
    let pw = array_of(field(plain, "waypoints"@))->Some_0;
    lemma_waypoints_kept(rw, pw, pw.len() as int, (depth - 2) as nat, precision);
    let w = waypoints_upto(pw, pw.len() as int, precision)->Some_0;
    let rr = array_of(field(rich, "routes"@))->Some_0;
    let pr = array_of(field(plain, "routes"@))->Some_0;
    lemma_routes_kept(rr, pr, pr.len() as int, w, (depth - 2) as nat, precision);
}

} // verus!
