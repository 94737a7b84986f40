use ferrostar_core::json::JsonValue;
use ferrostar_core::models::GeographicCoordinate;
use ferrostar_core::osrm::{routes_from_json, OsrmResponseParser, ParseError};

const MINIMAL: &str = r#"{"routes":[{"geometry":"_p~iF~ps|U_ulLnnqC_mqNvxq`@","legs":[{"steps":[{"geometry":"_p~iF~ps|U_ulLnnqC","distance":250.5,"name":"Main Street","maneuver":{"type":"depart"}},{"geometry":"_mqNvxq`@","distance":0,"name":"","maneuver":{"type":"arrive","modifier":"left"}}]}]}],"waypoints":[{"location":[-120.2,38.5]},{"location":[-126.453,43.252]}]}"#;

const EXTENDED: &str = r#"{"code":"Ok","routes":[{"distance":1.0,"weight_name":"auto","geometry":"_p~iF~ps|U_ulLnnqC_mqNvxq`@","legs":[{"admins":[{"iso_3166_1":"US"}],"annotation":{"distance":[1.5,2.5]},"steps":[{"bannerInstructions":[{"distanceAlongGeometry":250.5,"primary":{"text":"Head north","type":"depart"}}],"voiceInstructions":[{"announcement":"Head north"}],"intersections":[{"bearings":[0],"location":[-120.2,38.5]}],"geometry":"_p~iF~ps|U_ulLnnqC","distance":250.5,"name":"Main Street","maneuver":{"type":"depart","bearing_after":0,"location":[-120.2,38.5]}},{"geometry":"_mqNvxq`@","distance":0,"name":"","speedLimitSign":"mutcd","maneuver":{"type":"arrive","modifier":"left","exit":1}}]}]}],"waypoints":[{"name":"Start","hint":"abc","distance":0.5,"location":[-120.2,38.5]},{"location":[-126.453,43.252],"name":"End"}]}"#;

fn c5(lat: i64, lng: i64) -> GeographicCoordinate {
    GeographicCoordinate { lat, lng, precision: 5 }
}

fn message(e: ParseError) -> String {
    match e {
        ParseError::Parse { error } => error,
    }
}

#[test]
fn minimal_response_parses_fully() {
    let routes = OsrmResponseParser::new(5).parse_response(MINIMAL.into()).unwrap();
    assert_eq!(routes.len(), 1);
    let r = &routes[0];
    assert_eq!(r.geometry, vec![c5(3850000, -12020000), c5(4070000, -12095000), c5(4325200, -12645300)]);
    assert_eq!(r.waypoints, vec![c5(3850000, -12020000), c5(4325200, -12645300)]);
    assert_eq!(r.steps.len(), 2);
    assert_eq!(r.steps[0].start_location, c5(3850000, -12020000));
    assert_eq!(r.steps[0].end_location, c5(4070000, -12095000));
    assert_eq!(r.steps[0].distance, 250500);
    assert_eq!(r.steps[0].road_name, "Main Street");
    assert_eq!(r.steps[0].instruction, "depart");
    assert_eq!(r.steps[1].instruction, "arrive left");
}

#[test]
fn single_point_step_ends_where_it_starts() {
    let routes = OsrmResponseParser::new(5).parse_response(MINIMAL.into()).unwrap();
    let last = &routes[0].steps[1];
    assert_eq!(last.geometry.len(), 1);
    assert_eq!(last.start_location, last.end_location);
    assert_eq!(last.start_location, last.geometry[0]);
}

#[test]
fn steps_are_anchored_to_their_geometry() {
    let parser = OsrmResponseParser::new(6);
    for raw in [MINIMAL, EXTENDED] {
        for route in parser.parse_response(raw.into()).unwrap() {
            for step in &route.steps {
                assert_eq!(step.start_location, step.geometry[0]);
                assert_eq!(step.end_location, *step.geometry.last().unwrap());
            }
        }
    }
}

#[test]
fn extended_dialect_gives_same_routes() {
    let parser = OsrmResponseParser::new(5);
    let plain = parser.parse_response(MINIMAL.into()).unwrap();
    let rich = parser.parse_response(EXTENDED.into()).unwrap();
    assert_eq!(plain.len(), rich.len());
    assert_eq!(plain[0].geometry, rich[0].geometry);
    assert_eq!(plain[0].waypoints, rich[0].waypoints);
    assert_eq!(plain[0].steps.len(), rich[0].steps.len());
    for (a, b) in plain[0].steps.iter().zip(rich[0].steps.iter()) {
        assert_eq!(a.geometry, b.geometry);
        assert_eq!(a.distance, b.distance);
        assert_eq!(a.road_name, b.road_name);
        assert_eq!(a.instruction, b.instruction);
    }
}

#[test]
fn instruction_text_is_preferred() {
    let raw = MINIMAL.replace(r#"{"type":"depart"}"#, r#"{"type":"depart","instruction":"Head north on Main Street."}"#);
    let routes = OsrmResponseParser::new(5).parse_response(raw.into_bytes()).unwrap();
    assert_eq!(routes[0].steps[0].instruction, "Head north on Main Street.");
}

#[test]
fn waypoints_are_shared_by_every_route() {
    let raw = MINIMAL.replacen(r#""routes":["#, r#""routes":[{"geometry":"_ibE_seK","legs":[]},"#, 1);
    let routes = OsrmResponseParser::new(5).parse_response(raw.into_bytes()).unwrap();
    assert_eq!(routes.len(), 2);
    assert_eq!(routes[0].geometry, vec![c5(100000, 200000)]);
    assert_eq!(routes[0].steps.len(), 0);
    assert_eq!(routes[0].waypoints, routes[1].waypoints);
}

#[test]
fn truncated_route_geometry_is_rejected() {
    let raw = MINIMAL.replacen("_p~iF~ps|U_ulLnnqC_mqNvxq`@", "_p~iF~ps|U_ulLnnqC_mqNvxq", 1);
    let err = OsrmResponseParser::new(5).parse_response(raw.into_bytes()).unwrap_err();
    assert_eq!(message(err), "malformed encoded polyline");
}

#[test]
fn truncated_step_geometry_is_rejected() {
    let raw = MINIMAL.replace(r#""geometry":"_mqNvxq`@""#, r#""geometry":"_mqNvx""#);
    assert!(OsrmResponseParser::new(5).parse_response(raw.into_bytes()).is_err());
}

#[test]
fn empty_step_geometry_is_rejected() {
    let raw = MINIMAL.replace(r#""geometry":"_mqNvxq`@""#, r#""geometry":"""#);
    let err = OsrmResponseParser::new(5).parse_response(raw.into_bytes()).unwrap_err();
    assert_eq!(message(err), "No coordinates in geometry");
}

#[test]
fn missing_required_members_are_rejected() {
    let parser = OsrmResponseParser::new(5);
    for (from, to) in [
        (r#""waypoints""#, r#""stops""#),
        (r#""routes""#, r#""paths""#),
        (r#""name":"Main Street","#, ""),
        (r#""distance":250.5,"#, ""),
        (r#"{"type":"depart"}"#, r#"{"bearing_after":0}"#),
        (r#"{"type":"depart"}"#, r#""depart""#),
        (r#"[-120.2,38.5]"#, r#"[-120.2]"#),
        (r#"[-120.2,38.5]"#, r#"["-120.2",38.5]"#),
    ] {
        let raw = MINIMAL.replacen(from, to, 1);
        assert!(parser.parse_response(raw.into_bytes()).is_err(), "{}", to);
    }
}

#[test]
fn non_json_is_rejected() {
    let err = OsrmResponseParser::new(5).parse_response(b"{\"routes\": [".to_vec()).unwrap_err();
    assert_eq!(message(err), "response is not JSON");
}

#[test]
fn reads_a_document_built_by_hand() {
    let step = JsonValue::Object(vec![
        ("geometry".to_string(), JsonValue::Str("_ibE_seK".to_string())),
        ("distance".to_string(), JsonValue::Number("3.25".to_string())),
        ("name".to_string(), JsonValue::Str("Elm".to_string())),
        (
            "maneuver".to_string(),
            JsonValue::Object(vec![("instruction".to_string(), JsonValue::Str("Go".to_string()))]),
        ),
    ]);
    let route = JsonValue::Object(vec![
        ("geometry".to_string(), JsonValue::Str("_ibE_seK_seK_seK".to_string())),
        (
            "legs".to_string(),
            JsonValue::Array(vec![JsonValue::Object(vec![("steps".to_string(), JsonValue::Array(vec![step]))])]),
        ),
    ]);
    let waypoint = JsonValue::Object(vec![(
        "location".to_string(),
        JsonValue::Array(vec![JsonValue::Number("2".to_string()), JsonValue::Number("1".to_string())]),
    )]);
    let doc = JsonValue::Object(vec![
        ("routes".to_string(), JsonValue::Array(vec![route])),
        ("waypoints".to_string(), JsonValue::Array(vec![waypoint])),
    ]);
    let routes = routes_from_json(&doc, 5).unwrap();
    assert_eq!(routes[0].geometry, vec![c5(100000, 200000), c5(300000, 400000)]);
    assert_eq!(routes[0].waypoints, vec![c5(100000, 200000)]);
    assert_eq!(routes[0].steps[0].distance, 3250);
    assert_eq!(routes[0].steps[0].instruction, "Go");
    assert_eq!(routes[0].steps[0].road_name, "Elm");
}
