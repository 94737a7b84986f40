use ferrostar_core::models::{GeographicCoordinate, Route, RouteStep};
use ferrostar_core::navigation::{
    advance_to_next_step, should_advance, NavigationController, NavigationControllerConfig,
    NavigationStateUpdate, StepAdvanceMode, StepAdvanceStatus, StepProgress, UserLocation,
};

fn p(lat: i64, lng: i64) -> GeographicCoordinate {
    GeographicCoordinate { lat, lng, precision: 5 }
}

fn step(points: Vec<GeographicCoordinate>, name: &str) -> RouteStep {
    RouteStep {
        start_location: points[0],
        end_location: *points.last().unwrap(),
        distance: 100_000,
        road_name: name.to_string(),
        instruction: format!("Follow {}", name),
        geometry: points,
    }
}

/// Three steps; the waypoints are the start, the end of the first step and the end.
fn route() -> Route {
    Route {
        geometry: vec![p(0, 0), p(100, 0), p(200, 0), p(300, 0)],
        waypoints: vec![p(0, 0), p(100, 0), p(300, 0)],
        steps: vec![
            step(vec![p(0, 0), p(100, 0)], "first"),
            step(vec![p(100, 0), p(200, 0)], "second"),
            step(vec![p(200, 0), p(300, 0)], "third"),
        ],
    }
}

fn fix(accuracy_mm: u64) -> UserLocation {
    UserLocation {
        coordinates: p(50, 1),
        horizontal_accuracy: accuracy_mm,
        course_over_ground: None,
        speed: None,
    }
}

fn progress(to_end_mm: u64) -> StepProgress {
    StepProgress {
        snapped_location: p(50, 0),
        distance_to_end_of_step: to_end_mm,
        distance_from_current_step: 1_000,
        distance_from_next_step: Some(5_000),
        distance_to_end_of_next_step: Some(90_000),
    }
}

fn controller(mode: StepAdvanceMode) -> NavigationController {
    NavigationController::new(route(), fix(1_000), NavigationControllerConfig { step_advance: mode })
}

const BY_DISTANCE: StepAdvanceMode =
    StepAdvanceMode::DistanceToEndOfStep { distance: 10, minimum_horizontal_accuracy: 5 };

#[test]
fn new_trip_starts_at_first_step() {
    let c = controller(BY_DISTANCE);
    assert!(!c.is_complete());
    assert_eq!(c.remaining_step_count(), 3);
    assert_eq!(c.upcoming_step(0).unwrap().road_name, "first");
    assert_eq!(c.upcoming_step(1).unwrap().road_name, "second");
    assert!(c.upcoming_step(3).is_none());
    assert_eq!(c.remaining_waypoints(), route().waypoints);
}

#[test]
fn route_without_steps_is_already_complete() {
    let mut r = route();
    r.steps.clear();
    let mut c = NavigationController::new(r, fix(1_000), NavigationControllerConfig { step_advance: BY_DISTANCE });
    assert!(c.is_complete());
    assert_eq!(c.remaining_step_count(), 0);
    assert!(matches!(c.advance(fix(1_000), progress(0)), NavigationStateUpdate::Arrived));
}

#[test]
fn inaccurate_fix_near_step_end_does_not_advance() {
    let mut c = controller(BY_DISTANCE);
    // 8 m from the end of the step, but 50 m of uncertainty.
    match c.advance(fix(50_000), progress(8_000)) {
        NavigationStateUpdate::Navigating { current_step, distance_to_next_maneuver, snapped_user_location, .. } => {
            assert_eq!(current_step.road_name, "first");
            assert_eq!(distance_to_next_maneuver, 8_000);
            assert_eq!(snapped_user_location.coordinates, p(50, 0));
            assert_eq!(snapped_user_location.horizontal_accuracy, 50_000);
        }
        NavigationStateUpdate::Arrived => panic!("arrived too early"),
    }
    assert_eq!(c.remaining_step_count(), 3);
}

#[test]
fn accurate_fix_near_step_end_advances() {
    let mut c = controller(BY_DISTANCE);
    match c.advance(fix(3_000), progress(8_000)) {
        NavigationStateUpdate::Navigating { current_step, distance_to_next_maneuver, remaining_waypoints, .. } => {
            assert_eq!(current_step.road_name, "second");
            assert_eq!(distance_to_next_maneuver, 90_000);
            // The next waypoint is the origin, where the first step does not end.
            assert_eq!(remaining_waypoints, vec![p(0, 0), p(100, 0), p(300, 0)]);
        }
        NavigationStateUpdate::Arrived => panic!("arrived too early"),
    }
    assert_eq!(c.remaining_step_count(), 2);
}

#[test]
fn thresholds_are_inclusive() {
    let loc = fix(5_000);
    assert!(should_advance(BY_DISTANCE, &loc, &progress(10_000)));
    assert!(!should_advance(BY_DISTANCE, &loc, &progress(10_001)));
    assert!(!should_advance(BY_DISTANCE, &fix(5_001), &progress(10_000)));
}

#[test]
fn far_from_step_end_does_not_advance() {
    let mut c = controller(BY_DISTANCE);
    c.advance(fix(1_000), progress(50_000));
    assert_eq!(c.remaining_step_count(), 3);
}

#[test]
fn waypoint_is_dropped_when_a_step_ends_on_it() {
    let mut r = route();
    r.waypoints = vec![p(100, 0), p(300, 0)];
    let mut c = NavigationController::new(r, fix(1_000), NavigationControllerConfig { step_advance: BY_DISTANCE });
    c.advance(fix(1_000), progress(0));
    assert_eq!(c.remaining_waypoints(), vec![p(300, 0)]);
    c.advance(fix(1_000), progress(0));
    assert_eq!(c.remaining_waypoints(), vec![p(300, 0)]);
}

#[test]
fn steps_are_consumed_once_and_arrival_is_final() {
    let mut c = controller(BY_DISTANCE);
    let mut left = c.remaining_step_count();
    let mut arrivals = 0;
    for to_end in [50_000, 0, 20_000, 0, 9_000, 0, 0, 1_000] {
        let update = c.advance(fix(1_000), progress(to_end));
        let now = c.remaining_step_count();
        assert!(now <= left);
        left = now;
        if matches!(update, NavigationStateUpdate::Arrived) {
            arrivals += 1;
            assert!(c.is_complete());
        }
    }
    assert_eq!(left, 0);
    assert_eq!(arrivals, 4);
}

#[test]
fn arrived_trip_keeps_reporting_arrival() {
    let mut c = controller(BY_DISTANCE);
    for _ in 0..3 {
        c.advance(fix(1_000), progress(0));
    }
    assert!(c.is_complete());
    for _ in 0..5 {
        assert!(matches!(c.advance(fix(1_000), progress(50_000)), NavigationStateUpdate::Arrived));
        assert!(c.is_complete());
        assert_eq!(c.remaining_waypoints(), vec![]);
    }
}

#[test]
fn manual_mode_never_advances() {
    let mut c = controller(StepAdvanceMode::Manual);
    for _ in 0..4 {
        match c.advance(fix(0), progress(0)) {
            NavigationStateUpdate::Navigating { current_step, distance_to_next_maneuver, .. } => {
                assert_eq!(current_step.road_name, "first");
                assert_eq!(distance_to_next_maneuver, 0);
            }
            NavigationStateUpdate::Arrived => panic!("manual mode advanced"),
        }
    }
}

#[test]
fn relative_mode_advances_when_next_line_is_closer() {
    let mode = StepAdvanceMode::RelativeLineStringDistance {
        minimum_horizontal_accuracy: 5,
        automatic_advance_distance: None,
    };
    let mut closer = progress(50_000);
    closer.distance_from_current_step = 3_000;
    closer.distance_from_next_step = Some(2_999);
    assert!(should_advance(mode, &fix(1_000), &closer));
    closer.distance_from_next_step = Some(3_000);
    assert!(!should_advance(mode, &fix(1_000), &closer));
    closer.distance_from_next_step = None;
    assert!(!should_advance(mode, &fix(1_000), &closer));
    closer.distance_from_next_step = Some(0);
    assert!(!should_advance(mode, &fix(6_000), &closer));
}

#[test]
fn relative_mode_advances_near_step_end() {
    let mode = StepAdvanceMode::RelativeLineStringDistance {
        minimum_horizontal_accuracy: 5,
        automatic_advance_distance: Some(15),
    };
    let far_next = progress(15_000);
    assert!(should_advance(mode, &fix(1_000), &far_next));
    assert!(!should_advance(mode, &fix(1_000), &progress(15_001)));
    assert!(!should_advance(mode, &fix(9_000), &far_next));
}

#[test]
fn whole_step_length_is_used_without_measurement() {
    let mut c = controller(BY_DISTANCE);
    let mut m = progress(0);
    m.distance_to_end_of_next_step = None;
    match c.advance(fix(1_000), m) {
        NavigationStateUpdate::Navigating { distance_to_next_maneuver, .. } => {
            assert_eq!(distance_to_next_maneuver, 100_000)
        }
        NavigationStateUpdate::Arrived => panic!("arrived too early"),
    }
}

#[test]
fn next_step_status_reports_end_of_route() {
    let mut steps = route().steps;
    match advance_to_next_step(&mut steps) {
        StepAdvanceStatus::Advanced { step, line } => {
            assert_eq!(step.road_name, "second");
            assert_eq!(line, vec![p(100, 0), p(200, 0)]);
        }
        StepAdvanceStatus::EndOfRoute => panic!("route ended early"),
    }
    advance_to_next_step(&mut steps);
    assert!(matches!(advance_to_next_step(&mut steps), StepAdvanceStatus::EndOfRoute));
    assert!(steps.is_empty());
}
