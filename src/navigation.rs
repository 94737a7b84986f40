//! The trip state machine: it follows a traveler along a route, one location fix at
//! a time, and decides when a step is done and when the trip has arrived.
//!
//! Geometry is measured outside the state machine: for each fix the caller hands in
//! a `StepProgress`, the fix's snapped position and its distances to the current and
//! next steps' lines, all in millimetres.
use crate::models::{copy_coordinates, GeographicCoordinate, Route, RouteStep, RouteStepView, RouteView, steps_view};
use vstd::prelude::*;

verus! {

/// A location fix.
#[derive(Clone, Copy, Debug, PartialEq, Eq, Structural)]
pub struct UserLocation {
    pub coordinates: GeographicCoordinate,
    /// The radius of uncertainty in millimetres, rounded up.
    pub horizontal_accuracy: u64,
    /// The direction of travel in degrees from north, where known.
    pub course_over_ground: Option<u16>,
    /// The speed in millimetres per second, where known.
    pub speed: Option<u64>,
}

/// When the state machine moves on to the next step.
#[derive(Clone, Copy, Debug, PartialEq, Eq, Structural)]
pub enum StepAdvanceMode {
    /// Never advances to the next step automatically.
    Manual,
    /// Advances when the snapped location is within `distance` metres of the end of
    /// the current step.
    DistanceToEndOfStep {
        /// Distance to the end of the step, in metres, at which to advance.
        distance: u16,
        /// The largest horizontal accuracy, in metres, that may trigger an advance.
        minimum_horizontal_accuracy: u16,
    },
    /// Advances when the fix is closer to the next step's line than to the current
    /// step's line.
    RelativeLineStringDistance {
        /// The largest horizontal accuracy, in metres, that may trigger an advance.
        minimum_horizontal_accuracy: u16,
        /// Within this many metres of the end of the step, advance whichever line
        /// is closer.
        automatic_advance_distance: Option<u16>,
    },
}

#[derive(Clone, Copy, Debug, PartialEq, Eq, Structural)]
pub struct NavigationControllerConfig {
    pub step_advance: StepAdvanceMode,
}

/// What the geometry layer measured for one fix, in millimetres.
#[derive(Clone, Copy, Debug, PartialEq, Eq, Structural)]
pub struct StepProgress {
    /// The fix projected onto the current step's line.
    pub snapped_location: GeographicCoordinate,
    /// Along the current step's line, from the snapped location to its end.
    pub distance_to_end_of_step: u64,
    /// From the fix to the current step's line.
    pub distance_from_current_step: u64,
    /// From the fix to the next step's line, where there is a next step.
    pub distance_from_next_step: Option<u64>,
    /// Along the next step's line, from the snapped location to its end, where there
    /// is a next step.
    pub distance_to_end_of_next_step: Option<u64>,
}

/// The state of a trip.
#[derive(Debug)]
pub enum TripState {
    Navigating {
        last_user_location: UserLocation,
        snapped_user_location: UserLocation,
        route: Route,
        /// The waypoints still to visit, in order.
        remaining_waypoints: Vec<GeographicCoordinate>,
        /// The steps still to complete; the first is the current step.
        remaining_steps: Vec<RouteStep>,
    },
    Complete,
}

pub enum TripView {
    Navigating {
        last_user_location: UserLocation,
        snapped_user_location: UserLocation,
        route: RouteView,
        remaining_waypoints: Seq<GeographicCoordinate>,
        remaining_steps: Seq<RouteStepView>,
    },
    Complete,
}

impl View for TripState {
    type V = TripView;

    open spec fn view(&self) -> TripView {
        match self {
            TripState::Navigating {
                last_user_location,
                snapped_user_location,
                route,
                remaining_waypoints,
                remaining_steps,
            } => TripView::Navigating {
                last_user_location: *last_user_location,
                snapped_user_location: *snapped_user_location,
                route: route@,
                remaining_waypoints: remaining_waypoints@,
                remaining_steps: steps_view(remaining_steps@),
            },
            TripState::Complete => TripView::Complete,
        }
    }
}

impl TripView {
    /// A trip in progress always has a current step.
    pub open spec fn wf(self) -> bool {
        match self {
            TripView::Navigating { remaining_steps, .. } => remaining_steps.len() >= 1,
            TripView::Complete => true,
        }
    }

    /// How many steps remain; none once the trip is complete.
    pub open spec fn steps_left(self) -> nat {
        match self {
            TripView::Navigating { remaining_steps, .. } => remaining_steps.len(),
            TripView::Complete => 0,
        }
    }
}

/// What one fix tells the presentation layer.
#[derive(Debug)]
pub enum NavigationStateUpdate {
    Navigating {
        snapped_user_location: UserLocation,
        /// The waypoints still to visit, in order.
        remaining_waypoints: Vec<GeographicCoordinate>,
        /// The current maneuver.
        current_step: RouteStep,
        /// Millimetres left along the current step's line.
        distance_to_next_maneuver: u64,
    },
    Arrived,
}

pub enum UpdateView {
    Navigating {
        snapped_user_location: UserLocation,
        remaining_waypoints: Seq<GeographicCoordinate>,
        current_step: RouteStepView,
        distance_to_next_maneuver: int,
    },
    Arrived,
}

impl View for NavigationStateUpdate {
    type V = UpdateView;

    open spec fn view(&self) -> UpdateView {
        match self {
            NavigationStateUpdate::Navigating {
                snapped_user_location,
                remaining_waypoints,
                current_step,
                distance_to_next_maneuver,
            } => UpdateView::Navigating {
                snapped_user_location: *snapped_user_location,
                remaining_waypoints: remaining_waypoints@,
                current_step: current_step@,
                distance_to_next_maneuver: *distance_to_next_maneuver as int,
            },
            NavigationStateUpdate::Arrived => UpdateView::Arrived,
        }
    }
}

/// The step that follows, once the current one is done.
pub enum StepAdvanceStatus {
    /// The next step and its line.
    Advanced { step: RouteStep, line: Vec<GeographicCoordinate> },
    /// No step follows.
    EndOfRoute,
}

/// The fix's accuracy is no worse than `limit` metres.
pub open spec fn accurate_enough(location: UserLocation, limit: u16) -> bool {
    location.horizontal_accuracy <= limit as int * 1000
}

/// Whether the policy `mode` moves past the current step on this fix.
pub open spec fn spec_should_advance(mode: StepAdvanceMode, location: UserLocation, progress: StepProgress) -> bool {
    match mode {
        StepAdvanceMode::Manual => false,
        StepAdvanceMode::DistanceToEndOfStep { distance, minimum_horizontal_accuracy } => {
            &&& accurate_enough(location, minimum_horizontal_accuracy)
            &&& progress.distance_to_end_of_step <= distance as int * 1000
        },
        StepAdvanceMode::RelativeLineStringDistance {
            minimum_horizontal_accuracy,
            automatic_advance_distance,
        } => {
            &&& accurate_enough(location, minimum_horizontal_accuracy)
            &&& {
                ||| (automatic_advance_distance matches Some(d)
                    && progress.distance_to_end_of_step <= d as int * 1000)
                ||| (progress.distance_from_next_step matches Some(n)
                    && n < progress.distance_from_current_step)
            }
        },
    }
}

/// Decides whether the policy `mode` moves past the current step on this fix.
pub fn should_advance(mode: StepAdvanceMode, location: &UserLocation, progress: &StepProgress) -> (r: bool)
    ensures
        r == spec_should_advance(mode, *location, *progress),
{
    match mode {
        StepAdvanceMode::Manual => false,
        StepAdvanceMode::DistanceToEndOfStep { distance, minimum_horizontal_accuracy } => {
            location.horizontal_accuracy <= minimum_horizontal_accuracy as u64 * 1000
                && progress.distance_to_end_of_step <= distance as u64 * 1000
        },
        StepAdvanceMode::RelativeLineStringDistance {
            minimum_horizontal_accuracy,
            automatic_advance_distance,
        } => {
            if location.horizontal_accuracy > minimum_horizontal_accuracy as u64 * 1000 {
                return false;
            }
            let close_to_end = match automatic_advance_distance {
                Some(d) => progress.distance_to_end_of_step <= d as u64 * 1000,
                None => false,
            };
            let closer_to_next = match progress.distance_from_next_step {
                Some(n) => n < progress.distance_from_current_step,
                None => false,
            };
            close_to_end || closer_to_next
        },
    }
}

/// The fix, moved to its snapped position.
pub open spec fn snap(location: UserLocation, progress: StepProgress) -> UserLocation {
    UserLocation { coordinates: progress.snapped_location, ..location }
}

/// The waypoints left once `done` is complete: the first goes where the step ends
/// on it.
pub open spec fn waypoints_after(waypoints: Seq<GeographicCoordinate>, done: RouteStepView) -> Seq<GeographicCoordinate> {
    if waypoints.len() > 0 && waypoints[0] == done.end_location {
        waypoints.drop_first()
    } else {
        waypoints
    }
}

/// The state after one fix.
pub open spec fn next_trip(trip: TripView, mode: StepAdvanceMode, location: UserLocation, progress: StepProgress) -> TripView {
    match trip {
        TripView::Complete => TripView::Complete,
        TripView::Navigating { route, remaining_waypoints, remaining_steps, .. } => {
            if spec_should_advance(mode, location, progress) {
                if remaining_steps.len() <= 1 {
                    TripView::Complete
                } else {
                    TripView::Navigating {
                        last_user_location: location,
                        snapped_user_location: snap(location, progress),
                        route,
                        remaining_waypoints: waypoints_after(remaining_waypoints, remaining_steps[0]),
                        remaining_steps: remaining_steps.drop_first(),
                    }
                }
            } else {
                TripView::Navigating {
                    last_user_location: location,
                    snapped_user_location: snap(location, progress),
                    route,
                    remaining_waypoints,
                    remaining_steps,
                }
            }
        },
    }
}

/// The distance left on a step that was just reached: as measured where there is a
/// measurement, else the step's whole length.
pub open spec fn distance_on_new_step(progress: StepProgress, step: RouteStepView) -> int {
    match progress.distance_to_end_of_next_step {
        Some(d) => d as int,
        None => if step.distance < 0 {
            0
        } else {
            step.distance
        },
    }
}

/// What one fix reports.
pub open spec fn update_for(trip: TripView, mode: StepAdvanceMode, location: UserLocation, progress: StepProgress) -> UpdateView {
    match next_trip(trip, mode, location, progress) {
        TripView::Complete => UpdateView::Arrived,
        TripView::Navigating { snapped_user_location, remaining_waypoints, remaining_steps, .. } => {
            UpdateView::Navigating {
                snapped_user_location,
                remaining_waypoints,
                current_step: remaining_steps[0],
                distance_to_next_maneuver: if spec_should_advance(mode, location, progress) {
                    distance_on_new_step(progress, remaining_steps[0])
                } else {
                    progress.distance_to_end_of_step as int
                },
            }
        },
    }
}

/// An independent copy of a step sequence.
pub fn copy_steps(v: &Vec<RouteStep>) -> (r: Vec<RouteStep>)
    ensures
        steps_view(r@) == steps_view(v@),
{
    let mut r: Vec<RouteStep> = Vec::new();
    let mut i: usize = 0;
    while i < v.len()
        invariant
            i <= v@.len(),
            steps_view(r@) == steps_view(v@.subrange(0, i as int)),
        decreases v.len() - i,
    {
        let ghost before = r@;
        let step = v[i].duplicate();
        r.push(step);
        assert(steps_view(r@) =~= steps_view(before).push(v@[i as int]@));
        assert(v@.subrange(0, i as int + 1) =~= v@.subrange(0, i as int).push(v@[i as int]));
        assert(steps_view(v@.subrange(0, i as int + 1)) =~= steps_view(v@.subrange(0, i as int)).push(v@[i as int]@));
        i = i + 1;
    }
    assert(v@.subrange(0, v@.len() as int) == v@);
    r
}

/// Drops the current step: the step that follows and its line, or the end of the
/// route.
pub fn advance_to_next_step(steps: &mut Vec<RouteStep>) -> (r: StepAdvanceStatus)
    requires
        old(steps)@.len() >= 1,
    ensures
        steps_view(final(steps)@) == steps_view(old(steps)@).drop_first(),
        match r {
            StepAdvanceStatus::Advanced { step, line } => {
                &&& final(steps)@.len() >= 1
                &&& step@ == final(steps)@[0]@
                &&& line@ == final(steps)@[0].geometry@
            },
            StepAdvanceStatus::EndOfRoute => final(steps)@.len() == 0,
        },
{
    let ghost before = steps@;
    steps.remove(0);
    assert(steps_view(steps@) =~= steps_view(before).drop_first());
    if steps.len() == 0 {
        StepAdvanceStatus::EndOfRoute
    } else {
        StepAdvanceStatus::Advanced { step: steps[0].duplicate(), line: copy_coordinates(&steps[0].geometry) }
    }
}

/// The trip state at the start: every step and waypoint of the route remains, or
/// the trip is already complete where the route has no steps.
pub open spec fn initial_trip(route: RouteView, location: UserLocation) -> TripView {
    if route.steps.len() == 0 {
        TripView::Complete
    } else {
        TripView::Navigating {
            last_user_location: location,
            snapped_user_location: location,
            route,
            remaining_waypoints: route.waypoints,
            remaining_steps: route.steps,
        }
    }
}

/// Owns one trip's state and changes it only through `advance`.
#[derive(Debug)]
pub struct NavigationController {
    config: NavigationControllerConfig,
    state: TripState,
}

impl NavigationController {
    /// The state of the trip.
    pub closed spec fn trip(&self) -> TripView {
        self.state@
    }

    /// The step-advance policy in force.
    pub closed spec fn mode(&self) -> StepAdvanceMode {
        self.config.step_advance
    }

    /// Starts a trip along `route` from `initial_location`.
    pub fn new(route: Route, initial_location: UserLocation, config: NavigationControllerConfig) -> (r: Self)
        ensures
            r.trip() == initial_trip(route@, initial_location),
            r.trip().wf(),
            r.mode() == config.step_advance,
    {
        if route.steps.len() == 0 {
            return NavigationController { config, state: TripState::Complete };
        }
        let remaining_waypoints = copy_coordinates(&route.waypoints);
        let remaining_steps = copy_steps(&route.steps);
        NavigationController {
            config,
            state: TripState::Navigating {
                last_user_location: initial_location,
                snapped_user_location: initial_location,
                route,
                remaining_waypoints,
                remaining_steps,
            },
        }
    }

    /// Whether the trip has arrived.
    pub fn is_complete(&self) -> (r: bool)
        ensures
            r == (self.trip() is Complete),
    {
        match &self.state {
            TripState::Complete => true,
            TripState::Navigating { .. } => false,
        }
    }

    /// How many steps remain, the current one included.
    pub fn remaining_step_count(&self) -> (r: usize)
        ensures
            r == self.trip().steps_left(),
    {
        match &self.state {
            TripState::Complete => 0,
            TripState::Navigating { remaining_steps, .. } => remaining_steps.len(),
        }
    }

    /// The `k`th step from the current one (`0` is the current step), where there is one.
    pub fn upcoming_step(&self, k: usize) -> (r: Option<&RouteStep>)
        ensures
            match self.trip() {
                TripView::Navigating { remaining_steps, .. } => if k < remaining_steps.len() {
                    r is Some && r->Some_0@ == remaining_steps[k as int]
                } else {
                    r is None
                },
                TripView::Complete => r is None,
            },
    {
        match &self.state {
            TripState::Complete => None,
            TripState::Navigating { remaining_steps, .. } => if k < remaining_steps.len() {
                Some(&remaining_steps[k])
            } else {
                None
            },
        }
    }

    /// The waypoints still to visit, in order; none once the trip is complete.
    pub fn remaining_waypoints(&self) -> (r: Vec<GeographicCoordinate>)
        ensures
            match self.trip() {
                TripView::Navigating { remaining_waypoints, .. } => r@ == remaining_waypoints,
                TripView::Complete => r@.len() == 0,
            },
    {
        match &self.state {
            TripState::Complete => Vec::new(),
            TripState::Navigating { remaining_waypoints, .. } => copy_coordinates(remaining_waypoints),
        }
    }

    /// Takes in one location fix and what was measured for it, and reports where
    /// the trip stands.
    pub fn advance(&mut self, location: UserLocation, progress: StepProgress) -> (r: NavigationStateUpdate)
        requires
            old(self).trip().wf(),
        ensures
            final(self).trip() == next_trip(old(self).trip(), old(self).mode(), location, progress),
            final(self).mode() == old(self).mode(),
            final(self).trip().wf(),
            r@ == update_for(old(self).trip(), old(self).mode(), location, progress),
    {
        let go = should_advance(self.config.step_advance, &location, &progress);
        let mut state = TripState::Complete;
        core::mem::swap(&mut self.state, &mut state);
        match state {
            TripState::Complete => NavigationStateUpdate::Arrived,
            TripState::Navigating { route, mut remaining_waypoints, mut remaining_steps, .. } => {
                let snapped = UserLocation { coordinates: progress.snapped_location, ..location };
                let current_step: RouteStep;
                let distance: u64;
                let ghost old_steps = steps_view(remaining_steps@);
                let ghost old_waypoints = remaining_waypoints@;
                if go {
                    let done_end = remaining_steps[0].end_location;
                    assert(done_end == old_steps[0].end_location);
                    match advance_to_next_step(&mut remaining_steps) {
                        StepAdvanceStatus::EndOfRoute => {
                            assert(steps_view(remaining_steps@).len() == 0);
                            assert(old_steps.len() == 1);
                            return NavigationStateUpdate::Arrived;
                        },
                        StepAdvanceStatus::Advanced { step, .. } => {
                            assert(steps_view(remaining_steps@).len() >= 1);
                            assert(old_steps.len() >= 2);
                            current_step = step;
                        },
                    }
                    if remaining_waypoints.len() > 0 && remaining_waypoints[0] == done_end {
                        remaining_waypoints.remove(0);
                        assert(remaining_waypoints@ =~= old_waypoints.drop_first());
                    }
                    assert(remaining_waypoints@ == waypoints_after(old_waypoints, old_steps[0]));
                    distance = match progress.distance_to_end_of_next_step {
                        Some(d) => d,
                        None => if current_step.distance < 0 {
                            0
                        } else {
                            current_step.distance as u64
                        },
                    };
                } else {
                    current_step = remaining_steps[0].duplicate();
                    distance = progress.distance_to_end_of_step;
                }
                let update = NavigationStateUpdate::Navigating {
                    snapped_user_location: snapped,
                    remaining_waypoints: copy_coordinates(&remaining_waypoints),
                    current_step,
                    distance_to_next_maneuver: distance,
                };
                self.state = TripState::Navigating {
                    last_user_location: location,
                    snapped_user_location: snapped,
                    route,
                    remaining_waypoints,
                    remaining_steps,
                };
                update
            },
        }
    }
}

/// The state after each fix of `fixes` in turn.
pub open spec fn run_trip(trip: TripView, mode: StepAdvanceMode, fixes: Seq<(UserLocation, StepProgress)>) -> TripView
    decreases fixes.len(),
{
    if fixes.len() == 0 {
        trip
    } else {
        let prev = run_trip(trip, mode, fixes.drop_last());
        next_trip(prev, mode, fixes.last().0, fixes.last().1)
    }
}

/// One fix never adds a step, keeps a trip well formed, and leaves a complete trip
/// complete; a trip in progress has steps left.
pub proof fn lemma_one_fix(trip: TripView, mode: StepAdvanceMode, location: UserLocation, progress: StepProgress)
    requires
        trip.wf(),
    ensures
        next_trip(trip, mode, location, progress).wf(),
        next_trip(trip, mode, location, progress).steps_left() <= trip.steps_left(),
        trip is Complete ==> next_trip(trip, mode, location, progress) is Complete,
        next_trip(trip, mode, location, progress).steps_left() == 0 <==> next_trip(trip, mode, location, progress) is Complete,
{
}

/// Steps are consumed front to back: over any run of fixes the number of steps left
/// never grows, it is zero exactly when the trip is complete, and once complete the
/// trip stays complete.
pub proof fn lemma_monotonic_consumption(
    trip: TripView,
    mode: StepAdvanceMode,
    fixes: Seq<(UserLocation, StepProgress)>,
    i: int,
    j: int,
)
    requires
        trip.wf(),
        0 <= i <= j <= fixes.len(),
    ensures
        run_trip(trip, mode, fixes.take(j)).wf(),
        run_trip(trip, mode, fixes.take(j)).steps_left() <= run_trip(trip, mode, fixes.take(i)).steps_left(),
        run_trip(trip, mode, fixes.take(j)).steps_left() == 0 <==> run_trip(trip, mode, fixes.take(j)) is Complete,
        run_trip(trip, mode, fixes.take(i)) is Complete ==> run_trip(trip, mode, fixes.take(j)) is Complete,
    decreases j,
{
    if j == 0 {
        assert(fixes.take(0) =~= fixes.take(i));
        if trip is Navigating {
            assert(trip.steps_left() >= 1);
        }
    } else if i == j {
        lemma_monotonic_consumption(trip, mode, fixes, i - 1, j - 1);
        assert(fixes.take(j).drop_last() =~= fixes.take(j - 1));
        lemma_one_fix(run_trip(trip, mode, fixes.take(j - 1)), mode, fixes[j - 1].0, fixes[j - 1].1);
    } else {
        lemma_monotonic_consumption(trip, mode, fixes, i, j - 1);
        assert(fixes.take(j).drop_last() =~= fixes.take(j - 1));
        lemma_one_fix(run_trip(trip, mode, fixes.take(j - 1)), mode, fixes[j - 1].0, fixes[j - 1].1);
    }
}

/// Arrival is final: from a complete trip every fix reports `Arrived` and changes
/// nothing.
pub proof fn lemma_idempotent_arrival(mode: StepAdvanceMode, fixes: Seq<(UserLocation, StepProgress)>)
    ensures
        run_trip(TripView::Complete, mode, fixes) == TripView::Complete,
        forall|k: int| 0 <= k < fixes.len() ==> update_for(
            run_trip(TripView::Complete, mode, fixes.take(k)),
            mode,
            (#[trigger] fixes[k]).0,
            fixes[k].1,
        ) == UpdateView::Arrived,
    decreases fixes.len(),
{
    if fixes.len() > 0 {
        lemma_idempotent_arrival(mode, fixes.drop_last());
    }
    assert forall|k: int| 0 <= k < fixes.len() implies update_for(
        run_trip(TripView::Complete, mode, fixes.take(k)),
        mode,
        (#[trigger] fixes[k]).0,
        fixes[k].1,
    ) == UpdateView::Arrived by {
        lemma_idempotent_arrival(mode, fixes.take(k));
    }
}

/// A fix whose accuracy is worse than the policy's threshold never moves past a step.
pub proof fn lemma_inaccurate_fix_never_advances(mode: StepAdvanceMode, location: UserLocation, progress: StepProgress)
    requires
        match mode {
            StepAdvanceMode::Manual => true,
            StepAdvanceMode::DistanceToEndOfStep { minimum_horizontal_accuracy, .. } => !accurate_enough(location, minimum_horizontal_accuracy),
            StepAdvanceMode::RelativeLineStringDistance { minimum_horizontal_accuracy, .. } => !accurate_enough(location, minimum_horizontal_accuracy),
        },
    ensures
        !spec_should_advance(mode, location, progress),
{
}

} // verus!
