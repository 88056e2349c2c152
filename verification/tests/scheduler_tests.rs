use coordinator::scheduler::{
    apply_add_package_url, apply_add_packages, needs_rebuild, select_aur_rebuilds, Scheduler,
    RETRY_TIME,
};
use coordinator::query::PackageData;
use coordinator::state::State;

fn s(x: &str) -> String {
    x.to_string()
}

fn vs(xs: &[&str]) -> Vec<String> {
    xs.iter().map(|x| x.to_string()).collect()
}

#[test]
fn update_check_due_at_start() {
    let sched = Scheduler::new();
    assert!(sched.update_check_due(0));
    assert!(sched.retry_check_due(0));
}

#[test]
fn transient_outage_reschedules_sooner() {
    // A failed update cycle comes back after the retry time, not the full
    // interval, and leaves the retry counts alone.
    let mut sched = Scheduler::new();
    sched.handle_build_failure(s("foo"));
    sched.record_update_result(1000, false, 240);
    assert_eq!(sched.next_update_check, 1000 + RETRY_TIME);
    let due = sched.retry_pass(1000, 3);
    assert_eq!(due, vs(&["foo"]));
}

#[test]
fn successful_update_schedules_interval_and_clears_retries() {
    let mut sched = Scheduler::new();
    sched.handle_build_failure(s("foo"));
    sched.record_update_result(1000, true, 240);
    assert_eq!(sched.next_update_check, 1240);
    let due = sched.retry_pass(1000, 3);
    assert!(due.is_empty());
}

#[test]
fn build_failure_then_success_clears_retry() {
    // A failed build is retried; once a build succeeds the package leaves
    // the retry map.
    let mut sched = Scheduler::new();
    sched.handle_build_failure(s("foo"));
    let due = sched.retry_pass(500, 3);
    assert_eq!(due, vs(&["foo"]));
    assert_eq!(sched.next_retry_check, 500 + RETRY_TIME);
    sched.handle_build_success(&s("foo"));
    let due2 = sched.retry_pass(900, 3);
    assert!(due2.is_empty());
}

#[test]
fn retry_stops_at_max_retries() {
    let mut sched = Scheduler::new();
    sched.handle_build_failure(s("foo"));
    sched.handle_build_failure(s("foo"));
    assert_eq!(sched.retry_pass(100, 3), vs(&["foo"]));
    sched.handle_build_failure(s("foo"));
    // Three failures booked: the count reached the limit.
    assert!(sched.retry_pass(500, 3).is_empty());
}

#[test]
fn select_rebuilds_stale_then_never_built() {
    // Stale packages come first, never-built ones after them.
    let tracked_names = vs(&["a", "b", "c"]);
    let build_times = vec![(s("a"), 100i64), (s("b"), 200i64)];
    let last_modified = vec![(s("a"), 150i64), (s("b"), 150i64)];
    let r = select_aur_rebuilds(&tracked_names, &build_times, &last_modified);
    assert_eq!(r, vs(&["a", "c"]));
}

#[test]
fn select_rebuilds_nothing_when_fresh() {
    let tracked_names = vs(&["a"]);
    let build_times = vec![(s("a"), 300i64)];
    let last_modified = vec![(s("a"), 150i64)];
    let r = select_aur_rebuilds(&tracked_names, &build_times, &last_modified);
    assert!(r.is_empty());
}

#[test]
fn needs_rebuild_compares_times() {
    assert!(needs_rebuild(100, 150));
    assert!(!needs_rebuild(150, 150));
    assert!(!needs_rebuild(200, 150));
}

#[test]
fn dependency_expansion_settles() {
    // Adding bar with dependency baz: bar enters directly, baz enters as a
    // dependency, and bar builds only after baz.
    let mut st = State::new();
    let (to_build, deps) = apply_add_packages(
        &mut st,
        &vs(&["bar"]),
        &vec![(s("bar"), vs(&["baz"]))],
        false,
    );
    assert_eq!(to_build, vs(&["bar"]));
    assert_eq!(deps, vs(&["baz"]));
    let (to_build2, deps2) = apply_add_packages(
        &mut st,
        &vs(&["baz"]),
        &vec![(s("baz"), vs(&[]))],
        true,
    );
    assert_eq!(to_build2, vs(&["baz"]));
    assert!(deps2.is_empty());
    assert!(st.is_package_tracked(&s("bar")));
    assert!(st.is_package_tracked(&s("baz")));
    assert!(!st.are_dependencies_met(&s("bar")));
    assert!(st.are_dependencies_met(&s("baz")));
    st.build_package(&s("baz"), 100, vs(&["baz-1.pkg.tar.zst"]));
    assert!(st.are_dependencies_met(&s("bar")));
}

#[test]
fn add_skips_already_tracked() {
    let mut st = State::new();
    st.track_package(s("foo"), vs(&[]), false);
    let (to_build, _) = apply_add_packages(
        &mut st,
        &vs(&["foo"]),
        &vec![(s("foo"), vs(&[]))],
        false,
    );
    assert!(to_build.is_empty());
}

#[test]
fn add_by_url_tracks_and_reports_dependencies() {
    let mut st = State::new();
    let data = PackageData {
        name: s("web"),
        last_modified: 123,
        depends: vs(&["dep1"]),
    };
    let deps = apply_add_package_url(&mut st, s("https://example.org/web.git"), data);
    assert_eq!(deps, vs(&["dep1"]));
    assert!(st.is_package_tracked(&s("web")));
    assert_eq!(
        st.get_build_url(&s("web")).unwrap(),
        s("https://example.org/web.git")
    );
}
