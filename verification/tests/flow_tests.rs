use coordinator::orchestrator::Orchestrator;
use coordinator::persist::{load_state, serialize_state};
use coordinator::repository::{apply_artifacts_uploaded, repo_add_args};
use coordinator::scheduler::{apply_add_packages, Scheduler};
use coordinator::state::{ActiveContainers, State};
use coordinator::web::{plan_add_packages, sanitize_filename};

fn s(x: &str) -> String {
    x.to_string()
}

fn vs(xs: &[&str]) -> Vec<String> {
    xs.iter().map(|x| x.to_string()).collect()
}

/// The cold-start path: one fresh package is added, dispatched under a cap
/// of one, built, its artifact booked, the index invoked once, and the state
/// document reflects the build.
#[test]
fn cold_start_add_build_and_persist() {
    let mut st = State::new();
    let mut orch = Orchestrator::new(1);
    let mut sched = Scheduler::new();
    let mut active = ActiveContainers::new();

    // POST /packages/add {packages:["foo"]} with the registry knowing foo.
    let plan = plan_add_packages(&vs(&["foo"]), &vs(&["foo"]), &st.tracked_packages());
    assert_eq!(plan.added, vs(&["foo"]));
    assert!(plan.already_tracked.is_empty());
    assert!(plan.not_found.is_empty());

    // The scheduler books the add and asks for one build.
    let (to_build, deps) = apply_add_packages(&mut st, &plan.added, &vec![(s("foo"), vs(&[]))], false);
    assert_eq!(to_build, vs(&["foo"]));
    assert!(deps.is_empty());

    // The orchestrator dispatches it into the single free slot.
    let url = st.get_build_url(&s("foo")).unwrap();
    assert_eq!(url, s("https://aur.archlinux.org/foo.git"));
    orch.on_build_package(s("foo"), url);
    assert!(orch.can_dispatch());
    let index = orch.select_dispatch(&st).unwrap();
    let request = orch.take_request(index);
    assert_eq!(request.package, s("foo"));
    orch.record_container(s("foo"), s("0123456789abcdef"));
    active.add_running_container(s("0123456789ab"));
    assert!(!orch.can_dispatch());
    assert!(active.is_container_running(&s("0123456789ab")));

    // The worker posts its artifact; the name is sanitized before the write.
    let file = sanitize_filename("foo-1.pkg.tar.zst");
    assert_eq!(file, s("foo-1.pkg.tar.zst"));
    let args = repo_add_args(&s("aur"), &vec![file.clone()]);
    assert_eq!(args[3], s("aur.db.tar.zst"));
    apply_artifacts_uploaded(&mut st, &s("foo"), 200, vec![file]);
    assert_eq!(st.get_files(&s("foo")), vs(&["foo-1.pkg.tar.zst"]));

    // The build record is on disk before anyone hears of the success.
    let text = serialize_state(&st);
    let reloaded = load_state(&text).unwrap();
    assert_eq!(reloaded.get_files(&s("foo")), vs(&["foo-1.pkg.tar.zst"]));
    let times = reloaded.get_build_times(&vs(&["foo"]));
    assert_eq!(times, vec![(s("foo"), 200i64)]);

    // The success clears the retry book-keeping.
    sched.handle_build_failure(s("foo"));
    sched.handle_build_success(&s("foo"));
    assert!(sched.retry_pass(0, 3).is_empty());
}
