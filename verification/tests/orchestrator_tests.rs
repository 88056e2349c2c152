use coordinator::orchestrator::{
    classify_container_state, container_env, format_log_entries, short_id, ContainerAction,
    ContainerStatus, LogKind, Orchestrator,
};
use coordinator::state::State;

fn s(x: &str) -> String {
    x.to_string()
}

fn vs(xs: &[&str]) -> Vec<String> {
    xs.iter().map(|x| x.to_string()).collect()
}

#[test]
fn at_most_one_builder_with_cap_one() {
    // With the default cap of one, a second build waits for a free slot.
    let mut st = State::new();
    st.track_package(s("foo"), vs(&[]), false);
    st.track_package(s("bar"), vs(&[]), false);
    let mut orch = Orchestrator::new(1);
    orch.on_build_package(s("foo"), s("https://aur.archlinux.org/foo.git"));
    orch.on_build_package(s("bar"), s("https://aur.archlinux.org/bar.git"));
    assert!(orch.can_dispatch());
    let i = orch.select_dispatch(&st).unwrap();
    assert_eq!(i, 0);
    let req = orch.take_request(i);
    assert_eq!(req.package, s("foo"));
    orch.record_container(s("foo"), s("c1"));
    assert!(!orch.can_dispatch());
    assert_eq!(orch.active_containers.len(), 1);
    // The first build finishes; the slot opens again.
    let id = orch.finish_container(&s("foo"));
    assert_eq!(id, Some(s("c1")));
    assert!(orch.can_dispatch());
}

#[test]
fn dispatch_respects_dependencies() {
    // bar depends on unbuilt baz: the dispatcher picks baz first.
    let mut st = State::new();
    st.track_package(s("bar"), vs(&["baz"]), false);
    st.track_package(s("baz"), vs(&[]), true);
    let mut orch = Orchestrator::new(2);
    orch.on_build_package(s("bar"), s("u1"));
    orch.on_build_package(s("baz"), s("u2"));
    let i = orch.select_dispatch(&st).unwrap();
    assert_eq!(i, 1);
    assert_eq!(orch.pending_builds[i].package, s("baz"));
    st.build_package(&s("baz"), 100, vs(&["baz-1.pkg.tar.zst"]));
    let j = orch.select_dispatch(&st).unwrap();
    assert_eq!(j, 0);
}

#[test]
fn no_dispatch_when_nothing_eligible() {
    let mut st = State::new();
    st.track_package(s("bar"), vs(&["baz"]), false);
    let mut orch = Orchestrator::new(1);
    orch.on_build_package(s("bar"), s("u1"));
    assert!(orch.select_dispatch(&st).is_none());
}

#[test]
fn classify_exits() {
    assert_eq!(
        classify_container_state(ContainerStatus::Exited, 0),
        ContainerAction::Remove
    );
    assert_eq!(
        classify_container_state(ContainerStatus::Exited, 2),
        ContainerAction::ReportFailureAndRemove
    );
    assert_eq!(
        classify_container_state(ContainerStatus::Running, 0),
        ContainerAction::Keep
    );
    assert_eq!(
        classify_container_state(ContainerStatus::Paused, 0),
        ContainerAction::Warn
    );
    assert_eq!(
        classify_container_state(ContainerStatus::Dead, 0),
        ContainerAction::Warn
    );
}

#[test]
fn remove_packages_drops_queue_and_container() {
    let mut orch = Orchestrator::new(2);
    orch.on_build_package(s("foo"), s("u1"));
    orch.on_build_package(s("bar"), s("u2"));
    orch.record_container(s("bar"), s("c2"));
    let stopped = orch.on_remove_packages(&vs(&["bar"]));
    assert_eq!(stopped.len(), 1);
    assert_eq!(stopped[0].0, s("bar"));
    assert_eq!(stopped[0].1, s("c2"));
    assert_eq!(orch.pending_builds.len(), 1);
    assert_eq!(orch.pending_builds[0].package, s("foo"));
    assert_eq!(orch.active_containers.len(), 0);
}

#[test]
fn remove_drops_only_first_queued_duplicate() {
    let mut orch = Orchestrator::new(1);
    orch.on_build_package(s("foo"), s("u1"));
    orch.on_build_package(s("foo"), s("u1"));
    orch.on_remove_packages(&vs(&["foo"]));
    assert_eq!(orch.pending_builds.len(), 1);
}

#[test]
fn short_id_is_first_twelve_chars() {
    let id = "0123456789abcdef0123456789abcdef";
    assert_eq!(short_id(id), s("0123456789ab"));
}

#[test]
fn container_env_entries() {
    let env = container_env(&s("foo"), &s("https://x/foo.git"), &s("aur"), 3200);
    assert_eq!(
        env,
        vs(&[
            "PACKAGE=foo",
            "URL=https://x/foo.git",
            "REPO=aur",
            "PORT=3200"
        ])
    );
}

#[test]
fn log_entries_formatting() {
    let entries = vec![
        (LogKind::Out, s("building\n")),
        (LogKind::ErrOut, s("warning: x")),
    ];
    let text = format_log_entries(&entries);
    assert_eq!(text, s("OUT - building\nERR - warning: x"));
}
