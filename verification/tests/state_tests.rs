use coordinator::state::{ActiveContainers, State};

fn s(x: &str) -> String {
    x.to_string()
}

fn vs(xs: &[&str]) -> Vec<String> {
    xs.iter().map(|x| x.to_string()).collect()
}

#[test]
fn track_and_query() {
    let mut st = State::new();
    assert!(!st.is_package_tracked(&s("foo")));
    st.track_package(s("foo"), vs(&[]), false);
    assert!(st.is_package_tracked(&s("foo")));
    let names = st.tracked_packages();
    assert_eq!(names, vs(&["foo"]));
}

#[test]
fn track_package_url_stores_url() {
    let mut st = State::new();
    st.track_package_url(s("web"), s("https://example.org/web.git"), vs(&[]));
    let url = st.get_build_url(&s("web")).unwrap();
    assert_eq!(url, s("https://example.org/web.git"));
}

#[test]
fn get_build_url_synthesizes_registry_url() {
    let mut st = State::new();
    st.track_package(s("foo"), vs(&[]), false);
    let url = st.get_build_url(&s("foo")).unwrap();
    assert_eq!(url, s("https://aur.archlinux.org/foo.git"));
    assert!(st.get_build_url(&s("missing")).is_none());
}

#[test]
fn build_package_records_build() {
    let mut st = State::new();
    st.track_package(s("foo"), vs(&[]), false);
    st.build_package(&s("foo"), 200, vs(&["foo-1.pkg.tar.zst"]));
    let files = st.get_files(&s("foo"));
    assert_eq!(files, vs(&["foo-1.pkg.tar.zst"]));
    let times = st.get_build_times(&vs(&["foo"]));
    assert_eq!(times.len(), 1);
    assert_eq!(times[0].0, s("foo"));
    assert_eq!(times[0].1, 200);
}

#[test]
fn dependencies_met_tracks_builds() {
    let mut st = State::new();
    st.track_package(s("bar"), vs(&["baz"]), false);
    st.track_package(s("baz"), vs(&[]), true);
    assert!(!st.are_dependencies_met(&s("bar")));
    assert!(st.are_dependencies_met(&s("baz")));
    st.build_package(&s("baz"), 100, vs(&["baz-1.pkg.tar.zst"]));
    assert!(st.are_dependencies_met(&s("bar")));
}

#[test]
fn dependencies_met_false_for_untracked() {
    let st = State::new();
    assert!(!st.are_dependencies_met(&s("nope")));
}

#[test]
fn unneeded_dependencies_after_remove() {
    // The remove-with-GC scenario: bar depends on baz; removing bar leaves
    // baz unneeded, and the sweep then removes baz too.
    let mut st = State::new();
    st.track_package(s("bar"), vs(&["baz"]), false);
    st.track_package(s("baz"), vs(&[]), true);
    st.build_package(&s("bar"), 300, vs(&["bar-1.pkg.tar.zst"]));
    st.build_package(&s("baz"), 200, vs(&["baz-1.pkg.tar.zst"]));
    assert!(st.unneeded_dependencies().is_empty());
    let unneeded = coordinator::scheduler::handle_remove_packages(&mut st, &vs(&["bar"]));
    assert_eq!(unneeded, vs(&["baz"]));
    let unneeded2 = coordinator::scheduler::handle_remove_packages(&mut st, &unneeded);
    assert!(unneeded2.is_empty());
    assert!(!st.is_package_tracked(&s("bar")));
    assert!(!st.is_package_tracked(&s("baz")));
}

#[test]
fn gc_keeps_needed_dependencies() {
    let mut st = State::new();
    st.track_package(s("a"), vs(&["shared"]), false);
    st.track_package(s("b"), vs(&["shared"]), false);
    st.track_package(s("shared"), vs(&[]), true);
    let unneeded = coordinator::scheduler::handle_remove_packages(&mut st, &vs(&["a"]));
    assert!(unneeded.is_empty());
    assert!(st.is_package_tracked(&s("shared")));
}

#[test]
fn tracked_packages_aur_and_url_split() {
    let mut st = State::new();
    st.track_package(s("foo"), vs(&[]), false);
    st.track_package_url(s("web"), s("https://example.org/web.git"), vs(&[]));
    assert_eq!(st.tracked_packages_aur(), vs(&["foo"]));
    let urls = st.tracked_packages_url();
    assert_eq!(urls.len(), 1);
    assert_eq!(urls[0].0, s("web"));
    assert_eq!(urls[0].1, s("https://example.org/web.git"));
}

#[test]
fn get_all_files_collects_in_order() {
    let mut st = State::new();
    st.track_package(s("a"), vs(&[]), false);
    st.track_package(s("b"), vs(&[]), false);
    st.build_package(&s("a"), 1, vs(&["a-1.pkg.tar.zst"]));
    st.build_package(&s("b"), 2, vs(&["b-1.pkg.tar.zst", "b-2.pkg.tar.zst"]));
    assert_eq!(
        st.get_all_files(),
        vs(&["a-1.pkg.tar.zst", "b-1.pkg.tar.zst", "b-2.pkg.tar.zst"])
    );
}

#[test]
fn worker_authentication_by_container_id() {
    // An inactive hostname is refused; an active short ID is accepted.
    let mut active = ActiveContainers::new();
    assert!(!active.is_container_running(&s("abcdef123456")));
    active.add_running_container(s("abcdef123456"));
    assert!(active.is_container_running(&s("abcdef123456")));
    assert!(!active.is_container_running(&s("000000000000")));
    active.remove_running_container(&s("abcdef123456"));
    assert!(!active.is_container_running(&s("abcdef123456")));
}

#[test]
fn remove_packages_removes_only_named() {
    let mut st = State::new();
    st.track_package(s("a"), vs(&[]), false);
    st.track_package(s("b"), vs(&[]), false);
    st.remove_packages(&vs(&["a"]));
    assert!(!st.is_package_tracked(&s("a")));
    assert!(st.is_package_tracked(&s("b")));
}
