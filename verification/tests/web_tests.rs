use coordinator::web::{
    plan_add_packages, plan_force_rebuild, plan_remove_packages, sanitize_all, sanitize_filename,
    status_response,
};
use coordinator::state::State;

fn s(x: &str) -> String {
    x.to_string()
}

fn vs(xs: &[&str]) -> Vec<String> {
    xs.iter().map(|x| x.to_string()).collect()
}

#[test]
fn sanitize_keeps_plain_names() {
    assert_eq!(sanitize_filename("foo-1.pkg.tar.zst"), s("foo-1.pkg.tar.zst"));
}

#[test]
fn sanitize_takes_basename() {
    // The on-disk path is the last real component of whatever the worker
    // sent; trailing separators and `.` segments do not hide it.
    assert_eq!(sanitize_filename("a/b/c.pkg.tar.zst"), s("c.pkg.tar.zst"));
    assert_eq!(sanitize_filename("/etc/passwd"), s("passwd"));
    assert_eq!(sanitize_filename("a/"), s("a"));
    assert_eq!(sanitize_filename("a//"), s("a"));
    assert_eq!(sanitize_filename("a/."), s("a"));
    assert_eq!(sanitize_filename("./x"), s("x"));
    assert_eq!(sanitize_filename("..."), s("..."));
}

#[test]
fn sanitize_rejects_empty_and_relative() {
    assert_eq!(sanitize_filename(""), s("default"));
    assert_eq!(sanitize_filename("/"), s("default"));
    assert_eq!(sanitize_filename("."), s("default"));
    assert_eq!(sanitize_filename("./"), s("default"));
    assert_eq!(sanitize_filename(".."), s("default"));
    assert_eq!(sanitize_filename("a/.."), s("default"));
    assert_eq!(sanitize_filename("a/../"), s("default"));
}

#[test]
fn sanitize_all_in_upload_order() {
    let files = vec![
        (s("x/a.pkg.tar.zst"), vec![1u8, 2u8]),
        (s(""), vec![3u8]),
    ];
    assert_eq!(sanitize_all(&files), vs(&["a.pkg.tar.zst", "default"]));
}

#[test]
fn cold_start_add_plan() {
    // Adding one fresh name the registry knows: it is added, nothing was
    // known before, nothing is unknown upstream.
    let requested = vs(&["foo"]);
    let existing = vs(&["foo"]);
    let tracked_names: Vec<String> = vec![];
    let r = plan_add_packages(&requested, &existing, &tracked_names);
    assert_eq!(r.added, vs(&["foo"]));
    assert_eq!(r.already_tracked, Vec::<String>::new());
    assert_eq!(r.not_found, Vec::<String>::new());
}

#[test]
fn add_plan_splits_outcomes() {
    let requested = vs(&["a", "b", "c"]);
    let existing = vs(&["a", "b"]);
    let tracked_names = vs(&["b"]);
    let r = plan_add_packages(&requested, &existing, &tracked_names);
    assert_eq!(r.added, vs(&["a", "c"]));
    assert_eq!(r.already_tracked, vs(&["b"]));
    assert_eq!(r.not_found, vs(&["c"]));
}

#[test]
fn remove_plan_splits_outcomes() {
    let requested = vs(&["a", "x"]);
    let tracked_names = vs(&["a", "b"]);
    let r = plan_remove_packages(&requested, &tracked_names);
    assert_eq!(r.removed, vs(&["a"]));
    assert_eq!(r.not_tracked, vs(&["x"]));
}

#[test]
fn rebuild_plan_all_or_nothing() {
    let tracked_names = vs(&["a", "b"]);
    let (resp, to_build) = plan_force_rebuild(&vs(&["a", "b"]), &tracked_names);
    assert!(resp.not_found.is_empty());
    assert_eq!(to_build, vs(&["a", "b"]));
    let (resp2, to_build2) = plan_force_rebuild(&vs(&["a", "x"]), &tracked_names);
    assert_eq!(resp2.not_found, vs(&["x"]));
    assert!(to_build2.is_empty());
}

#[test]
fn status_lists_tracked_names() {
    let mut st = State::new();
    st.track_package(s("foo"), vs(&[]), false);
    st.track_package(s("bar"), vs(&[]), false);
    let r = status_response(&st);
    assert_eq!(r.packages, vs(&["foo", "bar"]));
}
