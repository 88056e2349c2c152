use coordinator::persist::{load_state, serialize_state};
use coordinator::state::State;

fn s(x: &str) -> String {
    x.to_string()
}

fn vs(xs: &[&str]) -> Vec<String> {
    xs.iter().map(|x| x.to_string()).collect()
}

#[test]
fn empty_state_serializes_to_empty_map() {
    let st = State::new();
    let text = serialize_state(&st);
    assert_eq!(text, s("{\"package_status\":{}}"));
    let loaded = load_state(&text).unwrap();
    assert_eq!(loaded.entries.len(), 0);
}

#[test]
fn one_entry_document_text() {
    let mut st = State::new();
    st.track_package(s("foo"), vs(&[]), false);
    let text = serialize_state(&st);
    assert_eq!(
        text,
        s("{\"package_status\":{\"foo\":{\"url\":null,\"is_dependency\":false,\
           \"dependencies\":[],\"build\":null}}}")
    );
}

#[test]
fn round_trip_preserves_everything() {
    // The persistence round trip: saving and loading yields an equal map.
    let mut st = State::new();
    st.track_package(s("bar"), vs(&["baz", "qux"]), false);
    st.track_package(s("baz"), vs(&[]), true);
    st.track_package_url(s("web"), s("https://example.org/web.git"), vs(&["dep"]));
    st.build_package(&s("baz"), -12345, vs(&["baz-1.pkg.tar.zst"]));
    st.build_package(&s("web"), 1699999999, vs(&["web-1.pkg.tar.zst", "web-2.pkg.tar.zst"]));
    let text = serialize_state(&st);
    let loaded = load_state(&text).unwrap();
    assert_eq!(loaded.entries.len(), 3);
    assert_eq!(loaded.entries[0].0, s("bar"));
    assert_eq!(loaded.entries[0].1.url, None);
    assert!(!loaded.entries[0].1.is_dependency);
    assert_eq!(loaded.entries[0].1.dependencies, vs(&["baz", "qux"]));
    assert!(loaded.entries[0].1.build.is_none());
    assert_eq!(loaded.entries[1].0, s("baz"));
    assert!(loaded.entries[1].1.is_dependency);
    let b1 = loaded.entries[1].1.build.as_ref().unwrap();
    assert_eq!(b1.time, -12345);
    assert_eq!(b1.files, vs(&["baz-1.pkg.tar.zst"]));
    assert_eq!(loaded.entries[2].0, s("web"));
    assert_eq!(
        loaded.entries[2].1.url,
        Some(s("https://example.org/web.git"))
    );
    let b2 = loaded.entries[2].1.build.as_ref().unwrap();
    assert_eq!(b2.time, 1699999999);
    assert_eq!(b2.files, vs(&["web-1.pkg.tar.zst", "web-2.pkg.tar.zst"]));
}

#[test]
fn round_trip_escapes_special_characters() {
    let mut st = State::new();
    let odd = s("we\"ird\\na\nme\t!");
    st.track_package(odd.clone(), vs(&[]), false);
    let text = serialize_state(&st);
    let loaded = load_state(&text).unwrap();
    assert_eq!(loaded.entries[0].0, odd);
}

#[test]
fn load_rejects_malformed_documents() {
    assert!(load_state("").is_err());
    assert!(load_state("{}").is_err());
    assert!(load_state("{\"package_status\":{").is_err());
    assert!(load_state("{\"package_status\":{}} ").is_err());
    assert!(load_state("{\"package_status\":{\"a\":{}}}").is_err());
}

#[test]
fn load_rejects_duplicate_names() {
    let text = "{\"package_status\":{\
        \"a\":{\"url\":null,\"is_dependency\":false,\"dependencies\":[],\"build\":null},\
        \"a\":{\"url\":null,\"is_dependency\":true,\"dependencies\":[],\"build\":null}}}";
    assert!(load_state(text).is_err());
}

#[test]
fn load_rejects_out_of_range_time() {
    let text = "{\"package_status\":{\
        \"a\":{\"url\":null,\"is_dependency\":false,\"dependencies\":[],\
        \"build\":{\"time\":99999999999999999999,\"files\":[]}}}}";
    assert!(load_state(text).is_err());
}
