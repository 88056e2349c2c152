use coordinator::cli::{check_for_repository, repo_directive, wrap_text, Config, Server};
use coordinator::combine_for_display;
use coordinator::config::{parse_log_level, LogLevel};
use coordinator::endpoints::Endpoints;
use coordinator::repository::{
    db_file_name, files_and_packages_to_remove, is_repo_index_file, repo_add_args,
    repo_remove_args,
};
use coordinator::state::State;

fn s(x: &str) -> String {
    x.to_string()
}

fn vs(xs: &[&str]) -> Vec<String> {
    xs.iter().map(|x| x.to_string()).collect()
}

#[test]
fn endpoints_build_urls() {
    let e = Endpoints { address: s("example.org"), port: 3200, https: false };
    assert_eq!(e.artifacts(), s("http://example.org:3200/artifacts"));
    assert_eq!(e.add_packages(), s("http://example.org:3200/packages/add"));
    assert_eq!(e.add_package_url(), s("http://example.org:3200/packages/add-url"));
    assert_eq!(e.remove_packages(), s("http://example.org:3200/packages/remove"));
    assert_eq!(e.rebuilt_packages(), s("http://example.org:3200/packages/rebuild"));
    assert_eq!(e.key(), s("http://example.org:3200/key"));
    assert_eq!(e.status(), s("http://example.org:3200/status"));
    assert_eq!(e.list_logs(), s("http://example.org:3200/logs"));
    assert_eq!(e.get_log(7), s("http://example.org:3200/logs/7"));
}

#[test]
fn endpoints_default_uses_https() {
    let e = Endpoints::default();
    assert_eq!(e.port, 3200);
    assert!(e.https);
    assert_eq!(e.status(), s("https://:3200/status"));
}

#[test]
fn server_converts_to_endpoints() {
    let server = Server { address: s("h"), port: 8080, https: true };
    let e = server.to_endpoints();
    assert_eq!(e.address, s("h"));
    assert_eq!(e.port, 8080);
    assert!(e.https);
    let c = Config::default();
    assert!(!c.initialized);
    assert_eq!(c.server.address, s("localhost"));
}

#[test]
fn coordinator_config_defaults() {
    let c = coordinator::config::Config::default();
    assert_eq!(c.max_builders(), 1);
    assert_eq!(c.max_retries(), 3);
    assert_eq!(c.update_check_interval(), 240);
    assert_eq!(c.port(), 3200);
    assert_eq!(c.image(), s("aur_worker"));
    assert_eq!(c.repo_name(), s("aur"));
    assert_eq!(c.max_memory(), None);
}

#[test]
fn log_level_keywords() {
    assert_eq!(parse_log_level(&s("error")), LogLevel::Error);
    assert_eq!(parse_log_level(&s("warn")), LogLevel::Warn);
    assert_eq!(parse_log_level(&s("debug")), LogLevel::Debug);
    assert_eq!(parse_log_level(&s("trace")), LogLevel::Trace);
    assert_eq!(parse_log_level(&s("off")), LogLevel::Off);
    assert_eq!(parse_log_level(&s("info")), LogLevel::Info);
    assert_eq!(parse_log_level(&s("anything")), LogLevel::Info);
}

#[test]
fn combine_for_display_forms() {
    assert_eq!(combine_for_display(&vs(&[])), s(""));
    assert_eq!(combine_for_display(&vs(&["a"])), s("a"));
    assert_eq!(combine_for_display(&vs(&["a", "b"])), s("a and b"));
    assert_eq!(combine_for_display(&vs(&["a", "b", "c"])), s("a, b and c"));
}

#[test]
fn wrap_text_breaks_at_spaces() {
    assert_eq!(wrap_text("aaa bbb", 4), s("aaa \nbbb"));
    assert_eq!(wrap_text("short", 10), s("short"));
    assert_eq!(wrap_text("abcdefgh", 3), s("abc\ndef\ngh"));
    assert_eq!(wrap_text("", 5), s(""));
}

#[test]
fn index_files_recognized_by_suffix() {
    assert!(is_repo_index_file(&s("aur.db")));
    assert!(is_repo_index_file(&s("aur.db.tar.zst")));
    assert!(is_repo_index_file(&s("aur.files")));
    assert!(is_repo_index_file(&s("aur.files.tar.zst")));
    assert!(!is_repo_index_file(&s("foo-1.pkg.tar.zst")));
    assert!(!is_repo_index_file(&s("db")));
}

#[test]
fn repo_tool_argument_lists() {
    assert_eq!(db_file_name(&s("aur")), s("aur.db.tar.zst"));
    assert_eq!(
        repo_add_args(&s("aur"), &vs(&["foo-1.pkg.tar.zst"])),
        vs(&[
            "--new",
            "--remove",
            "--prevent-downgrade",
            "aur.db.tar.zst",
            "foo-1.pkg.tar.zst"
        ])
    );
    assert_eq!(
        repo_remove_args(&s("aur"), &vs(&["foo", "bar"])),
        vs(&["aur.db.tar.zst", "foo", "bar"])
    );
}

#[test]
fn removal_collects_recorded_files() {
    let mut st = State::new();
    st.track_package(s("bar"), vs(&[]), false);
    st.track_package(s("baz"), vs(&[]), true);
    st.track_package(s("empty"), vs(&[]), false);
    st.build_package(&s("bar"), 1, vs(&["bar-1.pkg.tar.zst"]));
    st.build_package(&s("baz"), 2, vs(&["baz-1.pkg.tar.zst"]));
    let (files, pkgs) = files_and_packages_to_remove(&st, &vs(&["bar", "baz", "empty"]));
    assert_eq!(files, vs(&["bar-1.pkg.tar.zst", "baz-1.pkg.tar.zst"]));
    assert_eq!(pkgs, vs(&["bar", "baz"]));
}

#[test]
fn repo_directive_omits_default_ports() {
    assert_eq!(repo_directive(&s("example.org"), 443, true), s("example.org/repo"));
    assert_eq!(repo_directive(&s("example.org"), 80, false), s("example.org/repo"));
    assert_eq!(repo_directive(&s("example.org"), 3200, false), s("example.org:3200/repo"));
}

#[test]
fn pacman_conf_check_finds_directive() {
    let conf = "[options]\nServer = https://example.org:3200/repo\n";
    assert!(check_for_repository(conf, &s("example.org"), 3200, false));
    assert!(!check_for_repository(conf, &s("other.org"), 3200, false));
}
