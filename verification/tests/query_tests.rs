use coordinator::query::{
    aur_info_url, check_pkgbuild, do_packages_exist, filter_dependencies,
    get_dependencies, get_last_modified, get_package_info, parse_pacman_cache,
    parse_pkgbuild_output, parse_timestamp, Error,
};

fn s(x: &str) -> String {
    x.to_string()
}

fn vs(xs: &[&str]) -> Vec<String> {
    xs.iter().map(|x| x.to_string()).collect()
}

fn chars(x: &str) -> Vec<char> {
    x.chars().collect()
}

#[test]
fn info_url_lists_names_as_arguments() {
    let url = aur_info_url(&vs(&["foo", "bar"]));
    assert_eq!(
        url,
        s("https://aur.archlinux.org/rpc/v5/info?arg[]=foo&arg[]=bar")
    );
}

#[test]
fn parse_registry_response() {
    let body = "{\"resultcount\":2,\"results\":[\
        {\"Name\":\"foo\",\"LastModified\":100,\"Depends\":[],\"Version\":\"1\"},\
        {\"Name\":\"bar\",\"LastModified\":250,\"Depends\":[\"baz\",\"glibc\"]}],\
        \"type\":\"multiinfo\",\"version\":5}";
    let infos = get_package_info(body).unwrap();
    assert_eq!(infos.len(), 2);
    assert_eq!(infos[0].name, s("foo"));
    assert_eq!(infos[0].last_modified, 100);
    assert_eq!(infos[1].depends, vs(&["baz", "glibc"]));

    let names = do_packages_exist(&infos);
    assert_eq!(names, vs(&["foo", "bar"]));

    let times = get_last_modified(&infos);
    assert_eq!(times, vec![(s("foo"), 100i64), (s("bar"), 250i64)]);

    let cache = vs(&["glibc"]);
    let deps = get_dependencies(&infos, &cache);
    assert_eq!(deps[0].1, Vec::<String>::new());
    assert_eq!(deps[1].1, vs(&["baz"]));
}

#[test]
fn parse_registry_response_rejects_junk() {
    assert!(get_package_info("not json").is_err());
    assert!(get_package_info("{\"other\":1}").is_err());
    assert!(get_package_info("{\"results\":3}").is_err());
    assert!(get_package_info("{\"results\":[{\"Name\":\"a\"}]}").is_err());
}

#[test]
fn dependency_filter_drops_cached_and_bounded() {
    let cache = vs(&["glibc", ""]);
    let deps = vs(&["glibc", "openssl>=3", "zlib<2", "icu=74", "bar", ""]);
    assert_eq!(filter_dependencies(&deps, &cache), vs(&["bar"]));
}

#[test]
fn dependency_filter_drops_duplicates() {
    let cache: Vec<String> = vec![];
    let deps = vs(&["a", "b", "a", "a", "c", "b"]);
    assert_eq!(filter_dependencies(&deps, &cache), vs(&["a", "b", "c"]));
}

#[test]
fn pkgbuild_output_parses_name_and_deps() {
    let out = chars("mypkg\ndep1 dep2 glibc\n");
    let cache = vs(&["glibc"]);
    let (name, deps) = parse_pkgbuild_output(&out, &cache).unwrap();
    assert_eq!(name, s("mypkg"));
    assert_eq!(deps, vs(&["dep1", "dep2"]));
}

#[test]
fn pkgbuild_output_without_deps_line() {
    let out = chars("mypkg");
    let cache: Vec<String> = vec![];
    let (name, deps) = parse_pkgbuild_output(&out, &cache).unwrap();
    assert_eq!(name, s("mypkg"));
    assert!(deps.is_empty());
}

#[test]
fn empty_pkgbuild_output_means_no_name() {
    let out: Vec<char> = vec![];
    let cache: Vec<String> = vec![];
    assert!(matches!(
        parse_pkgbuild_output(&out, &cache),
        Err(Error::PkgbuildNameMissing)
    ));
}

#[test]
fn timestamp_parses_trimmed_output() {
    assert_eq!(parse_timestamp(&chars(" 1699999999\n")).unwrap(), 1699999999);
    assert_eq!(parse_timestamp(&chars("-5")).unwrap(), -5);
    assert!(matches!(
        parse_timestamp(&chars("yesterday")),
        Err(Error::FailedToParseTimestamp)
    ));
    assert!(matches!(
        parse_timestamp(&chars("")),
        Err(Error::FailedToParseTimestamp)
    ));
}

#[test]
fn pkgbuild_probe_combines_outputs() {
    let recipe = chars("mypkg\ndep1\n");
    let stamp = chars("1700000000\n");
    let cache: Vec<String> = vec![];
    let data = check_pkgbuild(&recipe, &stamp, &cache).unwrap();
    assert_eq!(data.name, s("mypkg"));
    assert_eq!(data.last_modified, 1700000000);
    assert_eq!(data.depends, vs(&["dep1"]));
}

#[test]
fn pacman_listing_splits_lines() {
    let names = parse_pacman_cache("glibc\nzlib\n");
    assert_eq!(names, vs(&["glibc", "zlib", ""]));
}
