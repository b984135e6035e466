use fast_static_server::route::{
    after_candidate, after_directory_check, after_index_check, after_root_index_check, begin,
    cache_control_value, Action, AppState, Route,
};

fn state(spa: bool, cache: Option<u64>) -> AppState {
    AppState::new("/site".to_string(), spa, cache)
}

fn route(url: &str, fs: &str) -> Route {
    Route { url_path: url.to_string(), fs_path: fs.to_string() }
}

#[test]
fn cache_control_value_spells_the_lifetime() {
    assert_eq!(cache_control_value(3600), "public, max-age=3600");
    assert_eq!(cache_control_value(0), "public, max-age=0");
    assert_eq!(cache_control_value(u64::MAX), "public, max-age=18446744073709551615");
}

#[test]
fn state_holds_the_configuration() {
    let s = state(true, Some(3600));
    assert_eq!(s.root, "/site");
    assert!(s.spa);
    assert_eq!(s.cache_control, Some("public, max-age=3600".to_string()));
    assert_eq!(state(false, None).cache_control, None);
}

#[test]
fn serves_index_html_at_root() {
    let (r, a) = begin(&state(false, None), "/");
    assert_eq!(r, Some(route("/", "/site")));
    assert_eq!(a, Action::TryFile { path: "/site/index.html".to_string(), cache_control: None });
}

#[test]
fn serves_nested_file_with_cache_control() {
    let (r, a) = begin(&state(false, Some(3600)), "/sub/file.txt");
    assert_eq!(r, Some(route("/sub/file.txt", "/site/sub/file.txt")));
    assert_eq!(
        a,
        Action::TryFile {
            path: "/site/sub/file.txt".to_string(),
            cache_control: Some("public, max-age=3600".to_string()),
        }
    );
}

#[test]
fn rejects_path_traversal() {
    let s = state(true, None);
    assert_eq!(begin(&s, "/../outside"), (None, Action::Forbidden));
    assert_eq!(begin(&s, "/%2e%2e/%2e%2e/etc/passwd"), (None, Action::Forbidden));
}

#[test]
fn found_candidate_is_returned() {
    let r = route("/x", "/site/x");
    assert_eq!(after_candidate(&r, 200), Action::ReturnServed);
    assert_eq!(after_candidate(&r, 304), Action::ReturnServed);
    assert_eq!(after_candidate(&r, 206), Action::ReturnServed);
    assert_eq!(after_candidate(&r, 404), Action::CheckDirectory { path: "/site/x".to_string() });
}

#[test]
fn directory_without_trailing_slash_checks_its_index() {
    let s = state(false, Some(60));
    let r = route("/nolisting", "/site/nolisting");
    assert_eq!(
        after_directory_check(&s, &r, true),
        Action::CheckIndex { path: "/site/nolisting/index.html".to_string() }
    );
    assert_eq!(
        after_index_check(&s, &r, true),
        Action::ServeFile {
            path: "/site/nolisting/index.html".to_string(),
            cache_control: Some("public, max-age=60".to_string()),
        }
    );
    assert_eq!(
        after_index_check(&s, &r, false),
        Action::ListDirectory { dir: "/site/nolisting".to_string(), url_path: "/nolisting".to_string() }
    );
}

#[test]
fn directory_request_is_listed() {
    let s = state(true, Some(60));
    let r = route("/nolisting/", "/site/nolisting");
    assert_eq!(
        after_directory_check(&s, &r, true),
        Action::ListDirectory { dir: "/site/nolisting".to_string(), url_path: "/nolisting/".to_string() }
    );
}

#[test]
fn returns_404_for_missing_file_without_spa() {
    let s = state(false, Some(60));
    let r = route("/does-not-exist", "/site/does-not-exist");
    assert_eq!(after_directory_check(&s, &r, false), Action::NotFound);
}

#[test]
fn spa_mode_rewrites_unknown_routes_to_index() {
    let s = state(true, None);
    let r = route("/some/client/route", "/site/some/client/route");
    assert_eq!(
        after_directory_check(&s, &r, false),
        Action::CheckRootIndex { path: "/site/index.html".to_string() }
    );
    assert_eq!(
        after_root_index_check(&s, true),
        Action::ServeFile { path: "/site/index.html".to_string(), cache_control: None }
    );
    assert_eq!(after_root_index_check(&s, false), Action::NotFound);
}
