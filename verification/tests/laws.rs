use fast_static_server::html::{escape_html, percent_encode_segment};
use fast_static_server::resolve::sanitize_path;
use fast_static_server::listing::{sort_entries, DirEntry};
use fast_static_server::route::{
    after_candidate, after_directory_check, after_index_check, after_root_index_check, begin,
    Action, AppState,
};

/// Runs the handler's decisions against a fake disk: `files` are served
/// with 200, `dirs` are directories; every other path is missing.
fn answer(state: &AppState, url: &str, files: &[&str], dirs: &[&str]) -> Action {
    let (route, mut action) = begin(state, url);
    let Some(route) = route else { return action };
    for _ in 0..4 {
        action = match action {
            Action::TryFile { path, .. } => {
                let status = if files.contains(&path.as_str()) { 200 } else { 404 };
                after_candidate(&route, status)
            }
            Action::CheckDirectory { path } => {
                after_directory_check(state, &route, dirs.contains(&path.as_str()))
            }
            Action::CheckIndex { path } => {
                after_index_check(state, &route, files.contains(&path.as_str()))
            }
            Action::CheckRootIndex { path } => {
                after_root_index_check(state, files.contains(&path.as_str()))
            }
            done => return done,
        };
    }
    action
}

#[test]
fn every_request_gets_an_answer_and_cache_control_only_on_files() {
    let files = ["/site/index.html", "/site/sub/file.txt"];
    let dirs = ["/site", "/site/sub", "/site/nolisting"];
    let urls = [
        "/", "/sub/file.txt", "/sub", "/sub/", "/nolisting", "/nolisting/", "/missing", "/../x",
    ];
    for spa in [false, true] {
        let state = AppState::new("/site".to_string(), spa, Some(3600));
        for url in urls {
            match answer(&state, url, &files, &dirs) {
                Action::ServeFile { cache_control, .. } => {
                    assert_eq!(cache_control, Some("public, max-age=3600".to_string()))
                }
                Action::Forbidden
                | Action::NotFound
                | Action::ReturnServed
                | Action::ListDirectory { .. } => {}
                other => panic!("no answer for {url}: {other:?}"),
            }
        }
    }
}

#[test]
fn spa_only_changes_missing_paths() {
    let files = ["/site/index.html"];
    let dirs = ["/site", "/site/nolisting"];
    let plain = AppState::new("/site".to_string(), false, None);
    let spa = AppState::new("/site".to_string(), true, None);
    for url in ["/", "/nolisting/", "/nolisting", "/../x"] {
        assert_eq!(answer(&plain, url, &files, &dirs), answer(&spa, url, &files, &dirs));
    }
    assert_eq!(answer(&plain, "/some/client/route", &files, &dirs), Action::NotFound);
    assert_eq!(
        answer(&spa, "/some/client/route", &files, &dirs),
        Action::ServeFile { path: "/site/index.html".to_string(), cache_control: None }
    );
}

#[test]
fn sorting_keeps_every_entry() {
    let input = vec![
        DirEntry { name: "b".to_string(), is_dir: false },
        DirEntry { name: "a".to_string(), is_dir: true },
        DirEntry { name: "c".to_string(), is_dir: false },
        DirEntry { name: "a".to_string(), is_dir: false },
    ];
    let sorted = sort_entries(&input);
    assert_eq!(sorted.len(), input.len());
    for e in &input {
        assert_eq!(
            sorted.iter().filter(|s| *s == e).count(),
            input.iter().filter(|s| *s == e).count()
        );
    }
    for w in sorted.windows(2) {
        assert!(w[0].name <= w[1].name);
    }
}

#[test]
fn encoded_segments_use_only_safe_characters() {
    let out = percent_encode_segment("a/b\"c<d>e?f#g h\u{e9}\u{1F600}");
    assert!(out
        .chars()
        .all(|c| c.is_ascii_alphanumeric() || "-_.~%".contains(c)));
    assert_eq!(out, "a%2Fb%22c%3Cd%3Ee%3Ff%23g%20h%C3%A9%F0%9F%98%80");
}

fn unescape(s: &str) -> String {
    s.replace("&quot;", "\"")
        .replace("&gt;", ">")
        .replace("&lt;", "<")
        .replace("&amp;", "&")
}

#[test]
fn escaping_can_be_undone() {
    for text in ["<script>&\"</script>", "&amp;", "&lt;&gt;", "plain", "", "a&quot;b"] {
        assert_eq!(unescape(&escape_html(text)), text);
    }
    assert_ne!(escape_html("&lt;"), escape_html("<"));
}

#[test]
fn empty_and_dot_segments_do_not_matter() {
    let a = sanitize_path("/srv/www", "/a/./b//c");
    assert_eq!(a, sanitize_path("/srv/www", "/a/b/c"));
    assert_eq!(a, Some("/srv/www/a/b/c".to_string()));
    assert_eq!(sanitize_path("/srv/www", "/./%2E/..//"), sanitize_path("/srv/www", "/.."));
}
