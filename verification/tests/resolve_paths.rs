use fast_static_server::resolve::{join_path, sanitize_path};

fn resolved(url: &str) -> Option<String> {
    sanitize_path("/srv/www", url)
}

#[test]
fn percent_encoded_dots_are_refused() {
    assert_eq!(resolved("/%2e%2e/%2e%2e/etc/passwd"), None);
    assert_eq!(resolved("/%2E%2E"), None);
    assert_eq!(resolved("/a/%2e%2e"), None);
    assert_eq!(resolved("/../outside"), None);
}

#[test]
fn dot_segments_and_empty_segments_are_skipped() {
    assert_eq!(resolved("/./a//b/"), Some("/srv/www/a/b".to_string()));
    assert_eq!(resolved(""), Some("/srv/www".to_string()));
    assert_eq!(resolved("//"), Some("/srv/www".to_string()));
}

#[test]
fn dots_inside_names_are_kept() {
    assert_eq!(resolved("/...") , Some("/srv/www/...".to_string()));
    assert_eq!(resolved("/a..b/.c"), Some("/srv/www/a..b/.c".to_string()));
}

#[test]
fn escapes_are_decoded_before_splitting() {
    assert_eq!(resolved("/a%20b.txt"), Some("/srv/www/a b.txt".to_string()));
    assert_eq!(resolved("/a%2Fb"), Some("/srv/www/a/b".to_string()));
    assert_eq!(resolved("/caf%C3%A9"), Some("/srv/www/café".to_string()));
}

#[test]
fn malformed_escapes_stay_as_they_are() {
    assert_eq!(resolved("/100%"), Some("/srv/www/100%".to_string()));
    assert_eq!(resolved("/%zz%4"), Some("/srv/www/%zz%4".to_string()));
}

#[test]
fn invalid_utf8_is_refused() {
    assert_eq!(resolved("/%FF"), None);
    assert_eq!(resolved("/%C3"), None);
}

#[test]
fn root_with_trailing_slash_or_empty_root() {
    assert_eq!(sanitize_path("/srv/www/", "/a"), Some("/srv/www/a".to_string()));
    assert_eq!(sanitize_path("", "/a/b"), Some("a/b".to_string()));
}

#[test]
fn join_path_puts_one_separator() {
    assert_eq!(join_path("/srv", "index.html"), "/srv/index.html");
    assert_eq!(join_path("/srv/", "index.html"), "/srv/index.html");
    assert_eq!(join_path("", "index.html"), "index.html");
}
