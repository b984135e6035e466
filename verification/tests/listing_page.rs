use fast_static_server::listing::{directory_listing, name_lt, sort_entries, DirEntry};

fn entry(name: &str, is_dir: bool) -> DirEntry {
    DirEntry { name: name.to_string(), is_dir }
}

fn names(entries: &[DirEntry]) -> Vec<String> {
    entries.iter().map(|e| e.name.clone()).collect()
}

#[test]
fn names_compare_by_bytes() {
    assert!(name_lt("a.txt", "b.txt"));
    assert!(!name_lt("b.txt", "a.txt"));
    assert!(!name_lt("a", "a"));
    assert!(name_lt("a", "ab"));
    assert!(name_lt("Z", "a"));
    assert!(name_lt("z", "é"));
}

#[test]
fn entries_sort_by_name_alone() {
    let sorted = sort_entries(&vec![
        entry("zzz_dir", true),
        entry("b.txt", false),
        entry("a.txt", false),
    ]);
    assert_eq!(names(&sorted), vec!["a.txt", "b.txt", "zzz_dir"]);
    assert!(sorted[2].is_dir);
}

#[test]
fn sorting_is_stable_for_equal_names() {
    let sorted = sort_entries(&vec![entry("x", true), entry("a", false), entry("x", false)]);
    assert_eq!(sorted, vec![entry("a", false), entry("x", true), entry("x", false)]);
}

#[test]
fn lists_directory_alphabetically() {
    let html = directory_listing(
        "/nolisting/",
        &vec![entry("b.txt", false), entry("zzz_dir", true), entry("a.txt", false)],
    );
    assert_eq!(
        html,
        "<!doctype html><meta charset=utf-8><title>Index of /nolisting/</title>\n\
         <h1>Index of /nolisting/</h1>\n<ul>\n\
         <li><a href=\"/\">../</a></li>\n\
         <li><a href=\"/nolisting/a.txt\">a.txt</a></li>\n\
         <li><a href=\"/nolisting/b.txt\">b.txt</a></li>\n\
         <li><a href=\"/nolisting/zzz_dir/\">zzz_dir/</a></li>\n\
         </ul>\n"
    );
}

#[test]
fn links_work_without_trailing_slash() {
    let html = directory_listing("/nolisting", &vec![entry("a.txt", false)]);
    assert!(html.contains("href=\"/nolisting/a.txt\""));
    assert!(html.contains("<title>Index of /nolisting</title>"));
    assert!(html.contains("<li><a href=\"/\">../</a></li>"));
}

#[test]
fn root_listing_has_no_parent_link() {
    let html = directory_listing("/", &vec![]);
    assert_eq!(
        html,
        "<!doctype html><meta charset=utf-8><title>Index of /</title>\n\
         <h1>Index of /</h1>\n<ul>\n</ul>\n"
    );
}

#[test]
fn parent_link_drops_the_last_segment() {
    let html = directory_listing("/a/b/", &vec![]);
    assert!(html.contains("<li><a href=\"/a/\">../</a></li>"));
    let html = directory_listing("/a/b//", &vec![]);
    assert!(html.contains("<li><a href=\"/a/\">../</a></li>"));
    let html = directory_listing("", &vec![]);
    assert!(!html.contains("../"));
}

#[test]
fn names_are_escaped_and_encoded() {
    let html = directory_listing("/d/", &vec![entry("<x> & y", false)]);
    assert!(html.contains("<li><a href=\"/d/%3Cx%3E%20%26%20y\">&lt;x&gt; &amp; y</a></li>"));
    let html = directory_listing("/<t>/", &vec![]);
    assert!(html.contains("<title>Index of /&lt;t&gt;/</title>"));
}
