use std::path::Path;

use fast_static_server::html::escape_html;
use fast_static_server::resolve::sanitize_path;

fn path_text(p: &Path) -> String {
    p.to_str().unwrap().to_string()
}

#[test]
fn sanitize_rejects_traversal() {
    let root = Path::new("/srv/www");
    let root_text = path_text(root);
    assert_eq!(sanitize_path(&root_text, "/../../etc/passwd"), None);
    assert_eq!(sanitize_path(&root_text, "/a/../../b"), None);
    assert_eq!(
        sanitize_path(&root_text, "/a/b.txt"),
        Some(path_text(&root.join("a").join("b.txt")))
    );
    assert_eq!(sanitize_path(&root_text, "/"), Some(path_text(&root.to_path_buf())));
}

#[test]
fn escape_html_neutralizes_markup() {
    assert_eq!(
        escape_html("<script>&\"</script>"),
        "&lt;script&gt;&amp;&quot;&lt;/script&gt;"
    );
}
