use fast_static_server::html::{escape_html, percent_encode_segment};

#[test]
fn escape_html_leaves_plain_text() {
    assert_eq!(escape_html("plain text 123"), "plain text 123");
    assert_eq!(escape_html(""), "");
    assert_eq!(escape_html("it's é"), "it's é");
}

#[test]
fn escape_html_escapes_each_character_once() {
    assert_eq!(escape_html("&amp;"), "&amp;amp;");
    assert_eq!(escape_html("a>b<c\"d&e"), "a&gt;b&lt;c&quot;d&amp;e");
}

#[test]
fn escaped_text_has_no_markup_characters() {
    let out = escape_html("<<\">>&\"'");
    assert!(!out.contains('<') && !out.contains('>') && !out.contains('"'));
}

#[test]
fn segment_encoding_keeps_letters_digits_and_marks() {
    assert_eq!(percent_encode_segment("Az09-_.~"), "Az09-_.~");
    assert_eq!(percent_encode_segment(""), "");
}

#[test]
fn segment_encoding_escapes_other_bytes() {
    assert_eq!(percent_encode_segment("a b.txt"), "a%20b.txt");
    assert_eq!(percent_encode_segment("x/y?#"), "x%2Fy%3F%23");
    assert_eq!(percent_encode_segment("é"), "%C3%A9");
    assert_eq!(percent_encode_segment("a-b c~d"), "a-b%20c~d");
    assert_eq!(percent_encode_segment("100%"), "100%25");
}
