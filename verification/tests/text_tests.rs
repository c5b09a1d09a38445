use hwan_note::text::{escape_html, sanitize_folder_path, sanitize_note_id, slugify_title,
    to_windows_crlf};

#[test]
fn slugify_empty_is_untitled() {
    assert_eq!(slugify_title(""), "untitled");
}

#[test]
fn slugify_strips_illegal_chars_without_hyphens() {
    assert_eq!(slugify_title("a/b:c"), "abc");
}

#[test]
fn slugify_collapses_whitespace_runs() {
    assert_eq!(slugify_title(" multiple   spaces "), "multiple-spaces");
}

#[test]
fn slugify_strips_trailing_dots_and_caps_length() {
    assert_eq!(slugify_title("name..."), "name");
    let long = "x".repeat(100);
    assert_eq!(slugify_title(&long).chars().count(), 80);
}

#[test]
fn slugify_only_illegal_chars_is_untitled() {
    assert_eq!(slugify_title("<>:\"/\\|?*"), "untitled");
}

#[test]
fn sanitize_note_id_keeps_only_id_chars() {
    assert_eq!(sanitize_note_id("a b!c_d-e/9"), "abc_d-e9");
    assert_eq!(sanitize_note_id("날짜"), "");
}

#[test]
fn sanitize_folder_path_basics() {
    assert_eq!(sanitize_folder_path(None), "");
    assert_eq!(sanitize_folder_path(Some("")), "");
    assert_eq!(sanitize_folder_path(Some("inbox")), "");
    assert_eq!(sanitize_folder_path(Some("a\\b/c")), "a/b/c");
    assert_eq!(sanitize_folder_path(Some("a//b!!")), "a/b");
    assert_eq!(sanitize_folder_path(Some("//")), "");
}

#[test]
fn escape_html_escapes_in_priority_order() {
    assert_eq!(escape_html("&<>\"'"), "&amp;&lt;&gt;&quot;&#39;");
    assert_eq!(escape_html("a & b < c"), "a &amp; b &lt; c");
    assert_eq!(escape_html("plain"), "plain");
}

#[test]
fn to_windows_crlf_normalizes_then_expands() {
    assert_eq!(to_windows_crlf("a\nb"), "a\r\nb");
    assert_eq!(to_windows_crlf("a\r\nb"), "a\r\nb");
    assert_eq!(to_windows_crlf("a\r\nb\nc"), "a\r\nb\r\nc");
}

#[test]
fn to_windows_crlf_applied_twice_is_once() {
    let once = to_windows_crlf("x\ny\r\nz");
    assert_eq!(to_windows_crlf(&once), once);
}
