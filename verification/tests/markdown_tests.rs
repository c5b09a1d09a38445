use hwan_note::markdown::{derive_title, markdown_to_html, markdown_to_plain_text};

fn li(checked: bool, text_html: &str, nested: &str) -> String {
    let state = if checked { "true" } else { "false" };
    let attr = if checked { " checked=\"checked\"" } else { "" };
    format!(
        "<li data-type=\"taskItem\" data-checked=\"{}\"><label><input type=\"checkbox\"{}><span></span></label><div><p>{}</p>{}</div></li>",
        state, attr, text_html, nested
    )
}

fn ul(items: &str) -> String {
    format!("<ul data-type=\"taskList\">{}</ul>", items)
}

#[test]
fn empty_document_renders_one_empty_paragraph() {
    assert_eq!(markdown_to_html(""), "<p></p>");
    assert_eq!(markdown_to_html("  \n \n"), "<p></p>");
}

#[test]
fn paragraphs_blank_lines_and_escaping() {
    assert_eq!(markdown_to_html("a<b\n\nc"), "<p>a&lt;b</p><p><br></p><p>c</p>");
}

#[test]
fn nested_toggle_blocks_keep_their_own_closers() {
    let input = ":::toggle[open]\n:::toggle[closed] inner\ntext\n:::\n:::";
    let inner = "<details data-type=\"toggleBlock\"><summary>inner</summary><div data-type=\"toggleContent\"><p>text</p></div></details>";
    let expected = format!(
        "<details data-type=\"toggleBlock\" open=\"open\"><summary>Toggle</summary><div data-type=\"toggleContent\">{}</div></details>",
        inner
    );
    assert_eq!(markdown_to_html(input), expected);
}

#[test]
fn unterminated_toggle_falls_through_to_paragraph() {
    let input = ":::toggle[open] lost\ntext";
    assert_eq!(
        markdown_to_html(input),
        "<p>:::toggle[open] lost</p><p>text</p>"
    );
}

#[test]
fn empty_toggle_body_renders_placeholder_paragraph() {
    let input = ":::toggle[closed] s\n:::";
    let expected = "<details data-type=\"toggleBlock\"><summary>s</summary><div data-type=\"toggleContent\"><p><br></p></div></details>";
    assert_eq!(markdown_to_html(input), expected);
}

#[test]
fn toggle_keyword_is_case_insensitive() {
    let input = ":::TOGGLE[OPEN] S\n:::";
    let expected = "<details data-type=\"toggleBlock\" open=\"open\"><summary>S</summary><div data-type=\"toggleContent\"><p><br></p></div></details>";
    assert_eq!(markdown_to_html(input), expected);
}

#[test]
fn toggle_directive_needs_space_before_summary() {
    assert_eq!(
        markdown_to_html(":::toggle[open]x\n:::"),
        "<p>:::toggle[open]x</p><p>:::</p>"
    );
}

#[test]
fn toggle_summary_is_escaped() {
    let input = ":::toggle[open] a<b\n:::";
    let expected = "<details data-type=\"toggleBlock\" open=\"open\"><summary>a&lt;b</summary><div data-type=\"toggleContent\"><p><br></p></div></details>";
    assert_eq!(markdown_to_html(input), expected);
}

#[test]
fn task_tree_two_children_then_second_root() {
    let input = "- [ ] a\n  - [x] b\n  - [ ] c\n- [ ] d";
    let nested = ul(&format!("{}{}", li(true, "b", ""), li(false, "c", "")));
    let expected = ul(&format!(
        "{}{}",
        li(false, "a", &nested),
        li(false, "d", "")
    ));
    assert_eq!(markdown_to_html(input), expected);
}

#[test]
fn task_tree_illegal_depth_jump_attaches_under_root() {
    let input = "- [ ] a\n    - [ ] b";
    let nested = ul(&li(false, "b", ""));
    let expected = ul(&li(false, "a", &nested));
    assert_eq!(markdown_to_html(input), expected);
}

#[test]
fn task_with_empty_text_renders_line_break() {
    let input = "- [ ] ";
    let expected = ul(&li(false, "<br>", ""));
    assert_eq!(markdown_to_html(input), expected);
}

#[test]
fn code_fence_suspends_block_recognition() {
    let input = "```\n- [ ] a\n```\n- [ ] b";
    let expected = format!(
        "<p>```</p><p>- [ ] a</p><p>```</p>{}",
        ul(&li(false, "b", ""))
    );
    assert_eq!(markdown_to_html(input), expected);
}

#[test]
fn tabs_count_double_for_task_depth() {
    let input = "- [ ] a\n\t- [ ] b";
    let nested = ul(&li(false, "b", ""));
    let expected = ul(&li(false, "a", &nested));
    assert_eq!(markdown_to_html(input), expected);
}

#[test]
fn plain_text_strips_markers_and_keeps_indent() {
    let input = ":::toggle[open] summary\n- [x] task\n  - [ ] sub\nplain\n:::\n\n";
    assert_eq!(markdown_to_plain_text(input), "summary\ntask\n  sub\nplain");
}

#[test]
fn plain_text_is_idempotent_on_reduced_text() {
    let reduced = markdown_to_plain_text(":::toggle[open] s\n- [ ] a\ntext\n:::");
    assert_eq!(markdown_to_plain_text(&reduced), reduced);
}

#[test]
fn derive_title_from_first_nonblank_line() {
    assert_eq!(derive_title("\n\n# Hello World\nbody"), "Hello World");
    assert_eq!(derive_title("plain line"), "plain line");
}

#[test]
fn derive_title_strips_task_marker() {
    assert_eq!(derive_title("- [x] buy milk"), "buy milk");
}

#[test]
fn derive_title_uses_toggle_summary() {
    assert_eq!(derive_title(":::toggle[open] My Summary\n:::"), "My Summary");
}

#[test]
fn derive_title_placeholder_when_nothing_remains() {
    let placeholder = "\u{c81c}\u{baa9} \u{c5c6}\u{c74c}";
    assert_eq!(derive_title(""), placeholder);
    assert_eq!(derive_title("   \n  "), placeholder);
    assert_eq!(derive_title(":::toggle[open]\n:::"), placeholder);
    assert_eq!(derive_title(":::"), placeholder);
}

#[test]
fn heading_marker_only_strips_up_to_three_hashes() {
    assert_eq!(derive_title("### deep"), "deep");
    assert_eq!(derive_title("#### four"), "#### four");
}
