//! The markdown block parser and its three reductions: HTML-like markup,
//! plain text, and a display title.
//!
//! The scanner walks a document top to bottom, tracking one piece of state —
//! whether it stands inside a code fence. Outside a fence it recognises
//! toggle blocks (which nest and are parsed recursively) and runs of
//! task-list lines; every other line is an escaped paragraph, a blank line an
//! empty paragraph. An opening toggle directive commits only when a balanced
//! close marker exists further down; otherwise it falls through to a plain
//! paragraph.

use vstd::prelude::*;

use crate::line::{
    fence_line, heading_strip, heading_strip_of, is_fence_line, is_plain_task_line,
    is_task_line, is_toggle_end, is_toggle_end_ws, is_toggle_line, parse_task,
    parse_toggle, plain_task_strip, plain_task_strip_of, task_checked, task_depth,
    task_text, title_task_strip, title_task_strip_of, toggle_end_marker,
    toggle_end_ws_line, toggle_open_case, toggle_summary,
};
use crate::tasks::{
    FlatTask, build_task_tree, clamp_depths, render_task_run, render_task_tree,
    tasks_depths, tasks_view,
};
use crate::text::{
    chars_of, escape_seq, join_chars, join_seq, normalize_lf, normalize_lf_chars, push_chars,
    push_escaped, push_str, split_seq, split_chars, string_of, trim_end_of,
    trim_end_seq, trim_of, trim_seq, escape_char,
};

verus! {

/// The views of a vector of lines.
pub open spec fn lines_view(ls: Seq<Vec<char>>) -> Seq<Seq<char>> {
    ls.map_values(|l: Vec<char>| l@)
}

// ── Balanced toggle terminator ──

/// Scan from line `i` with `depth` toggle blocks open: each opening directive
/// raises the depth, each bare `:::` lowers it, and the line on which the
/// depth returns to zero is the matching close.
pub open spec fn find_toggle_end(lines: Seq<Seq<char>>, i: int, depth: int) -> Option<int>
    decreases lines.len() - i
        when 0 <= i <= lines.len()
{
    if i >= lines.len() {
        None
    } else {
        let t = trim_seq(lines[i]);
        if is_toggle_line(t) {
            find_toggle_end(lines, i + 1, depth + 1)
        } else if t == toggle_end_marker() {
            if depth - 1 == 0 {
                Some(i)
            } else {
                find_toggle_end(lines, i + 1, depth - 1)
            }
        } else {
            find_toggle_end(lines, i + 1, depth)
        }
    }
}

/// Look ahead from an opening toggle directive for its balanced close line.
pub fn find_toggle_block_end(lines: &[Vec<char>], start: usize) -> (r: Option<usize>)
    requires
        start < lines@.len(),
        is_toggle_line(trim_seq(lines@[start as int]@)),
    ensures
        match r {
            Option::Some(e) => find_toggle_end(lines_view(lines@), start as int, 0)
                == Option::Some(e as int) && start < e < lines@.len(),
            Option::None => find_toggle_end(lines_view(lines@), start as int, 0) is None,
        },
{
    let ghost lv = lines_view(lines@);
    let n = lines.len();
    let mut k: usize = start;
    let mut depth: i128 = 0;
    while k < n
        invariant
            start <= k <= n,
            n == lines@.len(),
            lv == lines_view(lines@),
            find_toggle_end(lv, start as int, 0) == find_toggle_end(lv, k as int, depth as int),
            -(k as int) <= depth as int <= k as int,
            is_toggle_line(trim_seq(lv[start as int])),
        decreases n - k,
    {
        let trimmed = trim_of(&lines[k]);
        proof {
            assert(lv[k as int] == lines@[k as int]@);
        }
        if parse_toggle(&trimmed).is_some() {
            depth = depth + 1;
        } else if is_toggle_end(&trimmed) {
            depth = depth - 1;
            if depth == 0 {
                proof {
                    if k == start {
                        assert(is_toggle_line(trim_seq(lv[start as int])));
                        assert(trim_seq(lv[k as int]) == toggle_end_marker());
                        assert(toggle_end_marker().len() == 3);
                        assert(false);
                    }
                }
                return Some(k);
            }
        }
        k = k + 1;
    }
    None
}

// ── Task runs ──

/// The end of the run of consecutive task lines starting at `k`.
pub open spec fn task_run_end(lines: Seq<Seq<char>>, k: int) -> int
    decreases lines.len() - k
        when 0 <= k <= lines.len()
{
    if k >= lines.len() || !is_task_line(lines[k]) {
        k
    } else {
        let r = task_run_end(lines, k + 1);
        if r < k + 1 {
            k + 1
        } else if r > lines.len() {
            lines.len() as int
        } else {
            r
        }
    }
}

pub proof fn lemma_task_run_end_is(lines: Seq<Seq<char>>, a: int, j: int)
    requires
        0 <= a <= j <= lines.len(),
        forall|k: int| a <= k < j ==> is_task_line(lines[k]),
        j < lines.len() ==> !is_task_line(lines[j]),
    ensures
        task_run_end(lines, a) == j,
    decreases j - a,
{
    if a < j {
        lemma_task_run_end_is(lines, a + 1, j);
    }
}

/// What a run of task lines renders as.
pub open spec fn task_run_html(run: Seq<Seq<char>>) -> Seq<char> {
    render_task_run(
        run.map_values(|l: Seq<char>| (task_checked(l), task_text(l))),
        clamp_depths(run.map_values(|l: Seq<char>| task_depth(l))),
    )
}

// ── Rendering to markup ──

pub open spec fn para(x: Seq<char>) -> Seq<char> {
    "<p>"@ + x + "</p>"@
}

pub open spec fn empty_para() -> Seq<char> {
    "<p><br></p>"@
}

pub open spec fn details_prefix(open: bool) -> Seq<char> {
    if open {
        "<details data-type=\"toggleBlock\" open=\"open\"><summary>"@
    } else {
        "<details data-type=\"toggleBlock\"><summary>"@
    }
}

/// The escaped summary, or the placeholder `Toggle` when it is empty.
pub open spec fn summary_html(s: Seq<char>) -> Seq<char> {
    if escape_seq(s).len() == 0 {
        "Toggle"@
    } else {
        escape_seq(s)
    }
}

pub open spec fn toggle_closes(lines: Seq<Seq<char>>, i: int) -> bool {
    match find_toggle_end(lines, i, 0) {
        Option::Some(e) => i < e < lines.len(),
        Option::None => false,
    }
}

pub open spec fn toggle_close_at(lines: Seq<Seq<char>>, i: int) -> int {
    match find_toggle_end(lines, i, 0) {
        Option::Some(e) => e,
        Option::None => 0,
    }
}

/// The markup of the lines from `i` on, with `fence` saying whether line `i`
/// stands inside a code fence.
pub open spec fn render_from(lines: Seq<Seq<char>>, fence: bool, i: int) -> Seq<char>
    decreases lines.len(), lines.len() - i
        when 0 <= i <= lines.len()
{
    if i >= lines.len() {
        Seq::empty()
    } else {
        let line = lines[i];
        let t = trim_seq(line);
        if is_fence_line(t) {
            para(escape_seq(line)) + render_from(lines, !fence, i + 1)
        } else if !fence && is_toggle_line(t) && toggle_closes(lines, i) {
            let e = toggle_close_at(lines, i);
            let inner = render_from(lines.subrange(i + 1, e), false, 0);
            let inner_html = if inner.len() == 0 { empty_para() } else { inner };
            details_prefix(toggle_open_case(t)) + summary_html(toggle_summary(t))
                + "</summary><div data-type=\"toggleContent\">"@ + inner_html
                + "</div></details>"@ + render_from(lines, fence, e + 1)
        } else if !fence && is_task_line(line) {
            let j = task_run_end(lines, i + 1);
            task_run_html(lines.subrange(i, j)) + render_from(lines, fence, j)
        } else if t.len() == 0 {
            empty_para() + render_from(lines, fence, i + 1)
        } else {
            para(escape_seq(line)) + render_from(lines, fence, i + 1)
        }
    }
}

/// What a whole document renders as: line endings normalised, and a blank
/// document rendered as one empty paragraph.
pub open spec fn html_spec(md: Seq<char>) -> Seq<char> {
    let n = normalize_lf(md);
    if trim_seq(n).len() == 0 {
        "<p></p>"@
    } else {
        render_from(split_seq(n, '\n'), false, 0)
    }
}

/// Executable test for [`is_task_line`].
fn task_line_check(line: &Vec<char>) -> (r: bool)
    ensures
        r == is_task_line(line@),
{
    parse_task(line).is_some()
}

/// Whether line `j` is a task line.
fn task_at(lines: &[Vec<char>], j: usize) -> (r: bool)
    requires
        j < lines@.len(),
    ensures
        r == is_task_line(lines_view(lines@)[j as int]),
{
    proof {
        assert(lines_view(lines@)[j as int] == lines@[j as int]@);
    }
    task_line_check(&lines[j])
}

#[verifier::rlimit(100)]
fn render_lines(lines: &[Vec<char>]) -> (r: Vec<char>)
    ensures
        r@ == render_from(lines_view(lines@), false, 0),
    decreases lines@.len(),
{
    let ghost lv = lines_view(lines@);
    let n = lines.len();
    let mut out: Vec<char> = Vec::new();
    let mut fence = false;
    let mut i: usize = 0;
    while i < n
        invariant
            i <= n,
            n == lines@.len(),
            lv == lines_view(lines@),
            out@ + render_from(lv, fence, i as int) == render_from(lv, false, 0),
        decreases n - i,
    {
        let ghost pre = out@;
        let ghost pre_fence = fence;
        let line = &lines[i];
        proof {
            assert(lv[i as int] == line@);
        }
        let trimmed = trim_of(line);
        if fence_line(&trimmed) {
            push_str(&mut out, "<p>");
            push_escaped(&mut out, line);
            push_str(&mut out, "</p>");
            fence = !fence;
            proof {
                assert(out@ =~= pre + para(escape_seq(lv[i as int])));
                assert(render_from(lv, pre_fence, i as int)
                    == para(escape_seq(lv[i as int])) + render_from(lv, fence, i + 1 as int));
                assert(out@ + render_from(lv, fence, i + 1 as int)
                    =~= pre + render_from(lv, pre_fence, i as int));
            }
            i = i + 1;
        } else {
            let mut done = false;
            if !fence {
                let toggle = parse_toggle(&trimmed);
                if let Some((open, summary)) = toggle {
                    match find_toggle_block_end(lines, i) {
                        Some(end) => {
                            let inner_slice = vstd::slice::slice_subrange(lines, i + 1, end);
                            proof {
                                assert(lines_view(inner_slice@)
                                    =~= lv.subrange(i + 1 as int, end as int));
                            }
                            let inner = render_lines(inner_slice);
                            if open {
                                push_str(&mut out, "<details data-type=\"toggleBlock\" open=\"open\"><summary>");
                            } else {
                                push_str(&mut out, "<details data-type=\"toggleBlock\"><summary>");
                            }
                            let ghost s1 = pre + details_prefix(toggle_open_case(trimmed@));
                            proof {
                                assert(out@ == s1);
                            }
                            if summary.len() == 0 {
                                push_str(&mut out, "Toggle");
                                proof {
                                    assert(summary@ =~= Seq::<char>::empty());
                                    assert(escape_seq(Seq::<char>::empty()).len() == 0);
                                }
                            } else {
                                proof {
                                    assert(escape_seq(summary@).len() > 0) by {
                                        assert(escape_seq(summary@) == escape_seq(summary@.drop_last())
                                            + escape_char(summary@.last()));
                                        assert(escape_char(summary@.last()).len() >= 1);
                                    }
                                }
                                push_escaped(&mut out, &summary);
                            }
                            let ghost s2 = s1 + summary_html(toggle_summary(trimmed@));
                            proof {
                                assert(out@ == s2);
                            }
                            push_str(&mut out, "</summary><div data-type=\"toggleContent\">");
                            let ghost s3 = s2 + "</summary><div data-type=\"toggleContent\">"@;
                            let ghost inner_spec = render_from(
                                lv.subrange(i + 1 as int, end as int), false, 0);
                            proof {
                                assert(inner@ == inner_spec);
                            }
                            if inner.len() == 0 {
                                push_str(&mut out, "<p><br></p>");
                            } else {
                                push_chars(&mut out, &inner);
                            }
                            let ghost s4 = s3
                                + (if inner_spec.len() == 0 { empty_para() } else { inner_spec });
                            proof {
                                assert(out@ == s4);
                            }
                            push_str(&mut out, "</div></details>");
                            proof {
                                assert(trimmed@ == trim_seq(lv[i as int]));
                                assert(render_from(lv, pre_fence, i as int)
                                    == details_prefix(toggle_open_case(trim_seq(lv[i as int])))
                                        + summary_html(toggle_summary(trim_seq(lv[i as int])))
                                        + "</summary><div data-type=\"toggleContent\">"@
                                        + (if inner_spec.len() == 0 { empty_para() } else { inner_spec })
                                        + "</div></details>"@
                                        + render_from(lv, pre_fence, end + 1 as int));
                                assert(out@ + render_from(lv, fence, end + 1 as int)
                                    =~= pre + render_from(lv, pre_fence, i as int));
                            }
                            i = end + 1;
                            done = true;
                        },
                        None => {
                        },
                    }
                }
                if !done {
                    if task_line_check(line) {
                        let mut tasks: Vec<FlatTask> = Vec::new();
                        let mut j: usize = i;
                        while j < n && task_at(lines, j)
                            invariant
                                i <= j <= n,
                                n == lines@.len(),
                                lv == lines_view(lines@),
                                tasks@.len() == j - i,
                                forall|k: int| 0 <= k < j - i ==> {
                                    &&& (#[trigger] tasks@[k]).depth as int == task_depth(lv[i + k])
                                    &&& tasks@[k].checked == task_checked(lv[i + k])
                                    &&& tasks@[k].text@ == task_text(lv[i + k])
                                },
                                forall|k: int| i <= k < j ==> is_task_line(lv[k]),
                            decreases n - j,
                        {
                            proof {
                                assert(lv[j as int] == lines@[j as int]@);
                            }
                            match parse_task(&lines[j]) {
                                Some((d, c, t)) => {
                                    tasks.push(FlatTask { depth: d, checked: c, text: t });
                                },
                                None => {
                                    proof {
                                        assert(false);
                                    }
                                },
                            }
                            j = j + 1;
                        }
                        proof {
                            lemma_task_run_end_is(lv, i + 1 as int, j as int);
                        }
                        let cds = build_task_tree(&tasks);
                        let html = render_task_tree(&tasks, &cds);
                        proof {
                            let run = lv.subrange(i as int, j as int);
                            assert(tasks_view(tasks@)
                                =~= run.map_values(|l: Seq<char>| (task_checked(l), task_text(l))));
                            assert(tasks_depths(tasks@)
                                =~= run.map_values(|l: Seq<char>| task_depth(l)));
                            assert(html@ == task_run_html(run));
                        }
                        push_chars(&mut out, &html);
                        proof {
                            assert(render_from(lv, pre_fence, i as int)
                                == task_run_html(lv.subrange(i as int, j as int))
                                    + render_from(lv, pre_fence, j as int));
                            assert(out@ + render_from(lv, fence, j as int)
                                =~= pre + render_from(lv, pre_fence, i as int));
                        }
                        i = j;
                        done = true;
                    }
                }
            }
            if !done {
                if trimmed.len() == 0 {
                    push_str(&mut out, "<p><br></p>");
                    proof {
                        assert(render_from(lv, pre_fence, i as int)
                            == empty_para() + render_from(lv, pre_fence, i + 1 as int));
                        assert(out@ + render_from(lv, fence, i + 1 as int)
                            =~= pre + render_from(lv, pre_fence, i as int));
                    }
                } else {
                    push_str(&mut out, "<p>");
                    push_escaped(&mut out, line);
                    push_str(&mut out, "</p>");
                    proof {
                        assert(out@ =~= pre + para(escape_seq(lv[i as int])));
                        assert(render_from(lv, pre_fence, i as int)
                            == para(escape_seq(lv[i as int])) + render_from(lv, pre_fence, i + 1 as int));
                        assert(out@ + render_from(lv, fence, i + 1 as int)
                            =~= pre + render_from(lv, pre_fence, i as int));
                    }
                }
                i = i + 1;
            }
        }
    }
    proof {
        assert(out@ + render_from(lv, fence, n as int) =~= out@);
    }
    out
}

/// Render a markdown document into the fixed markup structure: paragraphs,
/// nested toggle blocks and nested task lists, all text HTML-escaped.
pub fn markdown_to_html(markdown: &str) -> (r: String)
    ensures
        r@ == html_spec(markdown@),
{
    let cs = chars_of(markdown);
    let n = normalize_lf_chars(&cs);
    let t = trim_of(&n);
    if t.len() == 0 {
        return String::from_str("<p></p>");
    }
    let lines = split_chars(&n, '\n');
    let out = render_lines(lines.as_slice());
    string_of(&out)
}

// ── Plain-text reduction ──

/// One line reduced to plain text: a toggle opener becomes its summary, a
/// close marker is dropped, a task line loses its marker but keeps its
/// indent, every other line passes through verbatim.
pub open spec fn plain_line(line: Seq<char>) -> Seq<char> {
    let t = trim_seq(line);
    if is_toggle_line(t) {
        toggle_summary(t)
    } else if t == toggle_end_marker() {
        Seq::empty()
    } else {
        plain_task_strip(line)
    }
}

/// The plain-text reduction of a document: each line reduced, lines rejoined,
/// trailing white space trimmed.
pub open spec fn plain_spec(md: Seq<char>) -> Seq<char> {
    trim_end_seq(join_seq(
        split_seq(normalize_lf(md), '\n').map_values(|l: Seq<char>| plain_line(l)),
        '\n',
    ))
}

fn plain_line_of(line: &Vec<char>) -> (r: Vec<char>)
    ensures
        r@ == plain_line(line@),
{
    let trimmed = trim_of(line);
    match parse_toggle(&trimmed) {
        Some((_open, summary)) => summary,
        None => {
            if is_toggle_end(&trimmed) {
                Vec::new()
            } else {
                plain_task_strip_of(line)
            }
        },
    }
}

/// Reduce a markdown document to plain text for search and previews: markers
/// stripped, nothing escaped, trailing blank space trimmed.
pub fn markdown_to_plain_text(markdown: &str) -> (r: String)
    ensures
        r@ == plain_spec(markdown@),
{
    let cs = chars_of(markdown);
    let n = normalize_lf_chars(&cs);
    let parts = split_chars(&n, '\n');
    let ghost pv = parts@.map_values(|p: Vec<char>| p@);
    let mut mapped: Vec<Vec<char>> = Vec::new();
    let mut i: usize = 0;
    while i < parts.len()
        invariant
            i <= parts@.len(),
            pv == parts@.map_values(|p: Vec<char>| p@),
            mapped@.len() == i,
            forall|k: int| 0 <= k < i ==> (#[trigger] mapped@[k])@ == plain_line(pv[k]),
        decreases parts@.len() - i,
    {
        mapped.push(plain_line_of(&parts[i]));
        i = i + 1;
    }
    proof {
        assert(mapped@.map_values(|p: Vec<char>| p@)
            =~= pv.map_values(|l: Seq<char>| plain_line(l)));
    }
    let joined = join_chars(&mapped, '\n');
    let trimmed = trim_end_of(&joined);
    string_of(&trimmed)
}

// ── Title derivation ──

/// The localized placeholder title of a note without one of its own.
pub open spec fn no_title() -> Seq<char> {
    "\u{c81c}\u{baa9} \u{c5c6}\u{c74c}"@
}

/// A trimmed line with a bare close marker reduced to nothing.
pub open spec fn toggle_end_strip(t: Seq<char>) -> Seq<char> {
    if is_toggle_end_ws(t) {
        Seq::empty()
    } else {
        t
    }
}

/// The title taken from the first line at or after `i` that is not blank
/// after trimming: a toggle opener yields its summary, any other line is
/// stripped of a heading prefix, a task marker and a bare close marker; an
/// empty outcome yields the placeholder.
pub open spec fn title_from(lines: Seq<Seq<char>>, i: int) -> Seq<char>
    decreases lines.len() - i
        when 0 <= i <= lines.len()
{
    if i >= lines.len() {
        no_title()
    } else {
        let t = trim_seq(lines[i]);
        if t.len() == 0 {
            title_from(lines, i + 1)
        } else if is_toggle_line(t) {
            if toggle_summary(t).len() == 0 {
                no_title()
            } else {
                toggle_summary(t)
            }
        } else {
            let st = toggle_end_strip(title_task_strip(heading_strip(t)));
            if st.len() == 0 {
                no_title()
            } else {
                st
            }
        }
    }
}

/// The display title a document derives.
pub open spec fn title_spec(md: Seq<char>) -> Seq<char> {
    title_from(split_seq(normalize_lf(md), '\n'), 0)
}

/// Derive a display title from a document's first non-blank line, or the
/// placeholder when there is none.
pub fn derive_title(markdown: &str) -> (r: String)
    ensures
        r@ == title_spec(markdown@),
{
    let cs = chars_of(markdown);
    let n = normalize_lf_chars(&cs);
    let parts = split_chars(&n, '\n');
    let ghost pv = parts@.map_values(|p: Vec<char>| p@);
    let mut i: usize = 0;
    while i < parts.len()
        invariant
            i <= parts@.len(),
            pv == parts@.map_values(|p: Vec<char>| p@),
            title_spec(markdown@) == title_from(pv, 0),
            title_from(pv, 0) == title_from(pv, i as int),
        decreases parts@.len() - i,
    {
        let trimmed = trim_of(&parts[i]);
        proof {
            assert(pv[i as int] == parts@[i as int]@);
        }
        if trimmed.len() > 0 {
            match parse_toggle(&trimmed) {
                Some((_open, summary)) => {
                    if summary.len() == 0 {
                        return String::from_str("\u{c81c}\u{baa9} \u{c5c6}\u{c74c}");
                    } else {
                        return string_of(&summary);
                    }
                },
                None => {
                    let st1 = heading_strip_of(&trimmed);
                    let st2 = title_task_strip_of(&st1);
                    if toggle_end_ws_line(&st2) || st2.len() == 0 {
                        return String::from_str("\u{c81c}\u{baa9} \u{c5c6}\u{c74c}");
                    }
                    return string_of(&st2);
                },
            }
        }
        i = i + 1;
    }
    String::from_str("\u{c81c}\u{baa9} \u{c5c6}\u{c74c}")
}

// ── The plain-text reduction is idempotent on reduced, marker-free text ──

/// A line that none of the plain-text reductions touches.
pub open spec fn marker_free_line(l: Seq<char>) -> bool {
    &&& !is_toggle_line(trim_seq(l))
    &&& trim_seq(l) != toggle_end_marker()
    &&& !is_plain_task_line(l)
}

proof fn lemma_split_acc_len(s: Seq<char>, sep: char, cur: Seq<char>)
    ensures
        crate::text::split_acc(s, sep, cur).len() >= 1,
    decreases s.len(),
{
    if s.len() != 0 && s[0] != sep {
        lemma_split_acc_len(s.skip(1), sep, cur.push(s[0]));
    }
}

proof fn lemma_join_split_acc(s: Seq<char>, sep: char, cur: Seq<char>)
    ensures
        join_seq(crate::text::split_acc(s, sep, cur), sep) == cur + s,
    decreases s.len(),
{
    if s.len() == 0 {
        assert(cur + s =~= cur);
    } else if s[0] == sep {
        lemma_join_split_acc(s.skip(1), sep, Seq::empty());
        lemma_split_acc_len(s.skip(1), sep, Seq::empty());
        let parts = seq![cur] + crate::text::split_acc(s.skip(1), sep, Seq::empty());
        assert(parts.len() >= 2);
        assert(parts[0] == cur);
        assert(parts.skip(1) =~= crate::text::split_acc(s.skip(1), sep, Seq::empty()));
        assert(Seq::<char>::empty() + s.skip(1) =~= s.skip(1));
        assert(cur + seq![sep] + s.skip(1) =~= cur + s);
    } else {
        lemma_join_split_acc(s.skip(1), sep, cur.push(s[0]));
        assert(cur.push(s[0]) + s.skip(1) =~= cur + s);
    }
}

/// Splitting at a separator and rejoining with it reproduces the text.
pub proof fn lemma_join_split(s: Seq<char>, sep: char)
    ensures
        join_seq(split_seq(s, sep), sep) == s,
{
    lemma_join_split_acc(s, sep, Seq::empty());
    assert(Seq::<char>::empty() + s =~= s);
}

/// The plain-text reduction is idempotent on text it has already produced, as
/// long as no line of that text still looks like a marker: reduced text with
/// normalised line endings, no trailing white space and only marker-free
/// lines reduces to itself.
pub proof fn lemma_plain_text_idempotent(md: Seq<char>)
    requires
        normalize_lf(md) == md,
        trim_end_seq(md) == md,
        forall|k: int| 0 <= k < split_seq(md, '\n').len()
            ==> marker_free_line(#[trigger] split_seq(md, '\n')[k]),
    ensures
        plain_spec(md) == md,
{
    let parts = split_seq(md, '\n');
    let reduced = parts.map_values(|l: Seq<char>| plain_line(l));
    assert forall|k: int| 0 <= k < parts.len() implies reduced[k] == #[trigger] parts[k] by {
        assert(marker_free_line(parts[k]));
        assert(plain_line(parts[k]) == plain_task_strip(parts[k]));
        assert(plain_task_strip(parts[k]) == parts[k]);
    }
    assert(reduced =~= parts);
    lemma_join_split(md, '\n');
}

} // verus!
