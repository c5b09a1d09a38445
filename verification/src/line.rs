//! Classification of single markdown lines: toggle-block markers, task-list
//! items, code-fence openers and heading prefixes, with one specification
//! function and one executable parser per shape.

use vstd::prelude::*;

use crate::text::{is_ws, trim_seq, trim_of, ws_char, copy_range};

verus! {

// ── Character runs ──

/// The first position at or after `i` that does not hold white space.
pub open spec fn ws_run_end(s: Seq<char>, i: int) -> int
    decreases s.len() - i
        when 0 <= i <= s.len()
{
    if i < s.len() && is_ws(s[i]) {
        ws_run_end(s, i + 1)
    } else {
        i
    }
}

pub proof fn lemma_ws_run_end(s: Seq<char>, i: int)
    requires
        0 <= i <= s.len(),
    ensures
        i <= ws_run_end(s, i) <= s.len(),
        forall|k: int| i <= k < ws_run_end(s, i) ==> is_ws(s[k]),
        ws_run_end(s, i) < s.len() ==> !is_ws(s[ws_run_end(s, i)]),
    decreases s.len() - i,
{
    if i < s.len() && is_ws(s[i]) {
        lemma_ws_run_end(s, i + 1);
    }
}

/// The first position at or after `i` that does not hold `#`.
pub open spec fn hash_run_end(s: Seq<char>, i: int) -> int
    decreases s.len() - i
        when 0 <= i <= s.len()
{
    if i < s.len() && s[i] == '#' {
        hash_run_end(s, i + 1)
    } else {
        i
    }
}

pub proof fn lemma_hash_run_end(s: Seq<char>, i: int)
    requires
        0 <= i <= s.len(),
    ensures
        i <= hash_run_end(s, i) <= s.len(),
        forall|k: int| i <= k < hash_run_end(s, i) ==> s[k] == '#',
        hash_run_end(s, i) < s.len() ==> s[hash_run_end(s, i)] != '#',
    decreases s.len() - i,
{
    if i < s.len() && s[i] == '#' {
        lemma_hash_run_end(s, i + 1);
    }
}

/// Find the end of the white-space run starting at `i`.
pub fn ws_run_end_at(v: &Vec<char>, i: usize) -> (r: usize)
    requires
        i <= v@.len(),
    ensures
        r == ws_run_end(v@, i as int),
        i <= r <= v@.len(),
{
    let mut j: usize = i;
    while j < v.len() && ws_char(v[j])
        invariant
            i <= j <= v@.len(),
            ws_run_end(v@, i as int) == ws_run_end(v@, j as int),
        decreases v@.len() - j,
    {
        j = j + 1;
    }
    proof {
        lemma_ws_run_end(v@, i as int);
    }
    j
}

/// Find the end of the `#` run starting at `i`.
pub fn hash_run_end_at(v: &Vec<char>, i: usize) -> (r: usize)
    requires
        i <= v@.len(),
    ensures
        r == hash_run_end(v@, i as int),
        i <= r <= v@.len(),
{
    let mut j: usize = i;
    while j < v.len() && v[j] == '#'
        invariant
            i <= j <= v@.len(),
            hash_run_end(v@, i as int) == hash_run_end(v@, j as int),
        decreases v@.len() - j,
    {
        j = j + 1;
    }
    proof {
        lemma_hash_run_end(v@, i as int);
    }
    j
}

// ── ASCII case-insensitive comparison ──

/// Equality of two characters up to ASCII letter case.
pub open spec fn eq_ci(a: char, b: char) -> bool {
    a == b
    || ('A' as u32 <= a as u32 && a as u32 <= 'Z' as u32 && a as u32 + 32 == b as u32)
    || ('A' as u32 <= b as u32 && b as u32 <= 'Z' as u32 && b as u32 + 32 == a as u32)
}

/// `pat` occurs at position `at` of `s`, up to ASCII letter case.
pub open spec fn matches_ci(s: Seq<char>, at: int, pat: Seq<char>) -> bool {
    &&& 0 <= at
    &&& at + pat.len() <= s.len()
    &&& forall|k: int| 0 <= k < pat.len() ==> eq_ci(s[at + k], pat[k])
}

/// Executable test for [`eq_ci`].
pub fn eq_ci_at(a: char, b: char) -> (r: bool)
    ensures
        r == eq_ci(a, b),
{
    let ua = a as u32;
    let ub = b as u32;
    a == b
    || ('A' as u32 <= ua && ua <= 'Z' as u32 && ua + 32 == ub)
    || ('A' as u32 <= ub && ub <= 'Z' as u32 && ub + 32 == ua)
}

/// Whether `pat` occurs at position `at` of `v`, up to ASCII letter case.
pub fn matches_ci_at(v: &Vec<char>, at: usize, pat: &Vec<char>) -> (r: bool)
    ensures
        r == matches_ci(v@, at as int, pat@),
{
    if at > v.len() || pat.len() > v.len() - at {
        return false;
    }
    let mut k: usize = 0;
    while k < pat.len()
        invariant
            k <= pat@.len(),
            at + pat@.len() <= v@.len(),
            v@.len() <= usize::MAX,
            forall|m: int| 0 <= m < k ==> eq_ci(v@[at + m], pat@[m]),
        decreases pat@.len() - k,
    {
        if !eq_ci_at(v[at + k], pat[k]) {
            return false;
        }
        k = k + 1;
    }
    true
}

// ── Toggle-block markers ──

/// The characters of the opening directive up to the state keyword.
pub open spec fn toggle_prefix() -> Seq<char> {
    seq![':', ':', ':', 't', 'o', 'g', 'g', 'l', 'e', '[']
}

/// The keyword of an initially expanded toggle block.
pub open spec fn open_kw() -> Seq<char> {
    seq!['o', 'p', 'e', 'n']
}

/// The keyword of an initially collapsed toggle block.
pub open spec fn closed_kw() -> Seq<char> {
    seq!['c', 'l', 'o', 's', 'e', 'd']
}

/// The bare close marker `:::`.
pub open spec fn toggle_end_marker() -> Seq<char> {
    seq![':', ':', ':']
}

/// After the `]` the line must end or continue with white space before the
/// summary.
pub open spec fn toggle_tail_ok(t: Seq<char>, p: int) -> bool {
    t.len() == p || (p < t.len() && is_ws(t[p]))
}

/// A trimmed line opening an initially expanded toggle block:
/// `:::toggle[open]`, keyword and directive case-insensitive, followed by
/// nothing or by white space and a summary.
pub open spec fn toggle_open_case(t: Seq<char>) -> bool {
    &&& t.len() >= 15
    &&& matches_ci(t, 0, toggle_prefix())
    &&& matches_ci(t, 10, open_kw())
    &&& t[14] == ']'
    &&& toggle_tail_ok(t, 15)
}

/// A trimmed line opening an initially collapsed toggle block.
pub open spec fn toggle_closed_case(t: Seq<char>) -> bool {
    &&& t.len() >= 17
    &&& matches_ci(t, 0, toggle_prefix())
    &&& matches_ci(t, 10, closed_kw())
    &&& t[16] == ']'
    &&& toggle_tail_ok(t, 17)
}

/// A trimmed line that opens a toggle block.
pub open spec fn is_toggle_line(t: Seq<char>) -> bool {
    toggle_open_case(t) || toggle_closed_case(t)
}

/// The trimmed summary text after the directive; may be empty.
pub open spec fn toggle_summary(t: Seq<char>) -> Seq<char> {
    if toggle_open_case(t) {
        trim_seq(t.skip(15))
    } else {
        trim_seq(t.skip(17))
    }
}

/// Parse a trimmed line as a toggle-block opener; yields whether the block
/// starts expanded and the trimmed summary.
pub fn parse_toggle(t: &Vec<char>) -> (r: Option<(bool, Vec<char>)>)
    ensures
        r is Some <==> is_toggle_line(t@),
        match r {
            Option::Some((open, summary)) => {
                &&& open == toggle_open_case(t@)
                &&& summary@ == toggle_summary(t@)
            },
            Option::None => true,
        },
{
    let prefix: Vec<char> = vec![':', ':', ':', 't', 'o', 'g', 'g', 'l', 'e', '['];
    proof {
        assert(prefix@ =~= toggle_prefix());
    }
    if !matches_ci_at(t, 0, &prefix) {
        return None;
    }
    let open_pat: Vec<char> = vec!['o', 'p', 'e', 'n'];
    let closed_pat: Vec<char> = vec!['c', 'l', 'o', 's', 'e', 'd'];
    proof {
        assert(open_pat@ =~= open_kw());
        assert(closed_pat@ =~= closed_kw());
    }
    if matches_ci_at(t, 10, &open_pat)
        && t.len() >= 15
        && t[14] == ']'
        && (t.len() == 15 || ws_char(t[15]))
    {
        let rest = copy_range(t, 15, t.len());
        proof {
            assert(rest@ =~= t@.skip(15));
        }
        let summary = trim_of(&rest);
        return Some((true, summary));
    }
    if matches_ci_at(t, 10, &closed_pat)
        && t.len() >= 17
        && t[16] == ']'
        && (t.len() == 17 || ws_char(t[17]))
    {
        let rest = copy_range(t, 17, t.len());
        proof {
            assert(rest@ =~= t@.skip(17));
            assert(!toggle_open_case(t@)) by {
                assert(!eq_ci('o', 'c') && !eq_ci('o', 'C'));
                assert(eq_ci(t@[10], closed_kw()[0]));
            }
        }
        let summary = trim_of(&rest);
        return Some((false, summary));
    }
    proof {
        if toggle_open_case(t@) {
            assert(matches_ci(t@, 10, open_kw()));
        }
        if toggle_closed_case(t@) {
            assert(matches_ci(t@, 10, closed_kw()));
        }
    }
    None
}

/// Whether a trimmed line is exactly the close marker `:::`.
pub fn is_toggle_end(t: &Vec<char>) -> (r: bool)
    ensures
        r == (t@ == toggle_end_marker()),
{
    let r = t.len() == 3 && t[0] == ':' && t[1] == ':' && t[2] == ':';
    proof {
        if r {
            assert(t@ =~= toggle_end_marker());
        }
    }
    r
}

/// Whether a trimmed line starts a code fence: three backticks.
pub open spec fn is_fence_line(t: Seq<char>) -> bool {
    t.len() >= 3 && t[0] == '`' && t[1] == '`' && t[2] == '`'
}

/// Executable test for [`is_fence_line`].
pub fn fence_line(t: &Vec<char>) -> (r: bool)
    ensures
        r == is_fence_line(t@),
{
    t.len() >= 3 && t[0] == '`' && t[1] == '`' && t[2] == '`'
}

// ── Task-list items ──

/// A checkbox mark: space, `x` or `X`.
pub open spec fn is_mark(c: char) -> bool {
    c == ' ' || c == 'x' || c == 'X'
}

/// Start of the bracket group of a task line: the first non-white-space
/// position after the `-`.
pub open spec fn task_bracket_at(s: Seq<char>) -> int {
    ws_run_end(s, ws_run_end(s, 0) + 1)
}

/// A raw line holding a task-list item: optional indent, `-`, at least one
/// white-space character, `[ ]`, `[x]` or `[X]`, then the item text.
pub open spec fn is_task_line(s: Seq<char>) -> bool {
    let a = ws_run_end(s, 0);
    let b = task_bracket_at(s);
    &&& a < s.len()
    &&& s[a] == '-'
    &&& b > a + 1
    &&& b + 2 < s.len()
    &&& s[b] == '['
    &&& is_mark(s[b + 1])
    &&& s[b + 2] == ']'
}

/// The indent of a task line: its leading white space.
pub open spec fn task_indent(s: Seq<char>) -> Seq<char> {
    s.take(ws_run_end(s, 0))
}

/// Tabs count as two characters when indentation is measured.
pub open spec fn count_tabs(s: Seq<char>) -> int
    decreases s.len(),
{
    if s.len() == 0 {
        0
    } else {
        count_tabs(s.drop_last()) + if s.last() == '\t' { 1int } else { 0int }
    }
}

/// The nesting depth of a task line: indent width with tabs expanded to two
/// spaces, divided by two.
pub open spec fn task_depth(s: Seq<char>) -> int {
    (task_indent(s).len() + count_tabs(task_indent(s))) / 2
}

/// Whether the task is checked.
pub open spec fn task_checked(s: Seq<char>) -> bool {
    let b = task_bracket_at(s);
    s[b + 1] == 'x' || s[b + 1] == 'X'
}

/// The item text: everything after the bracket group and the white space that
/// follows it.
pub open spec fn task_text(s: Seq<char>) -> Seq<char> {
    let b = task_bracket_at(s);
    s.skip(ws_run_end(s, b + 3))
}

/// Count tab characters in a loop.
fn count_tabs_in(v: &Vec<char>, upto: usize) -> (r: usize)
    requires
        upto <= v@.len(),
    ensures
        r == count_tabs(v@.take(upto as int)),
        r <= upto,
{
    let mut cnt: usize = 0;
    let mut i: usize = 0;
    while i < upto
        invariant
            i <= upto <= v@.len(),
            cnt == count_tabs(v@.take(i as int)),
            cnt <= i,
        decreases upto - i,
    {
        proof {
            assert(v@.take(i + 1 as int).drop_last() =~= v@.take(i as int));
            assert(v@.take(i + 1 as int).last() == v@[i as int]);
        }
        if v[i] == '\t' {
            cnt = cnt + 1;
        }
        i = i + 1;
    }
    cnt
}

/// Parse a raw line as a task-list item; yields nesting depth (indent width
/// with tabs doubled, halved), checked state and item text.
pub fn parse_task(s: &Vec<char>) -> (r: Option<(usize, bool, Vec<char>)>)
    ensures
        r is Some <==> is_task_line(s@),
        match r {
            Option::Some((d, c, t)) => {
                &&& d as int == task_depth(s@)
                &&& c == task_checked(s@)
                &&& t@ == task_text(s@)
            },
            Option::None => true,
        },
{
    let a = ws_run_end_at(s, 0);
    if a >= s.len() || s[a] != '-' {
        return None;
    }
    let b = ws_run_end_at(s, a + 1);
    if b <= a + 1 {
        return None;
    }
    if s.len() - b < 3 {
        return None;
    }
    if s[b] != '[' || s[b + 2] != ']' {
        return None;
    }
    let m = s[b + 1];
    if !(m == ' ' || m == 'x' || m == 'X') {
        return None;
    }
    let k = ws_run_end_at(s, b + 3);
    let text = copy_range(s, k, s.len());
    proof {
        assert(text@ =~= s@.skip(k as int));
    }
    let tabs = count_tabs_in(s, a);
    proof {
        assert(task_indent(s@) =~= s@.take(a as int));
        assert(task_indent(s@).len() == a as int);
    }
    let depth = a / 2 + tabs / 2 + (a % 2 + tabs % 2) / 2;
    proof {
        assert(depth as int == (a as int + tabs as int) / 2);
    }
    Some((depth, m == 'x' || m == 'X', text))
}

// ── Line shapes used by title derivation and plain-text reduction ──

/// One to three `#` followed by white space stripped from the front of a
/// trimmed line; a line of any other shape stands unchanged.
pub open spec fn heading_strip(t: Seq<char>) -> Seq<char> {
    let h = hash_run_end(t, 0);
    if 1 <= h <= 3 && h < t.len() && is_ws(t[h]) {
        t.skip(ws_run_end(t, h))
    } else {
        t
    }
}

/// A leading `- [ ]`, `- [x]` or `- [X]` (single space) and the white space
/// after it stripped from the front; any other shape stands unchanged.
pub open spec fn title_task_strip(t: Seq<char>) -> Seq<char> {
    if t.len() >= 5 && t[0] == '-' && t[1] == ' ' && t[2] == '['
        && is_mark(t[3]) && t[4] == ']' {
        t.skip(ws_run_end(t, 5))
    } else {
        t
    }
}

/// Whether the whole line is `:::` followed by nothing but white space.
pub open spec fn is_toggle_end_ws(t: Seq<char>) -> bool {
    t.len() >= 3 && t[0] == ':' && t[1] == ':' && t[2] == ':'
        && ws_run_end(t, 3) == t.len()
}

/// A raw line reduced for the plain-text view of a task item: a leading
/// `<indent>- [mark]` (single space before the bracket) and the white space
/// after the bracket are dropped, the indent kept; any other shape stands
/// unchanged.
pub open spec fn is_plain_task_line(s: Seq<char>) -> bool {
    let a = ws_run_end(s, 0);
    a + 4 < s.len() && s[a] == '-' && s[a + 1] == ' ' && s[a + 2] == '['
        && is_mark(s[a + 3]) && s[a + 4] == ']'
}

pub open spec fn plain_task_strip(s: Seq<char>) -> Seq<char> {
    let a = ws_run_end(s, 0);
    if is_plain_task_line(s) {
        s.take(a) + s.skip(ws_run_end(s, a + 5))
    } else {
        s
    }
}

/// Strip a heading prefix as [`heading_strip`] describes.
pub fn heading_strip_of(t: &Vec<char>) -> (r: Vec<char>)
    ensures
        r@ == heading_strip(t@),
{
    let h = hash_run_end_at(t, 0);
    if 1 <= h && h <= 3 && h < t.len() && ws_char(t[h]) {
        let k = ws_run_end_at(t, h);
        let out = copy_range(t, k, t.len());
        proof {
            assert(out@ =~= t@.skip(ws_run_end(t@, h as int)));
        }
        out
    } else {
        copy_range_all(t)
    }
}

/// Strip a task marker as [`title_task_strip`] describes.
pub fn title_task_strip_of(t: &Vec<char>) -> (r: Vec<char>)
    ensures
        r@ == title_task_strip(t@),
{
    if t.len() >= 5 && t[0] == '-' && t[1] == ' ' && t[2] == '['
        && (t[3] == ' ' || t[3] == 'x' || t[3] == 'X') && t[4] == ']' {
        let k = ws_run_end_at(t, 5);
        let out = copy_range(t, k, t.len());
        proof {
            assert(out@ =~= t@.skip(ws_run_end(t@, 5)));
        }
        out
    } else {
        copy_range_all(t)
    }
}

/// Executable test for [`is_toggle_end_ws`].
pub fn toggle_end_ws_line(t: &Vec<char>) -> (r: bool)
    ensures
        r == is_toggle_end_ws(t@),
{
    t.len() >= 3 && t[0] == ':' && t[1] == ':' && t[2] == ':'
        && ws_run_end_at(t, 3) == t.len()
}

/// Reduce a raw line as [`plain_task_strip`] describes.
pub fn plain_task_strip_of(s: &Vec<char>) -> (r: Vec<char>)
    ensures
        r@ == plain_task_strip(s@),
{
    let a = ws_run_end_at(s, 0);
    if s.len() > 4 && a < s.len() - 4 && s[a] == '-' && s[a + 1] == ' '
        && s[a + 2] == '[' && (s[a + 3] == ' ' || s[a + 3] == 'x' || s[a + 3] == 'X')
        && s[a + 4] == ']' {
        let k = ws_run_end_at(s, a + 5);
        let mut out = copy_range(s, 0, a);
        let rest = copy_range(s, k, s.len());
        let mut j: usize = 0;
        while j < rest.len()
            invariant
                j <= rest@.len(),
                out@ == s@.take(a as int) + rest@.take(j as int),
            decreases rest@.len() - j,
        {
            out.push(rest[j]);
            proof {
                assert(s@.take(a as int) + rest@.take(j + 1 as int)
                    =~= (s@.take(a as int) + rest@.take(j as int)).push(rest@[j as int]));
            }
            j = j + 1;
        }
        proof {
            assert(rest@.take(rest@.len() as int) =~= rest@);
            assert(rest@ =~= s@.skip(ws_run_end(s@, a + 5)));
            assert(s@.take(a as int) =~= s@.take(ws_run_end(s@, 0)));
        }
        out
    } else {
        copy_range_all(s)
    }
}

/// A full copy of `v`.
pub fn copy_range_all(v: &Vec<char>) -> (r: Vec<char>)
    ensures
        r@ == v@,
{
    let out = copy_range(v, 0, v.len());
    proof {
        assert(v@.subrange(0, v@.len() as int) =~= v@);
    }
    out
}

} // verus!
