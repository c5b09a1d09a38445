//! The task-list tree: a run of parsed task lines is shaped into a forest by
//! clamped indentation depths and rendered as nested checkbox lists.

use vstd::prelude::*;

use crate::text::{escape_seq, push_escaped, push_str};

verus! {

/// One parsed task-list line: nesting depth, checked state and item text.
pub struct FlatTask {
    pub depth: usize,
    pub checked: bool,
    pub text: Vec<char>,
}

/// The depths of a task run.
pub open spec fn tasks_depths(ts: Seq<FlatTask>) -> Seq<int> {
    ts.map_values(|t: FlatTask| t.depth as int)
}

/// The checked states and texts of a task run.
pub open spec fn tasks_view(ts: Seq<FlatTask>) -> Seq<(bool, Seq<char>)> {
    ts.map_values(|t: FlatTask| (t.checked, t.text@))
}

pub open spec fn cds_view(cds: Seq<usize>) -> Seq<int> {
    cds.map_values(|d: usize| d as int)
}

/// The clamped depth of each item: the first item sits at depth zero, and no
/// item sits more than one level below the item before it, so an illegal
/// indentation jump attaches the item to the deepest open ancestor instead of
/// detaching it.
pub open spec fn clamp_depths(ds: Seq<int>) -> Seq<int>
    decreases ds.len(),
{
    if ds.len() == 0 {
        Seq::empty()
    } else {
        let pre = clamp_depths(ds.drop_last());
        let cap = if pre.len() == 0 { 0int } else { pre.last() + 1 };
        pre.push(if ds.last() < cap { ds.last() } else { cap })
    }
}

/// Every clamped depth is at most the item's index, the first is zero, and
/// each is at most one more than the one before it; none exceeds the given
/// depth.
pub proof fn lemma_clamp_depths_shape(ds: Seq<int>)
    requires
        forall|k: int| 0 <= k < ds.len() ==> ds[k] >= 0,
    ensures
        clamp_depths(ds).len() == ds.len(),
        forall|k: int| 0 <= k < ds.len() ==> 0 <= #[trigger] clamp_depths(ds)[k] <= k,
        forall|k: int| 0 <= k < ds.len() ==> #[trigger] clamp_depths(ds)[k] <= ds[k],
        ds.len() > 0 ==> clamp_depths(ds)[0] == 0,
        forall|k: int| 1 <= k < ds.len()
            ==> #[trigger] clamp_depths(ds)[k] <= clamp_depths(ds)[k - 1] + 1,
    decreases ds.len(),
{
    if ds.len() > 0 {
        lemma_clamp_depths_shape(ds.drop_last());
    }
}

/// Compute the clamped depth of every task in a run.
pub fn build_task_tree(tasks: &Vec<FlatTask>) -> (cds: Vec<usize>)
    ensures
        cds@.len() == tasks@.len(),
        cds_view(cds@) == clamp_depths(tasks_depths(tasks@)),
{
    let ghost ds = tasks_depths(tasks@);
    let mut cds: Vec<usize> = Vec::new();
    let mut i: usize = 0;
    proof {
        assert(cds_view(cds@) =~= clamp_depths(ds.take(0)));
    }
    while i < tasks.len()
        invariant
            i <= tasks@.len(),
            cds@.len() == i,
            ds == tasks_depths(tasks@),
            cds_view(cds@) == clamp_depths(ds.take(i as int)),
            forall|k: int| 0 <= k < i ==> cds@[k] <= k,
        decreases tasks@.len() - i,
    {
        let ghost pre = cds_view(cds@);
        let d = tasks[i].depth;
        let cap: usize = if i == 0 { 0 } else { cds[i - 1] + 1 };
        let cd = if d < cap { d } else { cap };
        cds.push(cd);
        proof {
            assert(ds.take(i + 1 as int).drop_last() =~= ds.take(i as int));
            assert(ds.take(i + 1 as int).last() == ds[i as int]);
            assert(cds_view(cds@) =~= pre.push(cd as int));
            assert(cds_view(cds@) =~= clamp_depths(ds.take(i + 1 as int)));
        }
        i = i + 1;
    }
    proof {
        assert(ds.take(ds.len() as int) =~= ds);
    }
    cds
}

// ── Rendering ──

/// The first position in `[i, hi)` whose clamped depth is at most `depth`,
/// or `hi` when there is none.
pub open spec fn next_same(cds: Seq<int>, i: int, hi: int, depth: int) -> int
    decreases hi - i
        when i <= hi
{
    if i >= hi {
        hi
    } else if cds[i] <= depth {
        i
    } else {
        let r = next_same(cds, i + 1, hi, depth);
        if r < i + 1 {
            i + 1
        } else if r > hi {
            hi
        } else {
            r
        }
    }
}

pub proof fn lemma_next_same_is(cds: Seq<int>, i: int, hi: int, depth: int, j: int)
    requires
        i <= j <= hi,
        forall|k: int| i <= k < j ==> cds[k] > depth,
        j < hi ==> cds[j] <= depth,
    ensures
        next_same(cds, i, hi, depth) == j,
    decreases j - i,
{
    if i < j {
        lemma_next_same_is(cds, i + 1, hi, depth, j);
    }
}

pub open spec fn ul_open() -> Seq<char> {
    "<ul data-type=\"taskList\">"@
}

pub open spec fn ul_close() -> Seq<char> {
    "</ul>"@
}

/// The opening of a list item up to its text, for the given checked state.
pub open spec fn li_open(checked: bool) -> Seq<char> {
    if checked {
        "<li data-type=\"taskItem\" data-checked=\"true\"><label><input type=\"checkbox\" checked=\"checked\"><span></span></label><div><p>"@
    } else {
        "<li data-type=\"taskItem\" data-checked=\"false\"><label><input type=\"checkbox\"><span></span></label><div><p>"@
    }
}

/// The escaped item text, or a line break so an empty row stays visible.
pub open spec fn item_text_html(text: Seq<char>) -> Seq<char> {
    if escape_seq(text).len() == 0 {
        "<br>"@
    } else {
        escape_seq(text)
    }
}

/// The items of one nesting level in `[lo, hi)` at clamped depth `depth`,
/// each followed by the sublist of the items nested under it.
pub open spec fn render_items(
    ts: Seq<(bool, Seq<char>)>,
    cds: Seq<int>,
    lo: int,
    hi: int,
    depth: int,
) -> Seq<char>
    decreases hi - lo, 0int
        when 0 <= lo <= hi <= ts.len()
{
    if lo >= hi {
        Seq::empty()
    } else {
        let nxt = next_same(cds, lo + 1, hi, depth);
        let nested = if nxt > lo + 1 {
            render_forest(ts, cds, lo + 1, nxt, depth + 1)
        } else {
            Seq::empty()
        };
        li_open(ts[lo].0) + item_text_html(ts[lo].1) + "</p>"@ + nested + "</div></li>"@
            + render_items(ts, cds, nxt, hi, depth)
    }
}

/// One `<ul>` grouping the items of `[lo, hi)` at `depth`.
pub open spec fn render_forest(
    ts: Seq<(bool, Seq<char>)>,
    cds: Seq<int>,
    lo: int,
    hi: int,
    depth: int,
) -> Seq<char>
    decreases hi - lo, 1int
        when 0 <= lo <= hi <= ts.len()
{
    ul_open() + render_items(ts, cds, lo, hi, depth) + ul_close()
}

/// What a whole task run renders as.
pub open spec fn render_task_run(ts: Seq<(bool, Seq<char>)>, cds: Seq<int>) -> Seq<char> {
    render_forest(ts, cds, 0, ts.len() as int, 0)
}

#[verifier::rlimit(60)]
fn render_items_into(
    tasks: &Vec<FlatTask>,
    cds: &Vec<usize>,
    lo: usize,
    hi: usize,
    depth: usize,
    out: &mut Vec<char>,
)
    requires
        lo <= hi <= tasks@.len(),
        cds@.len() == tasks@.len(),
        depth + (hi - lo) <= usize::MAX,
    ensures
        final(out)@ == old(out)@
            + render_items(tasks_view(tasks@), cds_view(cds@), lo as int, hi as int, depth as int),
    decreases hi - lo, 0int,
{
    let ghost ts = tasks_view(tasks@);
    let ghost cv = cds_view(cds@);
    let ghost base = out@;
    if lo >= hi {
        proof {
            assert(base + render_items(ts, cv, lo as int, hi as int, depth as int) =~= base);
        }
        return;
    }
    let mut j: usize = lo + 1;
    while j < hi && cds[j] > depth
        invariant
            lo + 1 <= j <= hi,
            hi <= cds@.len(),
            cv == cds_view(cds@),
            forall|k: int| lo + 1 <= k < j ==> cv[k] > depth,
        decreases hi - j,
    {
        j = j + 1;
    }
    proof {
        lemma_next_same_is(cv, lo + 1 as int, hi as int, depth as int, j as int);
    }
    let task = &tasks[lo];
    proof {
        assert(ts[lo as int].0 == task.checked);
        assert(ts[lo as int].1 == task.text@);
    }
    if task.checked {
        push_str(out, "<li data-type=\"taskItem\" data-checked=\"true\"><label><input type=\"checkbox\" checked=\"checked\"><span></span></label><div><p>");
    } else {
        push_str(out, "<li data-type=\"taskItem\" data-checked=\"false\"><label><input type=\"checkbox\"><span></span></label><div><p>");
    }
    let ghost s1 = base + li_open(task.checked);
    proof {
        assert(out@ == s1);
    }
    if task.text.len() == 0 {
        push_str(out, "<br>");
        proof {
            assert(escape_seq(Seq::<char>::empty()).len() == 0);
            assert(task.text@ =~= Seq::<char>::empty());
        }
    } else {
        proof {
            assert(escape_seq(task.text@).len() > 0) by {
                assert(escape_seq(task.text@) == escape_seq(task.text@.drop_last())
                    + crate::text::escape_char(task.text@.last()));
                assert(crate::text::escape_char(task.text@.last()).len() >= 1);
            }
        }
        push_escaped(out, &task.text);
    }
    let ghost s2 = s1 + item_text_html(task.text@);
    proof {
        assert(out@ == s2);
    }
    push_str(out, "</p>");
    let ghost s3 = s2 + "</p>"@;
    let ghost nested = if j > lo + 1 {
        render_forest(ts, cv, lo + 1 as int, j as int, depth + 1 as int)
    } else {
        Seq::<char>::empty()
    };
    if j > lo + 1 {
        render_forest_into(tasks, cds, lo + 1, j, depth + 1, out);
    } else {
        proof {
            assert(s3 + nested =~= s3);
        }
    }
    let ghost s4 = s3 + nested;
    proof {
        assert(out@ == s4);
    }
    push_str(out, "</div></li>");
    let ghost s5 = s4 + "</div></li>"@;
    render_items_into(tasks, cds, j, hi, depth, out);
    proof {
        assert(out@ == s5 + render_items(ts, cv, j as int, hi as int, depth as int));
        assert(render_items(ts, cv, lo as int, hi as int, depth as int)
            == li_open(ts[lo as int].0) + item_text_html(ts[lo as int].1) + "</p>"@ + nested
                + "</div></li>"@ + render_items(ts, cv, j as int, hi as int, depth as int));
        assert(out@ =~= base
            + render_items(ts, cv, lo as int, hi as int, depth as int));
    }
}

fn render_forest_into(
    tasks: &Vec<FlatTask>,
    cds: &Vec<usize>,
    lo: usize,
    hi: usize,
    depth: usize,
    out: &mut Vec<char>,
)
    requires
        lo <= hi <= tasks@.len(),
        cds@.len() == tasks@.len(),
        depth + (hi - lo) <= usize::MAX,
    ensures
        final(out)@ == old(out)@
            + render_forest(tasks_view(tasks@), cds_view(cds@), lo as int, hi as int, depth as int),
    decreases hi - lo, 1int,
{
    let ghost base = out@;
    push_str(out, "<ul data-type=\"taskList\">");
    render_items_into(tasks, cds, lo, hi, depth, out);
    push_str(out, "</ul>");
    proof {
        assert(out@ =~= base
            + render_forest(tasks_view(tasks@), cds_view(cds@), lo as int, hi as int, depth as int));
    }
}

/// Render a task run as nested checkbox lists, walking the clamped-depth
/// forest depth first.
pub fn render_task_tree(tasks: &Vec<FlatTask>, cds: &Vec<usize>) -> (r: Vec<char>)
    requires
        cds@.len() == tasks@.len(),
    ensures
        r@ == render_task_run(tasks_view(tasks@), cds_view(cds@)),
{
    let mut out: Vec<char> = Vec::new();
    render_forest_into(tasks, cds, 0, tasks.len(), 0, &mut out);
    proof {
        assert(out@ =~= render_task_run(tasks_view(tasks@), cds_view(cds@)));
    }
    out
}

} // verus!
