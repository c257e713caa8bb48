//! Properties that relate the engine's operations to each other, stated over the forest model.
use vstd::prelude::*;

use crate::group::GroupItem;
use crate::store::id_range;
use crate::forest_lemmas::{
    lemma_node_unique,
    lemma_holds_sub_has, lemma_holds_has,
    lemma_numbered_has_id, lemma_range_unique, lemma_tree_range, lemma_has_holds, lemma_node_of,
    lemma_node_numbered,
};
use crate::task::{
    consistent,
    holds_node,
    TaskItem, all_done, all_set_done, has_id, numbered_forest, numbered_tree, resynced,
    same_except_tasks_done, size_before, toggled, tree_size, done_changed, forest_size, node_of,
};

verus! {

/// Ids of the subtree at `t` in depth-first pre-order.
pub open spec fn tree_ids(t: TaskItem) -> Seq<int>
    decreases t,
{
    seq![t.id as int] + ids_before(t.tasks@, t.tasks@.len() as int)
}

/// Ids of the first `i` trees of a forest in depth-first pre-order.
pub open spec fn ids_before(ts: Seq<TaskItem>, i: int) -> Seq<int>
    decreases ts, i,
{
    if i <= 0 || i > ts.len() {
        seq![]
    } else {
        ids_before(ts, i - 1) + tree_ids(ts[i - 1])
    }
}

/// Ids of a forest in depth-first pre-order.
pub open spec fn preorder_ids(ts: Seq<TaskItem>) -> Seq<int> {
    ids_before(ts, ts.len() as int)
}

/// The integers `start, start + 1, ..., start + n - 1`.
pub open spec fn count_from(start: int, n: nat) -> Seq<int> {
    Seq::new(n, |j: int| start + j)
}

proof fn lemma_tree_ids(t: TaskItem, start: int)
    requires
        numbered_tree(t, start),
    ensures
        tree_ids(t) == count_from(start, tree_size(t)),
    decreases t, 1int,
{
    let c = t.tasks@;
    lemma_ids_before(c, start + 1, c.len() as int);
    assert(tree_size(t) == 1 + size_before(c, c.len() as int));
    assert(tree_ids(t) =~= count_from(start, tree_size(t)));
}

proof fn lemma_ids_before(ts: Seq<TaskItem>, start: int, i: int)
    requires
        numbered_forest(ts, start),
        0 <= i <= ts.len(),
    ensures
        ids_before(ts, i) == count_from(start, size_before(ts, i)),
    decreases ts, 0int, i,
{
    if i == 0 {
        assert(ids_before(ts, i) =~= count_from(start, size_before(ts, i)));
    } else {
        lemma_ids_before(ts, start, i - 1);
        assert(numbered_tree(ts[i - 1], start + size_before(ts, i - 1)));
        lemma_tree_ids(ts[i - 1], start + size_before(ts, i - 1));
        assert(ids_before(ts, i) =~= count_from(start, size_before(ts, i)));
    }
}

/// A new group is well formed and every addition, removal and edit keeps it so; and in a
/// well-formed group a depth-first walk of the forest meets the ids `0, 1, ..., N - 1` in
/// increasing order, each once.
pub proof fn law_dense_preorder_ids(g: GroupItem)
    requires
        g.wf(),
    ensures
        preorder_ids(g.tasks@) == count_from(0, forest_size(g.tasks@)),
{
    lemma_ids_before(g.tasks@, 0, g.tasks@.len() as int);
}

/// Every node is done, or is the node `x`, or has `x` below it.
pub open spec fn done_off_line(ts: Seq<TaskItem>, x: int) -> bool
    decreases ts,
{
    forall|i: int|
        #![trigger ts[i]]
        0 <= i < ts.len() ==> (ts[i].id == x || has_id(ts[i].tasks@, x) || ts[i].done)
            && done_off_line(ts[i].tasks@, x)
}

proof fn lemma_set_true_done(a: Seq<TaskItem>, b: Seq<TaskItem>)
    requires
        all_set_done(a, b, true),
    ensures
        all_done(b),
    decreases a,
{
    assert forall|i: int| #![trigger b[i]] 0 <= i < b.len() implies b[i].done && all_done(
        b[i].tasks@,
    ) by {
        lemma_set_true_done(a[i].tasks@, b[i].tasks@);
    }
}

proof fn lemma_off_line_done(ts: Seq<TaskItem>, x: int)
    requires
        done_off_line(ts, x),
        !has_id(ts, x),
    ensures
        all_done(ts),
    decreases ts,
{
    assert forall|i: int| #![trigger ts[i]] 0 <= i < ts.len() implies ts[i].done && all_done(
        ts[i].tasks@,
    ) by {
        assert(!(ts[i].id == x || has_id(ts[i].tasks@, x)));
        lemma_off_line_done(ts[i].tasks@, x);
    }
}

/// Marking the node `x` done, when every node outside its line of ancestors is already done,
/// makes each ancestor done in turn, up to the root: the whole forest ends up done.
pub proof fn law_completion_propagates(a: Seq<TaskItem>, b: Seq<TaskItem>, start: int, x: int)
    requires
        numbered_forest(a, start),
        toggled(a, b, x, Some(true)),
        done_off_line(a, x),
    ensures
        all_done(b),
    decreases a,
{
    let f = |o: TaskItem, n: TaskItem| done_changed(o, n, Some(true));
    let i = choose|i: int|
        #![trigger a[i]]
        0 <= i < a.len() && b.len() == a.len() && b == a.update(i, b[i]) && if a[i].id == x {
            f(a[i], b[i])
        } else {
            &&& same_except_tasks_done(a[i], b[i])
            &&& b[i].done == all_done(b[i].tasks@)
            &&& resynced(a[i].tasks@, b[i].tasks@, x, f)
        };
    if a[i].id == x {
        lemma_set_true_done(a[i].tasks@, b[i].tasks@);
    } else {
        assert(numbered_tree(a[i], start + size_before(a, i)));
        assert(resynced(a[i].tasks@, b[i].tasks@, x, f));
        law_completion_propagates(a[i].tasks@, b[i].tasks@, a[i].id + 1, x);
    }
    assert forall|j: int| #![trigger b[j]] 0 <= j < b.len() implies b[j].done && all_done(
        b[j].tasks@,
    ) by {
        if j != i {
            assert(b[j] == a[j]);
            if a[j].id == x || has_id(a[j].tasks@, x) {
                if a[i].id != x {
                    assert(has_id(a[i].tasks@, x)) by {
                        assert(numbered_tree(a[i], start + size_before(a, i)));
                        assert(resynced(a[i].tasks@, b[i].tasks@, x, f));
                        lemma_resynced_has(a[i].tasks@, b[i].tasks@, x, f);
                    }
                }
                lemma_tree_range(a, start, i, x);
                lemma_tree_range(a, start, j, x);
                lemma_range_unique(a, i, j, x - start);
            }
            lemma_off_line_done(a[j].tasks@, x);
        }
    }
}

/// Marking the node `x` done makes any ancestor `p` of it done, when every node below `p`
/// other than `x` and the nodes between them is already done. In particular, a leaf whose
/// siblings are all done (with their subtasks, as completion consistency has it) completes
/// its parent, and the same holds one level up whenever the parent's siblings are done.
pub proof fn law_ancestor_completes(
    a: Seq<TaskItem>,
    b: Seq<TaskItem>,
    start: int,
    x: int,
    p: TaskItem,
    k: int,
)
    requires
        numbered_forest(a, start),
        toggled(a, b, x, Some(true)),
        holds_node(a, p, k),
        has_id(p.tasks@, x),
        done_off_line(p.tasks@, x),
    ensures
        exists|q: TaskItem| #[trigger] holds_node(b, q, k) && q.id == p.id && q.done,
    decreases a,
{
    let f = |o: TaskItem, n: TaskItem| done_changed(o, n, Some(true));
    let i = choose|i: int|
        #![trigger a[i]]
        0 <= i < a.len() && b.len() == a.len() && b == a.update(i, b[i]) && if a[i].id == x {
            f(a[i], b[i])
        } else {
            &&& same_except_tasks_done(a[i], b[i])
            &&& b[i].done == all_done(b[i].tasks@)
            &&& resynced(a[i].tasks@, b[i].tasks@, x, f)
        };
    lemma_node_numbered(a, start, p, k);
    lemma_numbered_has_id(p.tasks@, p.id + 1, x);
    lemma_holds_sub_has(a, p, k, x);
    let top = 0 <= k < a.len() && a[k] == p;
    let j = if top {
        k
    } else {
        choose|j: int| #![trigger a[j]] 0 <= j < a.len() && holds_node(a[j].tasks@, p, k)
    };
    if top {
        lemma_tree_range(a, start, k, x);
    } else {
        lemma_holds_sub_has(a[j].tasks@, p, k, x);
        lemma_tree_range(a, start, j, x);
        lemma_holds_has(a[j].tasks@, p, k);
        assert(numbered_tree(a[j], start + size_before(a, j)));
        lemma_numbered_has_id(a[j].tasks@, a[j].id + 1, p.id as int);
    }
    if a[i].id == x {
        lemma_tree_range(a, start, i, x);
    } else {
        lemma_resynced_has(a[i].tasks@, b[i].tasks@, x, f);
        lemma_tree_range(a, start, i, x);
    }
    lemma_range_unique(a, i, j, x - start);
    assert(numbered_tree(a[i], start + size_before(a, i)));
    if a[i].id == x {
        if !top {
            assert(false);
        }
    } else if top {
        assert(resynced(a[i].tasks@, b[i].tasks@, x, f));
        law_completion_propagates(a[i].tasks@, b[i].tasks@, a[i].id + 1, x);
        assert(holds_node(b, b[i], k));
    } else {
        assert(resynced(a[i].tasks@, b[i].tasks@, x, f));
        law_ancestor_completes(a[i].tasks@, b[i].tasks@, a[i].id + 1, x, p, k);
        let q = choose|q: TaskItem| #[trigger] holds_node(b[i].tasks@, q, k) && q.id == p.id && q.done;
        assert(holds_node(b, q, k));
    }
}

proof fn lemma_all_done_off_line(ts: Seq<TaskItem>, x: int)
    requires
        all_done(ts),
    ensures
        done_off_line(ts, x),
    decreases ts,
{
    assert forall|i: int| #![trigger ts[i]] 0 <= i < ts.len() implies (ts[i].id == x || has_id(
        ts[i].tasks@,
        x,
    ) || ts[i].done) && done_off_line(ts[i].tasks@, x) by {
        lemma_all_done_off_line(ts[i].tasks@, x);
    }
}

/// With completion consistent below a task `p`, marking done a leaf `x` among its subtasks
/// whose siblings are all done makes `p` done.
pub proof fn law_parent_completes(
    a: Seq<TaskItem>,
    b: Seq<TaskItem>,
    start: int,
    p: TaskItem,
    k: int,
    l: int,
)
    requires
        numbered_forest(a, start),
        holds_node(a, p, k),
        consistent(p.tasks@),
        0 <= l < p.tasks@.len(),
        p.tasks@[l].tasks@.len() == 0,
        forall|j: int| 0 <= j < p.tasks@.len() && j != l ==> (#[trigger] p.tasks@[j]).done,
        toggled(a, b, p.tasks@[l].id as int, Some(true)),
    ensures
        exists|q: TaskItem| #[trigger] holds_node(b, q, k) && q.id == p.id && q.done,
{
    let c = p.tasks@;
    let x = c[l].id as int;
    assert(c[l].id == x || has_id(c[l].tasks@, x));
    assert forall|j: int| #![trigger c[j]] 0 <= j < c.len() implies (c[j].id == x || has_id(
        c[j].tasks@,
        x,
    ) || c[j].done) && done_off_line(c[j].tasks@, x) by {
        if c[j].tasks@.len() > 0 {
            lemma_all_done_off_line(c[j].tasks@, x);
        }
    }
    law_ancestor_completes(a, b, start, x, p, k);
}

/// Re-deriving around `x` with one change at the target is re-deriving with another, when the
/// first implies the second on every target node of the forest.
proof fn lemma_resynced_retarget(
    a: Seq<TaskItem>,
    b: Seq<TaskItem>,
    x: int,
    f: spec_fn(TaskItem, TaskItem) -> bool,
    g: spec_fn(TaskItem, TaskItem) -> bool,
)
    requires
        resynced(a, b, x, f),
        forall|t: TaskItem, k: int| #[trigger] holds_node(a, t, k) && t.id == x ==> !t.done,
        forall|o: TaskItem, n: TaskItem| #[trigger] f(o, n) && !o.done ==> g(o, n),
    ensures
        resynced(a, b, x, g),
    decreases a,
{
    let i = choose|i: int|
        #![trigger a[i]]
        0 <= i < a.len() && b.len() == a.len() && b == a.update(i, b[i]) && if a[i].id == x {
            f(a[i], b[i])
        } else {
            &&& same_except_tasks_done(a[i], b[i])
            &&& b[i].done == all_done(b[i].tasks@)
            &&& resynced(a[i].tasks@, b[i].tasks@, x, f)
        };
    if a[i].id == x {
        assert(holds_node(a, a[i], i));
        assert(g(a[i], b[i]));
    } else {
        assert forall|t: TaskItem, k: int| #[trigger] holds_node(a[i].tasks@, t, k) && t.id == x implies !t.done by {
            assert(holds_node(a, t, k));
        }
        lemma_resynced_retarget(a[i].tasks@, b[i].tasks@, x, f, g);
    }
    assert(resynced(a, b, x, g));
}

/// Flipping a node that is not done (`completed` given as none) is marking it done, so the
/// laws above on marking done hold for that flip too.
pub proof fn law_flip_marks_done(a: Seq<TaskItem>, b: Seq<TaskItem>, start: int, l: TaskItem, k: int)
    requires
        numbered_forest(a, start),
        holds_node(a, l, k),
        !l.done,
        toggled(a, b, l.id as int, None),
    ensures
        toggled(a, b, l.id as int, Some(true)),
{
    let x = l.id as int;
    let f = |o: TaskItem, n: TaskItem| done_changed(o, n, None);
    let g = |o: TaskItem, n: TaskItem| done_changed(o, n, Some(true));
    assert forall|t: TaskItem, j: int| #[trigger] holds_node(a, t, j) && t.id == x implies !t.done by {
        lemma_node_unique(a, start, t, j, l, k);
    }
    assert forall|o: TaskItem, n: TaskItem| #[trigger] f(o, n) && !o.done implies g(o, n) by {}
    lemma_resynced_retarget(a, b, x, f, g);
}

/// Re-deriving around `x` happens only where `x` is present.
proof fn lemma_resynced_has(
    a: Seq<TaskItem>,
    b: Seq<TaskItem>,
    x: int,
    f: spec_fn(TaskItem, TaskItem) -> bool,
)
    requires
        resynced(a, b, x, f),
    ensures
        has_id(a, x),
    decreases a,
{
    let i = choose|i: int|
        #![trigger a[i]]
        0 <= i < a.len() && b.len() == a.len() && b == a.update(i, b[i]) && if a[i].id == x {
            f(a[i], b[i])
        } else {
            &&& same_except_tasks_done(a[i], b[i])
            &&& b[i].done == all_done(b[i].tasks@)
            &&& resynced(a[i].tasks@, b[i].tasks@, x, f)
        };
    if a[i].id != x {
        lemma_resynced_has(a[i].tasks@, b[i].tasks@, x, f);
    }
}

/// Folding the node of id `x` hides exactly its subtree: the ids of its descendants are
/// exactly the range `x + 1 ..= x + k`, `k` being their number, which is what the fold index
/// records for it; unfolding drops that entry and shows them again.
pub proof fn law_fold_hides_subtree(g: GroupItem, x: usize)
    requires
        g.wf(),
        x < forest_size(g.tasks@),
    ensures
        forall|y: usize|
            has_id(node_of(g.tasks@, x as int).tasks@, y as int) <==> #[trigger] id_range(
                x as int,
                tree_size(node_of(g.tasks@, x as int)) - 1,
            ).contains(y),
{
    let ts = g.tasks@;
    lemma_numbered_has_id(ts, 0, x as int);
    let (t, k) = lemma_has_holds(ts, x as int);
    lemma_node_of(ts, 0, t, k);
    lemma_node_numbered(ts, 0, t, k);
    assert(tree_size(t) == 1 + forest_size(t.tasks@));
    assert forall|y: usize| has_id(t.tasks@, y as int) <==> #[trigger] id_range(
        x as int,
        tree_size(t) - 1,
    ).contains(y) by {
        lemma_numbered_has_id(t.tasks@, x + 1, y as int);
    }
}

} // verus!
