//! Proofs about the forest model: sizes, ranges of ids, and how each change keeps the
//! numbering and the links.
use vstd::prelude::*;

use crate::task::{
    fold_valid,
    pruned,
    TaskItem, all_done, all_set_done, appended, bounded, cut_out, done_before, done_changed,
    ends_at, forest_size, fresh_leaf, has_id, holds_node, ids_clear, ids_within,
    is_node_with_id, linked_forest, node_of, numbered_forest, numbered_tree, rechecked,
    renumbered, renumbered_node, resynced, same_except_tasks, same_except_tasks_done,
    same_shape, shift_id, size_before, swapped_at, toggled, tree_done, tree_size,
};

verus! {

/// The first `i` trees of a forest hold at least `i` nodes.
pub proof fn lemma_size_before_ge(ts: Seq<TaskItem>, i: int)
    requires
        0 <= i <= ts.len(),
    ensures
        size_before(ts, i) >= i,
    decreases i,
{
    if i > 0 {
        lemma_size_before_ge(ts, i - 1);
        assert(tree_size(ts[i - 1]) >= 1);
    }
}

/// In a numbered forest, an id is present exactly when it lies in the forest's range.
pub proof fn lemma_numbered_has_id(ts: Seq<TaskItem>, start: int, x: int)
    requires
        numbered_forest(ts, start),
    ensures
        has_id(ts, x) <==> start <= x < start + forest_size(ts),
    decreases ts,
{
    if has_id(ts, x) {
        let i = choose|i: int| #![trigger ts[i]] 0 <= i < ts.len() && (ts[i].id == x || has_id(ts[i].tasks@, x));
        let t = ts[i];
        assert(numbered_tree(t, start + size_before(ts, i)));
        lemma_numbered_has_id(t.tasks@, t.id + 1, x);
        lemma_size_before_mono(ts, i + 1, ts.len() as int);
        assert(tree_size(t) == 1 + forest_size(t.tasks@));
    }
    if start <= x < start + forest_size(ts) {
        let i = lemma_find_tree(ts, x - start);
        let t = ts[i];
        assert(numbered_tree(t, start + size_before(ts, i)));
        lemma_numbered_has_id(t.tasks@, t.id + 1, x);
        assert(tree_size(t) == 1 + forest_size(t.tasks@));
        assert(ts[i].id == x || has_id(ts[i].tasks@, x));
    }
}

/// Offset `o` below the forest's size falls inside the subtree of one of its trees.
pub proof fn lemma_find_tree(ts: Seq<TaskItem>, o: int) -> (i: int)
    requires
        0 <= o < forest_size(ts),
    ensures
        0 <= i < ts.len(),
        size_before(ts, i) <= o < size_before(ts, i + 1),
    decreases ts.len(),
{
    let n = ts.len() as int;
    if o >= size_before(ts, n - 1) {
        n - 1
    } else {
        let ts2 = ts.drop_last();
        lemma_size_before_prefix(ts, ts2, n - 1);
        let i = lemma_find_tree(ts2, o);
        lemma_size_before_prefix(ts, ts2, i + 1);
        i
    }
}

/// Sizes of prefixes agree on a forest and any forest that begins with the same trees.
pub proof fn lemma_size_before_prefix(a: Seq<TaskItem>, b: Seq<TaskItem>, i: int)
    requires
        0 <= i <= a.len(),
        i <= b.len(),
        forall|j: int| 0 <= j < i ==> a[j] == b[j],
    ensures
        size_before(a, i) == size_before(b, i),
    decreases i,
{
    if i > 0 {
        lemma_size_before_prefix(a, b, i - 1);
    }
}

/// A forest holds at least as many nodes as trees, and more than any subforest of its trees.
pub proof fn lemma_subforest_size(ts: Seq<TaskItem>, i: int)
    requires
        0 <= i < ts.len(),
    ensures
        ts.len() <= forest_size(ts),
        forest_size(ts[i].tasks@) < forest_size(ts),
{
    lemma_size_before_ge(ts, ts.len() as int);
    lemma_size_before_mono(ts, i + 1, ts.len() as int);
    assert(tree_size(ts[i]) == 1 + forest_size(ts[i].tasks@));
}

/// Forests of the same shape have the same size, prefix by prefix.
pub proof fn lemma_shape_size(a: Seq<TaskItem>, b: Seq<TaskItem>, i: int)
    requires
        same_shape(a, b),
        0 <= i <= a.len(),
    ensures
        size_before(a, i) == size_before(b, i),
    decreases a, i,
{
    if i > 0 {
        lemma_shape_size(a, b, i - 1);
        let t = a[i - 1];
        assert(same_shape(t.tasks@, b[i - 1].tasks@));
        lemma_shape_size(t.tasks@, b[i - 1].tasks@, t.tasks@.len() as int);
        assert(tree_size(t) == tree_size(b[i - 1]));
    }
}

/// A forest of the same shape as a numbered one is numbered alike.
pub proof fn lemma_shape_numbered(a: Seq<TaskItem>, b: Seq<TaskItem>, start: int)
    requires
        same_shape(a, b),
        numbered_forest(a, start),
    ensures
        numbered_forest(b, start),
        forest_size(b) == forest_size(a),
    decreases a,
{
    lemma_shape_size(a, b, a.len() as int);
    assert forall|i: int| 0 <= i < b.len() implies numbered_tree(
        #[trigger] b[i],
        start + size_before(b, i),
    ) by {
        lemma_shape_size(a, b, i);
        assert(numbered_tree(a[i], start + size_before(a, i)));
        lemma_shape_numbered(a[i].tasks@, b[i].tasks@, a[i].id + 1);
    }
}

/// Every forest has its own shape.
pub proof fn lemma_shape_refl(a: Seq<TaskItem>)
    ensures
        same_shape(a, a),
    decreases a,
{
    assert forall|i: int| 0 <= i < a.len() implies same_shape(#[trigger] a[i].tasks@, a[i].tasks@) by {
        lemma_shape_refl(a[i].tasks@);
    }
}

/// Setting every node's `done` keeps the shape.
pub proof fn lemma_all_set_shape(a: Seq<TaskItem>, b: Seq<TaskItem>, v: bool)
    requires
        all_set_done(a, b, v),
    ensures
        same_shape(a, b),
    decreases a,
{
    assert forall|i: int| 0 <= i < a.len() implies same_shape(#[trigger] a[i].tasks@, b[i].tasks@) by {
        lemma_all_set_shape(a[i].tasks@, b[i].tasks@, v);
    }
}

/// Re-deriving completion keeps the shape when the change at the target keeps it.
pub proof fn lemma_resynced_shape(
    a: Seq<TaskItem>,
    b: Seq<TaskItem>,
    x: int,
    f: spec_fn(TaskItem, TaskItem) -> bool,
)
    requires
        resynced(a, b, x, f),
        forall|o: TaskItem, n: TaskItem|
            #[trigger] f(o, n) ==> o.id == n.id && o.parent == n.parent && o.indentation
                == n.indentation && same_shape(o.tasks@, n.tasks@),
    ensures
        same_shape(a, b),
    decreases a,
{
    let i = choose|i: int|
        #![trigger a[i]]
        0 <= i < a.len() && b.len() == a.len() && b == a.update(i, b[i]) && if a[i].id == x {
            f(a[i], b[i])
        } else {
            &&& same_except_tasks_done(a[i], b[i])
            &&& b[i].done == all_done(b[i].tasks@)
            &&& resynced(a[i].tasks@, b[i].tasks@, x, f)
        };
    if a[i].id != x {
        lemma_resynced_shape(a[i].tasks@, b[i].tasks@, x, f);
    }
    assert forall|j: int| 0 <= j < a.len() implies b[j].id == a[j].id && b[j].parent == a[j].parent
        && b[j].indentation == a[j].indentation && same_shape(
        #[trigger] a[j].tasks@,
        b[j].tasks@,
    ) by {
        if j != i {
            lemma_shape_refl(a[j].tasks@);
        }
    }
}

/// A change of completion keeps the numbering, the links, the fold rule and the size.
pub proof fn lemma_toggled_numbered(a: Seq<TaskItem>, b: Seq<TaskItem>, x: int, completed: Option<bool>)
    requires
        toggled(a, b, x, completed),
        numbered_forest(a, 0),
        linked_forest(a, -1, 0),
        fold_valid(a),
    ensures
        numbered_forest(b, 0),
        linked_forest(b, -1, 0),
        fold_valid(b),
        forest_size(b) == forest_size(a),
{
    let f = |o: TaskItem, n: TaskItem| done_changed(o, n, completed);
    assert forall|o: TaskItem, n: TaskItem| #[trigger] f(o, n) implies o.id == n.id && o.parent
        == n.parent && o.indentation == n.indentation && same_shape(
        o.tasks@,
        n.tasks@,
    ) by {
        let v = match completed {
            Some(v) => v,
            None => !o.done,
        };
        lemma_all_set_shape(o.tasks@, n.tasks@, v);
    }
    lemma_resynced_shape(a, b, x, f);
    lemma_shape_linked(a, b, -1, 0);
    assert forall|o: TaskItem, n: TaskItem|
        #[trigger] f(o, n) && (o.folded ==> o.tasks@.len() > 0) && fold_valid(o.tasks@) implies (
        n.folded ==> n.tasks@.len() > 0) && fold_valid(n.tasks@) by {
        let v = match completed {
            Some(v) => v,
            None => !o.done,
        };
        lemma_all_set_fold_valid(o.tasks@, n.tasks@, v);
    }
    lemma_resynced_fold_valid(a, b, x, f);
    lemma_shape_numbered(a, b, 0);
}

/// Re-deriving completion keeps the numbering, the links, the fold rule and the size.
pub proof fn lemma_rechecked_numbered(a: Seq<TaskItem>, b: Seq<TaskItem>, x: int)
    requires
        rechecked(a, b, x),
        numbered_forest(a, 0),
        linked_forest(a, -1, 0),
        fold_valid(a),
    ensures
        numbered_forest(b, 0),
        linked_forest(b, -1, 0),
        fold_valid(b),
        forest_size(b) == forest_size(a),
{
    let f = |o: TaskItem, n: TaskItem|
        same_except_tasks_done(o, n) && n.tasks == o.tasks && n.done == if o.tasks@.len() == 0 {
            o.done
        } else {
            all_done(o.tasks@)
        };
    assert forall|o: TaskItem, n: TaskItem| #[trigger] f(o, n) implies o.id == n.id && o.parent
        == n.parent && o.indentation == n.indentation && same_shape(
        o.tasks@,
        n.tasks@,
    ) by {
        lemma_shape_refl(o.tasks@);
    }
    lemma_resynced_shape(a, b, x, f);
    lemma_shape_linked(a, b, -1, 0);
    lemma_resynced_fold_valid(a, b, x, f);
    lemma_shape_numbered(a, b, 0);
}

/// A forest of the same shape as a linked one is linked alike.
pub proof fn lemma_shape_linked(a: Seq<TaskItem>, b: Seq<TaskItem>, parent: int, depth: int)
    requires
        same_shape(a, b),
        linked_forest(a, parent, depth),
    ensures
        linked_forest(b, parent, depth),
    decreases a,
{
    assert forall|i: int| #![trigger b[i]] 0 <= i < b.len() implies b[i].parent == parent
        && b[i].indentation == depth && linked_forest(b[i].tasks@, b[i].id as int, depth + 1) by {
        assert(b[i].id == a[i].id && b[i].parent == a[i].parent && b[i].indentation == a[i].indentation);
        lemma_shape_linked(a[i].tasks@, b[i].tasks@, a[i].id as int, depth + 1);
    }
}

/// A numbered forest's ids fill exactly its range.
pub proof fn lemma_numbered_within(ts: Seq<TaskItem>, start: int)
    requires
        numbered_forest(ts, start),
    ensures
        ids_within(ts, start, start + forest_size(ts)),
    decreases ts,
{
    assert forall|i: int| 0 <= i < ts.len() implies start <= #[trigger] ts[i].id < start
        + forest_size(ts) && ids_within(ts[i].tasks@, start, start + forest_size(ts)) by {
        let t = ts[i];
        assert(numbered_tree(t, start + size_before(ts, i)));
        lemma_size_before_mono(ts, i + 1, ts.len() as int);
        assert(tree_size(t) == 1 + forest_size(t.tasks@));
        lemma_numbered_within(t.tasks@, t.id + 1);
        lemma_within_widen(t.tasks@, t.id + 1, t.id + tree_size(t), start, start + forest_size(ts));
    }
}

/// A forest whose ids lie in a range has them in any wider range.
pub proof fn lemma_within_widen(ts: Seq<TaskItem>, lo: int, hi: int, lo2: int, hi2: int)
    requires
        ids_within(ts, lo, hi),
        lo2 <= lo,
        hi <= hi2,
    ensures
        ids_within(ts, lo2, hi2),
    decreases ts,
{
    assert forall|i: int| 0 <= i < ts.len() implies lo2 <= #[trigger] ts[i].id < hi2 && ids_within(
        ts[i].tasks@,
        lo2,
        hi2,
    ) by {
        lemma_within_widen(ts[i].tasks@, lo, hi, lo2, hi2);
    }
}

/// In a numbered and linked forest, ids, parents and depths stay below the forest's end.
pub proof fn lemma_bounded(ts: Seq<TaskItem>, start: int, parent: int, depth: int)
    requires
        numbered_forest(ts, start),
        linked_forest(ts, parent, depth),
        parent < start,
        0 <= depth <= start,
    ensures
        bounded(ts, start + forest_size(ts)),
    decreases ts,
{
    let hi = start + forest_size(ts);
    assert forall|i: int| 0 <= i < ts.len() implies #[trigger] ts[i].id < hi && ts[i].parent < hi
        && ts[i].indentation <= ts[i].id && bounded(ts[i].tasks@, hi) by {
        let t = ts[i];
        assert(numbered_tree(t, start + size_before(ts, i)));
        lemma_size_before_mono(ts, i + 1, ts.len() as int);
        lemma_size_before_mono(ts, 0, i);
        assert(tree_size(t) == 1 + forest_size(t.tasks@));
        lemma_bounded(t.tasks@, t.id + 1, t.id as int, depth + 1);
        lemma_bounded_widen(t.tasks@, t.id + tree_size(t), hi);
    }
}

/// Bounds hold under any larger bound.
pub proof fn lemma_bounded_widen(ts: Seq<TaskItem>, hi: int, hi2: int)
    requires
        bounded(ts, hi),
        hi <= hi2,
    ensures
        bounded(ts, hi2),
    decreases ts,
{
    assert forall|i: int| 0 <= i < ts.len() implies #[trigger] ts[i].id < hi2 && ts[i].parent < hi2
        && ts[i].indentation <= ts[i].id && bounded(ts[i].tasks@, hi2) by {
        lemma_bounded_widen(ts[i].tasks@, hi, hi2);
    }
}

/// Renumbering keeps sizes, prefix by prefix.
pub proof fn lemma_renumbered_size(a: Seq<TaskItem>, b: Seq<TaskItem>, from: int, by: int, i: int)
    requires
        renumbered(a, b, from, by),
        0 <= i <= a.len(),
    ensures
        size_before(a, i) == size_before(b, i),
    decreases a, i,
{
    if i > 0 {
        lemma_renumbered_size(a, b, from, by, i - 1);
        let t = a[i - 1];
        lemma_renumbered_size(t.tasks@, b[i - 1].tasks@, from, by, t.tasks@.len() as int);
        assert(tree_size(t) == 1 + forest_size(t.tasks@));
        assert(tree_size(b[i - 1]) == 1 + forest_size(b[i - 1].tasks@));
        assert(size_before(b, i) == size_before(b, i - 1) + tree_size(b[i - 1]));
        assert(size_before(a, i) == size_before(a, i - 1) + tree_size(a[i - 1]));
        assert(renumbered(t.tasks@, b[i - 1].tasks@, from, by));
        assert(b[i - 1].tasks@.len() == t.tasks@.len());
    }
}

/// Renumbering a numbered forest that lies wholly below `from` keeps its numbering; one that
/// lies wholly at or above `from` is numbered from `start + by`.
pub proof fn lemma_renumbered_numbered(
    a: Seq<TaskItem>,
    b: Seq<TaskItem>,
    start: int,
    from: int,
    by: int,
)
    requires
        numbered_forest(a, start),
        renumbered(a, b, from, by),
    ensures
        forest_size(b) == forest_size(a),
        start + forest_size(a) <= from ==> numbered_forest(b, start),
        start >= from ==> numbered_forest(b, start + by),
    decreases a,
{
    lemma_renumbered_size(a, b, from, by, a.len() as int);
    assert forall|i: int| 0 <= i < b.len() implies (start + forest_size(a) <= from
        ==> numbered_tree(#[trigger] b[i], start + size_before(b, i))) && (start >= from
        ==> numbered_tree(b[i], start + by + size_before(b, i))) by {
        let t = a[i];
        lemma_renumbered_size(a, b, from, by, i);
        assert(numbered_tree(t, start + size_before(a, i)));
        lemma_size_before_mono(a, i + 1, a.len() as int);
        assert(tree_size(t) == 1 + forest_size(t.tasks@));
        lemma_renumbered_numbered(t.tasks@, b[i].tasks@, t.id + 1, from, by);
    }
}

/// Renumbering moves parent references along with ids, so a linked forest stays linked.
pub proof fn lemma_renumbered_linked(
    a: Seq<TaskItem>,
    b: Seq<TaskItem>,
    parent: int,
    depth: int,
    from: int,
    by: int,
)
    requires
        linked_forest(a, parent, depth),
        renumbered(a, b, from, by),
    ensures
        linked_forest(b, shift_id(parent, from, by), depth),
    decreases a,
{
    assert forall|i: int| #![trigger b[i]] 0 <= i < b.len() implies b[i].parent == shift_id(
        parent,
        from,
        by,
    ) && b[i].indentation == depth && linked_forest(b[i].tasks@, b[i].id as int, depth + 1) by {
        assert(renumbered_node(a[i], b[i], from, by));
        lemma_renumbered_linked(a[i].tasks@, b[i].tasks@, a[i].id as int, depth + 1, from, by);
    }
}

/// Prefix sizes after one tree of a forest is replaced.
pub proof fn lemma_size_update(a: Seq<TaskItem>, k: int, n: TaskItem, j: int)
    requires
        0 <= k < a.len(),
        0 <= j <= a.len(),
    ensures
        j <= k ==> size_before(a.update(k, n), j) == size_before(a, j),
        j > k ==> size_before(a.update(k, n), j) == size_before(a, j) - tree_size(a[k]) + tree_size(
            n,
        ),
    decreases j,
{
    if j > 0 {
        lemma_size_update(a, k, n, j - 1);
    }
}

/// Prefix sizes after one tree of a forest is taken out.
pub proof fn lemma_size_remove(a: Seq<TaskItem>, k: int, j: int)
    requires
        0 <= k < a.len(),
        0 <= j < a.len(),
    ensures
        j <= k ==> size_before(a.remove(k), j) == size_before(a, j),
        j >= k ==> size_before(a.remove(k), j) == size_before(a, j + 1) - tree_size(a[k]),
    decreases j,
{
    let r = a.remove(k);
    if j > 0 {
        lemma_size_remove(a, k, j - 1);
        assert(size_before(r, j) == size_before(r, j - 1) + tree_size(r[j - 1]));
        if j - 1 >= k {
            assert(r[j - 1] == a[j]);
        } else {
            assert(r[j - 1] == a[j - 1]);
        }
    }
    assert(size_before(a, j + 1) == size_before(a, j) + tree_size(a[j]));
}

/// Ids held in a range that misses `[lo, hi)` are clear of it.
pub proof fn lemma_within_clear(ts: Seq<TaskItem>, l: int, h: int, lo: int, hi: int)
    requires
        ids_within(ts, l, h),
        h <= lo || hi <= l,
    ensures
        ids_clear(ts, lo, hi),
    decreases ts,
{
    assert forall|i: int| #![trigger ts[i]] 0 <= i < ts.len() implies !(lo <= ts[i].id < hi)
        && ids_clear(ts[i].tasks@, lo, hi) by {
        lemma_within_clear(ts[i].tasks@, l, h, lo, hi);
    }
}

/// A numbered tree whose range misses `[lo, hi)` is clear of it.
pub proof fn lemma_tree_clear(ts: Seq<TaskItem>, j: int, st: int, lo: int, hi: int)
    requires
        0 <= j < ts.len(),
        numbered_tree(ts[j], st),
        st + tree_size(ts[j]) <= lo || hi <= st,
    ensures
        !(lo <= ts[j].id < hi) && ids_clear(ts[j].tasks@, lo, hi),
{
    let t = ts[j];
    assert(tree_size(t) == 1 + forest_size(t.tasks@));
    lemma_numbered_within(t.tasks@, st + 1);
    lemma_within_clear(t.tasks@, st + 1, st + 1 + forest_size(t.tasks@), lo, hi);
}

/// Taking a subtree out of a numbered forest: where it lay, how the size drops, and that no
/// remaining id falls inside its range.
#[verifier::rlimit(60)]
pub proof fn lemma_cut_clear(a: Seq<TaskItem>, mid: Seq<TaskItem>, start: int, x: int, amount: int)
    requires
        numbered_forest(a, start),
        cut_out(a, mid, x, amount),
    ensures
        start <= x,
        1 <= amount,
        x + amount <= start + forest_size(a),
        forest_size(mid) == forest_size(a) - amount,
        ids_clear(mid, x, x + amount),
    decreases a,
{
    let i = choose|i: int|
        #![trigger a[i]]
        0 <= i < a.len() && if a[i].id == x {
            mid == a.remove(i) && amount == tree_size(a[i])
        } else {
            &&& mid.len() == a.len()
            &&& mid == a.update(i, mid[i])
            &&& pruned(a[i], mid[i])
            &&& cut_out(a[i].tasks@, mid[i].tasks@, x, amount)
        };
    let t = a[i];
    let n = a.len() as int;
    assert(numbered_tree(t, start + size_before(a, i)));
    assert(tree_size(t) == 1 + forest_size(t.tasks@));
    lemma_size_before_mono(a, i + 1, n);
    lemma_size_before_mono(a, 0, i);
    if t.id == x {
        if n - 1 > 0 {
            lemma_size_remove(a, i, n - 1);
        }
        assert forall|j: int| #![trigger mid[j]] 0 <= j < mid.len() implies !(x <= mid[j].id < x
            + amount) && ids_clear(mid[j].tasks@, x, x + amount) by {
            if j < i {
                lemma_size_before_mono(a, j + 1, i);
                lemma_tree_clear(a, j, start + size_before(a, j), x, x + amount);
            } else {
                lemma_size_before_mono(a, i + 1, j + 1);
                lemma_tree_clear(a, j + 1, start + size_before(a, j + 1), x, x + amount);
            }
        }
    } else {
        lemma_cut_clear(t.tasks@, mid[i].tasks@, t.id + 1, x, amount);
        assert(tree_size(mid[i]) == 1 + forest_size(mid[i].tasks@));
        lemma_size_update(a, i, mid[i], n);
        assert forall|j: int| #![trigger mid[j]] 0 <= j < mid.len() implies !(x <= mid[j].id < x
            + amount) && ids_clear(mid[j].tasks@, x, x + amount) by {
            if j < i {
                lemma_size_before_mono(a, j + 1, i);
                lemma_tree_clear(a, j, start + size_before(a, j), x, x + amount);
            } else if j > i {
                lemma_size_before_mono(a, i + 1, j);
                lemma_tree_clear(a, j, start + size_before(a, j), x, x + amount);
            }
        }
    }
}

/// Renumbering one numbered tree that lies wholly below or wholly at or above `from`.
pub proof fn lemma_renumbered_tree(
    a: Seq<TaskItem>,
    b: Seq<TaskItem>,
    j: int,
    k: int,
    st: int,
    from: int,
    by: int,
)
    requires
        0 <= j < a.len(),
        0 <= k < b.len(),
        numbered_tree(a[j], st),
        renumbered_node(a[j], b[k], from, by),
        renumbered(a[j].tasks@, b[k].tasks@, from, by),
        st + tree_size(a[j]) <= from || st >= from,
    ensures
        st + tree_size(a[j]) <= from ==> numbered_tree(b[k], st),
        st >= from ==> numbered_tree(b[k], st + by),
        tree_size(b[k]) == tree_size(a[j]),
{
    let t = a[j];
    assert(tree_size(t) == 1 + forest_size(t.tasks@));
    assert(tree_size(b[k]) == 1 + forest_size(b[k].tasks@));
    lemma_renumbered_numbered(t.tasks@, b[k].tasks@, st + 1, from, by);
}

/// Taking a subtree out of a numbered forest and moving the later ids down closes the gap:
/// the result is numbered from the same start.
pub proof fn lemma_cut_numbered(
    a: Seq<TaskItem>,
    mid: Seq<TaskItem>,
    b: Seq<TaskItem>,
    start: int,
    x: int,
    amount: int,
)
    requires
        numbered_forest(a, start),
        cut_out(a, mid, x, amount),
        renumbered(mid, b, x + 1, -amount),
    ensures
        numbered_forest(b, start),
        forest_size(b) == forest_size(a) - amount,
    decreases a, 1int,
{
    lemma_cut_clear(a, mid, start, x, amount);
    lemma_renumbered_size(mid, b, x + 1, -amount, mid.len() as int);
    let i = choose|i: int|
        #![trigger a[i]]
        0 <= i < a.len() && if a[i].id == x {
            mid == a.remove(i) && amount == tree_size(a[i])
        } else {
            &&& mid.len() == a.len()
            &&& mid == a.update(i, mid[i])
            &&& pruned(a[i], mid[i])
            &&& cut_out(a[i].tasks@, mid[i].tasks@, x, amount)
        };
    assert forall|j: int| #![trigger b[j]] 0 <= j < b.len() implies numbered_tree(
        b[j],
        start + size_before(b, j),
    ) by {
        lemma_cut_numbered_at(a, mid, b, start, x, amount, i, j);
    }
}

/// One tree of the forest in `lemma_cut_numbered`.
#[verifier::rlimit(60)]
pub proof fn lemma_cut_numbered_at(
    a: Seq<TaskItem>,
    mid: Seq<TaskItem>,
    b: Seq<TaskItem>,
    start: int,
    x: int,
    amount: int,
    i: int,
    j: int,
)
    requires
        numbered_forest(a, start),
        renumbered(mid, b, x + 1, -amount),
        0 <= i < a.len(),
        if a[i].id == x {
            mid == a.remove(i) && amount == tree_size(a[i])
        } else {
            &&& mid.len() == a.len()
            &&& mid == a.update(i, mid[i])
            &&& pruned(a[i], mid[i])
            &&& cut_out(a[i].tasks@, mid[i].tasks@, x, amount)
        },
        0 <= j < b.len(),
        1 <= amount,
    ensures
        numbered_tree(b[j], start + size_before(b, j)),
    decreases a, 0int,
{
    let t = a[i];
    assert(numbered_tree(t, start + size_before(a, i)));
    assert(tree_size(t) == 1 + forest_size(t.tasks@));
    lemma_renumbered_size(mid, b, x + 1, -amount, j);
    assert(renumbered_node(mid[j], b[j], x + 1, -amount));
    if t.id != x {
        lemma_cut_clear(t.tasks@, mid[i].tasks@, t.id + 1, x, amount);
        assert(tree_size(mid[i]) == 1 + forest_size(mid[i].tasks@));
    }
    if j < i {
        lemma_size_before_mono(a, j + 1, i);
        assert(size_before(a, j + 1) == size_before(a, j) + tree_size(a[j]));
        assert(numbered_tree(a[j], start + size_before(a, j)));
        if t.id == x {
            lemma_size_remove(a, i, j);
        } else {
            lemma_size_update(a, i, mid[i], j);
        }
        assert(mid[j] == a[j]);
        lemma_renumbered_tree(mid, b, j, j, start + size_before(a, j), x + 1, -amount);
    } else if t.id == x {
        lemma_size_remove(a, i, j);
        lemma_size_before_mono(a, i + 1, j + 1);
        assert(size_before(a, i + 1) == size_before(a, i) + tree_size(a[i]));
        assert(numbered_tree(a[j + 1], start + size_before(a, j + 1)));
        assert(mid[j] == a[j + 1]);
        lemma_renumbered_tree(mid, b, j, j, start + size_before(a, j + 1), x + 1, -amount);
    } else if j == i {
        lemma_size_update(a, i, mid[i], j);
        lemma_cut_numbered(t.tasks@, mid[i].tasks@, b[i].tasks@, t.id + 1, x, amount);
    } else {
        lemma_size_update(a, i, mid[i], j);
        lemma_size_before_mono(a, i + 1, j);
        assert(size_before(a, i + 1) == size_before(a, i) + tree_size(a[i]));
        assert(numbered_tree(a[j], start + size_before(a, j)));
        assert(mid[j] == a[j]);
        lemma_renumbered_tree(mid, b, j, j, start + size_before(a, j), x + 1, -amount);
    }
}

/// Taking a subtree out keeps every remaining node linked.
pub proof fn lemma_cut_linked(
    a: Seq<TaskItem>,
    mid: Seq<TaskItem>,
    parent: int,
    depth: int,
    x: int,
    amount: int,
)
    requires
        linked_forest(a, parent, depth),
        cut_out(a, mid, x, amount),
    ensures
        linked_forest(mid, parent, depth),
    decreases a,
{
    let i = choose|i: int|
        #![trigger a[i]]
        0 <= i < a.len() && if a[i].id == x {
            mid == a.remove(i) && amount == tree_size(a[i])
        } else {
            &&& mid.len() == a.len()
            &&& mid == a.update(i, mid[i])
            &&& pruned(a[i], mid[i])
            &&& cut_out(a[i].tasks@, mid[i].tasks@, x, amount)
        };
    if a[i].id != x {
        lemma_cut_linked(a[i].tasks@, mid[i].tasks@, a[i].id as int, depth + 1, x, amount);
    }
    assert forall|j: int| #![trigger mid[j]] 0 <= j < mid.len() implies mid[j].parent == parent
        && mid[j].indentation == depth && linked_forest(mid[j].tasks@, mid[j].id as int, depth + 1) by {
        if a[i].id == x {
            if j >= i {
                assert(mid[j] == a[j + 1]);
            }
        }
    }
}

/// A node found in the forest fixes where its subtree ends.
pub proof fn lemma_ends_at_node(a: Seq<TaskItem>, t: TaskItem, k: int)
    requires
        holds_node(a, t, k),
    ensures
        ends_at(a, t.id as int, t.id + tree_size(t)),
    decreases a,
{
    if 0 <= k < a.len() && a[k] == t {
        assert(a[k].id == t.id && t.id + tree_size(t) == t.id + tree_size(a[k]));
    } else {
        let i = choose|i: int| #![trigger a[i]] 0 <= i < a.len() && holds_node(a[i].tasks@, t, k);
        lemma_ends_at_node(a[i].tasks@, t, k);
        assert(ends_at(a[i].tasks@, t.id as int, t.id + tree_size(t)));
    }
}

/// In a numbered and linked forest every node's parent reference is below its own id.
pub proof fn lemma_parent_below(ts: Seq<TaskItem>, start: int, parent: int, depth: int, t: TaskItem, k: int)
    requires
        numbered_forest(ts, start),
        linked_forest(ts, parent, depth),
        parent < start,
        holds_node(ts, t, k),
    ensures
        t.parent < t.id,
    decreases ts,
{
    if 0 <= k < ts.len() && ts[k] == t {
        assert(numbered_tree(ts[k], start + size_before(ts, k)));
        lemma_size_before_mono(ts, 0, k);
    } else {
        let i = choose|i: int| #![trigger ts[i]] 0 <= i < ts.len() && holds_node(ts[i].tasks@, t, k);
        assert(numbered_tree(ts[i], start + size_before(ts, i)));
        lemma_parent_below(ts[i].tasks@, ts[i].id + 1, ts[i].id as int, depth + 1, t, k);
    }
}

/// The subtree taken out of a numbered forest is the node of that id, and `amount` is its size.
pub proof fn lemma_cut_amount(a: Seq<TaskItem>, mid: Seq<TaskItem>, start: int, t: TaskItem, k: int, amount: int)
    requires
        numbered_forest(a, start),
        cut_out(a, mid, t.id as int, amount),
        holds_node(a, t, k),
    ensures
        amount == tree_size(t),
    decreases a,
{
    let x = t.id as int;
    let i = choose|i: int|
        #![trigger a[i]]
        0 <= i < a.len() && if a[i].id == x {
            mid == a.remove(i) && amount == tree_size(a[i])
        } else {
            &&& mid.len() == a.len()
            &&& mid == a.update(i, mid[i])
            &&& pruned(a[i], mid[i])
            &&& cut_out(a[i].tasks@, mid[i].tasks@, x, amount)
        };
    if a[i].id == x {
        assert(holds_node(a, a[i], i));
        lemma_node_unique(a, start, t, k, a[i], i);
    } else {
        assert(numbered_tree(a[i], start + size_before(a, i)));
        lemma_cut_has(a[i].tasks@, mid[i].tasks@, x, amount);
        lemma_tree_range(a, start, i, x);
        if 0 <= k < a.len() && a[k] == t {
            lemma_tree_range(a, start, k, x);
            lemma_range_unique(a, i, k, x - start);
        } else {
            let j = choose|j: int| #![trigger a[j]] 0 <= j < a.len() && holds_node(a[j].tasks@, t, k);
            lemma_holds_has(a[j].tasks@, t, k);
            lemma_tree_range(a, start, j, x);
            lemma_range_unique(a, i, j, x - start);
            lemma_cut_amount(a[i].tasks@, mid[i].tasks@, a[i].id + 1, t, k, amount);
        }
    }
}

/// A subtree is cut out only where its id is present.
pub proof fn lemma_cut_has(a: Seq<TaskItem>, mid: Seq<TaskItem>, x: int, amount: int)
    requires
        cut_out(a, mid, x, amount),
    ensures
        has_id(a, x),
    decreases a,
{
    let i = choose|i: int|
        #![trigger a[i]]
        0 <= i < a.len() && if a[i].id == x {
            mid == a.remove(i) && amount == tree_size(a[i])
        } else {
            &&& mid.len() == a.len()
            &&& mid == a.update(i, mid[i])
            &&& pruned(a[i], mid[i])
            &&& cut_out(a[i].tasks@, mid[i].tasks@, x, amount)
        };
    if a[i].id != x {
        lemma_cut_has(a[i].tasks@, mid[i].tasks@, x, amount);
    }
}

/// The node put in by a swap is held by the new forest at the same index.
pub proof fn lemma_swapped_holds(a: Seq<TaskItem>, b: Seq<TaskItem>, o: TaskItem, k: int, n: TaskItem)
    requires
        swapped_at(a, b, o, k, n),
    ensures
        holds_node(b, n, k),
        holds_node(a, o, k),
    decreases a,
{
    if !(0 <= k < a.len() && a[k] == o && b == a.update(k, n)) {
        let i = choose|i: int|
            #![trigger a[i]]
            0 <= i < a.len() && b.len() == a.len() && b == a.update(i, b[i]) && same_except_tasks(
                a[i],
                b[i],
            ) && swapped_at(a[i].tasks@, b[i].tasks@, o, k, n);
        lemma_swapped_holds(a[i].tasks@, b[i].tasks@, o, k, n);
        assert(holds_node(b[i].tasks@, n, k));
    }
}

/// An id below a node of the forest is present in the forest.
pub proof fn lemma_holds_sub_has(ts: Seq<TaskItem>, p: TaskItem, k: int, x: int)
    requires
        holds_node(ts, p, k),
        has_id(p.tasks@, x),
    ensures
        has_id(ts, x),
    decreases ts,
{
    if 0 <= k < ts.len() && ts[k] == p {
        assert(ts[k].id == x || has_id(ts[k].tasks@, x));
    } else {
        let i = choose|i: int| #![trigger ts[i]] 0 <= i < ts.len() && holds_node(ts[i].tasks@, p, k);
        lemma_holds_sub_has(ts[i].tasks@, p, k, x);
        assert(ts[i].id == x || has_id(ts[i].tasks@, x));
    }
}

/// After a swap that keeps the swapped node's subtasks, every other node of the new forest has
/// a counterpart in the old one at the same index, with the same id, fold flag and size.
pub proof fn lemma_swapped_pull(
    a: Seq<TaskItem>,
    b: Seq<TaskItem>,
    o: TaskItem,
    k: int,
    n: TaskItem,
    t: TaskItem,
    j: int,
) -> (u: TaskItem)
    requires
        swapped_at(a, b, o, k, n),
        n.id == o.id,
        n.parent == o.parent,
        n.indentation == o.indentation,
        n.tasks == o.tasks,
        holds_node(b, t, j),
        t.id != o.id,
    ensures
        holds_node(a, u, j),
        u.id == t.id,
        u.folded == t.folded,
        tree_size(u) == tree_size(t),
    decreases a,
{
    let top_t = 0 <= j < b.len() && b[j] == t;
    if 0 <= k < a.len() && a[k] == o && b == a.update(k, n) {
        if top_t {
            assert(j != k);
            assert(a[j] == t);
            t
        } else {
            let m = choose|m: int| #![trigger b[m]] 0 <= m < b.len() && holds_node(b[m].tasks@, t, j);
            if m == k {
                assert(b[m].tasks@ == a[m].tasks@);
            } else {
                assert(b[m] == a[m]);
            }
            assert(holds_node(a[m].tasks@, t, j));
            t
        }
    } else {
        let i = choose|i: int|
            #![trigger a[i]]
            0 <= i < a.len() && b.len() == a.len() && b == a.update(i, b[i]) && same_except_tasks(
                a[i],
                b[i],
            ) && swapped_at(a[i].tasks@, b[i].tasks@, o, k, n);
        if top_t {
            if j == i {
                lemma_shape_refl(o.tasks@);
                lemma_swapped_shape(a[i].tasks@, b[i].tasks@, o, k, n);
                lemma_shape_size(a[i].tasks@, b[i].tasks@, a[i].tasks@.len() as int);
                assert(tree_size(a[i]) == 1 + forest_size(a[i].tasks@));
                assert(tree_size(b[i]) == 1 + forest_size(b[i].tasks@));
                a[i]
            } else {
                assert(a[j] == t);
                t
            }
        } else {
            let m = choose|m: int| #![trigger b[m]] 0 <= m < b.len() && holds_node(b[m].tasks@, t, j);
            if m == i {
                let u = lemma_swapped_pull(a[i].tasks@, b[i].tasks@, o, k, n, t, j);
                assert(holds_node(a[i].tasks@, u, j));
                u
            } else {
                assert(b[m] == a[m]);
                assert(holds_node(a[m].tasks@, t, j));
                t
            }
        }
    }
}

/// Where a subtree ends is recorded only for ids that are present.
pub proof fn lemma_ends_at_has(a: Seq<TaskItem>, p: int, q: int)
    requires
        ends_at(a, p, q),
    ensures
        has_id(a, p),
    decreases a,
{
    let i = choose|i: int|
        #![trigger a[i]]
        0 <= i < a.len() && ((a[i].id == p && q == p + tree_size(a[i])) || ends_at(a[i].tasks@, p, q));
    if !(a[i].id == p && q == p + tree_size(a[i])) {
        lemma_ends_at_has(a[i].tasks@, p, q);
    }
}

/// An appended leaf goes under an id that is present.
pub proof fn lemma_appended_has(a: Seq<TaskItem>, b: Seq<TaskItem>, p: int, q: int, name: String)
    requires
        appended(a, b, p, q, name),
    ensures
        has_id(a, p),
    decreases a,
{
    let i = choose|i: int|
        #![trigger a[i]]
        0 <= i < a.len() && b.len() == a.len() && b == a.update(i, b[i]) && same_except_tasks(
            a[i],
            b[i],
        ) && if a[i].id == p {
            &&& b[i].tasks@ == a[i].tasks@.push(b[i].tasks@.last())
            &&& fresh_leaf(b[i].tasks@.last(), q, p, a[i].indentation + 1, name)
        } else {
            appended(a[i].tasks@, b[i].tasks@, p, q, name)
        };
    if a[i].id != p {
        lemma_appended_has(a[i].tasks@, b[i].tasks@, p, q, name);
    }
}

/// Moving ids up leaves the ids below `from` where they were.
pub proof fn lemma_renumbered_has_back(a: Seq<TaskItem>, b: Seq<TaskItem>, from: int, x: int)
    requires
        renumbered(a, b, from, 1),
        has_id(b, x),
        x < from,
    ensures
        has_id(a, x),
    decreases a,
{
    let i = choose|i: int| #![trigger b[i]] 0 <= i < b.len() && (b[i].id == x || has_id(b[i].tasks@, x));
    assert(renumbered_node(a[i], b[i], from, 1));
    if b[i].id != x {
        lemma_renumbered_has_back(a[i].tasks@, b[i].tasks@, from, x);
    }
    assert(a[i].id == x || has_id(a[i].tasks@, x));
}

/// Moving ids up by one keeps a bound one higher.
pub proof fn lemma_renumbered_bounded(a: Seq<TaskItem>, b: Seq<TaskItem>, hi: int, from: int)
    requires
        bounded(a, hi),
        renumbered(a, b, from, 1),
    ensures
        bounded(b, hi + 1),
    decreases a,
{
    assert forall|i: int| #![trigger b[i]] 0 <= i < b.len() implies b[i].id < hi + 1 && b[i].parent
        < hi + 1 && b[i].indentation <= b[i].id && bounded(b[i].tasks@, hi + 1) by {
        assert(renumbered_node(a[i], b[i], from, 1));
        lemma_renumbered_bounded(a[i].tasks@, b[i].tasks@, hi, from);
    }
}

/// In a numbered forest an id present in tree `i` lies in that tree's range.
pub proof fn lemma_tree_range(a: Seq<TaskItem>, start: int, i: int, x: int)
    requires
        numbered_forest(a, start),
        0 <= i < a.len(),
        a[i].id == x || has_id(a[i].tasks@, x),
    ensures
        start + size_before(a, i) <= x < start + size_before(a, i + 1),
{
    let t = a[i];
    assert(numbered_tree(t, start + size_before(a, i)));
    assert(tree_size(t) == 1 + forest_size(t.tasks@));
    assert(size_before(a, i + 1) == size_before(a, i) + tree_size(t));
    lemma_numbered_has_id(t.tasks@, t.id + 1, x);
}

/// Two trees of a numbered forest whose ranges share an id are the same tree.
pub proof fn lemma_range_unique(a: Seq<TaskItem>, i: int, j: int, o: int)
    requires
        0 <= i < a.len(),
        0 <= j < a.len(),
        size_before(a, i) <= o < size_before(a, i + 1),
        size_before(a, j) <= o < size_before(a, j + 1),
    ensures
        i == j,
{
    if i < j {
        lemma_size_before_mono(a, i + 1, j);
    } else if j < i {
        lemma_size_before_mono(a, j + 1, i);
    }
}

/// Appending a leaf whose parent and depth match its place keeps the forest linked.
pub proof fn lemma_appended_linked(
    a: Seq<TaskItem>,
    b: Seq<TaskItem>,
    parent: int,
    depth: int,
    p: int,
    q: int,
    name: String,
)
    requires
        linked_forest(a, parent, depth),
        appended(a, b, p, q, name),
    ensures
        linked_forest(b, parent, depth),
    decreases a,
{
    let i = choose|i: int|
        #![trigger a[i]]
        0 <= i < a.len() && b.len() == a.len() && b == a.update(i, b[i]) && same_except_tasks(
            a[i],
            b[i],
        ) && if a[i].id == p {
            &&& b[i].tasks@ == a[i].tasks@.push(b[i].tasks@.last())
            &&& fresh_leaf(b[i].tasks@.last(), q, p, a[i].indentation + 1, name)
        } else {
            appended(a[i].tasks@, b[i].tasks@, p, q, name)
        };
    if a[i].id == p {
        let c = b[i].tasks@;
        assert(a[i].indentation == depth);
        assert(linked_forest(a[i].tasks@, a[i].id as int, depth + 1));
        assert forall|j: int| #![trigger c[j]] 0 <= j < c.len() implies c[j].parent == b[i].id
            && c[j].indentation == depth + 1 && linked_forest(c[j].tasks@, c[j].id as int, depth + 2) by {
            if j < c.len() - 1 {
                assert(c[j] == a[i].tasks@[j]);
            } else {
                assert(c[j] == c.last());
                assert(c[j].tasks@.len() == 0);
            }
        }
    } else {
        lemma_appended_linked(a[i].tasks@, b[i].tasks@, a[i].id as int, depth + 1, p, q, name);
    }
    assert forall|j: int| #![trigger b[j]] 0 <= j < b.len() implies b[j].parent == parent
        && b[j].indentation == depth && linked_forest(b[j].tasks@, b[j].id as int, depth + 1) by {
        if j != i {
            assert(b[j] == a[j]);
        }
    }
}

/// In a numbered forest, the end recorded for the subtree of `p` lies after `p` and inside
/// the tree that holds `p`, which the result names.
pub proof fn lemma_ends_at_range(a: Seq<TaskItem>, start: int, p: int, q: int) -> (i: int)
    requires
        numbered_forest(a, start),
        ends_at(a, p, q),
    ensures
        0 <= i < a.len(),
        a[i].id == p ==> q == p + tree_size(a[i]),
        a[i].id != p ==> ends_at(a[i].tasks@, p, q),
        a[i].id == p || has_id(a[i].tasks@, p),
        start + size_before(a, i) <= p < q <= start + size_before(a, i + 1),
        q <= start + forest_size(a),
    decreases a,
{
    let i = choose|i: int|
        #![trigger a[i]]
        0 <= i < a.len() && ((a[i].id == p && q == p + tree_size(a[i])) || ends_at(a[i].tasks@, p, q));
    let t = a[i];
    assert(numbered_tree(t, start + size_before(a, i)));
    assert(tree_size(t) == 1 + forest_size(t.tasks@));
    assert(size_before(a, i + 1) == size_before(a, i) + tree_size(t));
    lemma_size_before_mono(a, i + 1, a.len() as int);
    if t.id == p && q == p + tree_size(t) {
    } else {
        lemma_ends_at_has(t.tasks@, p, q);
        lemma_numbered_has_id(t.tasks@, t.id + 1, p);
        lemma_ends_at_range(t.tasks@, t.id + 1, p, q);
    }
    i
}

/// Moving later ids up by one and appending a leaf with the freed id at the end of the
/// subtree of `p` keeps the forest numbered from the same start, one node larger.
#[verifier::rlimit(80)]
pub proof fn lemma_graft_numbered(
    a: Seq<TaskItem>,
    mid: Seq<TaskItem>,
    b: Seq<TaskItem>,
    start: int,
    p: int,
    q: int,
    name: String,
)
    requires
        numbered_forest(a, start),
        ends_at(a, p, q),
        renumbered(a, mid, q, 1),
        appended(mid, b, p, q, name),
    ensures
        numbered_forest(b, start),
        forest_size(b) == forest_size(a) + 1,
    decreases a, 1int,
{
    let i = lemma_ends_at_range(a, start, p, q);
    let i2 = choose|i: int|
        #![trigger mid[i]]
        0 <= i < mid.len() && b.len() == mid.len() && b == mid.update(i, b[i]) && same_except_tasks(
            mid[i],
            b[i],
        ) && if mid[i].id == p {
            &&& b[i].tasks@ == mid[i].tasks@.push(b[i].tasks@.last())
            &&& fresh_leaf(b[i].tasks@.last(), q, p, mid[i].indentation + 1, name)
        } else {
            appended(mid[i].tasks@, b[i].tasks@, p, q, name)
        };
    assert(renumbered_node(a[i2], mid[i2], q, 1));
    if mid[i2].id != p {
        lemma_appended_has(mid[i2].tasks@, b[i2].tasks@, p, q, name);
        lemma_renumbered_has_back(a[i2].tasks@, mid[i2].tasks@, q, p);
    }
    lemma_tree_range(a, start, i2, p);
    lemma_range_unique(a, i, i2, p - start);
    lemma_renumbered_size(a, mid, q, 1, a.len() as int);
    assert forall|j: int| #![trigger b[j]] 0 <= j < b.len() implies numbered_tree(
        b[j],
        start + size_before(b, j),
    ) by {
        lemma_graft_numbered_at(a, mid, b, start, p, q, name, i, j);
    }
    lemma_graft_numbered_at(a, mid, b, start, p, q, name, i, i);
    lemma_size_update(mid, i, b[i], a.len() as int);
}

/// One tree of the forest in `lemma_graft_numbered`.
#[verifier::rlimit(100)]
pub proof fn lemma_graft_numbered_at(
    a: Seq<TaskItem>,
    mid: Seq<TaskItem>,
    b: Seq<TaskItem>,
    start: int,
    p: int,
    q: int,
    name: String,
    i: int,
    j: int,
)
    requires
        numbered_forest(a, start),
        renumbered(a, mid, q, 1),
        0 <= i < a.len(),
        a[i].id == p ==> q == p + tree_size(a[i]),
        a[i].id != p ==> ends_at(a[i].tasks@, p, q),
        start + size_before(a, i) <= p < q <= start + size_before(a, i + 1),
        b.len() == mid.len(),
        b == mid.update(i, b[i]),
        same_except_tasks(mid[i], b[i]),
        mid[i].id == p ==> b[i].tasks@ == mid[i].tasks@.push(b[i].tasks@.last()) && fresh_leaf(
            b[i].tasks@.last(),
            q,
            p,
            mid[i].indentation + 1,
            name,
        ),
        mid[i].id != p ==> appended(mid[i].tasks@, b[i].tasks@, p, q, name),
        0 <= j < b.len(),
    ensures
        numbered_tree(b[j], start + size_before(b, j)),
        tree_size(b[i]) == tree_size(mid[i]) + 1,
    decreases a, 0int,
{
    let t = a[i];
    let m = mid[i];
    assert(numbered_tree(t, start + size_before(a, i)));
    assert(tree_size(t) == 1 + forest_size(t.tasks@));
    assert(size_before(a, i + 1) == size_before(a, i) + tree_size(t));
    assert(renumbered_node(t, m, q, 1));
    assert(renumbered(t.tasks@, m.tasks@, q, 1));
    lemma_renumbered_size(a, mid, q, 1, j);
    lemma_renumbered_size(t.tasks@, m.tasks@, q, 1, t.tasks@.len() as int);
    assert(tree_size(m) == 1 + forest_size(m.tasks@));
    assert(tree_size(b[i]) == 1 + forest_size(b[i].tasks@));
    let c = b[i].tasks@;
    if t.id == p {
        lemma_size_before_prefix(c, m.tasks@, m.tasks@.len() as int);
        assert(tree_size(c.last()) == 1 + forest_size(c.last().tasks@));
        assert(forest_size(c) == forest_size(m.tasks@) + 1);
    } else {
        lemma_graft_numbered(t.tasks@, m.tasks@, c, t.id + 1, p, q, name);
    }
    if j < i {
        lemma_size_update(mid, i, b[i], j);
        lemma_size_before_mono(a, j + 1, i);
        assert(size_before(a, j + 1) == size_before(a, j) + tree_size(a[j]));
        assert(numbered_tree(a[j], start + size_before(a, j)));
        assert(b[j] == mid[j]);
        lemma_renumbered_tree(a, mid, j, j, start + size_before(a, j), q, 1);
    } else if j > i {
        lemma_size_update(mid, i, b[i], j);
        lemma_size_before_mono(a, i + 1, j);
        assert(numbered_tree(a[j], start + size_before(a, j)));
        assert(b[j] == mid[j]);
        lemma_renumbered_tree(a, mid, j, j, start + size_before(a, j), q, 1);
    } else {
        lemma_size_update(mid, i, b[i], j);
        if t.id == p {
            lemma_renumbered_numbered(t.tasks@, m.tasks@, p + 1, q, 1);
            assert forall|k: int| #![trigger c[k]] 0 <= k < c.len() implies numbered_tree(
                c[k],
                p + 1 + size_before(c, k),
            ) by {
                lemma_size_before_prefix(c, m.tasks@, k);
                if k < c.len() - 1 {
                    assert(c[k] == m.tasks@[k]);
                } else {
                    lemma_size_before_prefix(c, m.tasks@, m.tasks@.len() as int);
                    assert(c[k] == c.last());
                }
            }
        }
    }
}

/// Moving ids up leaves every id below `from` present.
pub proof fn lemma_renumbered_has_fwd(a: Seq<TaskItem>, b: Seq<TaskItem>, from: int, x: int)
    requires
        renumbered(a, b, from, 1),
        has_id(a, x),
        x < from,
    ensures
        has_id(b, x),
    decreases a,
{
    let i = choose|i: int| #![trigger a[i]] 0 <= i < a.len() && (a[i].id == x || has_id(a[i].tasks@, x));
    assert(renumbered_node(a[i], b[i], from, 1));
    if a[i].id != x {
        lemma_renumbered_has_fwd(a[i].tasks@, b[i].tasks@, from, x);
    }
    assert(b[i].id == x || has_id(b[i].tasks@, x));
}

/// Swapping one node for another with the same id, links and shape keeps the shape.
pub proof fn lemma_swapped_shape(a: Seq<TaskItem>, b: Seq<TaskItem>, o: TaskItem, k: int, n: TaskItem)
    requires
        swapped_at(a, b, o, k, n),
        n.id == o.id,
        n.parent == o.parent,
        n.indentation == o.indentation,
        same_shape(o.tasks@, n.tasks@),
    ensures
        same_shape(a, b),
    decreases a,
{
    if 0 <= k < a.len() && a[k] == o && b == a.update(k, n) {
        assert forall|j: int| 0 <= j < a.len() implies b[j].id == a[j].id && b[j].parent == a[j].parent
            && b[j].indentation == a[j].indentation && same_shape(#[trigger] a[j].tasks@, b[j].tasks@) by {
            if j != k {
                lemma_shape_refl(a[j].tasks@);
            }
        }
    } else {
        let i = choose|i: int|
            #![trigger a[i]]
            0 <= i < a.len() && b.len() == a.len() && b == a.update(i, b[i]) && same_except_tasks(
                a[i],
                b[i],
            ) && swapped_at(a[i].tasks@, b[i].tasks@, o, k, n);
        lemma_swapped_shape(a[i].tasks@, b[i].tasks@, o, k, n);
        assert forall|j: int| 0 <= j < a.len() implies b[j].id == a[j].id && b[j].parent == a[j].parent
            && b[j].indentation == a[j].indentation && same_shape(#[trigger] a[j].tasks@, b[j].tasks@) by {
            if j != i {
                lemma_shape_refl(a[j].tasks@);
            }
        }
    }
}

/// A node held in the forest has its id present.
pub proof fn lemma_holds_has(ts: Seq<TaskItem>, t: TaskItem, k: int)
    requires
        holds_node(ts, t, k),
    ensures
        has_id(ts, t.id as int),
    decreases ts,
{
    if 0 <= k < ts.len() && ts[k] == t {
        assert(ts[k].id == t.id);
    } else {
        let i = choose|i: int| #![trigger ts[i]] 0 <= i < ts.len() && holds_node(ts[i].tasks@, t, k);
        lemma_holds_has(ts[i].tasks@, t, k);
        assert(has_id(ts[i].tasks@, t.id as int));
    }
}

/// In a numbered forest two nodes with the same id are the same node, at the same index.
pub proof fn lemma_node_unique(ts: Seq<TaskItem>, start: int, t1: TaskItem, k1: int, t2: TaskItem, k2: int)
    requires
        numbered_forest(ts, start),
        holds_node(ts, t1, k1),
        holds_node(ts, t2, k2),
        t1.id == t2.id,
    ensures
        t1 == t2,
        k1 == k2,
    decreases ts,
{
    let x = t1.id as int;
    let top1 = 0 <= k1 < ts.len() && ts[k1] == t1;
    let top2 = 0 <= k2 < ts.len() && ts[k2] == t2;
    if top1 && top2 {
        lemma_tree_range(ts, start, k1, x);
        lemma_tree_range(ts, start, k2, x);
        lemma_range_unique(ts, k1, k2, x - start);
    } else if top1 {
        let i = choose|i: int| #![trigger ts[i]] 0 <= i < ts.len() && holds_node(ts[i].tasks@, t2, k2);
        lemma_holds_has(ts[i].tasks@, t2, k2);
        lemma_tree_range(ts, start, k1, x);
        lemma_tree_range(ts, start, i, x);
        lemma_range_unique(ts, k1, i, x - start);
        assert(numbered_tree(ts[i], start + size_before(ts, i)));
        lemma_numbered_has_id(ts[i].tasks@, ts[i].id + 1, x);
    } else if top2 {
        let i = choose|i: int| #![trigger ts[i]] 0 <= i < ts.len() && holds_node(ts[i].tasks@, t1, k1);
        lemma_holds_has(ts[i].tasks@, t1, k1);
        lemma_tree_range(ts, start, k2, x);
        lemma_tree_range(ts, start, i, x);
        lemma_range_unique(ts, k2, i, x - start);
        assert(numbered_tree(ts[i], start + size_before(ts, i)));
        lemma_numbered_has_id(ts[i].tasks@, ts[i].id + 1, x);
    } else {
        let i = choose|i: int| #![trigger ts[i]] 0 <= i < ts.len() && holds_node(ts[i].tasks@, t1, k1);
        let j = choose|j: int| #![trigger ts[j]] 0 <= j < ts.len() && holds_node(ts[j].tasks@, t2, k2);
        lemma_holds_has(ts[i].tasks@, t1, k1);
        lemma_holds_has(ts[j].tasks@, t2, k2);
        lemma_tree_range(ts, start, i, x);
        lemma_tree_range(ts, start, j, x);
        lemma_range_unique(ts, i, j, x - start);
        assert(numbered_tree(ts[i], start + size_before(ts, i)));
        lemma_node_unique(ts[i].tasks@, ts[i].id + 1, t1, k1, t2, k2);
    }
}

/// A node found by id in a numbered forest is the node of that id.
pub proof fn lemma_node_of(ts: Seq<TaskItem>, start: int, t: TaskItem, k: int)
    requires
        numbered_forest(ts, start),
        holds_node(ts, t, k),
    ensures
        node_of(ts, t.id as int) == t,
{
    assert(is_node_with_id(ts, t, t.id as int));
    let o = node_of(ts, t.id as int);
    let ko = choose|ko: int| #[trigger] holds_node(ts, o, ko) && o.id == t.id;
    lemma_node_unique(ts, start, t, k, o, ko);
}

/// A present id belongs to some node of the forest.
pub proof fn lemma_has_holds(ts: Seq<TaskItem>, x: int) -> (r: (TaskItem, int))
    requires
        has_id(ts, x),
    ensures
        holds_node(ts, r.0, r.1),
        r.0.id == x,
    decreases ts,
{
    let i = choose|i: int| #![trigger ts[i]] 0 <= i < ts.len() && (ts[i].id == x || has_id(ts[i].tasks@, x));
    if ts[i].id == x {
        (ts[i], i)
    } else {
        let r = lemma_has_holds(ts[i].tasks@, x);
        assert(holds_node(ts[i].tasks@, r.0, r.1));
        r
    }
}

/// Every node of a numbered forest is numbered from its own id.
pub proof fn lemma_node_numbered(ts: Seq<TaskItem>, start: int, t: TaskItem, k: int)
    requires
        numbered_forest(ts, start),
        holds_node(ts, t, k),
    ensures
        numbered_tree(t, t.id as int),
    decreases ts,
{
    if 0 <= k < ts.len() && ts[k] == t {
        assert(numbered_tree(ts[k], start + size_before(ts, k)));
    } else {
        let i = choose|i: int| #![trigger ts[i]] 0 <= i < ts.len() && holds_node(ts[i].tasks@, t, k);
        assert(numbered_tree(ts[i], start + size_before(ts, i)));
        lemma_node_numbered(ts[i].tasks@, ts[i].id + 1, t, k);
    }
}

/// The first `i` trees of a forest hold no more nodes than the first `j`.
pub proof fn lemma_size_before_mono(ts: Seq<TaskItem>, i: int, j: int)
    requires
        0 <= i <= j <= ts.len(),
    ensures
        size_before(ts, i) <= size_before(ts, j),
    decreases j - i,
{
    if i < j {
        lemma_size_before_mono(ts, i, j - 1);
    }
}

/// A subtree holds no more done nodes than nodes.
pub proof fn lemma_tree_done_le_size(t: TaskItem)
    ensures
        tree_done(t) <= tree_size(t),
    decreases t,
{
    lemma_done_le_size_before(t.tasks@, t.tasks@.len() as int);
}

/// The first `i` trees of a forest hold no more done nodes than nodes.
pub proof fn lemma_done_le_size_before(ts: Seq<TaskItem>, i: int)
    ensures
        done_before(ts, i) <= size_before(ts, i),
    decreases ts, i,
{
    if 0 < i <= ts.len() {
        lemma_done_le_size_before(ts, i - 1);
        lemma_tree_done_le_size(ts[i - 1]);
    }
}

/// A node of a forest where only nodes with subtasks are folded is itself such a node.
pub proof fn lemma_node_fold_valid(ts: Seq<TaskItem>, t: TaskItem, k: int)
    requires
        fold_valid(ts),
        holds_node(ts, t, k),
    ensures
        t.folded ==> t.tasks@.len() > 0,
        fold_valid(t.tasks@),
    decreases ts,
{
    if !(0 <= k < ts.len() && ts[k] == t) {
        let i = choose|i: int| #![trigger ts[i]] 0 <= i < ts.len() && holds_node(ts[i].tasks@, t, k);
        lemma_node_fold_valid(ts[i].tasks@, t, k);
    }
}

/// Setting `done` everywhere changes no fold.
pub proof fn lemma_all_set_fold_valid(a: Seq<TaskItem>, b: Seq<TaskItem>, v: bool)
    requires
        all_set_done(a, b, v),
        fold_valid(a),
    ensures
        fold_valid(b),
    decreases a,
{
    assert forall|i: int| #![trigger b[i]] 0 <= i < b.len() implies (b[i].folded ==> b[i].tasks@.len()
        > 0) && fold_valid(b[i].tasks@) by {
        assert(all_set_done(a[i].tasks@, b[i].tasks@, v));
        lemma_all_set_fold_valid(a[i].tasks@, b[i].tasks@, v);
    }
}

/// Re-deriving completion changes no fold when the change at the target changes none.
pub proof fn lemma_resynced_fold_valid(
    a: Seq<TaskItem>,
    b: Seq<TaskItem>,
    x: int,
    f: spec_fn(TaskItem, TaskItem) -> bool,
)
    requires
        resynced(a, b, x, f),
        fold_valid(a),
        forall|o: TaskItem, n: TaskItem|
            #[trigger] f(o, n) && (o.folded ==> o.tasks@.len() > 0) && fold_valid(o.tasks@) ==> (
            n.folded ==> n.tasks@.len() > 0) && fold_valid(n.tasks@),
    ensures
        fold_valid(b),
    decreases a,
{
    let i = choose|i: int|
        #![trigger a[i]]
        0 <= i < a.len() && b.len() == a.len() && b == a.update(i, b[i]) && if a[i].id == x {
            f(a[i], b[i])
        } else {
            &&& same_except_tasks_done(a[i], b[i])
            &&& b[i].done == all_done(b[i].tasks@)
            &&& resynced(a[i].tasks@, b[i].tasks@, x, f)
        };
    if a[i].id != x {
        lemma_resynced_fold_valid(a[i].tasks@, b[i].tasks@, x, f);
        assert(b[i].tasks@.len() == a[i].tasks@.len());
    }
    assert forall|j: int| #![trigger b[j]] 0 <= j < b.len() implies (b[j].folded ==> b[j].tasks@.len()
        > 0) && fold_valid(b[j].tasks@) by {
        if j != i {
            assert(b[j] == a[j]);
        }
    }
}

/// Swapping in a node that keeps the fold rule keeps it for the forest.
pub proof fn lemma_swapped_fold_valid(a: Seq<TaskItem>, b: Seq<TaskItem>, o: TaskItem, k: int, n: TaskItem)
    requires
        swapped_at(a, b, o, k, n),
        fold_valid(a),
        n.folded ==> n.tasks@.len() > 0,
        fold_valid(n.tasks@),
    ensures
        fold_valid(b),
        b.len() == a.len(),
    decreases a,
{
    if 0 <= k < a.len() && a[k] == o && b == a.update(k, n) {
        assert forall|j: int| #![trigger b[j]] 0 <= j < b.len() implies (b[j].folded
            ==> b[j].tasks@.len() > 0) && fold_valid(b[j].tasks@) by {
            if j != k {
                assert(b[j] == a[j]);
            }
        }
    } else {
        let i = choose|i: int|
            #![trigger a[i]]
            0 <= i < a.len() && b.len() == a.len() && b == a.update(i, b[i]) && same_except_tasks(
                a[i],
                b[i],
            ) && swapped_at(a[i].tasks@, b[i].tasks@, o, k, n);
        lemma_swapped_fold_valid(a[i].tasks@, b[i].tasks@, o, k, n);
        assert forall|j: int| #![trigger b[j]] 0 <= j < b.len() implies (b[j].folded
            ==> b[j].tasks@.len() > 0) && fold_valid(b[j].tasks@) by {
            if j != i {
                assert(b[j] == a[j]);
            }
        }
    }
}

/// Renumbering changes no fold.
pub proof fn lemma_renumbered_fold_valid(a: Seq<TaskItem>, b: Seq<TaskItem>, from: int, by: int)
    requires
        renumbered(a, b, from, by),
        fold_valid(a),
    ensures
        fold_valid(b),
    decreases a,
{
    assert forall|i: int| #![trigger b[i]] 0 <= i < b.len() implies (b[i].folded ==> b[i].tasks@.len()
        > 0) && fold_valid(b[i].tasks@) by {
        assert(renumbered_node(a[i], b[i], from, by));
        assert(renumbered(a[i].tasks@, b[i].tasks@, from, by));
        lemma_renumbered_fold_valid(a[i].tasks@, b[i].tasks@, from, by);
    }
}

/// Taking a subtree out, and unfolding a node it leaves without subtasks, keeps the fold rule.
pub proof fn lemma_cut_fold_valid(a: Seq<TaskItem>, mid: Seq<TaskItem>, x: int, amount: int)
    requires
        cut_out(a, mid, x, amount),
        fold_valid(a),
    ensures
        fold_valid(mid),
    decreases a,
{
    let i = choose|i: int|
        #![trigger a[i]]
        0 <= i < a.len() && if a[i].id == x {
            mid == a.remove(i) && amount == tree_size(a[i])
        } else {
            &&& mid.len() == a.len()
            &&& mid == a.update(i, mid[i])
            &&& pruned(a[i], mid[i])
            &&& cut_out(a[i].tasks@, mid[i].tasks@, x, amount)
        };
    if a[i].id != x {
        lemma_cut_fold_valid(a[i].tasks@, mid[i].tasks@, x, amount);
    }
    assert forall|j: int| #![trigger mid[j]] 0 <= j < mid.len() implies (mid[j].folded
        ==> mid[j].tasks@.len() > 0) && fold_valid(mid[j].tasks@) by {
        if a[i].id == x {
            if j >= i {
                assert(mid[j] == a[j + 1]);
            } else {
                assert(mid[j] == a[j]);
            }
        } else if j != i {
            assert(mid[j] == a[j]);
        }
    }
}

/// Appending a fresh leaf keeps the fold rule.
pub proof fn lemma_appended_fold_valid(a: Seq<TaskItem>, b: Seq<TaskItem>, p: int, q: int, name: String)
    requires
        appended(a, b, p, q, name),
        fold_valid(a),
    ensures
        fold_valid(b),
    decreases a,
{
    let i = choose|i: int|
        #![trigger a[i]]
        0 <= i < a.len() && b.len() == a.len() && b == a.update(i, b[i]) && same_except_tasks(
            a[i],
            b[i],
        ) && if a[i].id == p {
            &&& b[i].tasks@ == a[i].tasks@.push(b[i].tasks@.last())
            &&& fresh_leaf(b[i].tasks@.last(), q, p, a[i].indentation + 1, name)
        } else {
            appended(a[i].tasks@, b[i].tasks@, p, q, name)
        };
    if a[i].id == p {
        let c = b[i].tasks@;
        assert(fold_valid(a[i].tasks@));
        assert forall|j: int| #![trigger c[j]] 0 <= j < c.len() implies (c[j].folded
            ==> c[j].tasks@.len() > 0) && fold_valid(c[j].tasks@) by {
            if j < c.len() - 1 {
                assert(c[j] == a[i].tasks@[j]);
            } else {
                assert(c[j] == c.last());
                assert(c[j].tasks@.len() == 0 && !c[j].folded);
            }
        }
    } else {
        lemma_appended_fold_valid(a[i].tasks@, b[i].tasks@, p, q, name);
        lemma_appended_len(a[i].tasks@, b[i].tasks@, p, q, name);
    }
    assert forall|j: int| #![trigger b[j]] 0 <= j < b.len() implies (b[j].folded ==> b[j].tasks@.len()
        > 0) && fold_valid(b[j].tasks@) by {
        if j != i {
            assert(b[j] == a[j]);
        }
    }
}

/// Appending keeps the number of trees in a sibling list.
pub proof fn lemma_appended_len(a: Seq<TaskItem>, b: Seq<TaskItem>, p: int, q: int, name: String)
    requires
        appended(a, b, p, q, name),
    ensures
        b.len() == a.len(),
{
}

} // verus!
