use vstd::prelude::*;

verus! {

/// One task and, through `tasks`, the whole subtree of its subtasks.
pub struct TaskItem {
    pub id: usize,
    pub done: bool,
    pub name: String,
    pub indentation: usize,
    pub parent: isize,
    pub tasks: Vec<TaskItem>,
    pub folded: bool,
}

impl TaskItem {
    /// A fresh leaf task, not done and not folded, at depth zero.
    pub fn new(task_name: String, id_value: usize, parent_id: isize) -> (r: TaskItem)
        ensures
            r.id == id_value,
            !r.done,
            r.name == task_name,
            r.indentation == 0,
            r.parent == parent_id,
            r.tasks@.len() == 0,
            !r.folded,
    {
        TaskItem {
            id: id_value,
            done: false,
            name: task_name,
            indentation: 0,
            parent: parent_id,
            tasks: Vec::new(),
            folded: false,
        }
    }

    pub fn get_tasks(&self) -> (r: &Vec<TaskItem>)
        ensures
            r == &self.tasks,
    {
        &self.tasks
    }

    /// Whether all nodes of the forest `task`, at every depth, are marked complete; for a task
    /// without subtasks its own flag is also required.
    pub fn are_all_sub_tasks_done(&self, task: &Vec<TaskItem>) -> (r: bool)
        ensures
            r == ((self.tasks@.len() == 0 ==> self.done) && all_done(task@)),
        decreases task@,
    {
        let mut completed = true;
        if self.tasks.len() == 0 {
            completed = self.done;
        }
        let mut i: usize = 0;
        while i < task.len()
            invariant
                i <= task.len(),
                completed == ((self.tasks@.len() == 0 ==> self.done) && forall|j: int|
                    #![trigger task@[j]]
                    0 <= j < i ==> task@[j].done && all_done(task@[j].tasks@)),
            decreases task.len() - i,
        {
            proof {
                assert(decreases_to!(task@ => task@[i as int].tasks@));
            }
            let ghost before = completed;
            completed = completed && task[i].done;
            completed = completed && self.are_all_sub_tasks_done(&task[i].tasks);
            proof {
                assert(completed == (before && task@[i as int].done && all_done(task@[i as int].tasks@)));
            }
            i += 1;
        }
        completed
    }

    /// Flips the fold flag of a task that has subtasks; a leaf is left as it is.
    pub fn fold(&mut self)
        ensures
            same_except_tasks_folded(*old(self), *final(self)),
            final(self).tasks == old(self).tasks,
            final(self).folded == (old(self).folded != (old(self).tasks@.len() > 0)),
    {
        if self.tasks.len() == 0 {
            return;
        }
        self.folded = !self.folded;
    }
}

/// `o` with its fold flag flipped when it has subtasks.
pub open spec fn fold_flipped(o: TaskItem) -> TaskItem {
    TaskItem { folded: o.folded != (o.tasks@.len() > 0), ..o }
}

/// `o` renamed to `name`.
pub open spec fn renamed(o: TaskItem, name: String) -> TaskItem {
    TaskItem { name: name, ..o }
}

/// `a` and `b` agree on every field but `tasks` and `folded`.
pub open spec fn same_except_tasks_folded(a: TaskItem, b: TaskItem) -> bool {
    &&& a.id == b.id
    &&& a.done == b.done
    &&& a.name == b.name
    &&& a.indentation == b.indentation
    &&& a.parent == b.parent
}

/// Number of nodes in the subtree rooted at `t`, `t` included.
pub open spec fn tree_size(t: TaskItem) -> nat
    decreases t,
{
    1 + size_before(t.tasks@, t.tasks@.len() as int)
}

/// Number of nodes in the subtrees of the first `i` trees of `ts`.
pub open spec fn size_before(ts: Seq<TaskItem>, i: int) -> nat
    decreases ts, i,
{
    if i <= 0 || i > ts.len() {
        0
    } else {
        size_before(ts, i - 1) + tree_size(ts[i - 1])
    }
}

/// Number of nodes in a forest.
pub open spec fn forest_size(ts: Seq<TaskItem>) -> nat {
    size_before(ts, ts.len() as int)
}

/// Number of nodes marked done in the subtree rooted at `t`.
pub open spec fn tree_done(t: TaskItem) -> nat
    decreases t,
{
    (if t.done { 1nat } else { 0nat }) + done_before(t.tasks@, t.tasks@.len() as int)
}

/// Number of nodes marked done in the first `i` trees of `ts`.
pub open spec fn done_before(ts: Seq<TaskItem>, i: int) -> nat
    decreases ts, i,
{
    if i <= 0 || i > ts.len() {
        0
    } else {
        done_before(ts, i - 1) + tree_done(ts[i - 1])
    }
}

pub open spec fn forest_done(ts: Seq<TaskItem>) -> nat {
    done_before(ts, ts.len() as int)
}

/// Some node of the forest has id `x`.
pub open spec fn has_id(ts: Seq<TaskItem>, x: int) -> bool
    decreases ts,
{
    exists|i: int| #![trigger ts[i]] 0 <= i < ts.len() && (ts[i].id == x || has_id(ts[i].tasks@, x))
}

/// `t` is a node of the forest and stands at index `k` of its sibling list.
pub open spec fn holds_node(ts: Seq<TaskItem>, t: TaskItem, k: int) -> bool
    decreases ts,
{
    (0 <= k < ts.len() && ts[k] == t) || exists|i: int|
        #![trigger ts[i]]
        0 <= i < ts.len() && holds_node(ts[i].tasks@, t, k)
}

/// `a` and `b` agree on every field but `tasks`.
pub open spec fn same_except_tasks(a: TaskItem, b: TaskItem) -> bool {
    &&& a.id == b.id
    &&& a.done == b.done
    &&& a.name == b.name
    &&& a.indentation == b.indentation
    &&& a.parent == b.parent
    &&& a.folded == b.folded
}

/// `b` is `a` with the node `o`, standing at index `k` of its sibling list, replaced by `n`.
pub open spec fn swapped_at(a: Seq<TaskItem>, b: Seq<TaskItem>, o: TaskItem, k: int, n: TaskItem) -> bool
    decreases a,
{
    (0 <= k < a.len() && a[k] == o && b == a.update(k, n)) || exists|i: int|
        #![trigger a[i]]
        0 <= i < a.len() && b.len() == a.len() && b == a.update(i, b[i]) && same_except_tasks(
            a[i],
            b[i],
        ) && swapped_at(a[i].tasks@, b[i].tasks@, o, k, n)
}

/// Every node of the forest is done.
pub open spec fn all_done(ts: Seq<TaskItem>) -> bool
    decreases ts,
{
    forall|i: int| #![trigger ts[i]] 0 <= i < ts.len() ==> ts[i].done && all_done(ts[i].tasks@)
}

/// Completion consistency: every node with subtasks is done exactly when all the nodes below
/// it are done.
pub open spec fn consistent(ts: Seq<TaskItem>) -> bool
    decreases ts,
{
    forall|i: int|
        #![trigger ts[i]]
        0 <= i < ts.len() ==> (ts[i].tasks@.len() > 0 ==> ts[i].done == all_done(ts[i].tasks@))
            && consistent(ts[i].tasks@)
}

/// Only a node with subtasks is folded, throughout the forest.
pub open spec fn fold_valid(ts: Seq<TaskItem>) -> bool
    decreases ts,
{
    forall|i: int|
        #![trigger ts[i]]
        0 <= i < ts.len() ==> (ts[i].folded ==> ts[i].tasks@.len() > 0) && fold_valid(ts[i].tasks@)
}

/// `a` and `b` agree on every field but `tasks` and `done`.
pub open spec fn same_except_tasks_done(a: TaskItem, b: TaskItem) -> bool {
    &&& a.id == b.id
    &&& a.name == b.name
    &&& a.indentation == b.indentation
    &&& a.parent == b.parent
    &&& a.folded == b.folded
}

/// `b` is the forest `a` with every node's `done` set to `v`.
pub open spec fn all_set_done(a: Seq<TaskItem>, b: Seq<TaskItem>, v: bool) -> bool
    decreases a,
{
    a.len() == b.len() && forall|i: int|
        #![trigger a[i]]
        0 <= i < a.len() ==> same_except_tasks_done(a[i], b[i]) && b[i].done == v && all_set_done(
            a[i].tasks@,
            b[i].tasks@,
            v,
        )
}

/// `b` is `a` with the node of id `x` changed as `f` relates old node to new node, and every
/// ancestor of it re-derived: done exactly when all of its descendants are done.
pub open spec fn resynced(
    a: Seq<TaskItem>,
    b: Seq<TaskItem>,
    x: int,
    f: spec_fn(TaskItem, TaskItem) -> bool,
) -> bool
    decreases a,
{
    exists|i: int|
        #![trigger a[i]]
        0 <= i < a.len() && b.len() == a.len() && b == a.update(i, b[i]) && if a[i].id == x {
            f(a[i], b[i])
        } else {
            &&& same_except_tasks_done(a[i], b[i])
            &&& b[i].done == all_done(b[i].tasks@)
            &&& resynced(a[i].tasks@, b[i].tasks@, x, f)
        }
}

/// How a change of completion treats its target node.
pub open spec fn done_changed(o: TaskItem, n: TaskItem, completed: Option<bool>) -> bool {
    let v = match completed {
        Some(v) => v,
        None => !o.done,
    };
    same_except_tasks_done(o, n) && n.done == v && all_set_done(o.tasks@, n.tasks@, v)
}

/// `b` is `a` with the node of id `x` set to `completed` (or flipped when `None`), the value
/// forced on all its descendants, and its ancestors re-derived.
pub open spec fn toggled(a: Seq<TaskItem>, b: Seq<TaskItem>, x: int, completed: Option<bool>) -> bool {
    resynced(a, b, x, |o: TaskItem, n: TaskItem| done_changed(o, n, completed))
}

/// `b` is `a` with the node of id `x` and its ancestors re-derived from their descendants,
/// a leaf keeping its own `done`.
pub open spec fn rechecked(a: Seq<TaskItem>, b: Seq<TaskItem>, x: int) -> bool {
    resynced(
        a,
        b,
        x,
        |o: TaskItem, n: TaskItem|
            same_except_tasks_done(o, n) && n.tasks == o.tasks && n.done == if o.tasks@.len() == 0 {
                o.done
            } else {
                all_done(o.tasks@)
            },
    )
}

/// `b` has the shape and ids of `a`, node for node.
pub open spec fn same_shape(a: Seq<TaskItem>, b: Seq<TaskItem>) -> bool
    decreases a,
{
    a.len() == b.len() && forall|i: int|
        #![trigger a[i]]
        0 <= i < a.len() ==> b[i].id == a[i].id && b[i].parent == a[i].parent
            && b[i].indentation == a[i].indentation && same_shape(a[i].tasks@, b[i].tasks@)
}

/// Each node's `parent` is the id of the node holding it (`parent` for the forest's own
/// trees) and its `indentation` is its depth (`depth` for the forest's own trees).
pub open spec fn linked_forest(ts: Seq<TaskItem>, parent: int, depth: int) -> bool
    decreases ts,
{
    forall|i: int|
        #![trigger ts[i]]
        0 <= i < ts.len() ==> ts[i].parent == parent && ts[i].indentation == depth && linked_forest(
            ts[i].tasks@,
            ts[i].id as int,
            depth + 1,
        )
}

/// Every node's id lies in `[lo, hi)`.
pub open spec fn ids_within(ts: Seq<TaskItem>, lo: int, hi: int) -> bool
    decreases ts,
{
    forall|i: int|
        #![trigger ts[i]]
        0 <= i < ts.len() ==> lo <= ts[i].id < hi && ids_within(ts[i].tasks@, lo, hi)
}

/// Every node's id, parent and depth lie below `hi`, and its depth is at most its id.
pub open spec fn bounded(ts: Seq<TaskItem>, hi: int) -> bool
    decreases ts,
{
    forall|i: int|
        #![trigger ts[i]]
        0 <= i < ts.len() ==> ts[i].id < hi && ts[i].parent < hi && ts[i].indentation <= ts[i].id
            && bounded(ts[i].tasks@, hi)
}

/// `x` moved by `by` when it is at least `from`.
pub open spec fn shift_id(x: int, from: int, by: int) -> int {
    if x >= from {
        x + by
    } else {
        x
    }
}

/// `b` is `a` with its id and parent reference moved by `by` where they are at least `from`.
pub open spec fn renumbered_node(a: TaskItem, b: TaskItem, from: int, by: int) -> bool {
    &&& b.id == shift_id(a.id as int, from, by)
    &&& b.parent == shift_id(a.parent as int, from, by)
    &&& b.done == a.done
    &&& b.name == a.name
    &&& b.indentation == a.indentation
    &&& b.folded == a.folded
}

/// `b` is the forest `a` with every id and parent reference that is at least `from` moved by
/// `by`, and nothing else changed.
pub open spec fn renumbered(a: Seq<TaskItem>, b: Seq<TaskItem>, from: int, by: int) -> bool
    decreases a,
{
    a.len() == b.len() && forall|i: int|
        #![trigger a[i]]
        0 <= i < a.len() ==> renumbered_node(a[i], b[i], from, by) && renumbered(
            a[i].tasks@,
            b[i].tasks@,
            from,
            by,
        )
}

/// No node's id lies in `[lo, hi)`.
pub open spec fn ids_clear(ts: Seq<TaskItem>, lo: int, hi: int) -> bool
    decreases ts,
{
    forall|i: int|
        #![trigger ts[i]]
        0 <= i < ts.len() ==> !(lo <= ts[i].id < hi) && ids_clear(ts[i].tasks@, lo, hi)
}

/// `b` is the node `a` after a removal below it: every field but `tasks` kept, except that a
/// node left without subtasks is no longer folded.
pub open spec fn pruned(a: TaskItem, b: TaskItem) -> bool {
    &&& same_except_tasks_folded(a, b)
    &&& b.folded == (a.folded && b.tasks@.len() > 0)
}

/// `b` is `a` with the subtree whose root has id `x` taken out of its sibling list; that
/// subtree held `amount` nodes, and a node left without subtasks is unfolded.
pub open spec fn cut_out(a: Seq<TaskItem>, b: Seq<TaskItem>, x: int, amount: int) -> bool
    decreases a,
{
    exists|i: int|
        #![trigger a[i]]
        0 <= i < a.len() && if a[i].id == x {
            b == a.remove(i) && amount == tree_size(a[i])
        } else {
            &&& b.len() == a.len()
            &&& b == a.update(i, b[i])
            &&& pruned(a[i], b[i])
            &&& cut_out(a[i].tasks@, b[i].tasks@, x, amount)
        }
}

/// `b` is `a` with the subtree of id `x`, of `amount` nodes, removed, and every id and parent
/// reference above `x` moved down by `amount`.
pub open spec fn removed(a: Seq<TaskItem>, b: Seq<TaskItem>, x: int, amount: int) -> bool {
    exists|mid: Seq<TaskItem>| cut_out(a, mid, x, amount) && renumbered(mid, b, x + 1, -amount)
}

/// `t` is a new leaf task named `name` with the given id, parent and depth.
pub open spec fn fresh_leaf(t: TaskItem, id: int, parent: int, depth: int, name: String) -> bool {
    &&& t.id == id
    &&& t.parent == parent
    &&& t.indentation == depth
    &&& !t.done
    &&& !t.folded
    &&& t.name == name
    &&& t.tasks@.len() == 0
}

/// The subtree of the node of id `p` ends just before id `q`.
pub open spec fn ends_at(a: Seq<TaskItem>, p: int, q: int) -> bool
    decreases a,
{
    exists|i: int|
        #![trigger a[i]]
        0 <= i < a.len() && ((a[i].id == p && q == p + tree_size(a[i])) || ends_at(
            a[i].tasks@,
            p,
            q,
        ))
}

/// `b` is `a` with a fresh leaf of id `q`, named `name`, appended to the subtasks of the node
/// of id `p`.
pub open spec fn appended(a: Seq<TaskItem>, b: Seq<TaskItem>, p: int, q: int, name: String) -> bool
    decreases a,
{
    exists|i: int|
        #![trigger a[i]]
        0 <= i < a.len() && b.len() == a.len() && b == a.update(i, b[i]) && same_except_tasks(
            a[i],
            b[i],
        ) && if a[i].id == p {
            &&& b[i].tasks@ == a[i].tasks@.push(b[i].tasks@.last())
            &&& fresh_leaf(b[i].tasks@.last(), q, p, a[i].indentation + 1, name)
        } else {
            appended(a[i].tasks@, b[i].tasks@, p, q, name)
        }
}

/// `b` is `a` with every id and parent reference from `q` on moved up by one, and a fresh leaf
/// of id `q`, named `name`, appended to the subtasks of the node of id `p`.
pub open spec fn grafted(a: Seq<TaskItem>, b: Seq<TaskItem>, p: int, q: int, name: String) -> bool {
    exists|mid: Seq<TaskItem>| renumbered(a, mid, q, 1) && appended(mid, b, p, q, name)
}

/// The node of id `x`, in a forest where there is exactly one.
pub open spec fn node_of(ts: Seq<TaskItem>, x: int) -> TaskItem {
    choose|t: TaskItem| #[trigger] is_node_with_id(ts, t, x)
}

/// `t` is a node of the forest and has id `x`.
pub open spec fn is_node_with_id(ts: Seq<TaskItem>, t: TaskItem, x: int) -> bool {
    exists|k: int| #[trigger] holds_node(ts, t, k) && t.id == x
}

/// The ids of the subtree at `t` are `start, start + 1, ...` in pre-order.
pub open spec fn numbered_tree(t: TaskItem, start: int) -> bool
    decreases t,
{
    t.id == start && numbered_forest(t.tasks@, start + 1)
}

/// The ids of the forest are `start, start + 1, ...` in pre-order.
pub open spec fn numbered_forest(ts: Seq<TaskItem>, start: int) -> bool
    decreases ts,
{
    forall|i: int|
        #![trigger ts[i]]
        0 <= i < ts.len() ==> numbered_tree(ts[i], start + size_before(ts, i))
}

} // verus!
