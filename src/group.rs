use vstd::prelude::*;

use crate::store::DataManager;
use crate::forest_lemmas::{
    lemma_cut_fold_valid, lemma_renumbered_fold_valid, lemma_appended_fold_valid,
    lemma_swapped_holds, lemma_node_fold_valid, lemma_swapped_fold_valid,
    lemma_done_le_size_before, lemma_bounded, lemma_bounded_widen, lemma_ends_at_node,
    lemma_ends_at_range, lemma_renumbered_bounded, lemma_renumbered_has_fwd,
    lemma_renumbered_numbered, lemma_graft_numbered, lemma_appended_linked,
    lemma_size_before_prefix, lemma_shape_refl, lemma_swapped_shape, lemma_shape_numbered,
    lemma_shape_linked, lemma_cut_clear, lemma_cut_numbered, lemma_cut_linked,
    lemma_renumbered_linked, lemma_numbered_has_id, lemma_toggled_numbered,
    lemma_rechecked_numbered, lemma_subforest_size, lemma_size_before_mono,
};
use crate::task::{
    fold_valid,
    TaskItem, done_before, forest_done, forest_size, fold_flipped, renamed, appended, ends_at,
    fresh_leaf, grafted, numbered_tree, cut_out, removed, linked_forest, ids_clear, renumbered,
    renumbered_node, bounded, all_set_done, same_except_tasks_done, rechecked, toggled,
    numbered_forest, has_id, holds_node, swapped_at, size_before, tree_done, tree_size,
};

verus! {

/// A named group owning one forest of tasks.
pub struct GroupItem {
    pub id: usize,
    pub name: String,
    pub tasks: Vec<TaskItem>,
}

impl GroupItem {
    /// An empty group whose id is its position: the number of groups already in the store.
    pub fn new(data_manager: &DataManager) -> (r: GroupItem)
        ensures
            r.id == data_manager.groups@.len(),
            r.name@.len() == 0,
            r.tasks@.len() == 0,
            r.wf(),
    {
        GroupItem { id: data_manager.get_group_items().len(), name: String::new(), tasks: Vec::new() }
    }

    pub fn get_tasks(&self) -> (r: &Vec<TaskItem>)
        ensures
            r == &self.tasks,
    {
        &self.tasks
    }

    pub fn get_tasks_mut(&mut self) -> (r: &mut Vec<TaskItem>)
        ensures
            *r == old(self).tasks,
            final(self).tasks == *final(r),
            final(self).id == old(self).id,
            final(self).name == old(self).name,
    {
        &mut self.tasks
    }

    /// Whether the forest is well formed: densely numbered, linked, and small enough.
    pub fn is_well_formed(&self) -> (r: bool)
        requires
            forest_size(self.tasks@) <= usize::MAX,
        ensures
            r == self.wf(),
    {
        let count = GroupItem::get_tasks_and_subtasks_count_recursive(&self.tasks).0;
        if count >= isize::MAX as usize {
            return false;
        }
        let (numbered, _) = DataManager::check_data_integrity_recursive(&self.tasks, 0);
        numbered && GroupItem::check_links(&self.tasks, -1, 0) && GroupItem::check_folds(&self.tasks)
    }

    /// Whether only nodes with subtasks are folded.
    fn check_folds(tasks: &Vec<TaskItem>) -> (r: bool)
        ensures
            r == fold_valid(tasks@),
        decreases tasks@,
    {
        let mut i: usize = 0;
        while i < tasks.len()
            invariant
                i <= tasks.len(),
                forall|j: int|
                    #![trigger tasks@[j]]
                    0 <= j < i ==> (tasks@[j].folded ==> tasks@[j].tasks@.len() > 0) && fold_valid(
                        tasks@[j].tasks@,
                    ),
            decreases tasks.len() - i,
        {
            let task = &tasks[i];
            proof {
                assert(decreases_to!(tasks@ => task.tasks@));
            }
            if task.folded && task.tasks.len() == 0 {
                return false;
            }
            if !GroupItem::check_folds(&task.tasks) {
                return false;
            }
            i += 1;
        }
        true
    }

    /// Whether each node's parent is the node holding it (`parent` at the top) and its
    /// indentation its depth (`depth` at the top).
    fn check_links(tasks: &Vec<TaskItem>, parent: isize, depth: usize) -> (r: bool)
        ensures
            r == linked_forest(tasks@, parent as int, depth as int),
        decreases tasks@,
    {
        let mut ok = true;
        let mut i: usize = 0;
        while i < tasks.len()
            invariant
                i <= tasks.len(),
                ok == forall|j: int|
                    #![trigger tasks@[j]]
                    0 <= j < i ==> tasks@[j].parent == parent && tasks@[j].indentation == depth
                        && linked_forest(tasks@[j].tasks@, tasks@[j].id as int, depth + 1),
            decreases tasks.len() - i,
        {
            let task = &tasks[i];
            proof {
                assert(decreases_to!(tasks@ => task.tasks@));
            }
            let ghost before = ok;
            ok = ok && task.parent == parent && task.indentation == depth;
            if task.tasks.len() > 0 {
                if task.id > isize::MAX as usize || depth == usize::MAX {
                    proof {
                        assert(!linked_forest(task.tasks@, task.id as int, depth + 1)) by {
                            assert(task.tasks@[0].parent <= isize::MAX);
                            assert(task.tasks@[0].indentation <= usize::MAX);
                        }
                    }
                    ok = false;
                } else {
                    let below = GroupItem::check_links(&task.tasks, task.id as isize, depth + 1);
                    ok = ok && below;
                }
            }
            proof {
                assert(ok == (before && tasks@[i as int].parent == parent && tasks@[i as int].indentation
                    == depth && linked_forest(tasks@[i as int].tasks@, tasks@[i as int].id as int, depth + 1)));
            }
            i += 1;
        }
        ok
    }

    /// Counts the nodes of this group's forest and how many of them are done.
    pub fn get_tasks_and_subtasks_count(&self) -> (r: (usize, usize))
        requires
            forest_size(self.tasks@) <= usize::MAX,
        ensures
            r.0 == forest_size(self.tasks@),
            r.1 == forest_done(self.tasks@),
    {
        GroupItem::get_tasks_and_subtasks_count_recursive(&self.tasks)
    }

    /// Counts the nodes of the given forest and how many of them are done.
    pub fn get_tasks_and_subtasks_count_specific(&self, tasks: &Vec<TaskItem>) -> (r: (usize, usize))
        requires
            forest_size(tasks@) <= usize::MAX,
        ensures
            r.0 == forest_size(tasks@),
            r.1 == forest_done(tasks@),
    {
        GroupItem::get_tasks_and_subtasks_count_recursive(tasks)
    }

    /// The forest is numbered densely in pre-order from zero, each node's parent and depth
    /// match its place, only nodes with subtasks are folded, and it is small enough that its ids and one more fit in an `isize`.
    pub open spec fn wf(&self) -> bool {
        &&& numbered_forest(self.tasks@, 0)
        &&& linked_forest(self.tasks@, -1, 0)
        &&& fold_valid(self.tasks@)
        &&& forest_size(self.tasks@) < isize::MAX
    }

    /// Moves every id and parent reference above `removed_id` down by `amount_removed`, after the
    /// subtree that held ids `removed_id .. removed_id + amount_removed` was taken out.
    fn recalculate_tasks_ids_on_remove(
        tasks: &mut Vec<TaskItem>,
        removed_id: usize,
        amount_removed: usize,
    )
        requires
            ids_clear(old(tasks)@, removed_id as int, removed_id + amount_removed),
            removed_id < isize::MAX,
            amount_removed <= isize::MAX,
        ensures
            renumbered(old(tasks)@, final(tasks)@, removed_id + 1, -amount_removed),
        decreases old(tasks)@,
    {
        let ghost old_tasks = tasks@;
        let mut i: usize = 0;
        while i < tasks.len()
            invariant
                i <= tasks.len(),
                tasks@.len() == old_tasks.len(),
                old_tasks == old(tasks)@,
                ids_clear(old_tasks, removed_id as int, removed_id + amount_removed),
                removed_id < isize::MAX,
                amount_removed <= isize::MAX,
                forall|j: int| i <= j < tasks@.len() ==> tasks@[j] == old_tasks[j],
                forall|j: int|
                    #![trigger tasks@[j]]
                    0 <= j < i ==> renumbered_node(
                        old_tasks[j],
                        tasks@[j],
                        removed_id + 1,
                        -amount_removed,
                    ) && renumbered(
                        old_tasks[j].tasks@,
                        tasks@[j].tasks@,
                        removed_id + 1,
                        -amount_removed,
                    ),
            decreases tasks.len() - i,
        {
            assert(!(removed_id <= old_tasks[i as int].id < removed_id + amount_removed));
            if tasks[i].id > removed_id {
                tasks[i].id -= amount_removed;
            }
            if tasks[i].parent > removed_id as isize {
                tasks[i].parent -= amount_removed as isize;
            }
            proof {
                assert(tasks@[i as int].tasks@ == old_tasks[i as int].tasks@);
                assert(decreases_to!(old_tasks => old_tasks[i as int].tasks@));
            }
            GroupItem::recalculate_tasks_ids_on_remove(&mut tasks[i].tasks, removed_id, amount_removed);
            i += 1;
        }
        proof {
            assert forall|j: int| #![trigger old_tasks[j]] 0 <= j < old_tasks.len() implies renumbered_node(
                        old_tasks[j],
                        tasks@[j],
                        removed_id + 1,
                        -amount_removed,
                    ) && renumbered(
                        old_tasks[j].tasks@,
                        tasks@[j].tasks@,
                        removed_id + 1,
                        -amount_removed,
                    ) by {
                assert(tasks@[j] == tasks@[j]);
            }
        }
    }

    /// Moves every id and parent reference from `new_id` on up by one, making room for a node
    /// that takes id `new_id`.
    fn recalculate_tasks_ids_on_add(new_id: usize, tasks: &mut Vec<TaskItem>)
        requires
            bounded(old(tasks)@, isize::MAX as int),
            new_id <= isize::MAX,
        ensures
            renumbered(old(tasks)@, final(tasks)@, new_id as int, 1),
        decreases old(tasks)@,
    {
        let ghost old_tasks = tasks@;
        let mut i: usize = 0;
        while i < tasks.len()
            invariant
                i <= tasks.len(),
                tasks@.len() == old_tasks.len(),
                old_tasks == old(tasks)@,
                bounded(old_tasks, isize::MAX as int),
                new_id <= isize::MAX,
                forall|j: int| i <= j < tasks@.len() ==> tasks@[j] == old_tasks[j],
                forall|j: int|
                    #![trigger tasks@[j]]
                    0 <= j < i ==> renumbered_node(old_tasks[j], tasks@[j], new_id as int, 1)
                        && renumbered(old_tasks[j].tasks@, tasks@[j].tasks@, new_id as int, 1),
            decreases tasks.len() - i,
        {
            assert(old_tasks[i as int].id < isize::MAX && old_tasks[i as int].parent < isize::MAX);
            if tasks[i].id >= new_id {
                tasks[i].id += 1;
            }
            if tasks[i].parent >= new_id as isize {
                tasks[i].parent += 1;
            }
            proof {
                assert(tasks@[i as int].tasks@ == old_tasks[i as int].tasks@);
                assert(decreases_to!(old_tasks => old_tasks[i as int].tasks@));
            }
            GroupItem::recalculate_tasks_ids_on_add(new_id, &mut tasks[i].tasks);
            i += 1;
        }
        proof {
            assert forall|j: int| #![trigger old_tasks[j]] 0 <= j < old_tasks.len() implies renumbered_node(old_tasks[j], tasks@[j], new_id as int, 1)
                        && renumbered(old_tasks[j].tasks@, tasks@[j].tasks@, new_id as int, 1) by {
                assert(tasks@[j] == tasks@[j]);
            }
        }
    }

    /// Takes the subtree of id `task_id` out of its sibling list, returning how many nodes it
    /// held.
    fn cut_subtree(tasks: &mut Vec<TaskItem>, task_id: usize) -> (amount: usize)
        requires
            has_id(old(tasks)@, task_id as int),
            forest_size(old(tasks)@) <= isize::MAX,
        ensures
            cut_out(old(tasks)@, final(tasks)@, task_id as int, amount as int),
        decreases old(tasks)@,
    {
        let ghost old_tasks = tasks@;
        let mut i: usize = 0;
        while i < tasks.len()
            invariant
                i <= tasks.len(),
                tasks@ == old_tasks,
                old_tasks == old(tasks)@,
                forest_size(tasks@) <= isize::MAX,
                forall|j: int| 0 <= j < i ==> tasks@[j].id != task_id,
            decreases tasks.len() - i,
        {
            if tasks[i].id == task_id {
                proof {
                    lemma_subforest_size(tasks@, i as int);
                    assert(tree_size(tasks@[i as int]) == 1 + forest_size(tasks@[i as int].tasks@));
                }
                let amount = GroupItem::get_tasks_and_subtasks_count_recursive(&tasks[i].tasks).0 + 1;
                tasks.remove(i);
                return amount;
            }
            i += 1;
        }
        let mut i: usize = 0;
        while i < tasks.len()
            invariant
                i <= tasks.len(),
                tasks@ == old_tasks,
                old_tasks == old(tasks)@,
                forest_size(tasks@) <= isize::MAX,
                forall|j: int| 0 <= j < tasks.len() ==> tasks@[j].id != task_id,
                forall|j: int| 0 <= j < i ==> !has_id(#[trigger] tasks@[j].tasks@, task_id as int),
            decreases tasks.len() - i,
        {
            proof {
                lemma_subforest_size(tasks@, i as int);
            }
            if GroupItem::get_task_recursive_read_only(task_id, &tasks[i].tasks).is_ok() {
                proof {
                    assert(decreases_to!(old_tasks => tasks@[i as int].tasks@));
                }
                let amount = GroupItem::cut_subtree(&mut tasks[i].tasks, task_id);
                if tasks[i].tasks.len() == 0 {
                    tasks[i].folded = false;
                }
                proof {
                    assert(tasks@ == old_tasks.update(i as int, tasks@[i as int]));
                }
                return amount;
            }
            i += 1;
        }
        proof {
            assert(false);
        }
        0
    }

    /// Removes the given node with its whole subtree, then moves every later id (and every
    /// parent reference to one) down by the number of nodes removed, which it returns. A task
    /// left without subtasks is unfolded. The node is found by its id; its position among its
    /// siblings is not needed for that.
    pub fn remove_task(&mut self, task: (&TaskItem, isize)) -> (amount_removed: usize)
        requires
            old(self).wf(),
            task.0.id < forest_size(old(self).tasks@),
        ensures
            final(self).wf(),
            removed(old(self).tasks@, final(self).tasks@, task.0.id as int, amount_removed as int),
            forest_size(final(self).tasks@) == forest_size(old(self).tasks@) - amount_removed,
            final(self).id == old(self).id,
            final(self).name == old(self).name,
    {
        let removed_id = task.0.id;
        proof {
            lemma_numbered_has_id(self.tasks@, 0, removed_id as int);
        }
        let amount_removed = GroupItem::cut_subtree(&mut self.tasks, removed_id);
        let ghost mid = self.tasks@;
        proof {
            lemma_cut_clear(old(self).tasks@, mid, 0, removed_id as int, amount_removed as int);
        }
        GroupItem::recalculate_tasks_ids_on_remove(&mut self.tasks, removed_id, amount_removed);
        proof {
            lemma_cut_numbered(old(self).tasks@, mid, self.tasks@, 0, removed_id as int, amount_removed as int);
            lemma_cut_fold_valid(old(self).tasks@, mid, removed_id as int, amount_removed as int);
            lemma_renumbered_fold_valid(mid, self.tasks@, removed_id + 1, -amount_removed);
            lemma_cut_linked(old(self).tasks@, mid, -1, 0, removed_id as int, amount_removed as int);
            lemma_renumbered_linked(mid, self.tasks@, -1, 0, removed_id + 1, -amount_removed);
            assert(cut_out(old(self).tasks@, mid, removed_id as int, amount_removed as int)
                && renumbered(mid, self.tasks@, removed_id + 1, -amount_removed));
        }
        amount_removed
    }

    /// Appends a fresh leaf of id `new_id`, named `task_name`, to the subtasks of the node of
    /// id `parent_id`, one level deeper than it.
    fn append_at(tasks: &mut Vec<TaskItem>, parent_id: usize, new_id: usize, task_name: String)
        requires
            has_id(old(tasks)@, parent_id as int),
            bounded(old(tasks)@, isize::MAX as int),
            forest_size(old(tasks)@) <= isize::MAX,
        ensures
            appended(old(tasks)@, final(tasks)@, parent_id as int, new_id as int, task_name),
        decreases old(tasks)@,
    {
        let ghost old_tasks = tasks@;
        let mut i: usize = 0;
        while i < tasks.len()
            invariant
                i <= tasks.len(),
                tasks@ == old_tasks,
                old_tasks == old(tasks)@,
                bounded(old_tasks, isize::MAX as int),
                forall|j: int| 0 <= j < i ==> tasks@[j].id != parent_id,
            decreases tasks.len() - i,
        {
            if tasks[i].id == parent_id {
                let depth = tasks[i].indentation + 1;
                let mut leaf = TaskItem::new(task_name, new_id, parent_id as isize);
                leaf.indentation = depth;
                tasks[i].tasks.push(leaf);
                proof {
                    assert(tasks@ == old_tasks.update(i as int, tasks@[i as int]));
                }
                return;
            }
            i += 1;
        }
        let mut i: usize = 0;
        while i < tasks.len()
            invariant
                i <= tasks.len(),
                tasks@ == old_tasks,
                old_tasks == old(tasks)@,
                bounded(old_tasks, isize::MAX as int),
                forest_size(tasks@) <= isize::MAX,
                forall|j: int| 0 <= j < tasks.len() ==> tasks@[j].id != parent_id,
                forall|j: int| 0 <= j < i ==> !has_id(#[trigger] tasks@[j].tasks@, parent_id as int),
            decreases tasks.len() - i,
        {
            proof {
                lemma_subforest_size(tasks@, i as int);
            }
            if GroupItem::get_task_recursive_read_only(parent_id, &tasks[i].tasks).is_ok() {
                proof {
                    assert(decreases_to!(old_tasks => tasks@[i as int].tasks@));
                    assert(bounded(tasks@[i as int].tasks@, isize::MAX as int));
                }
                GroupItem::append_at(&mut tasks[i].tasks, parent_id, new_id, task_name);
                proof {
                    assert(tasks@ == old_tasks.update(i as int, tasks@[i as int]));
                }
                return;
            }
            i += 1;
        }
        proof {
            assert(false);
        }
    }

    /// Appends a new root task named `task_name`, with the next free id.
    pub fn add_task(&mut self, task_name: String)
        requires
            old(self).wf(),
            forest_size(old(self).tasks@) + 1 < isize::MAX,
        ensures
            final(self).wf(),
            final(self).tasks@ == old(self).tasks@.push(final(self).tasks@.last()),
            fresh_leaf(
                final(self).tasks@.last(),
                forest_size(old(self).tasks@) as int,
                -1,
                0,
                task_name,
            ),
            forest_size(final(self).tasks@) == forest_size(old(self).tasks@) + 1,
            final(self).id == old(self).id,
            final(self).name == old(self).name,
    {
        let count = GroupItem::get_tasks_and_subtasks_count(self).0;
        let task = TaskItem::new(task_name, count, -1);
        self.tasks.push(task);
        proof {
            let a = old(self).tasks@;
            let b = self.tasks@;
            let n = a.len() as int;
            lemma_size_before_prefix(b, a, n);
            assert(tree_size(b[n]) == 1 + forest_size(b[n].tasks@));
            assert(size_before(b, n + 1) == size_before(b, n) + tree_size(b[n]));
            assert forall|i: int| #![trigger b[i]] 0 <= i < b.len() implies numbered_tree(
                b[i],
                size_before(b, i) as int,
            ) by {
                lemma_size_before_prefix(b, a, i);
                if i < n {
                    assert(b[i] == a[i]);
                }
            }
            assert forall|i: int| #![trigger b[i]] 0 <= i < b.len() implies (b[i].folded
                ==> b[i].tasks@.len() > 0) && fold_valid(b[i].tasks@) by {
                if i < n {
                    assert(b[i] == a[i]);
                }
            }
            assert forall|i: int| #![trigger b[i]] 0 <= i < b.len() implies b[i].parent == -1
                && b[i].indentation == 0 && linked_forest(b[i].tasks@, b[i].id as int, 1) by {
                if i < n {
                    assert(b[i] == a[i]);
                }
            }
        }
    }

    /// Adds a subtask named `task_name` as the last child of the node of id `parent_id`. Its id
    /// is the one just past the parent's subtree; every id from there on, and every parent
    /// reference to one, moves up by one first. Returns the new id.
    pub fn add_subtask(&mut self, task_name: String, parent_id: usize) -> (new_id: usize)
        requires
            old(self).wf(),
            parent_id < forest_size(old(self).tasks@),
            forest_size(old(self).tasks@) + 1 < isize::MAX,
        ensures
            final(self).wf(),
            ends_at(old(self).tasks@, parent_id as int, new_id as int),
            grafted(old(self).tasks@, final(self).tasks@, parent_id as int, new_id as int, task_name),
            forest_size(final(self).tasks@) == forest_size(old(self).tasks@) + 1,
            final(self).id == old(self).id,
            final(self).name == old(self).name,
    {
        let ghost a = self.tasks@;
        let ghost size = forest_size(a);
        proof {
            lemma_numbered_has_id(a, 0, parent_id as int);
            lemma_bounded(a, 0, -1, 0);
            lemma_bounded_widen(a, size as int, isize::MAX as int);
        }
        let (parent, k) = GroupItem::get_task_recursive_read_only(parent_id, &self.tasks).unwrap();
        proof {
            lemma_ends_at_node(a, *parent, k as int);
            lemma_ends_at_range(a, 0, parent_id as int, parent_id + tree_size(*parent));
            assert(tree_size(*parent) == 1 + forest_size(parent.tasks@));
        }
        let new_id = parent_id + GroupItem::get_tasks_and_subtasks_count_recursive(&parent.tasks).0 + 1;
        GroupItem::recalculate_tasks_ids_on_add(new_id, &mut self.tasks);
        let ghost mid = self.tasks@;
        proof {
            lemma_renumbered_bounded(a, mid, size as int, new_id as int);
            lemma_bounded_widen(mid, size + 1 as int, isize::MAX as int);
            lemma_renumbered_has_fwd(a, mid, new_id as int, parent_id as int);
            lemma_renumbered_numbered(a, mid, 0, new_id as int, 1);
        }
        GroupItem::append_at(&mut self.tasks, parent_id, new_id, task_name);
        proof {
            lemma_graft_numbered(a, mid, self.tasks@, 0, parent_id as int, new_id as int, task_name);
            lemma_renumbered_fold_valid(a, mid, new_id as int, 1);
            lemma_appended_fold_valid(mid, self.tasks@, parent_id as int, new_id as int, task_name);
            lemma_renumbered_linked(a, mid, -1, 0, new_id as int, 1);
            lemma_appended_linked(mid, self.tasks@, -1, 0, parent_id as int, new_id as int, task_name);
            assert(renumbered(a, mid, new_id as int, 1) && appended(
                mid,
                self.tasks@,
                parent_id as int,
                new_id as int,
                task_name,
            ));
        }
        new_id
    }

    /// Renames the node of id `task_id`; nothing else changes.
    pub fn edit_sub_task(&mut self, task_id: usize, new_text: String)
        requires
            old(self).wf(),
            task_id < forest_size(old(self).tasks@),
        ensures
            final(self).wf(),
            forest_size(final(self).tasks@) == forest_size(old(self).tasks@),
            exists|o: TaskItem, k: int|
                o.id == task_id && #[trigger] swapped_at(
                    old(self).tasks@,
                    final(self).tasks@,
                    o,
                    k,
                    renamed(o, new_text),
                ),
            final(self).id == old(self).id,
            final(self).name == old(self).name,
    {
        proof {
            lemma_numbered_has_id(self.tasks@, 0, task_id as int);
        }
        let ghost mut o: TaskItem = self.tasks@[0];
        let ghost mut k: int = 0;
        match GroupItem::get_task_recursive(task_id, &mut self.tasks) {
            Ok((task, pos)) => {
                proof {
                    o = *task;
                    k = pos as int;
                }
                task.name = new_text;
            },
            Err(_) => {},
        }
        proof {
            lemma_shape_refl(o.tasks@);
            lemma_swapped_shape(old(self).tasks@, self.tasks@, o, k, renamed(o, new_text));
            lemma_swapped_holds(old(self).tasks@, self.tasks@, o, k, renamed(o, new_text));
            lemma_node_fold_valid(old(self).tasks@, o, k);
            lemma_swapped_fold_valid(old(self).tasks@, self.tasks@, o, k, renamed(o, new_text));
            lemma_shape_numbered(old(self).tasks@, self.tasks@, 0);
            lemma_shape_linked(old(self).tasks@, self.tasks@, -1, 0);
        }
    }

    /// Flips the fold flag of the node of id `task_id` if it has subtasks; a leaf is left as it
    /// is.
    pub fn toggle_fold(&mut self, task_id: usize)
        requires
            old(self).wf(),
            task_id < forest_size(old(self).tasks@),
        ensures
            final(self).wf(),
            forest_size(final(self).tasks@) == forest_size(old(self).tasks@),
            exists|o: TaskItem, k: int|
                o.id == task_id && #[trigger] swapped_at(
                    old(self).tasks@,
                    final(self).tasks@,
                    o,
                    k,
                    fold_flipped(o),
                ),
            final(self).id == old(self).id,
            final(self).name == old(self).name,
    {
        proof {
            lemma_numbered_has_id(self.tasks@, 0, task_id as int);
        }
        let ghost mut o: TaskItem = self.tasks@[0];
        let ghost mut k: int = 0;
        match GroupItem::get_task_recursive(task_id, &mut self.tasks) {
            Ok((task, pos)) => {
                proof {
                    o = *task;
                    k = pos as int;
                }
                task.fold();
                proof {
                    assert(*task == fold_flipped(o));
                }
            },
            Err(_) => {},
        }
        proof {
            let n = fold_flipped(o);
            lemma_shape_refl(o.tasks@);
            lemma_swapped_shape(old(self).tasks@, self.tasks@, o, k, n);
            lemma_swapped_holds(old(self).tasks@, self.tasks@, o, k, n);
            lemma_node_fold_valid(old(self).tasks@, o, k);
            lemma_swapped_fold_valid(old(self).tasks@, self.tasks@, o, k, n);
            lemma_shape_numbered(old(self).tasks@, self.tasks@, 0);
            lemma_shape_linked(old(self).tasks@, self.tasks@, -1, 0);
        }
    }

    /// Sets `done` to `completed` on every node of the forest.
    fn set_task_completed_recursive(completed: bool, tasks: &mut Vec<TaskItem>)
        ensures
            all_set_done(old(tasks)@, final(tasks)@, completed),
        decreases old(tasks)@,
    {
        let ghost old_tasks = tasks@;
        let mut i: usize = 0;
        while i < tasks.len()
            invariant
                i <= tasks.len(),
                tasks@.len() == old_tasks.len(),
                old_tasks == old(tasks)@,
                forall|j: int| i <= j < tasks@.len() ==> tasks@[j] == old_tasks[j],
                forall|j: int|
                    #![trigger tasks@[j]]
                    0 <= j < i ==> same_except_tasks_done(old_tasks[j], tasks@[j])
                        && tasks@[j].done == completed && all_set_done(
                        old_tasks[j].tasks@,
                        tasks@[j].tasks@,
                        completed,
                    ),
            decreases tasks.len() - i,
        {
            tasks[i].done = completed;
            proof {
                assert(tasks@[i as int].tasks@ == old_tasks[i as int].tasks@);
                assert(decreases_to!(old_tasks => old_tasks[i as int].tasks@));
            }
            GroupItem::set_task_completed_recursive(completed, &mut tasks[i].tasks);
            i += 1;
        }
        proof {
            assert forall|j: int| #![trigger old_tasks[j]] 0 <= j < old_tasks.len() implies same_except_tasks_done(old_tasks[j], tasks@[j])
                        && tasks@[j].done == completed && all_set_done(
                        old_tasks[j].tasks@,
                        tasks@[j].tasks@,
                        completed,
                    ) by {
                assert(tasks@[j] == tasks@[j]);
            }
        }
    }

    /// Changes the node of id `task_id` (forcing `completed`, or its negation when `None`, on its
    /// whole subtree; or, with `recheck`, re-deriving it from its descendants), then re-derives
    /// every ancestor on the way back up.
    fn resync_at(tasks: &mut Vec<TaskItem>, task_id: usize, completed: Option<bool>, recheck: bool)
        requires
            has_id(old(tasks)@, task_id as int),
            forest_size(old(tasks)@) <= isize::MAX,
        ensures
            recheck ==> rechecked(old(tasks)@, final(tasks)@, task_id as int),
            !recheck ==> toggled(old(tasks)@, final(tasks)@, task_id as int, completed),
        decreases old(tasks)@,
    {
        let ghost old_tasks = tasks@;
        let mut i: usize = 0;
        while i < tasks.len()
            invariant
                i <= tasks.len(),
                tasks@ == old_tasks,
                old_tasks == old(tasks)@,
                forall|j: int| 0 <= j < i ==> tasks@[j].id != task_id,
            decreases tasks.len() - i,
        {
            if tasks[i].id == task_id {
                if recheck {
                    let all = tasks[i].are_all_sub_tasks_done(&tasks[i].tasks);
                    tasks[i].done = all;
                } else {
                    let v = match completed {
                        Some(v) => v,
                        None => !tasks[i].done,
                    };
                    tasks[i].done = v;
                    GroupItem::set_task_completed_recursive(v, &mut tasks[i].tasks);
                }
                proof {
                    assert(tasks@ == old_tasks.update(i as int, tasks@[i as int]));
                }
                return;
            }
            i += 1;
        }
        let mut i: usize = 0;
        while i < tasks.len()
            invariant
                i <= tasks.len(),
                tasks@ == old_tasks,
                old_tasks == old(tasks)@,
                forest_size(tasks@) <= isize::MAX,
                forall|j: int| 0 <= j < tasks.len() ==> tasks@[j].id != task_id,
                forall|j: int| 0 <= j < i ==> !has_id(#[trigger] tasks@[j].tasks@, task_id as int),
            decreases tasks.len() - i,
        {
            proof {
                lemma_subforest_size(tasks@, i as int);
            }
            if GroupItem::get_task_recursive_read_only(task_id, &tasks[i].tasks).is_ok() {
                proof {
                    assert(decreases_to!(old_tasks => tasks@[i as int].tasks@));
                }
                GroupItem::resync_at(&mut tasks[i].tasks, task_id, completed, recheck);
                let all = tasks[i].are_all_sub_tasks_done(&tasks[i].tasks);
                tasks[i].done = all;
                proof {
                    assert(tasks@ == old_tasks.update(i as int, tasks@[i as int]));
                }
                return;
            }
            i += 1;
        }
        proof {
            assert(false);
        }
    }

    /// Sets the node of id `task_id` to `completed` (or flips it when `None`), forces that value
    /// on all its descendants, then re-derives each ancestor from its descendants.
    pub fn set_task_and_subtasks_done_or_undone(&mut self, task_id: usize, completed: Option<bool>)
        requires
            old(self).wf(),
            task_id < forest_size(old(self).tasks@),
        ensures
            final(self).wf(),
            forest_size(final(self).tasks@) == forest_size(old(self).tasks@),
            toggled(old(self).tasks@, final(self).tasks@, task_id as int, completed),
            final(self).id == old(self).id,
            final(self).name == old(self).name,
    {
        proof {
            lemma_numbered_has_id(self.tasks@, 0, task_id as int);
        }
        GroupItem::resync_at(&mut self.tasks, task_id, completed, false);
        proof {
            lemma_toggled_numbered(old(self).tasks@, self.tasks@, task_id as int, completed);
        }
    }

    /// Re-derives the node of id `task_id` (a leaf keeps its own state) and then each of its
    /// ancestors from their descendants.
    pub fn update_parents_to_check_if_all_completed(&mut self, task_id: usize)
        requires
            old(self).wf(),
            task_id < forest_size(old(self).tasks@),
        ensures
            final(self).wf(),
            forest_size(final(self).tasks@) == forest_size(old(self).tasks@),
            rechecked(old(self).tasks@, final(self).tasks@, task_id as int),
            final(self).id == old(self).id,
            final(self).name == old(self).name,
    {
        proof {
            lemma_numbered_has_id(self.tasks@, 0, task_id as int);
        }
        GroupItem::resync_at(&mut self.tasks, task_id, None, true);
        proof {
            lemma_rechecked_numbered(old(self).tasks@, self.tasks@, task_id as int);
        }
    }

    /// Looks up the node with id `task_id`, returning it with its index among its siblings.
    pub fn get_task_recursive_read_only(task_id: usize, tasks: &Vec<TaskItem>) -> (r: Result<
        (&TaskItem, isize),
        bool,
    >)
        requires
            forest_size(tasks@) <= isize::MAX,
        ensures
            r is Ok <==> has_id(tasks@, task_id as int),
            r matches Ok((t, k)) ==> t.id == task_id && holds_node(tasks@, *t, k as int),
            r matches Err(e) ==> e,
        decreases tasks@,
    {
        proof {
            if tasks@.len() > 0 {
                lemma_subforest_size(tasks@, 0);
            }
        }
        let mut i: usize = 0;
        while i < tasks.len()
            invariant
                i <= tasks.len(),
                tasks.len() <= isize::MAX,
                forall|j: int| 0 <= j < i ==> tasks@[j].id != task_id,
            decreases tasks.len() - i,
        {
            if tasks[i].id == task_id {
                return Ok((&tasks[i], i as isize));
            }
            i += 1;
        }
        let mut i: usize = 0;
        while i < tasks.len()
            invariant
                i <= tasks.len(),
                forest_size(tasks@) <= isize::MAX,
                forall|j: int| 0 <= j < tasks.len() ==> tasks@[j].id != task_id,
                forall|j: int| 0 <= j < i ==> !has_id(#[trigger] tasks@[j].tasks@, task_id as int),
            decreases tasks.len() - i,
        {
            proof {
                lemma_subforest_size(tasks@, i as int);
                assert(decreases_to!(tasks@ => tasks@[i as int].tasks@));
            }
            match GroupItem::get_task_recursive_read_only(task_id, &tasks[i].tasks) {
                Ok(res) => {
                    proof {
                        assert(holds_node(tasks@[i as int].tasks@, *res.0, res.1 as int));
                    }
                    return Ok(res);
                },
                Err(_) => {},
            }
            i += 1;
        }
        Err(true)
    }

    /// Looks up the node with id `task_id` for change, returning it with its index among its
    /// siblings; whatever the caller writes through it lands in that place of the forest.
    pub fn get_task_recursive(task_id: usize, tasks: &mut Vec<TaskItem>) -> (r: Result<
        (&mut TaskItem, isize),
        bool,
    >)
        requires
            forest_size(old(tasks)@) <= isize::MAX,
        ensures
            r is Ok <==> has_id(old(tasks)@, task_id as int),
            r matches Ok((t, k)) ==> t.id == task_id && swapped_at(
                old(tasks)@,
                final(tasks)@,
                *t,
                k as int,
                *final(t),
            ),
            r matches Err(e) ==> e && final(tasks)@ == old(tasks)@,
        decreases old(tasks)@,
    {
        proof {
            if tasks@.len() > 0 {
                lemma_subforest_size(tasks@, 0);
            }
        }
        let mut i: usize = 0;
        while i < tasks.len()
            invariant
                i <= tasks.len(),
                tasks.len() <= isize::MAX,
                tasks@ == old(tasks)@,
                forall|j: int| 0 <= j < i ==> tasks@[j].id != task_id,
            decreases tasks.len() - i,
        {
            if tasks[i].id == task_id {
                return Ok((&mut tasks[i], i as isize));
            }
            i += 1;
        }
        let mut i: usize = 0;
        while i < tasks.len()
            invariant
                i <= tasks.len(),
                tasks@ == old(tasks)@,
                forest_size(tasks@) <= isize::MAX,
                forall|j: int| 0 <= j < tasks.len() ==> tasks@[j].id != task_id,
                forall|j: int| 0 <= j < i ==> !has_id(#[trigger] tasks@[j].tasks@, task_id as int),
            decreases tasks.len() - i,
        {
            proof {
                lemma_subforest_size(tasks@, i as int);
            }
            if GroupItem::get_task_recursive_read_only(task_id, &tasks[i].tasks).is_ok() {
                proof {
                    assert(decreases_to!(old(tasks)@ => tasks@[i as int].tasks@));
                }
                return GroupItem::get_task_recursive(task_id, &mut tasks[i].tasks);
            }
            i += 1;
        }
        Err(true)
    }

    /// Counts the nodes of a forest and how many of them are done.
    pub fn get_tasks_and_subtasks_count_recursive(tasks: &Vec<TaskItem>) -> (r: (usize, usize))
        requires
            forest_size(tasks@) <= usize::MAX,
        ensures
            r.0 == forest_size(tasks@),
            r.1 == forest_done(tasks@),
        decreases tasks@,
    {
        let mut count: usize = 0;
        let mut completed: usize = 0;
        let mut i: usize = 0;
        while i < tasks.len()
            invariant
                i <= tasks.len(),
                forest_size(tasks@) <= usize::MAX,
                count == size_before(tasks@, i as int),
                completed == done_before(tasks@, i as int),
            decreases tasks.len() - i,
        {
            let task = &tasks[i];
            proof {
                lemma_size_before_mono(tasks@, i + 1, tasks@.len() as int);
                lemma_done_le_size_before(tasks@, i + 1);
                assert(size_before(tasks@, i + 1) == size_before(tasks@, i as int) + tree_size(
                    *task,
                ));
                assert(done_before(tasks@, i + 1) == done_before(tasks@, i as int) + tree_done(
                    *task,
                ));
                assert(tree_size(*task) == 1 + forest_size(task.tasks@));
                assert(tree_done(*task) == (if task.done { 1nat } else { 0nat }) + forest_done(
                    task.tasks@,
                ));
                assert(decreases_to!(tasks@ => task.tasks@));
            }
            if task.done {
                completed += 1;
            }
            let result = GroupItem::get_tasks_and_subtasks_count_recursive(&task.tasks);
            count += result.0;
            completed += result.1;
            count += 1;
            i += 1;
        }
        (count, completed)
    }
}

} // verus!
