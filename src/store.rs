use std::collections::{HashMap, HashSet};

use vstd::prelude::*;

use crate::group::GroupItem;
use crate::forest_lemmas::{
    lemma_node_fold_valid,
    lemma_swapped_pull, lemma_has_holds,
    lemma_parent_below, lemma_cut_clear, lemma_cut_amount, lemma_swapped_holds,
    lemma_ends_at_node, lemma_ends_at_range, lemma_node_of, lemma_numbered_has_id,
};
use crate::task::{
    cut_out, renumbered, removed, rechecked, ends_at, grafted, toggled, fold_flipped, swapped_at,
    TaskItem, forest_size, node_of, numbered_forest, numbered_tree, size_before, tree_size,
};

verus! {

/// The ids `x + 1 ..= x + k`: what a folded node with `k` descendants hides.
pub open spec fn id_range(x: int, k: int) -> Set<usize> {
    Set::new(|y: usize| x < y <= x + k)
}

/// The fold index of a numbered forest of `n` nodes: each folded node's id mapped to the ids
/// of its descendants.
pub open spec fn fold_index(ts: Seq<TaskItem>, n: int) -> Map<usize, Set<usize>> {
    Map::new(
        |x: usize| x < n && node_of(ts, x as int).folded,
        |x: usize| id_range(x as int, tree_size(node_of(ts, x as int)) - 1),
    )
}

/// The store: an ordered list of groups, the selection cursor, and the ids that folds hide in
/// the selected group.
pub struct DataManager {
    pub groups: Vec<GroupItem>,
    pub folded_state: HashMap<usize, HashSet<usize>>,
    pub selected_group: usize,
    pub selected_task: usize,
}

/// Flipping the fold of the node `o` and updating its entry keeps an exact fold index exact.
proof fn lemma_flip_keeps_index(
    a: Seq<TaskItem>,
    b: Seq<TaskItem>,
    o: TaskItem,
    k: int,
    before: Map<usize, Set<usize>>,
    after: Map<usize, Set<usize>>,
)
    requires
        numbered_forest(a, 0),
        numbered_forest(b, 0),
        forest_size(b) == forest_size(a),
        0 <= o.id < forest_size(a),
        swapped_at(a, b, o, k, fold_flipped(o)),
        node_of(b, o.id as int) == fold_flipped(o),
        before == fold_index(a, forest_size(a) as int),
        after == if fold_flipped(o).folded {
            before.insert(o.id, id_range(o.id as int, tree_size(fold_flipped(o)) - 1))
        } else {
            before.remove(o.id)
        },
    ensures
        after == fold_index(b, forest_size(b) as int),
{
    let n = forest_size(a) as int;
    assert forall|y: usize| y != o.id && y < n implies node_of(b, y as int).folded == node_of(
        a,
        y as int,
    ).folded && tree_size(node_of(b, y as int)) == tree_size(node_of(a, y as int)) by {
        lemma_numbered_has_id(b, 0, y as int);
        let (t, j) = lemma_has_holds(b, y as int);
        lemma_node_of(b, 0, t, j);
        let u = lemma_swapped_pull(a, b, o, k, fold_flipped(o), t, j);
        lemma_node_of(a, 0, u, j);
    }
    assert(after =~= fold_index(b, n));
}

impl DataManager {
    /// The hidden ids, keyed by the folded node that hides them.
    pub open spec fn hidden_view(&self) -> Map<usize, Set<usize>> {
        self.folded_state@.map_values(|s: HashSet<usize>| s@)
    }

    /// Every hidden id comes after the folded node that hides it.
    pub open spec fn folds_ok(&self) -> bool {
        forall|x: usize, y: usize|
            self.hidden_view().contains_key(x) && #[trigger] self.hidden_view()[x].contains(y)
                ==> x < y
    }

    /// Some fold hides id `y`.
    pub open spec fn is_hidden(&self, y: usize) -> bool {
        exists|x: usize| self.hidden_view().contains_key(x) && #[trigger] self.hidden_view()[x].contains(y)
    }

    /// The selected group exists and its forest is well formed.
    pub open spec fn selection_ok(&self) -> bool {
        self.selected_group < self.groups@.len() && self.groups@[self.selected_group as int].wf()
    }

    /// The forest of the selected group.
    pub open spec fn selected_tasks(&self) -> Seq<TaskItem> {
        self.groups@[self.selected_group as int].tasks@
    }

    /// An empty store: no groups, the cursor at the start, nothing hidden.
    pub fn new() -> (r: DataManager)
        ensures
            r.groups@.len() == 0,
            r.selected_group == 0,
            r.selected_task == 0,
            r.hidden_view() == Map::<usize, Set<usize>>::empty(),
            r.folds_ok(),
    {
        let r = DataManager {
            groups: Vec::new(),
            selected_group: 0,
            selected_task: 0,
            folded_state: HashMap::new(),
        };
        proof {
            assert(r.hidden_view() =~= Map::<usize, Set<usize>>::empty());
        }
        r
    }

    /// Appends a group at the end of the list.
    pub fn add_group_item(&mut self, group_item: GroupItem)
        ensures
            final(self).groups@ == old(self).groups@.push(group_item),
            final(self).folded_state == old(self).folded_state,
            final(self).selected_group == old(self).selected_group,
            final(self).selected_task == old(self).selected_task,
    {
        self.groups.push(group_item);
    }

    /// Renames the group at `group_id`.
    pub fn edit_group_item(&mut self, group_id: usize, new_text: String)
        requires
            group_id < old(self).groups@.len(),
        ensures
            final(self).groups@.len() == old(self).groups@.len(),
            forall|j: int|
                0 <= j < old(self).groups@.len() && j != group_id ==> final(self).groups@[j]
                    == old(self).groups@[j],
            final(self).groups@[group_id as int].name == new_text,
            final(self).groups@[group_id as int].id == old(self).groups@[group_id as int].id,
            final(self).groups@[group_id as int].tasks == old(self).groups@[group_id as int].tasks,
            final(self).folded_state == old(self).folded_state,
            final(self).selected_group == old(self).selected_group,
            final(self).selected_task == old(self).selected_task,
    {
        self.groups[group_id].name = new_text;
    }

    /// Deletes the group at `group_id` together with all its tasks; the groups after it move
    /// up one place and take their new position as id.
    pub fn delete_group_item(&mut self, group_id: usize)
        requires
            group_id < old(self).groups@.len(),
        ensures
            final(self).groups@.len() == old(self).groups@.len() - 1,
            forall|j: int| 0 <= j < group_id ==> final(self).groups@[j] == old(self).groups@[j],
            forall|j: int|
                #![trigger final(self).groups@[j]]
                group_id <= j < final(self).groups@.len() ==> final(self).groups@[j].id == j
                    && final(self).groups@[j].name == old(self).groups@[j + 1].name
                    && final(self).groups@[j].tasks == old(self).groups@[j + 1].tasks,
            final(self).folded_state == old(self).folded_state,
            final(self).selected_group == old(self).selected_group,
            final(self).selected_task == old(self).selected_task,
    {
        self.groups.remove(group_id);
        let mut j: usize = group_id;
        while j < self.groups.len()
            invariant
                group_id <= j <= self.groups@.len(),
                self.groups@.len() == old(self).groups@.len() - 1,
                self.folded_state == old(self).folded_state,
                self.selected_group == old(self).selected_group,
                self.selected_task == old(self).selected_task,
                forall|i: int| 0 <= i < group_id ==> self.groups@[i] == old(self).groups@[i],
                forall|i: int|
                    #![trigger self.groups@[i]]
                    group_id <= i < self.groups@.len() ==> self.groups@[i].name == old(
                        self,
                    ).groups@[i + 1].name && self.groups@[i].tasks == old(self).groups@[i + 1].tasks
                        && (i < j ==> self.groups@[i].id == i),
            decreases self.groups@.len() - j,
        {
            self.groups[j].id = j;
            j += 1;
        }
    }

    /// Every group's forest is well formed.
    pub open spec fn groups_ok(&self) -> bool {
        forall|g: int| 0 <= g < self.groups@.len() ==> (#[trigger] self.groups@[g]).wf()
    }

    /// Whether the store may be written out: every group's forest is well formed, which is
    /// exactly what loading (`replace_groups`) accepts back.
    pub fn can_persist(&self) -> (r: bool)
        requires
            forall|g: int| 0 <= g < self.groups@.len() ==> forest_size((#[trigger] self.groups@[g]).tasks@) <= usize::MAX,
        ensures
            r == self.groups_ok(),
    {
        let mut g: usize = 0;
        while g < self.groups.len()
            invariant
                g <= self.groups@.len(),
                forall|h: int| 0 <= h < self.groups@.len() ==> forest_size((#[trigger] self.groups@[h]).tasks@) <= usize::MAX,
                forall|h: int| 0 <= h < g ==> (#[trigger] self.groups@[h]).wf(),
            decreases self.groups.len() - g,
        {
            if !self.groups[g].is_well_formed() {
                return false;
            }
            g += 1;
        }
        true
    }

    /// Deletes the selected group with all its tasks, then selects the first group (when one
    /// is left) with the cursor on its first task and its fold index rebuilt.
    pub fn delete_selected_group(&mut self)
        requires
            old(self).selected_group < old(self).groups@.len(),
            old(self).groups_ok(),
        ensures
            final(self).groups@.len() == old(self).groups@.len() - 1,
            forall|j: int|
                0 <= j < old(self).selected_group ==> final(self).groups@[j] == old(self).groups@[j],
            forall|j: int|
                #![trigger final(self).groups@[j]]
                old(self).selected_group <= j < final(self).groups@.len() ==> final(self).groups@[j].id
                    == j && final(self).groups@[j].name == old(self).groups@[j + 1].name
                    && final(self).groups@[j].tasks == old(self).groups@[j + 1].tasks,
            final(self).groups_ok(),
            final(self).folds_ok(),
            final(self).selected_group == 0,
            final(self).selected_task == 0,
            final(self).groups@.len() == 0 ==> final(self).hidden_view() == Map::<usize, Set<usize>>::empty(),
            final(self).groups@.len() > 0 ==> final(self).hidden_view() == fold_index(
                final(self).selected_tasks(),
                forest_size(final(self).selected_tasks()) as int,
            ),
    {
        self.delete_group_item(self.selected_group);
        self.selected_group = 0;
        self.selected_task = 0;
        self.folded_state.clear();
        proof {
            assert(self.hidden_view() =~= Map::<usize, Set<usize>>::empty());
            assert forall|g: int| 0 <= g < self.groups@.len() implies (#[trigger] self.groups@[g]).wf() by {
                if g >= old(self).selected_group {
                    assert(old(self).groups@[g + 1].wf());
                } else {
                    assert(old(self).groups@[g].wf());
                }
            }
        }
        if self.groups.len() > 0 {
            self.load_folding(0);
        }
    }

    /// Puts loaded groups in place of the current ones, provided every forest is well formed;
    /// otherwise fails with the position of the first group that is not, changing nothing. On
    /// success the selection is kept when it still names a group (else the first is selected)
    /// and the fold index is rebuilt for it.
    pub fn replace_groups(&mut self, groups: Vec<GroupItem>) -> (r: Result<(), usize>)
        requires
            forall|g: int| 0 <= g < groups@.len() ==> forest_size((#[trigger] groups@[g]).tasks@) <= usize::MAX,
        ensures
            match r {
                Err(i) => {
                    &&& i < groups@.len()
                    &&& !groups@[i as int].wf()
                    &&& forall|g: int| 0 <= g < i ==> (#[trigger] groups@[g]).wf()
                    &&& *final(self) == *old(self)
                },
                Ok(()) => {
                    &&& final(self).groups@ == groups@
                    &&& final(self).groups_ok()
                    &&& final(self).folds_ok()
                    &&& final(self).selected_group == if old(self).selected_group < groups@.len() {
                        old(self).selected_group
                    } else {
                        0
                    }
                    &&& final(self).selected_task == old(self).selected_task
                    &&& groups@.len() == 0 ==> final(self).hidden_view() == Map::<usize, Set<usize>>::empty()
                    &&& groups@.len() > 0 ==> final(self).hidden_view() == fold_index(
                        final(self).selected_tasks(),
                        forest_size(final(self).selected_tasks()) as int,
                    )
                },
            },
    {
        let mut i: usize = 0;
        while i < groups.len()
            invariant
                i <= groups@.len(),
                forall|g: int| 0 <= g < groups@.len() ==> forest_size((#[trigger] groups@[g]).tasks@) <= usize::MAX,
                forall|g: int| 0 <= g < i ==> (#[trigger] groups@[g]).wf(),
            decreases groups.len() - i,
        {
            if !groups[i].is_well_formed() {
                return Err(i);
            }
            i += 1;
        }
        self.groups = groups;
        self.folded_state.clear();
        if self.selected_group >= self.groups.len() {
            self.selected_group = 0;
        }
        proof {
            assert(self.hidden_view() =~= Map::<usize, Set<usize>>::empty());
        }
        if self.groups.len() > 0 {
            self.load_folding(self.selected_group);
        }
        Ok(())
    }

    pub fn get_group_items(&self) -> (r: &Vec<GroupItem>)
        ensures
            r == &self.groups,
    {
        &self.groups
    }

    /// The group at `id`, for change.
    pub fn get_group(&mut self, id: usize) -> (r: &mut GroupItem)
        requires
            id < old(self).groups@.len(),
        ensures
            *r == old(self).groups@[id as int],
            final(self).groups@ == old(self).groups@.update(id as int, *final(r)),
            final(self).folded_state == old(self).folded_state,
            final(self).selected_group == old(self).selected_group,
            final(self).selected_task == old(self).selected_task,
    {
        &mut self.groups[id]
    }

    pub fn get_group_read_only(&self, id: usize) -> (r: &GroupItem)
        requires
            id < self.groups@.len(),
        ensures
            *r == self.groups@[id as int],
    {
        &self.groups[id]
    }

    /// Records, for the node of id `selected_task` in the selected group, the ids its fold hides
    /// when it is folded, or forgets them when it is not. An empty group changes nothing.
    pub fn calculate_folded_hasmap(&mut self, selected_task: usize)
        requires
            old(self).selection_ok(),
            old(self).folds_ok(),
            old(self).selected_tasks().len() > 0 ==> selected_task < forest_size(
                old(self).selected_tasks(),
            ),
        ensures
            final(self).folds_ok(),
            final(self).groups == old(self).groups,
            final(self).selected_group == old(self).selected_group,
            final(self).selected_task == old(self).selected_task,
            old(self).selected_tasks().len() == 0 ==> final(self).hidden_view() == old(
                self,
            ).hidden_view(),
            old(self).selected_tasks().len() > 0 ==> ({
                let t = node_of(old(self).selected_tasks(), selected_task as int);
                final(self).hidden_view() == if t.folded {
                    old(self).hidden_view().insert(
                        selected_task,
                        id_range(selected_task as int, tree_size(t) - 1),
                    )
                } else {
                    old(self).hidden_view().remove(selected_task)
                }
            }),
    {
        let selected_group = self.selected_group;
        let gi = &self.groups[selected_group];
        if gi.tasks.len() == 0 {
            return;
        }
        let ghost ts = gi.tasks@;
        proof {
            lemma_numbered_has_id(ts, 0, selected_task as int);
        }
        let (task, k) = GroupItem::get_task_recursive_read_only(selected_task, &gi.tasks).unwrap();
        proof {
            lemma_node_of(ts, 0, *task, k as int);
            lemma_ends_at_node(ts, *task, k as int);
            lemma_ends_at_range(ts, 0, selected_task as int, selected_task + tree_size(*task));
            assert(tree_size(*task) == 1 + forest_size(task.tasks@));
        }
        if task.folded {
            let elements_to_skip = gi.get_tasks_and_subtasks_count_specific(&task.tasks).0;
            let mut folded_state_entry: HashSet<usize> = HashSet::new();
            let mut i: usize = 0;
            while i < elements_to_skip
                invariant
                    i <= elements_to_skip,
                    selected_task + elements_to_skip <= forest_size(ts),
                    forest_size(ts) < isize::MAX,
                    folded_state_entry@ == id_range(selected_task as int, i as int),
                decreases elements_to_skip - i,
            {
                folded_state_entry.insert(selected_task + i + 1);
                proof {
                    assert(folded_state_entry@ =~= id_range(selected_task as int, i + 1));
                }
                i += 1;
            }
            self.folded_state.insert(selected_task, folded_state_entry);
            proof {
                assert(self.hidden_view() =~= old(self).hidden_view().insert(
                    selected_task,
                    id_range(selected_task as int, tree_size(*task) - 1),
                ));
            }
        } else {
            self.folded_state.remove(&selected_task);
            proof {
                assert(self.hidden_view() =~= old(self).hidden_view().remove(selected_task));
            }
        }
    }

    /// Rebuilds the fold index from the `folded` flags of the selected group's forest.
    pub fn load_folding(&mut self, group_id: usize)
        requires
            old(self).selection_ok(),
            group_id == old(self).selected_group,
        ensures
            final(self).folds_ok(),
            final(self).hidden_view() == fold_index(
                old(self).selected_tasks(),
                forest_size(old(self).selected_tasks()) as int,
            ),
            final(self).groups == old(self).groups,
            final(self).selected_group == old(self).selected_group,
            final(self).selected_task == old(self).selected_task,
    {
        self.folded_state.clear();
        let ghost ts = self.selected_tasks();
        let count = self.groups[group_id].get_tasks_and_subtasks_count().0;
        proof {
            assert(self.hidden_view() =~= fold_index(ts, 0));
        }
        let mut x: usize = 0;
        while x < count
            invariant
                x <= count,
                count == forest_size(ts),
                self.selection_ok(),
                self.selected_group == group_id,
                self.groups == old(self).groups,
                self.selected_task == old(self).selected_task,
                ts == self.selected_tasks(),
                self.folds_ok(),
                self.hidden_view() == fold_index(ts, x as int),
            decreases count - x,
        {
            self.calculate_folded_hasmap(x);
            proof {
                let t = node_of(ts, x as int);
                assert(!fold_index(ts, x as int).contains_key(x));
                if t.folded {
                    assert(self.hidden_view() =~= fold_index(ts, x + 1));
                } else {
                    assert(self.hidden_view() =~= fold_index(ts, x + 1));
                }
            }
            x += 1;
        }
    }

    /// Selects the group at `group_id`, puts the cursor on its first task and rebuilds the fold
    /// index from that group's forest.
    pub fn select_group(&mut self, group_id: usize)
        requires
            group_id < old(self).groups@.len(),
            old(self).groups@[group_id as int].wf(),
        ensures
            final(self).selected_group == group_id,
            final(self).selected_task == 0,
            final(self).groups == old(self).groups,
            final(self).selection_ok(),
            final(self).folds_ok(),
            final(self).hidden_view() == fold_index(
                final(self).selected_tasks(),
                forest_size(final(self).selected_tasks()) as int,
            ),
    {
        self.selected_group = group_id;
        self.selected_task = 0;
        self.load_folding(group_id);
    }

    /// Deletes the selected task with its whole subtree, re-derives the completion of the task
    /// that held it, keeps the cursor inside the forest and rebuilds the fold index. Returns the
    /// number of nodes removed.
    pub fn remove_selected_task(&mut self) -> (amount: usize)
        requires
            old(self).selection_ok(),
            old(self).selected_task < forest_size(old(self).selected_tasks()),
        ensures
            final(self).selection_ok(),
            final(self).folds_ok(),
            final(self).selected_group == old(self).selected_group,
            final(self).groups@.len() == old(self).groups@.len(),
            forall|j: int|
                0 <= j < old(self).groups@.len() && j != old(self).selected_group
                    ==> final(self).groups@[j] == old(self).groups@[j],
            ({
                let a = old(self).selected_tasks();
                let x = old(self).selected_task as int;
                let p = node_of(a, x).parent as int;
                let b = final(self).selected_tasks();
                exists|mid: Seq<TaskItem>|
                    #[trigger] removed(a, mid, x, amount as int) && (p >= 0 ==> rechecked(mid, b, p)) && (
                    p < 0 ==> b == mid)
            }),
            ({
                let n = forest_size(final(self).selected_tasks());
                final(self).selected_task == if old(self).selected_task < n {
                    old(self).selected_task as int
                } else if n > 0 {
                    n - 1
                } else {
                    0
                }
            }),
            final(self).hidden_view() == fold_index(
                final(self).selected_tasks(),
                forest_size(final(self).selected_tasks()) as int,
            ),
    {
        let g = self.selected_group;
        let selected = self.selected_task;
        let ghost a = self.selected_tasks();
        proof {
            lemma_numbered_has_id(a, 0, selected as int);
        }
        let (task, pos) = GroupItem::get_task_recursive_read_only(selected, &self.groups[g].tasks).unwrap();
        let parent = task.parent;
        proof {
            lemma_node_of(a, 0, *task, pos as int);
            lemma_parent_below(a, 0, -1, 0, *task, pos as int);
            lemma_ends_at_node(a, *task, pos as int);
            lemma_ends_at_range(a, 0, selected as int, selected + tree_size(*task));
        }
        let target = TaskItem::new(String::new(), selected, parent);
        let amount = self.groups[g].remove_task((&target, pos));
        let ghost mid = self.selected_tasks();
        proof {
            let m = choose|m: Seq<TaskItem>| cut_out(a, m, selected as int, amount as int) && renumbered(m, mid, selected + 1, -amount);
            lemma_cut_clear(a, m, 0, selected as int, amount as int);
            assert(tree_size(*task) == amount) by {
                lemma_cut_amount(a, m, 0, *task, pos as int, amount as int);
            }
        }
        if parent >= 0 {
            self.groups[g].update_parents_to_check_if_all_completed(parent as usize);
        }
        let remaining = self.groups[g].get_tasks_and_subtasks_count().0;
        if selected >= remaining {
            self.selected_task = if remaining > 0 { remaining - 1 } else { 0 };
        }
        self.load_folding(g);
        proof {
            assert(removed(a, mid, selected as int, amount as int));
        }
        amount
    }

    /// Adds a subtask named `task_name` under the selected task, marks it not done and
    /// re-derives its ancestors, then rebuilds the fold index, whose ids have moved. Returns
    /// the new id.
    pub fn add_subtask_to_selected(&mut self, task_name: String) -> (new_id: usize)
        requires
            old(self).selection_ok(),
            old(self).selected_task < forest_size(old(self).selected_tasks()),
            forest_size(old(self).selected_tasks()) + 1 < isize::MAX,
        ensures
            final(self).selection_ok(),
            final(self).folds_ok(),
            final(self).selected_group == old(self).selected_group,
            final(self).selected_task == old(self).selected_task,
            final(self).groups@.len() == old(self).groups@.len(),
            forall|j: int|
                0 <= j < old(self).groups@.len() && j != old(self).selected_group
                    ==> final(self).groups@[j] == old(self).groups@[j],
            ends_at(old(self).selected_tasks(), old(self).selected_task as int, new_id as int),
            exists|mid: Seq<TaskItem>|
                #[trigger] grafted(
                    old(self).selected_tasks(),
                    mid,
                    old(self).selected_task as int,
                    new_id as int,
                    task_name,
                ) && toggled(mid, final(self).selected_tasks(), new_id as int, Some(false)),
            final(self).hidden_view() == fold_index(
                final(self).selected_tasks(),
                forest_size(final(self).selected_tasks()) as int,
            ),
    {
        let g = self.selected_group;
        let selected = self.selected_task;
        let ghost a = self.selected_tasks();
        let new_id = self.groups[g].add_subtask(task_name, selected);
        let ghost mid = self.selected_tasks();
        proof {
            lemma_ends_at_range(a, 0, selected as int, new_id as int);
        }
        self.groups[g].set_task_and_subtasks_done_or_undone(new_id, Some(false));
        self.load_folding(g);
        proof {
            assert(grafted(a, mid, selected as int, new_id as int, task_name));
        }
        new_id
    }

    /// Flips the fold of the selected task (a leaf stays as it is) and updates its entry in the
    /// fold index.
    pub fn toggle_selected_fold(&mut self)
        requires
            old(self).selection_ok(),
            old(self).folds_ok(),
            old(self).selected_task < forest_size(old(self).selected_tasks()),
        ensures
            final(self).selection_ok(),
            final(self).folds_ok(),
            final(self).selected_group == old(self).selected_group,
            final(self).selected_task == old(self).selected_task,
            final(self).groups@.len() == old(self).groups@.len(),
            forall|j: int|
                0 <= j < old(self).groups@.len() && j != old(self).selected_group
                    ==> final(self).groups@[j] == old(self).groups@[j],
            ({
                let x = old(self).selected_task;
                let o = node_of(old(self).selected_tasks(), x as int);
                let t = node_of(final(self).selected_tasks(), x as int);
                &&& t == fold_flipped(o)
                &&& exists|k: int| #[trigger] swapped_at(old(self).selected_tasks(), final(self).selected_tasks(), o, k, t)
                &&& final(self).hidden_view() == if t.folded {
                    old(self).hidden_view().insert(x, id_range(x as int, tree_size(t) - 1))
                } else {
                    old(self).hidden_view().remove(x)
                }
            }),
            forest_size(final(self).selected_tasks()) == forest_size(old(self).selected_tasks()),
            old(self).hidden_view() == fold_index(
                old(self).selected_tasks(),
                forest_size(old(self).selected_tasks()) as int,
            ) ==> final(self).hidden_view() == fold_index(
                final(self).selected_tasks(),
                forest_size(final(self).selected_tasks()) as int,
            ),
            ({
                let x = old(self).selected_task as int;
                let o = node_of(old(self).selected_tasks(), x);
                o.tasks@.len() == 0 ==> {
                    &&& !o.folded
                    &&& node_of(final(self).selected_tasks(), x) == o
                    &&& old(self).hidden_view() == fold_index(
                        old(self).selected_tasks(),
                        forest_size(old(self).selected_tasks()) as int,
                    ) ==> final(self).hidden_view() == old(self).hidden_view()
                }
            }),
    {
        let g = self.selected_group;
        let selected = self.selected_task;
        let ghost a = self.selected_tasks();
        self.groups[g].toggle_fold(selected);
        let ghost b = self.selected_tasks();
        let ghost (o, k) = choose|o: TaskItem, k: int| o.id == selected && #[trigger] swapped_at(a, b, o, k, fold_flipped(o));
        proof {
            lemma_swapped_holds(a, b, o, k, fold_flipped(o));
            lemma_node_of(a, 0, o, k);
            lemma_node_of(b, 0, fold_flipped(o), k);
            assert(self.folded_state == old(self).folded_state);
            assert(self.hidden_view() == old(self).hidden_view());
        }
        self.calculate_folded_hasmap(selected);
        proof {
            if old(self).hidden_view() == fold_index(a, forest_size(a) as int) {
                lemma_flip_keeps_index(a, b, o, k, old(self).hidden_view(), self.hidden_view());
            }
            lemma_node_fold_valid(a, o, k);
            if o.tasks@.len() == 0 {
                assert(fold_flipped(o) == o);
                if old(self).hidden_view() == fold_index(a, forest_size(a) as int) {
                    assert(!old(self).hidden_view().contains_key(selected));
                    assert(self.hidden_view() =~= old(self).hidden_view());
                }
            }
        }
    }

    /// Whether some fold hides id `y`.
    fn is_hidden_id(&self, y: usize) -> (r: bool)
        requires
            self.folds_ok(),
        ensures
            r == self.is_hidden(y),
    {
        let mut x: usize = 0;
        while x < y
            invariant
                x <= y,
                self.folds_ok(),
                forall|w: usize|
                    w < x ==> !(self.hidden_view().contains_key(w) && #[trigger] self.hidden_view()[w].contains(y)),
            decreases y - x,
        {
            match self.folded_state.get(&x) {
                Some(entry) => {
                    if entry.contains(&y) {
                        proof {
                            assert(self.folded_state@.contains_key(x));
                            assert(self.hidden_view()[x] == entry@);
                            assert(self.hidden_view().contains_key(x) && self.hidden_view()[x].contains(y));
                        }
                        return true;
                    }
                },
                None => {},
            }
            x += 1;
        }
        false
    }

    /// Moves the cursor down to the next id that no fold hides; when there is none before the
    /// end of the selected forest, the cursor stays.
    pub fn move_selection_down(&mut self)
        requires
            old(self).selection_ok(),
            old(self).folds_ok(),
        ensures
            final(self).groups == old(self).groups,
            final(self).folded_state == old(self).folded_state,
            final(self).selected_group == old(self).selected_group,
            ({
                let s = old(self).selected_task;
                let n = forest_size(old(self).selected_tasks());
                if exists|y: usize| s < y < n && !#[trigger] old(self).is_hidden(y) {
                    &&& s < final(self).selected_task < n
                    &&& !old(self).is_hidden(final(self).selected_task)
                    &&& forall|y: usize| s < y < final(self).selected_task ==> #[trigger] old(self).is_hidden(y)
                } else {
                    final(self).selected_task == s
                }
            }),
    {
        let n = self.groups[self.selected_group].get_tasks_and_subtasks_count().0;
        let s = self.selected_task;
        if s >= n {
            return;
        }
        let mut y: usize = s + 1;
        let mut found = false;
        while !found && y < n
            invariant
                s < y <= n,
                self.folds_ok(),
                found ==> y < n && !self.is_hidden(y),
                forall|w: usize| s < w < y ==> #[trigger] self.is_hidden(w),
            decreases 2 * (n - y) + if found { 0int } else { 1int },
        {
            if !self.is_hidden_id(y) {
                found = true;
            } else {
                y += 1;
            }
        }
        if found {
            self.selected_task = y;
        }
    }

    /// Moves the cursor up to the previous id that no fold hides; when there is none, the
    /// cursor stays.
    pub fn move_selection_up(&mut self)
        requires
            old(self).folds_ok(),
        ensures
            final(self).groups == old(self).groups,
            final(self).folded_state == old(self).folded_state,
            final(self).selected_group == old(self).selected_group,
            ({
                let s = old(self).selected_task;
                if exists|y: usize| y < s && !#[trigger] old(self).is_hidden(y) {
                    &&& final(self).selected_task < s
                    &&& !old(self).is_hidden(final(self).selected_task)
                    &&& forall|y: usize| final(self).selected_task < y < s ==> #[trigger] old(self).is_hidden(y)
                } else {
                    final(self).selected_task == s
                }
            }),
    {
        let s = self.selected_task;
        let mut y: usize = s;
        let mut found = false;
        while !found && y > 0
            invariant
                y <= s,
                self.folds_ok(),
                found ==> y < s && !self.is_hidden(y),
                forall|w: usize| (if found { y < w } else { y <= w }) && w < s ==> #[trigger] self.is_hidden(w),
            decreases 2 * y + if found { 0int } else { 1int },
        {
            y -= 1;
            if !self.is_hidden_id(y) {
                found = true;
            }
        }
        if found {
            self.selected_task = y;
        }
    }

    /// Whether every group's forest is numbered densely in pre-order from zero.
    pub fn check_data_integrity(&self) -> (r: bool)
        requires
            forall|g: int| 0 <= g < self.groups@.len() ==> forest_size(#[trigger] self.groups@[g].tasks@) <= usize::MAX,
        ensures
            r == forall|g: int| 0 <= g < self.groups@.len() ==> numbered_forest(#[trigger] self.groups@[g].tasks@, 0),
    {
        let mut integrity_ok = true;
        let mut g: usize = 0;
        while g < self.groups.len()
            invariant
                g <= self.groups@.len(),
                forall|h: int| 0 <= h < self.groups@.len() ==> forest_size(#[trigger] self.groups@[h].tasks@) <= usize::MAX,
                integrity_ok == forall|h: int| 0 <= h < g ==> numbered_forest(#[trigger] self.groups@[h].tasks@, 0),
            decreases self.groups.len() - g,
        {
            let group = &self.groups[g];
            if group.tasks.len() != 0 {
                let (ok, _) = DataManager::check_data_integrity_recursive(&group.tasks, 0);
                integrity_ok = integrity_ok && ok;
            }
            g += 1;
        }
        integrity_ok
    }

    /// Walks the forest in pre-order expecting the ids `id, id + 1, ...`; returns whether they
    /// all matched and the id expected next.
    pub(crate) fn check_data_integrity_recursive(tasks: &Vec<TaskItem>, id: usize) -> (r: (bool, usize))
        requires
            id + forest_size(tasks@) <= usize::MAX,
        ensures
            r.0 == numbered_forest(tasks@, id as int),
            r.1 == id + forest_size(tasks@),
        decreases tasks@,
    {
        let mut ok = true;
        let mut next = id;
        let mut i: usize = 0;
        while i < tasks.len()
            invariant
                i <= tasks.len(),
                id + forest_size(tasks@) <= usize::MAX,
                next == id + size_before(tasks@, i as int),
                ok == forall|j: int| #![trigger tasks@[j]] 0 <= j < i ==> numbered_tree(tasks@[j], id + size_before(tasks@, j)),
            decreases tasks.len() - i,
        {
            let task = &tasks[i];
            proof {
                crate::forest_lemmas::lemma_size_before_mono(tasks@, i + 1, tasks@.len() as int);
                assert(size_before(tasks@, i + 1) == size_before(tasks@, i as int) + tree_size(*task));
                assert(tree_size(*task) == 1 + forest_size(task.tasks@));
                assert(decreases_to!(tasks@ => task.tasks@));
            }
            let ghost before = ok;
            if next != task.id {
                ok = false;
            }
            next += 1;
            let (child_ok, child_next) = DataManager::check_data_integrity_recursive(&task.tasks, next);
            next = child_next;
            ok = ok && child_ok;
            proof {
                assert(ok == (before && numbered_tree(tasks@[i as int], id + size_before(tasks@, i as int))));
            }
            i += 1;
        }
        (ok, next)
    }
}

} // verus!
