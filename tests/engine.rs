use termdo::group::GroupItem;
use termdo::history::History;
use termdo::layout::{input_start_for_width, App, FocusedLayout, InputMode, LayoutCommon, TaskLayout};
use termdo::store::DataManager;
use termdo::task::TaskItem;

fn store_with_group(name: &str) -> DataManager {
    let mut dm = DataManager::new();
    let mut g = GroupItem::new(&dm);
    g.name = name.to_string();
    dm.add_group_item(g);
    dm
}

fn preorder(tasks: &Vec<TaskItem>, out: &mut Vec<usize>) {
    for t in tasks {
        out.push(t.id);
        preorder(&t.tasks, out);
    }
}

fn node(g: &GroupItem, id: usize) -> TaskItem {
    let (t, _) = GroupItem::get_task_recursive_read_only(id, g.get_tasks()).unwrap();
    TaskItem {
        id: t.id,
        done: t.done,
        name: t.name.clone(),
        indentation: t.indentation,
        parent: t.parent,
        tasks: Vec::new(),
        folded: t.folded,
    }
}

#[test]
fn scenario_add_group_then_task() {
    let mut dm = store_with_group("Home");
    assert_eq!(dm.get_group_items().len(), 1);
    assert_eq!(dm.get_group_items()[0].name, "Home");
    dm.get_group(0).add_task("Buy milk".to_string());
    let g = dm.get_group_read_only(0);
    assert_eq!(g.get_tasks().len(), 1);
    let t = &g.get_tasks()[0];
    assert_eq!(t.id, 0);
    assert_eq!(t.indentation, 0);
    assert_eq!(t.parent, -1);
    assert!(!t.done);
    assert_eq!(t.name, "Buy milk");
}

#[test]
fn scenario_add_subtask() {
    let mut dm = store_with_group("Home");
    dm.get_group(0).add_task("Buy milk".to_string());
    let new_id = dm.get_group(0).add_subtask("2%".to_string(), 0);
    assert_eq!(new_id, 1);
    let g = dm.get_group_read_only(0);
    let child = node(g, 1);
    assert_eq!(child.parent, 0);
    assert_eq!(child.indentation, 1);
    assert_eq!(child.name, "2%");
    let mut ids = Vec::new();
    preorder(g.get_tasks(), &mut ids);
    assert_eq!(ids, vec![0, 1]);
    assert!(dm.check_data_integrity());
}

#[test]
fn scenario_toggle_only_child_completes_parent() {
    let mut g = GroupItem::new(&DataManager::new());
    g.add_task("Buy milk".to_string());
    g.add_subtask("2%".to_string(), 0);
    g.set_task_and_subtasks_done_or_undone(1, None);
    assert!(node(&g, 1).done);
    assert!(node(&g, 0).done);
    assert_eq!(g.get_tasks_and_subtasks_count(), (2, 2));
}

#[test]
fn scenario_remove_root_with_child() {
    let mut g = GroupItem::new(&DataManager::new());
    g.add_task("Buy milk".to_string());
    g.add_subtask("2%".to_string(), 0);
    let target = node(&g, 0);
    let amount_removed = g.remove_task((&target, 0));
    assert_eq!(amount_removed, 2);
    assert!(g.get_tasks().is_empty());
    assert_eq!(g.get_tasks_and_subtasks_count(), (0, 0));
}

#[test]
fn scenario_fold_hides_descendants_and_down_skips_them() {
    let mut dm = store_with_group("Home");
    {
        let g = dm.get_group(0);
        g.add_task("root".to_string());
        assert_eq!(g.add_subtask("a".to_string(), 0), 1);
        assert_eq!(g.add_subtask("b".to_string(), 0), 2);
        assert_eq!(g.add_subtask("c".to_string(), 0), 3);
        g.add_task("next".to_string());
        g.toggle_fold(0);
    }
    dm.load_folding(0);
    let hidden = dm.folded_state.get(&0).unwrap();
    let mut ids: Vec<usize> = hidden.iter().copied().collect();
    ids.sort();
    assert_eq!(ids, vec![1, 2, 3]);
    assert_eq!(dm.folded_state.len(), 1);
    dm.selected_task = 0;
    dm.move_selection_down();
    assert_eq!(dm.selected_task, 4);
    dm.move_selection_up();
    assert_eq!(dm.selected_task, 0);
}

#[test]
fn fold_at_forest_end_keeps_cursor() {
    let mut dm = store_with_group("Home");
    {
        let g = dm.get_group(0);
        g.add_task("root".to_string());
        g.add_subtask("a".to_string(), 0);
        g.add_subtask("b".to_string(), 0);
        g.add_subtask("c".to_string(), 0);
        g.toggle_fold(0);
    }
    dm.load_folding(0);
    dm.selected_task = 0;
    dm.move_selection_down();
    assert_eq!(dm.selected_task, 0);
}

#[test]
fn unfolding_restores_hidden_ids() {
    let mut dm = store_with_group("Home");
    {
        let g = dm.get_group(0);
        g.add_task("root".to_string());
        g.add_subtask("a".to_string(), 0);
        g.add_task("next".to_string());
        g.toggle_fold(0);
    }
    dm.calculate_folded_hasmap(0);
    assert_eq!(dm.folded_state.get(&0).unwrap().len(), 1);
    assert!(dm.folded_state.get(&0).unwrap().contains(&1));
    dm.get_group(0).toggle_fold(0);
    dm.calculate_folded_hasmap(0);
    assert!(dm.folded_state.get(&0).is_none());
    dm.selected_task = 0;
    dm.move_selection_down();
    assert_eq!(dm.selected_task, 1);
}

#[test]
fn folding_a_leaf_does_nothing() {
    let mut g = GroupItem::new(&DataManager::new());
    g.add_task("leaf".to_string());
    g.toggle_fold(0);
    assert!(!node(&g, 0).folded);
}

#[test]
fn dense_ids_after_mixed_operations() {
    let mut g = GroupItem::new(&DataManager::new());
    g.add_task("a".to_string());
    g.add_task("b".to_string());
    g.add_subtask("a1".to_string(), 0);
    g.add_subtask("a1x".to_string(), 1);
    g.add_subtask("b1".to_string(), 3);
    g.add_subtask("a2".to_string(), 0);
    let mut ids = Vec::new();
    preorder(g.get_tasks(), &mut ids);
    assert_eq!(ids, vec![0, 1, 2, 3, 4, 5]);
    assert_eq!(node(&g, 3).name, "a2");
    assert_eq!(node(&g, 4).name, "b");
    assert_eq!(node(&g, 5).parent, 4);
    let target = node(&g, 1);
    assert_eq!(g.remove_task((&target, 0)), 2);
    let mut ids = Vec::new();
    preorder(g.get_tasks(), &mut ids);
    assert_eq!(ids, vec![0, 1, 2, 3]);
    assert!(g.is_well_formed());
}

#[test]
fn remove_moves_later_ids_and_parents_down() {
    let mut g = GroupItem::new(&DataManager::new());
    g.add_task("r0".to_string());
    g.add_subtask("c1".to_string(), 0);
    g.add_subtask("c2".to_string(), 0);
    g.add_subtask("g3".to_string(), 2);
    g.add_task("r4".to_string());
    g.add_subtask("c5".to_string(), 4);
    let target = node(&g, 2);
    assert_eq!(g.remove_task((&target, 1)), 2);
    assert_eq!(node(&g, 2).name, "r4");
    assert_eq!(node(&g, 3).name, "c5");
    assert_eq!(node(&g, 3).parent, 2);
    assert_eq!(node(&g, 1).parent, 0);
    assert_eq!(g.get_tasks_and_subtasks_count().0, 4);
}

#[test]
fn completion_cascades_to_the_root() {
    let mut g = GroupItem::new(&DataManager::new());
    g.add_task("r".to_string());
    g.add_subtask("a".to_string(), 0);
    g.add_subtask("b".to_string(), 0);
    g.add_subtask("b1".to_string(), 2);
    g.add_subtask("b2".to_string(), 2);
    g.set_task_and_subtasks_done_or_undone(1, Some(true));
    g.set_task_and_subtasks_done_or_undone(3, Some(true));
    assert!(!node(&g, 2).done);
    assert!(!node(&g, 0).done);
    g.set_task_and_subtasks_done_or_undone(4, Some(true));
    assert!(node(&g, 2).done);
    assert!(node(&g, 0).done);
    g.set_task_and_subtasks_done_or_undone(0, None);
    assert_eq!(g.get_tasks_and_subtasks_count(), (5, 0));
}

#[test]
fn recheck_after_removal_completes_parent() {
    let mut g = GroupItem::new(&DataManager::new());
    g.add_task("r".to_string());
    g.add_subtask("a".to_string(), 0);
    g.add_subtask("b".to_string(), 0);
    g.set_task_and_subtasks_done_or_undone(1, Some(true));
    assert!(!node(&g, 0).done);
    let target = node(&g, 2);
    g.remove_task((&target, 1));
    g.update_parents_to_check_if_all_completed(0);
    assert!(node(&g, 0).done);
}

#[test]
fn edit_renames_only() {
    let mut g = GroupItem::new(&DataManager::new());
    g.add_task("old".to_string());
    g.add_subtask("kid".to_string(), 0);
    g.edit_sub_task(1, "new".to_string());
    assert_eq!(node(&g, 1).name, "new");
    assert_eq!(node(&g, 0).name, "old");
    assert_eq!(node(&g, 1).parent, 0);
}

#[test]
fn lookup_of_missing_id_fails() {
    let mut g = GroupItem::new(&DataManager::new());
    g.add_task("a".to_string());
    assert_eq!(GroupItem::get_task_recursive_read_only(7, g.get_tasks()).err(), Some(true));
    assert_eq!(GroupItem::get_task_recursive(7, g.get_tasks_mut()).err(), Some(true));
    let (t, pos) = GroupItem::get_task_recursive(0, g.get_tasks_mut()).unwrap();
    assert_eq!(pos, 0);
    t.name = "b".to_string();
    assert_eq!(node(&g, 0).name, "b");
}

#[test]
fn integrity_check_catches_bad_numbering() {
    let mut dm = store_with_group("Home");
    dm.get_group(0).add_task("a".to_string());
    dm.get_group(0).add_task("b".to_string());
    assert!(dm.check_data_integrity());
    dm.get_group(0).get_tasks_mut()[1].id = 5;
    assert!(!dm.check_data_integrity());
    assert!(!dm.get_group_read_only(0).is_well_formed());
}

#[test]
fn groups_edit_and_delete() {
    let mut dm = store_with_group("Home");
    let mut g = GroupItem::new(&dm);
    assert_eq!(g.id, 1);
    g.name = "Work".to_string();
    dm.add_group_item(g);
    dm.edit_group_item(0, "House".to_string());
    assert_eq!(dm.get_group_items()[0].name, "House");
    dm.delete_group_item(0);
    assert_eq!(dm.get_group_items().len(), 1);
    assert_eq!(dm.get_group_items()[0].name, "Work");
}

#[test]
fn undo_redo_round_trip() {
    let mut h = History::new();
    h.apply("S0".to_string());
    assert_eq!(h.undo("S1".to_string()), Ok("S0".to_string()));
    assert_eq!(h.redo("S0".to_string()), Ok("S1".to_string()));
    assert_eq!(h.undo("S1".to_string()), Ok("S0".to_string()));
    h.apply("S0".to_string());
    assert_eq!(h.redo("S2".to_string()), Err(true));
}

#[test]
fn undo_and_redo_on_empty_history_fail() {
    let mut h = History::new();
    assert_eq!(h.undo("now".to_string()), Err(true));
    assert_eq!(h.redo("now".to_string()), Err(true));
    let mut d = History::default();
    assert_eq!(d.undo("now".to_string()), Err(true));
}

#[test]
fn input_start_follows_display_width() {
    let mut lc = LayoutCommon::new();
    lc.input = "hello".to_string();
    lc.max_string_width = 3;
    LayoutCommon::recalculate_input_string_starting_point(&mut lc);
    assert_eq!(lc.starting_rendering_input_point, 2);
    lc.input = "日本".to_string();
    lc.max_string_width = 1;
    LayoutCommon::recalculate_input_string_starting_point(&mut lc);
    assert_eq!(lc.starting_rendering_input_point, 3);
    lc.max_string_width = 10;
    LayoutCommon::recalculate_input_string_starting_point(&mut lc);
    assert_eq!(lc.starting_rendering_input_point, 0);
    assert_eq!(input_start_for_width(7, 4), 3);
    assert_eq!(input_start_for_width(4, 7), 0);
}

#[test]
fn cursor_moves_left_then_scrolls() {
    let mut lc = LayoutCommon::new();
    lc.cursor_pos = 2;
    lc.starting_rendering_input_point = 1;
    lc.left_key_input_mode();
    assert_eq!((lc.cursor_pos, lc.starting_rendering_input_point), (1, 1));
    lc.left_key_input_mode();
    assert_eq!((lc.cursor_pos, lc.starting_rendering_input_point), (1, 0));
}

#[test]
fn app_focus_and_edit_mode() {
    let mut app = App::new();
    assert!(!app.is_in_edit_mode());
    app.update_state(FocusedLayout::TasksLayout);
    assert!(app.last_layout == FocusedLayout::GroupsLayout);
    assert!(app.focused_layout == FocusedLayout::TasksLayout);
    app.task_layout.layout_common.input_mode = InputMode::Edit;
    assert!(app.is_in_edit_mode());
    app.task_layout.layout_common.esc_key_input_mode();
    assert!(!app.is_in_edit_mode());
}

#[test]
fn cursor_moves_right_then_scrolls_and_stops_at_end() {
    let mut lc = LayoutCommon::new();
    lc.input = "abc".to_string();
    lc.max_string_width = 2;
    lc.right_key_input_mode();
    lc.right_key_input_mode();
    assert_eq!((lc.cursor_pos, lc.starting_rendering_input_point), (2, 0));
    lc.right_key_input_mode();
    assert_eq!((lc.cursor_pos, lc.starting_rendering_input_point), (2, 1));
    lc.cursor_pos = 3;
    lc.right_key_input_mode();
    assert_eq!((lc.cursor_pos, lc.starting_rendering_input_point), (3, 1));
    let mut wide = LayoutCommon::new();
    wide.input = "日".to_string();
    wide.max_string_width = 5;
    wide.right_key_input_mode();
    wide.right_key_input_mode();
    assert_eq!(wide.cursor_pos, 2);
    let mut plain = LayoutCommon::new();
    plain.max_string_width = 5;
    plain.right_key_with_width(1);
    assert_eq!(plain.cursor_pos, 1);
}

#[test]
fn progress_label_counts_all_depths() {
    let mut g = GroupItem::new(&DataManager::new());
    g.add_task("r".to_string());
    let dm = DataManager::new();
    assert_eq!(TaskLayout::sub_tasks_string(&dm, &g.get_tasks()[0].tasks), "");
    g.add_subtask("a".to_string(), 0);
    g.add_subtask("a1".to_string(), 1);
    g.add_subtask("b".to_string(), 0);
    g.set_task_and_subtasks_done_or_undone(1, Some(true));
    assert_eq!(TaskLayout::sub_tasks_string(&dm, &g.get_tasks()[0].tasks), " (2/3)");
}

#[test]
fn removing_selected_task_rechecks_parent_and_clamps_cursor() {
    let mut dm = store_with_group("Home");
    {
        let g = dm.get_group(0);
        g.add_task("r".to_string());
        g.add_subtask("a".to_string(), 0);
        g.add_subtask("b".to_string(), 0);
        g.set_task_and_subtasks_done_or_undone(1, Some(true));
    }
    dm.selected_task = 2;
    assert_eq!(dm.remove_selected_task(), 1);
    assert_eq!(dm.selected_task, 1);
    assert!(node(dm.get_group_read_only(0), 0).done);
    dm.selected_task = 0;
    assert_eq!(dm.remove_selected_task(), 2);
    assert_eq!(dm.selected_task, 0);
    assert!(dm.get_group_read_only(0).get_tasks().is_empty());
}

#[test]
fn adding_subtask_to_selected_reopens_ancestors() {
    let mut dm = store_with_group("Home");
    {
        let g = dm.get_group(0);
        g.add_task("r".to_string());
        g.add_subtask("a".to_string(), 0);
        g.add_task("s".to_string());
        g.set_task_and_subtasks_done_or_undone(0, Some(true));
        g.toggle_fold(0);
    }
    dm.load_folding(0);
    dm.selected_task = 1;
    assert_eq!(dm.add_subtask_to_selected("a1".to_string()), 2);
    let g = dm.get_group_read_only(0);
    assert!(!node(g, 2).done);
    assert!(!node(g, 1).done);
    assert!(!node(g, 0).done);
    assert_eq!(node(g, 3).name, "s");
    let mut hidden: Vec<usize> = dm.folded_state.get(&0).unwrap().iter().copied().collect();
    hidden.sort();
    assert_eq!(hidden, vec![1, 2]);
}

#[test]
fn toggling_selected_fold_updates_index() {
    let mut dm = store_with_group("Home");
    {
        let g = dm.get_group(0);
        g.add_task("r".to_string());
        g.add_subtask("a".to_string(), 0);
        g.add_subtask("b".to_string(), 0);
    }
    dm.selected_task = 0;
    dm.toggle_selected_fold();
    assert!(node(dm.get_group_read_only(0), 0).folded);
    assert_eq!(dm.folded_state.get(&0).unwrap().len(), 2);
    dm.toggle_selected_fold();
    assert!(dm.folded_state.is_empty());
    dm.selected_task = 1;
    dm.toggle_selected_fold();
    assert!(!node(dm.get_group_read_only(0), 1).folded);
    assert!(dm.folded_state.is_empty());
}

#[test]
fn selecting_a_group_resets_cursor_and_folds() {
    let mut dm = store_with_group("Home");
    let mut work = GroupItem::new(&dm);
    work.name = "Work".to_string();
    dm.add_group_item(work);
    {
        let g = dm.get_group(1);
        g.add_task("r".to_string());
        g.add_subtask("a".to_string(), 0);
        g.toggle_fold(0);
    }
    dm.selected_task = 3;
    dm.select_group(1);
    assert_eq!(dm.selected_group, 1);
    assert_eq!(dm.selected_task, 0);
    assert!(dm.folded_state.get(&0).unwrap().contains(&1));
    dm.select_group(0);
    assert!(dm.folded_state.is_empty());
}

#[test]
fn typing_and_erasing_in_the_input() {
    let mut lc = LayoutCommon::new();
    lc.max_string_width = 3;
    lc.char_input_mode('a');
    lc.char_input_mode('c');
    assert_eq!(lc.input, "ac");
    lc.cursor_pos = 1;
    lc.char_input_mode('b');
    assert_eq!(lc.input, "abc");
    assert_eq!(lc.cursor_pos, 2);
    lc.cursor_pos = 3;
    lc.char_input_mode('d');
    assert_eq!(lc.input, "abcd");
    assert_eq!(lc.starting_rendering_input_point, 1);
    lc.cursor_pos = 1;
    lc.delete_key_input_mode();
    assert_eq!(lc.input, "acd");
    assert_eq!(lc.cursor_pos, 1);
    lc.backspace_key_input_mode();
    assert_eq!(lc.input, "cd");
    assert_eq!(lc.cursor_pos, 0);
    assert_eq!(lc.starting_rendering_input_point, 0);
    lc.backspace_key_input_mode();
    assert_eq!(lc.input, "cd");
    lc.cursor_pos = 2;
    lc.delete_key_input_mode();
    assert_eq!(lc.input, "cd");
    let mut wide = LayoutCommon::new();
    wide.input = "日本".to_string();
    wide.cursor_pos = 1;
    wide.char_input_mode('x');
    assert_eq!(wide.input, "日x本");
    wide.backspace_key_input_mode();
    assert_eq!(wide.input, "日本");
}

#[test]
fn deleting_a_group_renumbers_later_groups() {
    let mut dm = store_with_group("Home");
    for name in ["Work", "Gym"] {
        let mut g = GroupItem::new(&dm);
        g.name = name.to_string();
        dm.add_group_item(g);
    }
    dm.get_group(2).add_task("run".to_string());
    dm.selected_group = 1;
    dm.delete_selected_group();
    let groups = dm.get_group_items();
    assert_eq!(groups.len(), 2);
    assert_eq!((groups[0].id, groups[0].name.as_str()), (0, "Home"));
    assert_eq!((groups[1].id, groups[1].name.as_str()), (1, "Gym"));
    assert_eq!(groups[1].get_tasks().len(), 1);
    assert_eq!(dm.selected_group, 0);
    dm.delete_group_item(0);
    assert_eq!(dm.get_group_items()[0].id, 0);
}

#[test]
fn replacing_groups_refuses_a_bad_forest() {
    let mut dm = store_with_group("Home");
    let mut good = GroupItem::new(&dm);
    good.add_task("a".to_string());
    good.add_subtask("b".to_string(), 0);
    good.toggle_fold(0);
    let mut bad = GroupItem::new(&dm);
    bad.add_task("x".to_string());
    bad.get_tasks_mut()[0].id = 3;
    assert_eq!(dm.replace_groups(vec![good, bad]), Err(1));
    assert_eq!(dm.get_group_items().len(), 1);
    let mut good = GroupItem::new(&dm);
    good.add_task("a".to_string());
    good.add_subtask("b".to_string(), 0);
    good.toggle_fold(0);
    dm.selected_group = 4;
    assert_eq!(dm.replace_groups(vec![good]), Ok(()));
    assert_eq!(dm.selected_group, 0);
    assert!(dm.folded_state.get(&0).unwrap().contains(&1));
}

#[test]
fn progress_label_prints_several_digits() {
    let mut g = GroupItem::new(&DataManager::new());
    g.add_task("r".to_string());
    for i in 0..12 {
        g.add_subtask(format!("s{}", i), 0);
    }
    g.set_task_and_subtasks_done_or_undone(1, Some(true));
    let dm = DataManager::new();
    assert_eq!(TaskLayout::sub_tasks_string(&dm, &g.get_tasks()[0].tasks), " (1/12)");
}

#[test]
fn focus_change_leaves_the_rest() {
    let mut app = App::new();
    app.data_manager.selected_task = 5;
    app.update_state(FocusedLayout::ControlsLayout);
    assert_eq!(app.data_manager.selected_task, 5);
    assert!(app.run);
}

#[test]
fn removing_the_last_subtask_unfolds_its_parent() {
    let mut g = GroupItem::new(&DataManager::new());
    g.add_task("r".to_string());
    g.add_subtask("a".to_string(), 0);
    g.toggle_fold(0);
    assert!(node(&g, 0).folded);
    let target = node(&g, 1);
    g.remove_task((&target, 0));
    assert!(!node(&g, 0).folded);
    assert!(g.is_well_formed());
}

#[test]
fn store_that_loading_refuses_is_not_saved() {
    let mut dm = store_with_group("Home");
    dm.get_group(0).add_task("a".to_string());
    assert!(dm.can_persist());
    dm.get_group(0).get_tasks_mut()[0].parent = 5;
    assert!(dm.check_data_integrity());
    assert!(!dm.can_persist());
    dm.get_group(0).get_tasks_mut()[0].parent = -1;
    dm.get_group(0).get_tasks_mut()[0].folded = true;
    assert!(!dm.can_persist());
    let mut leaf = GroupItem::new(&dm);
    leaf.add_task("x".to_string());
    leaf.get_tasks_mut()[0].folded = true;
    assert_eq!(dm.replace_groups(vec![leaf]), Err(0));
}
