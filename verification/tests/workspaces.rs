use rioterm::workspace::WorkspaceManager;

#[test]
fn removing_a_tab_keeps_workspace_indices_consistent() {
    let mut manager = WorkspaceManager::new();
    manager.add_tab(1);
    manager.remove_tab(0);
    assert_eq!(manager.tab_indices(0), &[0]);
}

#[test]
fn new_workspaces_are_selected_and_can_receive_a_tab() {
    let mut manager = WorkspaceManager::new();
    let workspace = manager.create();
    manager.add_tab(1);
    assert_eq!(manager.active(), workspace);
    assert_eq!(manager.tab_indices(workspace), &[1]);
}

#[test]
fn tabs_are_kept_in_their_workspace() {
    let mut manager = WorkspaceManager::new();
    manager.add_tab(1);
    let second = manager.create();
    manager.add_tab(2);
    manager.add_tab(3);

    assert_eq!(manager.tab_indices(0), &[0, 1]);
    assert_eq!(manager.tab_indices(second), &[2, 3]);

    manager.set_active(0);
    manager.add_tab(4);
    assert_eq!(manager.tab_indices(0), &[0, 1, 4]);
    assert_eq!(manager.tab_indices(second), &[2, 3]);
}

#[test]
fn moving_a_tab_preserves_membership_and_selection() {
    let mut manager = WorkspaceManager::new();
    manager.add_tab(1);
    manager.add_tab(2);
    manager.select_tab(0);
    manager.move_tab(0, 2);
    assert_eq!(manager.tab_indices(0), &[0, 1, 2]);
    assert_eq!(manager.select(0), Some(2));
}

#[test]
fn a_new_manager_has_one_workspace_with_one_tab() {
    let manager = WorkspaceManager::new();
    assert_eq!(manager.len(), 1);
    assert_eq!(manager.active(), 0);
    assert_eq!(manager.get(0).unwrap().name, "Main");
    assert_eq!(manager.get(0).unwrap().tabs, vec![0]);
    assert_eq!(manager.selected_tab_for_active(), Some(0));
    assert!(manager.get(1).is_none());

    let manager = WorkspaceManager::default();
    assert_eq!(manager.len(), 1);
    assert_eq!(manager.tab_indices(0), &[0]);
}

#[test]
fn workspaces_are_named_by_their_place() {
    let mut manager = WorkspaceManager::new();
    for expected in 1..12usize {
        assert_eq!(manager.create(), expected);
    }
    assert_eq!(manager.get(1).unwrap().name, "Workspace 2");
    assert_eq!(manager.get(9).unwrap().name, "Workspace 10");
    assert_eq!(manager.get(11).unwrap().name, "Workspace 12");
}

#[test]
fn counts_and_indices_of_a_missing_workspace_are_empty() {
    let manager = WorkspaceManager::new();
    assert_eq!(manager.tab_count(0), 1);
    assert_eq!(manager.tab_count(1), 0);
    assert!(manager.tab_indices(1).is_empty());
}

#[test]
fn selecting_an_empty_or_missing_workspace_does_nothing() {
    let mut manager = WorkspaceManager::new();
    let second = manager.create();
    manager.set_active(0);
    assert_eq!(manager.select(second), None);
    assert_eq!(manager.active(), 0);
    assert_eq!(manager.select(7), None);
    assert_eq!(manager.active(), 0);
    manager.set_active(7);
    assert_eq!(manager.active(), 0);
}

#[test]
fn the_first_tab_of_a_workspace_is_selected() {
    let mut manager = WorkspaceManager::new();
    let second = manager.create();
    assert_eq!(manager.selected_tab_for_active(), Some(0));
    manager.add_tab(4);
    manager.add_tab(5);
    assert_eq!(manager.selected_tab_for_active(), Some(4));
    manager.select_tab(5);
    assert_eq!(manager.selected_tab_for_active(), Some(5));
    assert_eq!(manager.select(0), Some(0));
    assert_eq!(manager.select(second), Some(5));
    assert_eq!(manager.active(), second);
}

#[test]
fn a_tab_is_looked_up_in_the_first_workspace_that_holds_it() {
    let mut manager = WorkspaceManager::new();
    manager.create();
    manager.add_tab(3);
    manager.create();
    manager.add_tab(3);
    assert_eq!(manager.workspace_for_tab(0), Some(0));
    assert_eq!(manager.workspace_for_tab(3), Some(1));
    assert_eq!(manager.workspace_for_tab(9), None);
    manager.select_tab(9);
    assert_eq!(manager.selected_tab_for_active(), Some(3));
}

#[test]
fn removing_the_last_tab_of_a_workspace_drops_it() {
    let mut manager = WorkspaceManager::new();
    manager.create();
    manager.add_tab(1);
    manager.remove_tab(0);
    assert_eq!(manager.len(), 1);
    assert_eq!(manager.get(0).unwrap().name, "Workspace 2");
    assert_eq!(manager.tab_indices(0), &[0]);
    assert_eq!(manager.active(), 0);
}

#[test]
fn the_last_workspace_stays_without_tabs() {
    let mut manager = WorkspaceManager::new();
    manager.remove_tab(0);
    assert_eq!(manager.len(), 1);
    assert_eq!(manager.tab_count(0), 0);
    assert_eq!(manager.get(0).unwrap().name, "Main");
    assert_eq!(manager.select(0), None);

    let mut manager = WorkspaceManager::new();
    manager.create();
    manager.create();
    manager.remove_tab(0);
    assert_eq!(manager.len(), 1);
    assert_eq!(manager.get(0).unwrap().name, "Main");
    assert_eq!(manager.tab_count(0), 0);
    assert_eq!(manager.active(), 0);
    assert_eq!(manager.selected_tab_for_active(), Some(0));
}

#[test]
fn removing_the_selected_tab_selects_the_first() {
    let mut manager = WorkspaceManager::new();
    manager.add_tab(1);
    manager.add_tab(2);
    manager.select_tab(1);
    manager.remove_tab(1);
    assert_eq!(manager.tab_indices(0), &[0, 1]);
    assert_eq!(manager.selected_tab_for_active(), Some(0));
    manager.select_tab(1);
    manager.remove_tab(0);
    assert_eq!(manager.selected_tab_for_active(), Some(0));
}

#[test]
fn removing_an_earlier_workspace_leaves_the_active_index() {
    let mut manager = WorkspaceManager::new();
    manager.create();
    manager.add_tab(1);
    manager.create();
    manager.add_tab(2);
    manager.set_active(1);
    manager.remove_tab(0);
    assert_eq!(manager.active(), 1);
    assert_eq!(manager.get(1).unwrap().name, "Workspace 3");
}

#[test]
fn swapping_puts_tabs_in_order() {
    let mut manager = WorkspaceManager::new();
    manager.add_tab(5);
    manager.add_tab(3);
    manager.add_tab(4);
    manager.select_tab(3);
    manager.swap_tabs(3, 9);
    assert_eq!(manager.tab_indices(0), &[0, 4, 5, 9]);
    assert_eq!(manager.selected_tab_for_active(), Some(9));
    manager.swap_tabs(9, 3);
    assert_eq!(manager.tab_indices(0), &[0, 3, 4, 5]);
    assert_eq!(manager.selected_tab_for_active(), Some(3));
}

#[test]
fn swapping_across_workspaces_keeps_the_groups() {
    let mut manager = WorkspaceManager::new();
    manager.add_tab(1);
    let second = manager.create();
    manager.add_tab(2);
    manager.add_tab(3);
    manager.swap_tabs(1, 2);
    assert_eq!(manager.tab_indices(0), &[0, 2]);
    assert_eq!(manager.tab_indices(second), &[1, 3]);
    assert_eq!(manager.select(second), Some(1));
}

#[test]
fn moving_forth_and_back_changes_nothing() {
    let mut manager = WorkspaceManager::new();
    manager.add_tab(1);
    let second = manager.create();
    manager.add_tab(2);
    manager.add_tab(3);
    manager.move_tab(3, 0);
    assert_eq!(manager.tab_indices(0), &[1, 2]);
    assert_eq!(manager.tab_indices(second), &[0, 3]);
    assert_eq!(manager.select(second), Some(3));
    manager.move_tab(0, 3);
    assert_eq!(manager.tab_indices(0), &[0, 1]);
    assert_eq!(manager.tab_indices(second), &[2, 3]);
    assert_eq!(manager.select(second), Some(2));
}

#[test]
fn every_tab_stays_listed_once() {
    let mut manager = WorkspaceManager::new();
    for tab in 1..4usize {
        manager.add_tab(tab);
    }
    manager.create();
    for tab in 4..7usize {
        manager.add_tab(tab);
    }
    manager.move_tab(1, 5);
    manager.swap_tabs(0, 6);
    manager.remove_tab(2);
    let mut tabs: Vec<usize> = Vec::new();
    for index in 0..manager.len() {
        tabs.extend_from_slice(manager.tab_indices(index));
    }
    tabs.sort();
    assert_eq!(tabs, vec![0, 1, 2, 3, 4, 5]);
}

#[test]
fn a_copy_is_independent() {
    let mut manager = WorkspaceManager::new();
    let copy = manager.clone();
    manager.add_tab(1);
    assert_eq!(copy.tab_indices(0), &[0]);
    assert_eq!(manager.tab_indices(0), &[0, 1]);
}

#[test]
fn a_moved_tab_is_taken_out_and_put_in() {
    for from in 0..5usize {
        for to in 0..5usize {
            for tab in 0..6usize {
                let mut manager = WorkspaceManager::new();
                manager.create();
                manager.add_tab(tab);
                manager.move_tab(from, to);
                let mut window: Vec<usize> = vec![0, 1, 2, 3, 4];
                let moved = window.remove(from);
                window.insert(to, moved);
                let place = window.iter().position(|&other| other == tab).unwrap_or(tab);
                assert_eq!(manager.tab_indices(1), &[place]);
            }
        }
    }
}

#[test]
fn adding_and_removing_a_tab_changes_nothing() {
    let mut manager = WorkspaceManager::new();
    manager.add_tab(1);
    let second = manager.create();
    manager.add_tab(2);
    manager.set_active(0);
    manager.add_tab(3);
    manager.remove_tab(3);
    assert_eq!(manager.len(), 2);
    assert_eq!(manager.active(), 0);
    assert_eq!(manager.tab_indices(0), &[0, 1]);
    assert_eq!(manager.tab_indices(second), &[2]);
    assert_eq!(manager.select(0), Some(0));
    assert_eq!(manager.select(second), Some(2));
    // A workspace that was empty is dropped.
    manager.create();
    manager.add_tab(3);
    manager.remove_tab(3);
    assert_eq!(manager.len(), 2);
}

#[test]
fn moving_by_one_place_is_swapping() {
    for (from, to) in [(1, 2), (2, 1)] {
        let mut moved = WorkspaceManager::new();
        moved.add_tab(1);
        moved.select_tab(1);
        moved.create();
        moved.add_tab(2);
        moved.add_tab(3);
        let mut swapped = moved.clone();
        moved.move_tab(from, to);
        swapped.swap_tabs(1, 2);
        for index in 0..2 {
            assert_eq!(moved.tab_indices(index), swapped.tab_indices(index));
            assert_eq!(moved.select(index), swapped.select(index));
        }
        assert_eq!(moved.tab_indices(0), &[0, 2]);
    }
}

#[test]
fn choosing_workspaces_keeps_selections() {
    let mut manager = WorkspaceManager::new();
    manager.add_tab(1);
    manager.select_tab(1);
    manager.create();
    manager.set_active(0);
    manager.create();
    manager.set_active(9);
    manager.set_active(1);
    assert_eq!(manager.select(0), Some(1));
    assert_eq!(manager.tab_indices(0), &[0, 1]);
}
