use rioterm::persisted::{
    PersistedTab, PersistedWorkspace, PersistedWorkspaceState, MAX_RESTORED_TABS,
    PERSISTED_STATE_VERSION,
};
use rioterm::saving::{
    next_step, state_base, SaveStep, STATE_DIRECTORY, STATE_FILE, TEMPORARY_EXTENSION,
};
use rioterm::workspace::WorkspaceManager;

fn tab(title: &str) -> PersistedTab {
    PersistedTab {
        title: title.to_string(),
        current_directory: None,
    }
}

fn workspace(name: &str, selected_tab: usize, count: usize) -> PersistedWorkspace {
    PersistedWorkspace {
        name: name.to_string(),
        selected_tab,
        tabs: (0..count).map(|i| tab(&format!("{name}{i}"))).collect(),
    }
}

fn state(active_workspace: usize, workspaces: Vec<PersistedWorkspace>) -> PersistedWorkspaceState {
    PersistedWorkspaceState {
        version: 1,
        active_workspace,
        workspaces,
    }
}

#[test]
fn the_format_has_its_limits() {
    assert_eq!(PERSISTED_STATE_VERSION, 1);
    assert_eq!(MAX_RESTORED_TABS, 28);
}

#[test]
fn restoring_numbers_the_tabs_through() {
    let (mut manager, tabs) = WorkspaceManager::from_persisted(state(
        1,
        vec![workspace("a", 1, 2), workspace("b", 0, 3)],
    ))
    .unwrap();
    assert_eq!(manager.len(), 2);
    assert_eq!(manager.active(), 1);
    assert_eq!(manager.tab_indices(0), &[0, 1]);
    assert_eq!(manager.tab_indices(1), &[2, 3, 4]);
    assert_eq!(manager.get(0).unwrap().name, "a");
    assert_eq!(manager.select(0), Some(1));
    assert_eq!(manager.select(1), Some(2));
    let titles: Vec<&str> = tabs.iter().map(|t| t.title.as_str()).collect();
    assert_eq!(titles, vec!["a0", "a1", "b0", "b1", "b2"]);
}

#[test]
fn what_lies_beyond_the_end_falls_back_to_the_last() {
    let (mut manager, _) = WorkspaceManager::from_persisted(state(
        9,
        vec![workspace("a", 7, 2), workspace("b", 3, 3)],
    ))
    .unwrap();
    assert_eq!(manager.active(), 1);
    assert_eq!(manager.select(0), Some(1));
    assert_eq!(manager.select(1), Some(4));
}

#[test]
fn another_version_is_not_restored() {
    let mut other = state(0, vec![workspace("a", 0, 1)]);
    other.version = 2;
    assert!(WorkspaceManager::from_persisted(other).is_none());
}

#[test]
fn no_workspaces_are_not_restored() {
    assert!(WorkspaceManager::from_persisted(state(0, Vec::new())).is_none());
}

#[test]
fn a_workspace_without_tabs_is_not_restored() {
    assert!(WorkspaceManager::from_persisted(state(
        0,
        vec![workspace("a", 0, 1), workspace("b", 0, 0)]
    ))
    .is_none());
}

#[test]
fn too_many_tabs_are_not_restored() {
    assert!(WorkspaceManager::from_persisted(state(
        0,
        vec![workspace("a", 0, 14), workspace("b", 0, 14)]
    ))
    .is_some());
    assert!(WorkspaceManager::from_persisted(state(
        0,
        vec![workspace("a", 0, 14), workspace("b", 0, 15)]
    ))
    .is_none());
    assert!(WorkspaceManager::from_persisted(state(0, vec![workspace("a", 0, 29)])).is_none());
}

#[test]
fn a_snapshot_describes_every_tab() {
    let mut manager = WorkspaceManager::new();
    manager.add_tab(2);
    manager.select_tab(2);
    manager.create();
    manager.add_tab(1);
    let mut asked: Vec<usize> = Vec::new();
    let snapshot = manager.snapshot(|index| {
        asked.push(index);
        PersistedTab {
            title: format!("tab {index}"),
            current_directory: Some(format!("/{index}")),
        }
    });
    assert_eq!(asked, vec![0, 2, 1]);
    assert_eq!(snapshot.version, 1);
    assert_eq!(snapshot.active_workspace, 1);
    assert_eq!(snapshot.workspaces.len(), 2);
    assert_eq!(snapshot.workspaces[0].name, "Main");
    assert_eq!(snapshot.workspaces[0].selected_tab, 1);
    assert_eq!(snapshot.workspaces[0].tabs[1].title, "tab 2");
    assert_eq!(
        snapshot.workspaces[0].tabs[1].current_directory,
        Some("/2".to_string())
    );
    assert_eq!(snapshot.workspaces[1].selected_tab, 0);
}

#[test]
fn a_snapshot_of_an_empty_workspace_selects_the_first_place() {
    let mut manager = WorkspaceManager::new();
    manager.create();
    let snapshot = manager.snapshot(|_| tab("t"));
    assert_eq!(snapshot.workspaces[1].selected_tab, 0);
    assert!(snapshot.workspaces[1].tabs.is_empty());
    assert!(WorkspaceManager::from_persisted(snapshot).is_none());
}

#[test]
fn a_snapshot_is_restored() {
    let mut manager = WorkspaceManager::new();
    manager.add_tab(1);
    manager.select_tab(1);
    let second = manager.create();
    manager.add_tab(2);
    manager.add_tab(3);
    manager.select_tab(3);
    manager.set_active(0);
    let snapshot = manager.snapshot(|index| tab(&format!("{index}")));
    let copy = snapshot.clone();
    assert_eq!(copy.workspaces.len(), 2);
    let (mut restored, tabs) = WorkspaceManager::from_persisted(snapshot).unwrap();
    assert_eq!(restored.len(), manager.len());
    assert_eq!(restored.active(), 0);
    for index in 0..manager.len() {
        assert_eq!(restored.tab_indices(index), manager.tab_indices(index));
        assert_eq!(restored.get(index).unwrap().name, manager.get(index).unwrap().name);
    }
    assert_eq!(restored.select(0), Some(1));
    assert_eq!(restored.select(second), Some(3));
    let titles: Vec<&str> = tabs.iter().map(|t| t.title.as_str()).collect();
    assert_eq!(titles, vec!["0", "1", "2", "3"]);
}

#[test]
fn the_state_is_kept_in_the_first_known_directory() {
    assert_eq!(state_base(Some("local"), Some("data"), "."), "local");
    assert_eq!(state_base(None, Some("data"), "."), "data");
    assert_eq!(state_base(None, None, "."), ".");
    assert_eq!(STATE_DIRECTORY, "rio");
    assert_eq!(STATE_FILE, "workspaces.json");
    assert_eq!(TEMPORARY_EXTENSION, "json.tmp");
}

fn run(outcomes: &[bool]) -> SaveStep {
    let mut step = SaveStep::Serialize;
    for outcome in outcomes {
        step = next_step(step, *outcome);
    }
    step
}

#[test]
fn saving_goes_step_by_step() {
    assert_eq!(run(&[true]), SaveStep::FindDirectory);
    assert_eq!(run(&[true, true]), SaveStep::CreateDirectory);
    assert_eq!(run(&[true, true, true]), SaveStep::WriteTemporary);
    assert_eq!(run(&[true, true, true, true]), SaveStep::ReplaceState);
    assert_eq!(run(&[true, true, true, true, true]), SaveStep::Finished(true));
    assert_eq!(
        run(&[true, true, true, true, true, false]),
        SaveStep::Finished(true)
    );
}

#[test]
fn a_failed_step_ends_saving() {
    assert_eq!(run(&[false]), SaveStep::Finished(false));
    assert_eq!(run(&[true, false]), SaveStep::Finished(false));
    assert_eq!(run(&[true, true, false]), SaveStep::Finished(false));
    assert_eq!(run(&[true, true, true, false]), SaveStep::Finished(false));
}

#[test]
fn a_temporary_file_that_cannot_replace_the_state_is_removed() {
    assert_eq!(
        run(&[true, true, true, true, false]),
        SaveStep::RemoveTemporary
    );
    assert_eq!(
        run(&[true, true, true, true, false, true]),
        SaveStep::Finished(false)
    );
    assert_eq!(
        run(&[true, true, true, true, false, false]),
        SaveStep::Finished(false)
    );
}

#[test]
fn a_snapshot_with_an_empty_workspace_or_too_many_tabs_is_not_restored() {
    let mut manager = WorkspaceManager::new();
    for index in 1..28 {
        manager.add_tab(index);
    }
    assert!(WorkspaceManager::from_persisted(manager.snapshot(|_| tab("t"))).is_some());
    manager.create();
    assert!(WorkspaceManager::from_persisted(manager.snapshot(|_| tab("t"))).is_none());
    manager.add_tab(28);
    assert!(WorkspaceManager::from_persisted(manager.snapshot(|_| tab("t"))).is_none());
    manager.remove_tab(0);
    assert!(WorkspaceManager::from_persisted(manager.snapshot(|_| tab("t"))).is_some());
}

#[test]
fn restored_workspaces_are_persisted_alike() {
    let before = state(9, vec![workspace("a", 1, 2), workspace("b", 7, 3)]);
    let copy = before.clone();
    let (manager, tabs) = WorkspaceManager::from_persisted(before).unwrap();
    let after = manager.snapshot(|index| tabs[index].clone());
    assert_eq!(after.version, copy.version);
    assert_eq!(after.active_workspace, 1);
    assert_eq!(after.workspaces.len(), 2);
    assert_eq!(after.workspaces[0].selected_tab, 1);
    assert_eq!(after.workspaces[1].selected_tab, 2);
    for index in 0..2 {
        assert_eq!(after.workspaces[index].name, copy.workspaces[index].name);
        let titles = |tabs: &Vec<PersistedTab>| -> Vec<String> {
            tabs.iter().map(|t| t.title.clone()).collect()
        };
        assert_eq!(titles(&after.workspaces[index].tabs), titles(&copy.workspaces[index].tabs));
    }
}
