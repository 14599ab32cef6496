//! The workspaces as they are kept between two runs.

use vstd::prelude::*;

verus! {

/// The version of the format that is written and understood.
pub const PERSISTED_STATE_VERSION: u32 = 1;

/// The most tabs that are restored.
pub const MAX_RESTORED_TABS: usize = 28;

/// All workspaces.
#[derive(Debug)]
pub struct PersistedWorkspaceState {
    pub version: u32,
    pub active_workspace: usize,
    pub workspaces: Vec<PersistedWorkspace>,
}

/// One workspace.
#[derive(Debug)]
pub struct PersistedWorkspace {
    pub name: String,
    /// The position of the selected tab among the tabs.
    pub selected_tab: usize,
    pub tabs: Vec<PersistedTab>,
}

/// One tab.
#[derive(Debug)]
pub struct PersistedTab {
    pub title: String,
    pub current_directory: Option<String>,
}

impl Clone for PersistedTab {
    fn clone(&self) -> (copy: PersistedTab)
        ensures
            copy == *self,
    {
        PersistedTab {
            title: self.title.clone(),
            current_directory: self.current_directory.clone(),
        }
    }
}

impl Clone for PersistedWorkspace {
    fn clone(&self) -> (copy: PersistedWorkspace)
        ensures
            copy.name == self.name,
            copy.selected_tab == self.selected_tab,
            copy.tabs@ == self.tabs@,
    {
        let tabs = self.tabs.clone();
        assert(tabs@ =~= self.tabs@);
        PersistedWorkspace { name: self.name.clone(), selected_tab: self.selected_tab, tabs }
    }
}

impl Clone for PersistedWorkspaceState {
    fn clone(&self) -> (copy: PersistedWorkspaceState)
        ensures
            copy.version == self.version,
            copy.active_workspace == self.active_workspace,
            copy.workspaces@.len() == self.workspaces@.len(),
            forall|k: int|
                #![trigger copy.workspaces@[k]]
                0 <= k < self.workspaces@.len() ==> {
                    &&& copy.workspaces@[k].name == self.workspaces@[k].name
                    &&& copy.workspaces@[k].selected_tab == self.workspaces@[k].selected_tab
                    &&& copy.workspaces@[k].tabs@ == self.workspaces@[k].tabs@
                },
    {
        PersistedWorkspaceState {
            version: self.version,
            active_workspace: self.active_workspace,
            workspaces: self.workspaces.clone(),
        }
    }
}

/// How many tabs workspaces hold together.
pub open spec fn total_tabs(workspaces: Seq<PersistedWorkspace>) -> nat
    decreases workspaces.len(),
{
    if workspaces.len() == 0 {
        0
    } else {
        total_tabs(workspaces.drop_last()) + workspaces.last().tabs@.len()
    }
}

/// The tabs of workspaces, one workspace after the other.
pub open spec fn all_tabs(workspaces: Seq<PersistedWorkspace>) -> Seq<PersistedTab>
    decreases workspaces.len(),
{
    if workspaces.len() == 0 {
        Seq::empty()
    } else {
        all_tabs(workspaces.drop_last()) + workspaces.last().tabs@
    }
}

impl PersistedWorkspaceState {
    /// Whether the workspaces can be restored: they are of the version that is
    /// understood, there is one, each has a tab, and the tabs are not too many.
    pub open spec fn is_restorable(self) -> bool {
        &&& self.version == PERSISTED_STATE_VERSION
        &&& self.workspaces@.len() > 0
        &&& forall|k: int|
            0 <= k < self.workspaces@.len() ==> (#[trigger] self.workspaces@[k]).tabs@.len() > 0
        &&& total_tabs(self.workspaces@) <= MAX_RESTORED_TABS
    }
}

/// As many workspaces as there are first ones hold no more tabs than all do.
pub proof fn lemma_total_grows(workspaces: Seq<PersistedWorkspace>, k: int)
    requires
        0 <= k <= workspaces.len(),
    ensures
        total_tabs(workspaces.take(k)) <= total_tabs(workspaces),
    decreases workspaces.len(),
{
    if k == workspaces.len() {
        assert(workspaces.take(k) =~= workspaces);
    } else {
        lemma_total_grows(workspaces.drop_last(), k);
        assert(workspaces.drop_last().take(k) =~= workspaces.take(k));
    }
}

/// One more workspace adds its own tabs.
pub proof fn lemma_next_workspace(workspaces: Seq<PersistedWorkspace>, k: int)
    requires
        0 <= k < workspaces.len(),
    ensures
        total_tabs(workspaces.take(k + 1)) == total_tabs(workspaces.take(k))
            + workspaces[k].tabs@.len(),
        all_tabs(workspaces.take(k + 1)) == all_tabs(workspaces.take(k)) + workspaces[k].tabs@,
{
    assert(workspaces.take(k + 1).drop_last() =~= workspaces.take(k));
    assert(workspaces.take(k + 1).last() == workspaces[k]);
}

/// The tabs of workspaces are as many as the workspaces hold together.
pub proof fn lemma_all_tabs_len(workspaces: Seq<PersistedWorkspace>)
    ensures
        all_tabs(workspaces).len() == total_tabs(workspaces),
    decreases workspaces.len(),
{
    if workspaces.len() > 0 {
        lemma_all_tabs_len(workspaces.drop_last());
    }
}

} // verus!
