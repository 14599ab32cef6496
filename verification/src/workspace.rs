//! Workspaces, which group the tabs of a window.

use vstd::prelude::*;

use crate::persisted;
use crate::persisted::{PersistedTab, PersistedWorkspace, PersistedWorkspaceState};
use crate::text;
use crate::workspace_laws;

verus! {

/// The name of the workspace that is there from the beginning.
pub const DEFAULT_WORKSPACE_NAME: &'static str = "Main";

/// A named group of tabs, one of which is selected.
#[derive(Debug)]
pub struct Workspace {
    pub name: String,
    /// The indices of the tabs in the window.
    pub tabs: Vec<usize>,
    selected_tab: usize,
}

/// The workspaces of a window, one of which is active.
#[derive(Debug)]
pub struct WorkspaceManager {
    workspaces: Vec<Workspace>,
    active: usize,
}

/// What a workspace holds.
#[verifier::ext_equal]
pub struct WorkspaceView {
    pub name: Seq<char>,
    pub tabs: Seq<usize>,
    pub selected: usize,
}

/// What a manager holds.
#[verifier::ext_equal]
pub struct ManagerView {
    pub workspaces: Seq<WorkspaceView>,
    pub active: usize,
}

impl View for Workspace {
    type V = WorkspaceView;

    closed spec fn view(&self) -> WorkspaceView {
        WorkspaceView { name: self.name@, tabs: self.tabs@, selected: self.selected_tab }
    }
}

impl View for WorkspaceManager {
    type V = ManagerView;

    closed spec fn view(&self) -> ManagerView {
        ManagerView {
            workspaces: self.workspaces@.map_values(|workspace: Workspace| workspace@),
            active: self.active,
        }
    }
}

/// Numbers in ascending order.
pub open spec fn ascending(tabs: Seq<usize>) -> Seq<usize> {
    tabs.sort_by(|a: usize, b: usize| a <= b)
}

/// The index of a tab once the tab at `removed` is gone.
pub open spec fn index_after_removal(tab: usize, removed: usize) -> usize {
    if tab > removed {
        (tab - 1) as usize
    } else {
        tab
    }
}

/// The tabs that are left once the tab at `removed` is gone, under their new indices.
pub open spec fn tabs_after_removal(tabs: Seq<usize>, removed: usize) -> Seq<usize> {
    tabs.filter(|tab: usize| tab != removed).map_values(
        |tab: usize| index_after_removal(tab, removed),
    )
}

/// The index of a tab once the tabs at `first` and `second` have changed places.
pub open spec fn index_after_swap(tab: usize, first: usize, second: usize) -> usize {
    if tab == first {
        second
    } else if tab == second {
        first
    } else {
        tab
    }
}

/// The index of a tab once the tab at `from` has moved to `to`, past those between.
pub open spec fn index_after_move(tab: usize, from: usize, to: usize) -> usize {
    if tab == from {
        to
    } else if from < tab <= to {
        (tab - 1) as usize
    } else if to <= tab < from {
        (tab + 1) as usize
    } else {
        tab
    }
}

impl WorkspaceView {
    /// Where there are tabs, the selected one is among them.
    pub open spec fn wf(self) -> bool {
        self.tabs.len() > 0 ==> self.tabs.contains(self.selected)
    }

    /// A workspace without tabs.
    pub open spec fn empty(name: Seq<char>) -> WorkspaceView {
        WorkspaceView { name, tabs: Seq::empty(), selected: 0 }
    }

    /// The tab to show: the selected one if it is among the tabs, else the first.
    pub open spec fn tab_to_show(self) -> Option<usize> {
        if self.tabs.contains(self.selected) {
            Some(self.selected)
        } else if self.tabs.len() > 0 {
            Some(self.tabs[0])
        } else {
            None
        }
    }

    /// The position of the selected tab, or the first where it is not among the tabs.
    pub open spec fn selected_position(self) -> int {
        if self.tabs.contains(self.selected) {
            choose|i: int| is_first_position(self.tabs, self.selected, i)
        } else {
            0
        }
    }

    /// The workspace with one more tab, which is selected if it is the only one.
    pub open spec fn with_tab(self, tab: usize) -> WorkspaceView {
        WorkspaceView {
            tabs: self.tabs.push(tab),
            selected: if self.tabs.len() == 0 {
                tab
            } else {
                self.selected
            },
            ..self
        }
    }

    /// The workspace once the tab at `removed` is gone from the window.
    pub open spec fn without(self, removed: usize) -> WorkspaceView {
        let tabs = tabs_after_removal(self.tabs, removed);
        WorkspaceView {
            tabs,
            selected: if self.selected != removed {
                index_after_removal(self.selected, removed)
            } else if tabs.len() > 0 {
                tabs[0]
            } else {
                0
            },
            ..self
        }
    }

    /// The workspace once two tabs of the window have changed places.
    pub open spec fn swapped(self, first: usize, second: usize) -> WorkspaceView {
        WorkspaceView {
            tabs: ascending(
                self.tabs.map_values(|tab: usize| index_after_swap(tab, first, second)),
            ),
            selected: index_after_swap(self.selected, first, second),
            ..self
        }
    }

    /// The workspace once a tab of the window has moved.
    pub open spec fn moved(self, from: usize, to: usize) -> WorkspaceView {
        WorkspaceView {
            tabs: ascending(self.tabs.map_values(|tab: usize| index_after_move(tab, from, to))),
            selected: index_after_move(self.selected, from, to),
            ..self
        }
    }
}

/// Whether `i` is the first position at which `tab` stands.
pub open spec fn is_first_position(tabs: Seq<usize>, tab: usize, i: int) -> bool {
    &&& 0 <= i < tabs.len()
    &&& tabs[i] == tab
    &&& forall|j: int| 0 <= j < i ==> tabs[j] != tab
}

impl ManagerView {
    /// There is a workspace, one of them is active, and each is valid.
    pub open spec fn wf(self) -> bool {
        &&& self.active < self.workspaces.len()
        &&& forall|k: int| 0 <= k < self.workspaces.len() ==> (#[trigger] self.workspaces[k]).wf()
    }

    /// Whether `k` is the first workspace that holds `tab`.
    pub open spec fn is_home(self, tab: usize, k: int) -> bool {
        &&& 0 <= k < self.workspaces.len()
        &&& self.workspaces[k].tabs.contains(tab)
        &&& forall|j: int| 0 <= j < k ==> !(#[trigger] self.workspaces[j]).tabs.contains(tab)
    }

    /// Whether no workspace holds `tab`.
    pub open spec fn is_homeless(self, tab: usize) -> bool {
        forall|j: int|
            0 <= j < self.workspaces.len() ==> !(#[trigger] self.workspaces[j]).tabs.contains(tab)
    }

    /// The workspaces with a new, active one behind them, which is named by its place.
    pub open spec fn with_workspace(self) -> ManagerView {
        ManagerView {
            workspaces: self.workspaces.push(
                WorkspaceView::empty(
                    "Workspace "@ + text::decimal_digits(self.workspaces.len() + 1),
                ),
            ),
            active: self.workspaces.len() as usize,
        }
    }

    /// The workspaces with the one at `index` active, if there is one.
    pub open spec fn with_active(self, index: usize) -> ManagerView {
        if index < self.workspaces.len() {
            ManagerView { active: index, ..self }
        } else {
            self
        }
    }

    /// The workspaces with one more tab in the active one.
    pub open spec fn with_tab(self, tab: usize) -> ManagerView {
        if self.active < self.workspaces.len() {
            ManagerView {
                workspaces: self.workspaces.update(
                    self.active as int,
                    self.workspaces[self.active as int].with_tab(tab),
                ),
                ..self
            }
        } else {
            self
        }
    }

    /// The workspaces once the tab at `removed` is gone from the window. Of several
    /// workspaces those that have no tab left are dropped. Where none would be left
    /// there is one without tabs.
    pub open spec fn without(self, removed: usize) -> ManagerView {
        let reduced = self.workspaces.map_values(
            |workspace: WorkspaceView| workspace.without(removed),
        );
        let kept = if reduced.len() > 1 {
            reduced.filter(|workspace: WorkspaceView| workspace.tabs.len() > 0)
        } else {
            reduced
        };
        let workspaces = if kept.len() == 0 {
            seq![WorkspaceView::empty(DEFAULT_WORKSPACE_NAME@)]
        } else {
            kept
        };
        ManagerView {
            workspaces,
            active: if self.active < workspaces.len() {
                self.active
            } else {
                (workspaces.len() - 1) as usize
            },
        }
    }

    /// The workspaces once two tabs of the window have changed places.
    pub open spec fn swapped(self, first: usize, second: usize) -> ManagerView {
        ManagerView {
            workspaces: self.workspaces.map_values(
                |workspace: WorkspaceView| workspace.swapped(first, second),
            ),
            ..self
        }
    }

    /// The workspaces once a tab of the window has moved.
    pub open spec fn moved(self, from: usize, to: usize) -> ManagerView {
        ManagerView {
            workspaces: self.workspaces.map_values(
                |workspace: WorkspaceView| workspace.moved(from, to),
            ),
            ..self
        }
    }

    /// The workspaces with `tab` selected in the first one that holds it.
    pub open spec fn with_selection(self, tab: usize) -> ManagerView {
        if self.is_homeless(tab) {
            self
        } else {
            let k = choose|k: int| self.is_home(tab, k);
            ManagerView {
                workspaces: self.workspaces.update(
                    k,
                    WorkspaceView { selected: tab, ..self.workspaces[k] },
                ),
                ..self
            }
        }
    }
}

/// `sort_unstable` of the slice that a vector holds: it puts the numbers in ascending
/// order and neither adds nor drops one.
#[verifier::external_body]
fn sort_unstable(tabs: &mut Vec<usize>)
    ensures
        vstd::relations::sorted_by(final(tabs)@, |a: usize, b: usize| a <= b),
        final(tabs)@.to_multiset() == old(tabs)@.to_multiset(),
{
    tabs.sort_unstable();
}

fn sort_tabs(tabs: &mut Vec<usize>)
    ensures
        final(tabs)@ == ascending(old(tabs)@),
{
    let ghost before = tabs@;
    sort_unstable(tabs);
    proof {
        let order = |a: usize, b: usize| a <= b;
        assert(vstd::relations::total_ordering(order));
        before.lemma_sort_by_ensures(order);
        vstd::seq_lib::lemma_sorted_unique(tabs@, before.sort_by(order), order);
    }
}

fn contains(tabs: &Vec<usize>, tab: usize) -> (found: bool)
    ensures
        found == tabs@.contains(tab),
{
    let mut i: usize = 0;
    while i < tabs.len()
        invariant
            i <= tabs@.len(),
            forall|j: int| 0 <= j < i ==> tabs@[j] != tab,
        decreases tabs@.len() - i,
    {
        if tabs[i] == tab {
            return true;
        }
        i = i + 1;
    }
    false
}

/// Nothing is left of no tabs.
pub proof fn lemma_removal_from_none(removed: usize)
    ensures
        tabs_after_removal(Seq::empty(), removed) == Seq::<usize>::empty(),
{
    reveal(Seq::filter);
    assert(tabs_after_removal(Seq::empty(), removed) =~= Seq::empty());
}

/// What is left of one more tab.
pub proof fn lemma_removal_from_one_more(tabs: Seq<usize>, tab: usize, removed: usize)
    ensures
        tabs_after_removal(tabs.push(tab), removed) == if tab == removed {
            tabs_after_removal(tabs, removed)
        } else {
            tabs_after_removal(tabs, removed).push(index_after_removal(tab, removed))
        },
{
    reveal(Seq::filter);
    assert(tabs.push(tab).drop_last() =~= tabs);
    assert(tabs_after_removal(tabs.push(tab), removed) =~= if tab == removed {
        tabs_after_removal(tabs, removed)
    } else {
        tabs_after_removal(tabs, removed).push(index_after_removal(tab, removed))
    });
}

impl Workspace {
    fn remove(&mut self, removed: usize)
        ensures
            final(self)@ == old(self)@.without(removed),
    {
        let ghost before = self.tabs@;
        let mut tabs: Vec<usize> = Vec::new();
        let mut i: usize = 0;
        proof {
            lemma_removal_from_none(removed);
            assert(before.take(0) =~= Seq::empty());
        }
        while i < self.tabs.len()
            invariant
                i <= self.tabs@.len(),
                self.tabs@ == before,
                before == old(self).tabs@,
                self.name == old(self).name,
                self.selected_tab == old(self).selected_tab,
                tabs@ == tabs_after_removal(before.take(i as int), removed),
            decreases self.tabs@.len() - i,
        {
            let tab = self.tabs[i];
            proof {
                lemma_removal_from_one_more(before.take(i as int), tab, removed);
                assert(before.take(i + 1) =~= before.take(i as int).push(tab));
            }
            if tab > removed {
                tabs.push(tab - 1);
            } else if tab < removed {
                tabs.push(tab);
            }
            i = i + 1;
        }
        assert(before.take(i as int) =~= before);
        self.tabs = tabs;
        if self.selected_tab == removed {
            self.selected_tab = if self.tabs.len() > 0 {
                self.tabs[0]
            } else {
                0
            };
        } else if self.selected_tab > removed {
            self.selected_tab = self.selected_tab - 1;
        }
    }

    fn swap(&mut self, first: usize, second: usize)
        ensures
            final(self)@ == old(self)@.swapped(first, second),
    {
        let ghost before = self.tabs@;
        let ghost exchange = |tab: usize| index_after_swap(tab, first, second);
        if self.selected_tab == first {
            self.selected_tab = second;
        } else if self.selected_tab == second {
            self.selected_tab = first;
        }
        let mut i: usize = 0;
        while i < self.tabs.len()
            invariant
                i <= self.tabs@.len() == before.len(),
                forall|j: int|
                    0 <= j < before.len() ==> #[trigger] self.tabs@[j] == if j < i {
                        index_after_swap(before[j], first, second)
                    } else {
                        before[j]
                    },
                self.name == old(self).name,
                self.selected_tab == index_after_swap(old(self).selected_tab, first, second),
            decreases self.tabs@.len() - i,
        {
            if self.tabs[i] == first {
                self.tabs[i] = second;
            } else if self.tabs[i] == second {
                self.tabs[i] = first;
            }
            i = i + 1;
        }
        assert(self.tabs@ =~= before.map_values(exchange));
        sort_tabs(&mut self.tabs);
    }

    fn relocate(&mut self, from: usize, to: usize)
        ensures
            final(self)@ == old(self)@.moved(from, to),
    {
        let ghost before = self.tabs@;
        let ghost remap = |tab: usize| index_after_move(tab, from, to);
        self.selected_tab = WorkspaceManager::remap_tab_index(self.selected_tab, from, to);
        let mut i: usize = 0;
        while i < self.tabs.len()
            invariant
                i <= self.tabs@.len() == before.len(),
                forall|j: int|
                    0 <= j < before.len() ==> #[trigger] self.tabs@[j] == if j < i {
                        index_after_move(before[j], from, to)
                    } else {
                        before[j]
                    },
                self.name == old(self).name,
                self.selected_tab == index_after_move(old(self).selected_tab, from, to),
            decreases self.tabs@.len() - i,
        {
            let index = WorkspaceManager::remap_tab_index(self.tabs[i], from, to);
            self.tabs[i] = index;
            i = i + 1;
        }
        assert(self.tabs@ =~= before.map_values(remap));
        sort_tabs(&mut self.tabs);
    }

    /// The position of the selected tab, or the first where it is not among the tabs.
    fn selected_position(&self) -> (position: usize)
        ensures
            position == self@.selected_position(),
    {
        let mut i: usize = 0;
        while i < self.tabs.len()
            invariant
                i <= self.tabs@.len(),
                forall|j: int| 0 <= j < i ==> self.tabs@[j] != self.selected_tab,
            decreases self.tabs@.len() - i,
        {
            if self.tabs[i] == self.selected_tab {
                proof {
                    assert(is_first_position(self@.tabs, self@.selected, i as int));
                    let chosen = choose|k: int| is_first_position(self@.tabs, self@.selected, k);
                    assert(chosen == i);
                }
                return i;
            }
            i = i + 1;
        }
        0
    }
}

impl Clone for Workspace {
    fn clone(&self) -> (copy: Workspace)
        ensures
            copy@ == self@,
    {
        let tabs = self.tabs.clone();
        assert(tabs@ =~= self.tabs@);
        Workspace { name: self.name.clone(), tabs, selected_tab: self.selected_tab }
    }
}

impl WorkspaceManager {
    fn remap_tab_index(index: usize, from: usize, to: usize) -> (remapped: usize)
        ensures
            remapped == index_after_move(index, from, to),
    {
        if index == from {
            to
        } else if from < to && index > from && index <= to {
            index - 1
        } else if to < from && index >= to && index < from {
            index + 1
        } else {
            index
        }
    }

    /// The manager of a new window: one workspace with the first tab.
    pub fn new() -> (manager: WorkspaceManager)
        ensures
            manager@.workspaces == seq![
                WorkspaceView {
                    name: DEFAULT_WORKSPACE_NAME@,
                    tabs: seq![0usize],
                    selected: 0,
                },
            ],
            manager@.active == 0,
            manager@.wf(),
    {
        let mut tabs: Vec<usize> = Vec::new();
        tabs.push(0);
        let mut workspaces: Vec<Workspace> = Vec::new();
        workspaces.push(
            Workspace { name: DEFAULT_WORKSPACE_NAME.to_owned(), tabs, selected_tab: 0 },
        );
        let manager = WorkspaceManager { workspaces, active: 0 };
        proof {
            assert(tabs@ =~= seq![0usize]);
            assert(manager@.workspaces =~= seq![
                WorkspaceView { name: DEFAULT_WORKSPACE_NAME@, tabs: seq![0usize], selected: 0 },
            ]);
            assert(seq![0usize][0] == 0);
        }
        manager
    }

    /// Takes note that the tab at `removed` is gone from the window.
    pub fn remove_tab(&mut self, removed: usize)
        ensures
            final(self)@ == old(self)@.without(removed),
            old(self)@.wf() ==> final(self)@.wf(),
    {
        let ghost before = self@.workspaces;
        let ghost reduce = |workspace: WorkspaceView| workspace.without(removed);
        let mut i: usize = 0;
        while i < self.workspaces.len()
            invariant
                i <= self.workspaces@.len() == before.len(),
                self.active == old(self).active,
                forall|k: int|
                    0 <= k < before.len() ==> (#[trigger] self.workspaces@[k])@ == if k < i {
                        before[k].without(removed)
                    } else {
                        before[k]
                    },
            decreases self.workspaces@.len() - i,
        {
            self.workspaces[i].remove(removed);
            i = i + 1;
        }
        assert(self@.workspaces =~= before.map_values(reduce));
        // A workspace is a useful container only while it has a tab. The last
        // workspace stays, so that there is always somewhere to create a new tab.
        if self.workspaces.len() > 1 {
            self.drop_empty();
        }
        if self.workspaces.len() == 0 {
            self.workspaces.push(
                Workspace {
                    name: DEFAULT_WORKSPACE_NAME.to_owned(),
                    tabs: Vec::new(),
                    selected_tab: 0,
                },
            );
            assert(self@.workspaces =~= seq![WorkspaceView::empty(DEFAULT_WORKSPACE_NAME@)]);
        }
        if self.active >= self.workspaces.len() {
            self.active = self.workspaces.len() - 1;
        }
        proof {
            if old(self)@.wf() {
                workspace_laws::lemma_operations_keep_the_invariant(old(self)@, removed, 0, 0, 0);
            }
        }
    }

    /// Drops the workspaces that have no tab.
    fn drop_empty(&mut self)
        ensures
            final(self)@.workspaces == old(self)@.workspaces.filter(
                |workspace: WorkspaceView| workspace.tabs.len() > 0,
            ),
            final(self)@.active == old(self)@.active,
    {
        let ghost before = self@.workspaces;
        let ghost useful = |workspace: WorkspaceView| workspace.tabs.len() > 0;
        let mut all: Vec<Workspace> = Vec::new();
        std::mem::swap(&mut all, &mut self.workspaces);
        let ghost listed = all@;
        proof {
            reveal(Seq::filter);
            assert(self@.workspaces =~= before.take(0).filter(useful));
        }
        for workspace in it: all
            invariant
                self.active == old(self).active,
                it.seq() == listed,
                before == listed.map_values(|workspace: Workspace| workspace@),
                useful == |workspace: WorkspaceView| workspace.tabs.len() > 0,
                self@.workspaces == before.take(it.index() as int).filter(useful),
        {
            let ghost k = it.index();
            let ghost kept = self@.workspaces;
            proof {
                assert(before.take(k + 1) =~= before.take(k as int).push(before[k as int]));
                before.take(k as int).lemma_filter_push(before[k as int], useful);
                assert(before[k as int] == workspace@);
            }
            if workspace.tabs.len() > 0 {
                self.workspaces.push(workspace);
                assert(self@.workspaces =~= kept.push(before[k as int]));
            }
        }
        assert(before.take(listed.len() as int) =~= before);
    }
}

/// The workspace that a persisted workspace becomes when its tabs are numbered from
/// `first` on.
pub open spec fn restored_workspace(persisted: PersistedWorkspace, first: int) -> WorkspaceView {
    let count = persisted.tabs@.len();
    WorkspaceView {
        name: persisted.name@,
        tabs: Seq::new(count, |i: int| (first + i) as usize),
        selected: (first + if persisted.selected_tab < count {
            persisted.selected_tab as int
        } else {
            count - 1
        }) as usize,
    }
}

/// The workspaces that persisted workspaces become: their tabs are numbered through,
/// and what is selected or active beyond the end falls back to the last.
pub open spec fn restored(state: PersistedWorkspaceState) -> ManagerView {
    ManagerView {
        workspaces: Seq::new(
            state.workspaces@.len(),
            |k: int|
                restored_workspace(
                    state.workspaces@[k],
                    persisted::total_tabs(state.workspaces@.take(k)) as int,
                ),
        ),
        active: if state.active_workspace < state.workspaces@.len() {
            state.active_workspace
        } else {
            (state.workspaces@.len() - 1) as usize
        },
    }
}

/// Whether `state` is what the workspaces are persisted as, when `tab` describes
/// their tabs.
pub open spec fn is_snapshot<F: FnMut(usize) -> PersistedTab>(
    manager: ManagerView,
    tab: F,
    state: PersistedWorkspaceState,
) -> bool {
    &&& state.version == persisted::PERSISTED_STATE_VERSION
    &&& state.active_workspace == manager.active
    &&& state.workspaces@.len() == manager.workspaces.len()
    &&& forall|k: int|
        0 <= k < manager.workspaces.len() ==> is_workspace_snapshot(
            #[trigger] manager.workspaces[k],
            tab,
            state.workspaces@[k],
        )
}

/// Whether `persisted` is what a workspace is persisted as, when `tab` describes its
/// tabs.
pub open spec fn is_workspace_snapshot<F: FnMut(usize) -> PersistedTab>(
    workspace: WorkspaceView,
    tab: F,
    persisted: PersistedWorkspace,
) -> bool {
    &&& persisted.name@ == workspace.name
    &&& persisted.selected_tab == workspace.selected_position()
    &&& persisted.tabs@.len() == workspace.tabs.len()
    &&& forall|i: int|
        0 <= i < workspace.tabs.len() ==> call_ensures(
            tab,
            (workspace.tabs[i],),
            #[trigger] persisted.tabs@[i],
        )
}

impl WorkspaceManager {
    /// The manager and the tabs that a persisted state describes. Nothing where the
    /// state has another version, lacks a workspace, has a workspace without tabs, or
    /// has too many tabs.
    pub fn from_persisted(state: PersistedWorkspaceState) -> (loaded: Option<
        (WorkspaceManager, Vec<PersistedTab>),
    >)
        ensures
            match loaded {
                Some((manager, tabs)) => {
                    &&& state.is_restorable()
                    &&& manager@ == restored(state)
                    &&& tabs@ == persisted::all_tabs(state.workspaces@)
                    &&& manager@.wf()
                },
                None => !state.is_restorable(),
            },
    {
        if state.version != persisted::PERSISTED_STATE_VERSION || state.workspaces.len() == 0 {
            return None;
        }
        let ghost listed = state.workspaces@;
        let mut tab_count: usize = 0;
        let mut i: usize = 0;
        assert(listed.take(0) =~= Seq::empty());
        while i < state.workspaces.len()
            invariant
                i <= state.workspaces@.len(),
                listed == state.workspaces@,
                forall|k: int| 0 <= k < i ==> (#[trigger] listed[k]).tabs@.len() > 0,
                tab_count == persisted::total_tabs(listed.take(i as int)),
                tab_count <= persisted::MAX_RESTORED_TABS,
            decreases state.workspaces@.len() - i,
        {
            let count = state.workspaces[i].tabs.len();
            if count == 0 {
                return None;
            }
            proof {
                persisted::lemma_next_workspace(listed, i as int);
                persisted::lemma_total_grows(listed, i + 1);
            }
            if count > persisted::MAX_RESTORED_TABS - tab_count {
                return None;
            }
            tab_count = tab_count + count;
            i = i + 1;
        }
        assert(listed.take(i as int) =~= listed);
        let workspace_count = state.workspaces.len();
        let active = if state.active_workspace < workspace_count {
            state.active_workspace
        } else {
            workspace_count - 1
        };
        let mut tabs: Vec<PersistedTab> = Vec::new();
        let mut workspaces: Vec<Workspace> = Vec::new();
        for persisted in it: state.workspaces
            invariant
                it.seq() == listed,
                state.workspaces@ == listed,
                forall|k: int| 0 <= k < listed.len() ==> (#[trigger] listed[k]).tabs@.len() > 0,
                persisted::total_tabs(listed) <= persisted::MAX_RESTORED_TABS,
                tabs@ == persisted::all_tabs(listed.take(it.index() as int)),
                workspaces@.len() == it.index(),
                forall|k: int|
                    0 <= k < workspaces@.len() ==> (#[trigger] workspaces@[k])@
                        == restored_workspace(
                        listed[k],
                        persisted::total_tabs(listed.take(k)) as int,
                    ),
        {
            let ghost k = it.index() as int;
            proof {
                assert(persisted == listed[k]);
                persisted::lemma_all_tabs_len(listed.take(k));
                persisted::lemma_next_workspace(listed, k);
                persisted::lemma_total_grows(listed, k + 1);
            }
            let first_tab: usize = tabs.len();
            let tab_len: usize = persisted.tabs.len();
            let offset: usize = if persisted.selected_tab < tab_len {
                persisted.selected_tab
            } else {
                tab_len - 1
            };
            let mut own_tabs = persisted.tabs;
            tabs.append(&mut own_tabs);
            let indices = Self::consecutive(first_tab, tab_len);
            workspaces.push(
                Workspace {
                    name: persisted.name,
                    tabs: indices,
                    selected_tab: first_tab + offset,
                },
            );
        }
        proof {
            assert(listed.take(listed.len() as int) =~= listed);
        }
        let manager = WorkspaceManager { workspaces, active };
        proof {
            assert(manager@.workspaces =~= restored(state).workspaces);
            lemma_restored_is_valid(state);
        }
        Some((manager, tabs))
    }

    /// The numbers from `first` on.
    fn consecutive(first: usize, count: usize) -> (numbers: Vec<usize>)
        requires
            first + count <= usize::MAX,
        ensures
            numbers@ == Seq::new(count as nat, |i: int| (first + i) as usize),
    {
        let mut numbers: Vec<usize> = Vec::new();
        let mut i: usize = 0;
        while i < count
            invariant
                i <= count,
                first + count <= usize::MAX,
                numbers@.len() == i,
                forall|j: int| 0 <= j < i ==> numbers@[j] == first + j,
            decreases count - i,
        {
            numbers.push(first + i);
            i = i + 1;
        }
        assert(numbers@ =~= Seq::new(count as nat, |i: int| (first + i) as usize));
        numbers
    }

    /// What to persist of the workspaces. `tab` describes the tab at an index.
    pub fn snapshot<F>(&self, mut tab: F) -> (state: PersistedWorkspaceState)
        where
            F: FnMut(usize) -> PersistedTab,
        requires
            forall|k: int, i: int|
                0 <= k < self@.workspaces.len() && 0 <= i < self@.workspaces[k].tabs.len()
                    ==> call_requires(tab, (#[trigger] self@.workspaces[k].tabs[i],)),
        ensures
            is_snapshot(self@, tab, state),
    {
        let ghost describe = tab;
        let mut workspaces: Vec<PersistedWorkspace> = Vec::new();
        let mut k: usize = 0;
        while k < self.workspaces.len()
            invariant
                k <= self.workspaces@.len(),
                describe == tab,
                forall|j: int, i: int|
                    0 <= j < self@.workspaces.len() && 0 <= i < self@.workspaces[j].tabs.len()
                        ==> call_requires(tab, (#[trigger] self@.workspaces[j].tabs[i],)),
                workspaces@.len() == k,
                forall|j: int|
                    0 <= j < k ==> is_workspace_snapshot(
                        self@.workspaces[j],
                        describe,
                        #[trigger] workspaces@[j],
                    ),
            decreases self.workspaces@.len() - k,
        {
            let workspace = &self.workspaces[k];
            proof {
                assert(workspace@ == self@.workspaces[k as int]);
                assert forall|j: int| 0 <= j < workspace@.tabs.len() implies call_requires(
                    tab,
                    (#[trigger] workspace@.tabs[j],),
                ) by {
                    assert(call_requires(tab, (self@.workspaces[k as int].tabs[j],)));
                }
            }
            let mut tabs: Vec<PersistedTab> = Vec::new();
            let mut i: usize = 0;
            while i < workspace.tabs.len()
                invariant
                    i <= workspace.tabs@.len(),
                    describe == tab,
                    k < self.workspaces@.len(),
                    workspace@ == self@.workspaces[k as int],
                    forall|j: int|
                        0 <= j < workspace@.tabs.len() ==> call_requires(
                            tab,
                            (#[trigger] workspace@.tabs[j],),
                        ),
                    tabs@.len() == i,
                    forall|j: int|
                        0 <= j < i ==> call_ensures(
                            describe,
                            (workspace.tabs@[j],),
                            #[trigger] tabs@[j],
                        ),
                decreases workspace.tabs@.len() - i,
            {
                assert(workspace@.tabs[i as int] == workspace.tabs@[i as int]);
                let described = tab(workspace.tabs[i]);
                tabs.push(described);
                i = i + 1;
            }
            workspaces.push(
                PersistedWorkspace {
                    name: workspace.name.clone(),
                    selected_tab: workspace.selected_position(),
                    tabs,
                },
            );
            k = k + 1;
        }
        PersistedWorkspaceState {
            version: persisted::PERSISTED_STATE_VERSION,
            active_workspace: self.active,
            workspaces,
        }
    }
}

/// What is restored is valid.
pub proof fn lemma_restored_is_valid(state: PersistedWorkspaceState)
    requires
        state.is_restorable(),
    ensures
        restored(state).wf(),
{
    let listed = state.workspaces@;
    assert forall|k: int| 0 <= k < restored(state).workspaces.len() implies (#[trigger] restored(
        state,
    ).workspaces[k]).wf() by {
        let view = restored(state).workspaces[k];
        let count = listed[k].tabs@.len() as int;
        let position = if listed[k].selected_tab < count {
            listed[k].selected_tab as int
        } else {
            count - 1
        };
        assert(view.tabs[position] == view.selected);
    }
}

impl WorkspaceManager {
    /// Takes note that the tabs at `first` and `second` have changed places.
    pub fn swap_tabs(&mut self, first: usize, second: usize)
        ensures
            final(self)@ == old(self)@.swapped(first, second),
            old(self)@.wf() ==> final(self)@.wf(),
    {
        let ghost before = self@.workspaces;
        let mut i: usize = 0;
        while i < self.workspaces.len()
            invariant
                i <= self.workspaces@.len() == before.len(),
                self.active == old(self).active,
                before == old(self)@.workspaces,
                forall|k: int|
                    0 <= k < before.len() ==> (#[trigger] self.workspaces@[k])@ == if k < i {
                        before[k].swapped(first, second)
                    } else {
                        before[k]
                    },
            decreases self.workspaces@.len() - i,
        {
            self.workspaces[i].swap(first, second);
            i = i + 1;
        }
        assert(self@.workspaces =~= old(self)@.swapped(first, second).workspaces);
        proof {
            if old(self)@.wf() {
                workspace_laws::lemma_operations_keep_the_invariant(old(self)@, 0, first, second, 0);
            }
        }
    }

    /// Takes note that the tab at `from` has moved to `to`.
    pub fn move_tab(&mut self, from: usize, to: usize)
        ensures
            final(self)@ == old(self)@.moved(from, to),
            old(self)@.wf() ==> final(self)@.wf(),
    {
        let ghost before = self@.workspaces;
        let mut i: usize = 0;
        while i < self.workspaces.len()
            invariant
                i <= self.workspaces@.len() == before.len(),
                self.active == old(self).active,
                before == old(self)@.workspaces,
                forall|k: int|
                    0 <= k < before.len() ==> (#[trigger] self.workspaces@[k])@ == if k < i {
                        before[k].moved(from, to)
                    } else {
                        before[k]
                    },
            decreases self.workspaces@.len() - i,
        {
            self.workspaces[i].relocate(from, to);
            i = i + 1;
        }
        assert(self@.workspaces =~= old(self)@.moved(from, to).workspaces);
        proof {
            if old(self)@.wf() {
                workspace_laws::lemma_operations_keep_the_invariant(old(self)@, 0, from, to, 0);
            }
        }
    }

    /// Adds a workspace without tabs, makes it the active one and returns its index.
    pub fn create(&mut self) -> (index: usize)
        ensures
            final(self)@ == old(self)@.with_workspace(),
            index == final(self)@.active,
            index == old(self)@.workspaces.len(),
            old(self)@.wf() ==> final(self)@.wf(),
    {
        let index = self.workspaces.len();
        self.workspaces.push(
            Workspace { name: String::new(), tabs: Vec::new(), selected_tab: 0 },
        );
        let number = self.workspaces.len();
        let mut name = "Workspace ".to_owned();
        name.append(text::decimal(number as u64).as_str());
        self.workspaces[index].name = name;
        self.active = index;
        assert(self@.workspaces =~= old(self)@.with_workspace().workspaces);
        proof {
            if old(self)@.wf() {
                workspace_laws::lemma_operations_keep_the_invariant(old(self)@, 0, 0, 0, 0);
            }
        }
        index
    }

    /// Makes the workspace at `index` the active one and returns the tab to show.
    /// Nothing happens where there is no such workspace or it has no tab.
    pub fn select(&mut self, index: usize) -> (tab: Option<usize>)
        ensures
            tab == if index < old(self)@.workspaces.len() {
                old(self)@.workspaces[index as int].tab_to_show()
            } else {
                None
            },
            final(self)@ == if tab is Some {
                ManagerView { active: index, ..old(self)@ }
            } else {
                old(self)@
            },
            old(self)@.wf() ==> final(self)@.wf(),
    {
        if index >= self.workspaces.len() {
            return None;
        }
        let workspace = &self.workspaces[index];
        assert(workspace@ == self@.workspaces[index as int]);
        let tab = if contains(&workspace.tabs, workspace.selected_tab) {
            workspace.selected_tab
        } else if workspace.tabs.len() > 0 {
            workspace.tabs[0]
        } else {
            return None;
        };
        self.active = index;
        proof {
            if old(self)@.wf() {
                workspace_laws::lemma_operations_keep_the_invariant(old(self)@, 0, 0, 0, index);
            }
        }
        Some(tab)
    }

    /// The first workspace that holds the tab.
    pub fn workspace_for_tab(&self, tab_index: usize) -> (home: Option<usize>)
        ensures
            match home {
                Some(index) => self@.is_home(tab_index, index as int),
                None => self@.is_homeless(tab_index),
            },
    {
        let mut i: usize = 0;
        while i < self.workspaces.len()
            invariant
                i <= self.workspaces@.len(),
                forall|j: int|
                    0 <= j < i ==> !(#[trigger] self@.workspaces[j]).tabs.contains(tab_index),
            decreases self.workspaces@.len() - i,
        {
            assert(self@.workspaces[i as int] == self.workspaces@[i as int]@);
            if contains(&self.workspaces[i].tabs, tab_index) {
                return Some(i);
            }
            i = i + 1;
        }
        None
    }

    /// Makes the workspace at `index` the active one, if there is one.
    pub fn set_active(&mut self, index: usize)
        ensures
            final(self)@ == old(self)@.with_active(index),
            old(self)@.wf() ==> final(self)@.wf(),
    {
        if index < self.workspaces.len() {
            self.active = index;
        }
        proof {
            if old(self)@.wf() {
                workspace_laws::lemma_operations_keep_the_invariant(old(self)@, 0, 0, 0, index);
            }
        }
    }

    /// Selects a tab in the first workspace that holds it.
    pub fn select_tab(&mut self, tab_index: usize)
        ensures
            final(self)@ == old(self)@.with_selection(tab_index),
            old(self)@.wf() ==> final(self)@.wf(),
    {
        if let Some(index) = self.workspace_for_tab(tab_index) {
            self.workspaces[index].selected_tab = tab_index;
            proof {
                let home = choose|k: int| old(self)@.is_home(tab_index, k);
                lemma_home_is_unique(old(self)@, tab_index, index as int, home);
                assert(!old(self)@.is_homeless(tab_index));
                assert(self@.workspaces =~= old(self)@.with_selection(tab_index).workspaces);
            }
        }
        proof {
            if old(self)@.wf() {
                workspace_laws::lemma_operations_keep_the_invariant(old(self)@, tab_index, 0, 0, 0);
            }
        }
    }

    /// Adds a tab to the active workspace. It is selected if it is the only one there.
    pub fn add_tab(&mut self, tab_index: usize)
        ensures
            final(self)@ == old(self)@.with_tab(tab_index),
            old(self)@.wf() ==> final(self)@.wf(),
    {
        let active = self.active;
        if active < self.workspaces.len() {
            self.workspaces[active].tabs.push(tab_index);
            if self.workspaces[active].tabs.len() == 1 {
                self.workspaces[active].selected_tab = tab_index;
            }
            assert(self@.workspaces =~= old(self)@.with_tab(tab_index).workspaces);
        }
        proof {
            if old(self)@.wf() {
                workspace_laws::lemma_operations_keep_the_invariant(old(self)@, tab_index, 0, 0, 0);
            }
        }
    }

    /// The index of the active workspace.
    pub fn active(&self) -> (index: usize)
        ensures
            index == self@.active,
    {
        self.active
    }

    /// The selected tab of the active workspace.
    pub fn selected_tab_for_active(&self) -> (tab: Option<usize>)
        ensures
            tab == if self@.active < self@.workspaces.len() {
                Some(self@.workspaces[self@.active as int].selected)
            } else {
                None
            },
    {
        if self.active < self.workspaces.len() {
            assert(self@.workspaces[self.active as int] == self.workspaces@[self.active as int]@);
            Some(self.workspaces[self.active].selected_tab)
        } else {
            None
        }
    }

    /// How many workspaces there are.
    pub fn len(&self) -> (count: usize)
        ensures
            count == self@.workspaces.len(),
    {
        self.workspaces.len()
    }

    /// The workspace at `index`.
    pub fn get(&self, index: usize) -> (workspace: Option<&Workspace>)
        ensures
            match workspace {
                Some(found) => index < self@.workspaces.len() && found@
                    == self@.workspaces[index as int],
                None => index >= self@.workspaces.len(),
            },
    {
        if index < self.workspaces.len() {
            Some(&self.workspaces[index])
        } else {
            None
        }
    }

    /// How many tabs the workspace at `index` has; none where there is no workspace.
    pub fn tab_count(&self, index: usize) -> (count: usize)
        ensures
            count == if index < self@.workspaces.len() {
                self@.workspaces[index as int].tabs.len()
            } else {
                0
            },
    {
        if index < self.workspaces.len() {
            assert(self@.workspaces[index as int] == self.workspaces@[index as int]@);
            self.workspaces[index].tabs.len()
        } else {
            0
        }
    }

    /// The tabs of the workspace at `index`; none where there is no workspace.
    pub fn tab_indices(&self, index: usize) -> (tabs: &[usize])
        ensures
            tabs@ == if index < self@.workspaces.len() {
                self@.workspaces[index as int].tabs
            } else {
                Seq::empty()
            },
    {
        if index < self.workspaces.len() {
            assert(self@.workspaces[index as int] == self.workspaces@[index as int]@);
            self.workspaces[index].tabs.as_slice()
        } else {
            &[]
        }
    }
}

/// At most one workspace is the first that holds a tab.
pub proof fn lemma_home_is_unique(manager: ManagerView, tab: usize, j: int, k: int)
    requires
        manager.is_home(tab, j),
        manager.is_home(tab, k),
    ensures
        j == k,
{
    assert(manager.workspaces[j].tabs.contains(tab));
    assert(manager.workspaces[k].tabs.contains(tab));
}

impl Default for WorkspaceManager {
    fn default() -> (manager: WorkspaceManager)
        ensures
            manager@.workspaces == seq![
                WorkspaceView {
                    name: DEFAULT_WORKSPACE_NAME@,
                    tabs: seq![0usize],
                    selected: 0,
                },
            ],
            manager@.active == 0,
            manager@.wf(),
    {
        WorkspaceManager::new()
    }
}

impl Clone for WorkspaceManager {
    fn clone(&self) -> (copy: WorkspaceManager)
        ensures
            copy@ == self@,
    {
        let mut workspaces: Vec<Workspace> = Vec::new();
        let mut i: usize = 0;
        while i < self.workspaces.len()
            invariant
                i <= self.workspaces@.len(),
                workspaces@.len() == i,
                forall|k: int| 0 <= k < i ==> (#[trigger] workspaces@[k])@ == self.workspaces@[k]@,
            decreases self.workspaces@.len() - i,
        {
            workspaces.push(self.workspaces[i].clone());
            i = i + 1;
        }
        let copy = WorkspaceManager { workspaces, active: self.active };
        assert(copy@.workspaces =~= self@.workspaces);
        copy
    }
}

} // verus!
