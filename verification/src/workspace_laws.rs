//! What holds of workspaces over several operations.

use vstd::prelude::*;

use crate::persisted;
use crate::persisted::{PersistedTab, PersistedWorkspace, PersistedWorkspaceState};
use crate::text;
use crate::text_laws;
use crate::workspace;
use crate::workspace::{ManagerView, WorkspaceView};

verus! {

broadcast use {
    vstd::multiset::group_multiset_axioms,
    vstd::seq_lib::group_filter_ensures,
    vstd::seq_lib::group_to_multiset_ensures,
};

/// How often a tab is listed.
pub open spec fn times_listed(tabs: Seq<usize>, tab: usize) -> nat {
    tabs.to_multiset().count(tab)
}

/// How often a tab is listed in workspaces.
pub open spec fn times_held(workspaces: Seq<WorkspaceView>, tab: usize) -> nat
    decreases workspaces.len(),
{
    if workspaces.len() == 0 {
        0
    } else {
        times_held(workspaces.drop_last(), tab) + times_listed(workspaces.last().tabs, tab)
    }
}

/// Whether the workspaces list each of the `count` tabs of a window exactly once, and
/// nothing else.
pub open spec fn holds_each_tab_once(manager: ManagerView, count: int) -> bool {
    forall|tab: usize| #[trigger]
        times_held(manager.workspaces, tab) == if tab < count {
            1nat
        } else {
            0nat
        }
}

/// Putting tabs in order neither adds nor drops one.
proof fn lemma_order_keeps_tabs(tabs: Seq<usize>)
    ensures
        workspace::ascending(tabs).to_multiset() == tabs.to_multiset(),
        workspace::ascending(tabs).len() == tabs.len(),
        vstd::relations::sorted_by(
            workspace::ascending(tabs),
            |a: usize, b: usize| a <= b,
        ),
        forall|tab: usize| #[trigger]
            workspace::ascending(tabs).contains(tab) <==> tabs.contains(tab),
{
    let order = |a: usize, b: usize| a <= b;
    assert(vstd::relations::total_ordering(order));
    tabs.lemma_sort_by_ensures(order);
    assert(workspace::ascending(tabs).to_multiset().len() == tabs.to_multiset().len());
    assert forall|tab: usize| #[trigger]
        workspace::ascending(tabs).contains(tab) <==> tabs.contains(tab) by {
        assert(tabs.to_multiset().count(tab) == workspace::ascending(tabs).to_multiset().count(
            tab,
        ));
    }
}

/// Renaming tabs one to one keeps how often each is listed.
proof fn lemma_renaming_keeps_counts(
    tabs: Seq<usize>,
    rename: spec_fn(usize) -> usize,
    tab: usize,
)
    requires
        forall|a: usize, b: usize| #[trigger] rename(a) == #[trigger] rename(b) ==> a == b,
    ensures
        times_listed(tabs.map_values(rename), rename(tab)) == times_listed(tabs, tab),
    decreases tabs.len(),
{
    if tabs.len() == 0 {
        assert(tabs =~= Seq::empty());
        assert(tabs.map_values(rename) =~= Seq::empty());
        assert(!tabs.contains(tab));
        assert(!tabs.map_values(rename).contains(rename(tab)));
    } else {
        let before = tabs.drop_last();
        lemma_renaming_keeps_counts(before, rename, tab);
        assert(tabs =~= before.push(tabs.last()));
        assert(tabs.map_values(rename) =~= before.map_values(rename).push(rename(tabs.last())));
    }
}

/// Renaming keeps membership.
proof fn lemma_renaming_keeps_membership(
    tabs: Seq<usize>,
    rename: spec_fn(usize) -> usize,
    tab: usize,
)
    requires
        forall|a: usize, b: usize| #[trigger] rename(a) == #[trigger] rename(b) ==> a == b,
    ensures
        tabs.map_values(rename).contains(rename(tab)) <==> tabs.contains(tab),
{
    lemma_renaming_keeps_counts(tabs, rename, tab);
    assert(tabs.to_multiset().count(tab) > 0 <==> tabs.contains(tab));
    let renamed = tabs.map_values(rename);
    assert(renamed.to_multiset().count(rename(tab)) > 0 <==> renamed.contains(rename(tab)));
}

/// Moving a tab back undoes the move, and moving it to where it stands is no move.
pub proof fn lemma_move_back(tab: usize, from: usize, to: usize)
    ensures
        workspace::index_after_move(workspace::index_after_move(tab, from, to), to, from) == tab,
        workspace::index_after_move(tab, from, from) == tab,
{
}

/// A move keeps different tabs at different indices.
pub proof fn lemma_move_keeps_tabs_apart(a: usize, b: usize, from: usize, to: usize)
    requires
        a != b,
    ensures
        workspace::index_after_move(a, from, to) != workspace::index_after_move(b, from, to),
{
}

/// To move a tab is to take it out of the window and to put it back in at its new
/// place: each tab is then found at its index after the move. Indices behind the last
/// tab stay as they are.
pub proof fn lemma_move_is_taking_out_and_putting_in<T>(
    window: Seq<T>,
    from: usize,
    to: usize,
    tab: usize,
)
    requires
        from < window.len(),
        to < window.len(),
    ensures
        ({
            let after = window.remove(from as int).insert(to as int, window[from as int]);
            let index = workspace::index_after_move(tab, from, to);
            &&& after.len() == window.len()
            &&& tab < window.len() ==> index < window.len() && after[index as int]
                == window[tab as int]
            &&& tab >= window.len() ==> index == tab
        }),
{
}

/// To swap two tabs is to put each in the place of the other: each tab is then found
/// at its index after the swap. Indices behind the last tab stay as they are.
pub proof fn lemma_swap_is_an_exchange<T>(
    window: Seq<T>,
    first: usize,
    second: usize,
    tab: usize,
)
    requires
        first < window.len(),
        second < window.len(),
    ensures
        ({
            let after = window.update(first as int, window[second as int]).update(
                second as int,
                window[first as int],
            );
            let index = workspace::index_after_swap(tab, first, second);
            &&& tab < window.len() ==> index < window.len() && after[index as int]
                == window[tab as int]
            &&& tab >= window.len() ==> index == tab
        }),
{
}

/// To remove a tab is to take it out of the window: each other tab is then found at
/// its index after the removal.
pub proof fn lemma_removal_is_taking_out<T>(window: Seq<T>, removed: usize, tab: usize)
    requires
        removed < window.len(),
        tab < window.len(),
        tab != removed,
    ensures
        ({
            let after = window.remove(removed as int);
            let index = workspace::index_after_removal(tab, removed);
            index < after.len() && after[index as int] == window[tab as int]
        }),
{
}

/// Moving a tab by one place, up or down, is swapping it with its neighbour.
pub proof fn lemma_move_by_one_is_a_swap(manager: ManagerView, tab: usize)
    requires
        tab < usize::MAX,
    ensures
        manager.moved(tab, (tab + 1) as usize) == manager.swapped(tab, (tab + 1) as usize),
        manager.moved((tab + 1) as usize, tab) == manager.swapped(tab, (tab + 1) as usize),
{
    let next = (tab + 1) as usize;
    let exchange = |other: usize| workspace::index_after_swap(other, tab, next);
    assert forall|k: int| 0 <= k < manager.workspaces.len() implies {
        let view = #[trigger] manager.workspaces[k];
        &&& view.moved(tab, next) == view.swapped(tab, next)
        &&& view.moved(next, tab) == view.swapped(tab, next)
    } by {
        let tabs = manager.workspaces[k].tabs;
        assert(tabs.map_values(|other: usize| workspace::index_after_move(other, tab, next))
            =~= tabs.map_values(exchange));
        assert(tabs.map_values(|other: usize| workspace::index_after_move(other, next, tab))
            =~= tabs.map_values(exchange));
    }
    assert(manager.moved(tab, next) =~= manager.swapped(tab, next));
    assert(manager.moved(next, tab) =~= manager.swapped(tab, next));
}

/// Swapping twice undoes the swap, and the order of the two does not matter.
pub proof fn lemma_swap_back(tab: usize, first: usize, second: usize)
    ensures
        workspace::index_after_swap(
            workspace::index_after_swap(tab, first, second),
            first,
            second,
        ) == tab,
        workspace::index_after_swap(tab, first, second) == workspace::index_after_swap(
            tab,
            second,
            first,
        ),
{
}

/// Moving a tab keeps every tab in its workspace and every selection on its tab, under
/// the new indices, and leaves the tabs in order.
pub proof fn lemma_move_keeps_membership_and_selection(
    manager: ManagerView,
    from: usize,
    to: usize,
    k: int,
    tab: usize,
)
    requires
        0 <= k < manager.workspaces.len(),
    ensures
        manager.moved(from, to).active == manager.active,
        manager.moved(from, to).workspaces.len() == manager.workspaces.len(),
        ({
            let before = manager.workspaces[k];
            let after = manager.moved(from, to).workspaces[k];
            &&& after.name == before.name
            &&& after.tabs.len() == before.tabs.len()
            &&& after.tabs.contains(workspace::index_after_move(tab, from, to))
                <==> before.tabs.contains(tab)
            &&& times_listed(after.tabs, workspace::index_after_move(tab, from, to))
                == times_listed(before.tabs, tab)
            &&& after.selected == workspace::index_after_move(before.selected, from, to)
            &&& vstd::relations::sorted_by(after.tabs, |a: usize, b: usize| a <= b)
        }),
{
    let rename = |other: usize| workspace::index_after_move(other, from, to);
    assert forall|a: usize, b: usize| #[trigger] rename(a) == #[trigger] rename(b) implies a
        == b by {
        lemma_move_back(a, from, to);
        lemma_move_back(b, from, to);
    }
    let tabs = manager.workspaces[k].tabs;
    lemma_renaming_keeps_membership(tabs, rename, tab);
    lemma_renaming_keeps_counts(tabs, rename, tab);
    lemma_order_keeps_tabs(tabs.map_values(rename));
}

/// Swapping two tabs keeps every tab in its workspace and every selection on its tab,
/// under the new indices, and leaves the tabs in order.
pub proof fn lemma_swap_keeps_membership_and_selection(
    manager: ManagerView,
    first: usize,
    second: usize,
    k: int,
    tab: usize,
)
    requires
        0 <= k < manager.workspaces.len(),
    ensures
        manager.swapped(first, second).active == manager.active,
        manager.swapped(first, second).workspaces.len() == manager.workspaces.len(),
        ({
            let before = manager.workspaces[k];
            let after = manager.swapped(first, second).workspaces[k];
            &&& after.name == before.name
            &&& after.tabs.len() == before.tabs.len()
            &&& after.tabs.contains(workspace::index_after_swap(tab, first, second))
                <==> before.tabs.contains(tab)
            &&& times_listed(after.tabs, workspace::index_after_swap(tab, first, second))
                == times_listed(before.tabs, tab)
            &&& after.selected == workspace::index_after_swap(before.selected, first, second)
            &&& vstd::relations::sorted_by(after.tabs, |a: usize, b: usize| a <= b)
        }),
{
    let rename = |other: usize| workspace::index_after_swap(other, first, second);
    assert forall|a: usize, b: usize| #[trigger] rename(a) == #[trigger] rename(b) implies a
        == b by {
        lemma_swap_back(a, first, second);
        lemma_swap_back(b, first, second);
    }
    let tabs = manager.workspaces[k].tabs;
    lemma_renaming_keeps_membership(tabs, rename, tab);
    lemma_renaming_keeps_counts(tabs, rename, tab);
    lemma_order_keeps_tabs(tabs.map_values(rename));
}

/// Whether the tabs of each workspace are in order.
pub open spec fn is_ordered(manager: ManagerView) -> bool {
    forall|k: int|
        0 <= k < manager.workspaces.len() ==> vstd::relations::sorted_by(
            (#[trigger] manager.workspaces[k]).tabs,
            |a: usize, b: usize| a <= b,
        )
}

/// Renaming ordered tabs and renaming them back leaves them as they were.
proof fn lemma_renaming_back(
    tabs: Seq<usize>,
    rename: spec_fn(usize) -> usize,
    back: spec_fn(usize) -> usize,
)
    requires
        vstd::relations::sorted_by(tabs, |a: usize, b: usize| a <= b),
        forall|a: usize| back(#[trigger] rename(a)) == a,
        forall|a: usize, b: usize| #[trigger] back(a) == #[trigger] back(b) ==> a == b,
    ensures
        workspace::ascending(
            workspace::ascending(tabs.map_values(rename)).map_values(back),
        ) == tabs,
{
    let renamed = tabs.map_values(rename);
    let between = workspace::ascending(renamed);
    let returned = between.map_values(back);
    lemma_order_keeps_tabs(renamed);
    lemma_order_keeps_tabs(returned);
    assert forall|a: usize, b: usize| #[trigger] rename(a) == #[trigger] rename(b) implies a
        == b by {
        assert(back(rename(a)) == a);
        assert(back(rename(b)) == b);
    }
    assert forall|tab: usize| #[trigger]
        returned.to_multiset().count(tab) == tabs.to_multiset().count(tab) by {
        lemma_renaming_keeps_counts(tabs, rename, tab);
        lemma_renaming_keeps_counts(between, back, rename(tab));
        assert(times_listed(between, rename(tab)) == times_listed(renamed, rename(tab)));
    }
    assert(returned.to_multiset() =~= tabs.to_multiset());
    let order = |a: usize, b: usize| a <= b;
    assert(vstd::relations::total_ordering(order));
    vstd::seq_lib::lemma_sorted_unique(workspace::ascending(returned), tabs, order);
}

/// Moving a tab and moving it back leaves ordered workspaces as they were.
pub proof fn lemma_move_and_back(manager: ManagerView, from: usize, to: usize)
    requires
        is_ordered(manager),
    ensures
        manager.moved(from, to).moved(to, from) == manager,
{
    let rename = |tab: usize| workspace::index_after_move(tab, from, to);
    let back = |tab: usize| workspace::index_after_move(tab, to, from);
    assert forall|k: int| 0 <= k < manager.workspaces.len() implies manager.moved(from, to).moved(
        to,
        from,
    ).workspaces[k] == #[trigger] manager.workspaces[k] by {
        lemma_renaming_back(manager.workspaces[k].tabs, rename, back);
        assert(manager.workspaces[k].moved(from, to).moved(to, from) =~= manager.workspaces[k]);
    }
    assert(manager.moved(from, to).moved(to, from) =~= manager);
}

/// Swapping two tabs twice leaves ordered workspaces as they were.
pub proof fn lemma_swap_twice(manager: ManagerView, first: usize, second: usize)
    requires
        is_ordered(manager),
    ensures
        manager.swapped(first, second).swapped(first, second) == manager,
{
    let rename = |tab: usize| workspace::index_after_swap(tab, first, second);
    assert forall|k: int|
        0 <= k < manager.workspaces.len() implies manager.swapped(first, second).swapped(
        first,
        second,
    ).workspaces[k] == #[trigger] manager.workspaces[k] by {
        lemma_renaming_back(manager.workspaces[k].tabs, rename, rename);
        assert(manager.workspaces[k].swapped(first, second).swapped(first, second)
            =~= manager.workspaces[k]);
    }
    assert(manager.swapped(first, second).swapped(first, second) =~= manager);
}

/// It does not matter which of two swapped tabs is named first.
pub proof fn lemma_swap_is_symmetric(manager: ManagerView, first: usize, second: usize)
    ensures
        manager.swapped(first, second) == manager.swapped(second, first),
{
    assert forall|k: int| 0 <= k < manager.workspaces.len() implies (
    #[trigger] manager.workspaces[k]).swapped(first, second) == manager.workspaces[k].swapped(
        second,
        first,
    ) by {
        let tabs = manager.workspaces[k].tabs;
        assert(tabs.map_values(|tab: usize| workspace::index_after_swap(tab, first, second))
            =~= tabs.map_values(|tab: usize| workspace::index_after_swap(tab, second, first)));
    }
    assert(manager.swapped(first, second) =~= manager.swapped(second, first));
}

/// Where a tab that is left stands after a removal.
proof fn lemma_removal_keeps_the_others(tabs: Seq<usize>, removed: usize, tab: usize)
    ensures
        tab != removed ==> times_listed(
            workspace::tabs_after_removal(tabs, removed),
            workspace::index_after_removal(tab, removed),
        ) == times_listed(tabs, tab),
        times_listed(workspace::tabs_after_removal(tabs, removed), usize::MAX) == 0,
    decreases tabs.len(),
{
    let left = workspace::tabs_after_removal(tabs, removed);
    if tabs.len() == 0 {
        assert(tabs =~= Seq::empty());
        workspace::lemma_removal_from_none(removed);
        assert(!tabs.contains(tab));
        assert(!left.contains(workspace::index_after_removal(tab, removed)));
        assert(!left.contains(usize::MAX));
    } else {
        let before = tabs.drop_last();
        lemma_removal_keeps_the_others(before, removed, tab);
        workspace::lemma_removal_from_one_more(before, tabs.last(), removed);
        assert(tabs =~= before.push(tabs.last()));
    }
}

/// A valid workspace stays valid whatever happens to its tabs.
proof fn lemma_workspace_stays_valid(
    view: WorkspaceView,
    tab: usize,
    removed: usize,
    from: usize,
    to: usize,
)
    requires
        view.wf(),
    ensures
        view.with_tab(tab).wf(),
        view.without(removed).wf(),
        view.swapped(from, to).wf(),
        view.moved(from, to).wf(),
{
    let grown = view.with_tab(tab);
    if view.tabs.len() == 0 {
        assert(grown.tabs[0] == tab);
    } else {
        let i = choose|i: int| 0 <= i < view.tabs.len() && view.tabs[i] == view.selected;
        assert(grown.tabs[i] == view.selected);
    }
    let left = workspace::tabs_after_removal(view.tabs, removed);
    if left.len() > 0 {
        if view.selected == removed {
            assert(left.contains(left[0]));
        } else {
            if view.tabs.len() == 0 {
                assert(view.tabs =~= Seq::empty());
                workspace::lemma_removal_from_none(removed);
            }
            lemma_removal_keeps_the_others(view.tabs, removed, view.selected);
            assert(view.tabs.to_multiset().count(view.selected) > 0);
            let kept = workspace::index_after_removal(view.selected, removed);
            assert(left.to_multiset().count(kept) > 0);
        }
    }
    let exchange = |other: usize| workspace::index_after_swap(other, from, to);
    assert forall|a: usize, b: usize| #[trigger] exchange(a) == #[trigger] exchange(b) implies a
        == b by {
        lemma_swap_back(a, from, to);
        lemma_swap_back(b, from, to);
    }
    lemma_renaming_keeps_membership(view.tabs, exchange, view.selected);
    lemma_order_keeps_tabs(view.tabs.map_values(exchange));
    let remap = |other: usize| workspace::index_after_move(other, from, to);
    assert forall|a: usize, b: usize| #[trigger] remap(a) == #[trigger] remap(b) implies a
        == b by {
        lemma_move_back(a, from, to);
        lemma_move_back(b, from, to);
    }
    lemma_renaming_keeps_membership(view.tabs, remap, view.selected);
    lemma_order_keeps_tabs(view.tabs.map_values(remap));
}

/// Every operation keeps the invariant: there is a workspace, one of them is active,
/// and where a workspace has tabs the selected one is among them. A workspace can be
/// added as long as a machine word counts them.
pub proof fn lemma_operations_keep_the_invariant(
    manager: ManagerView,
    tab: usize,
    from: usize,
    to: usize,
    index: usize,
)
    requires
        manager.wf(),
    ensures
        manager.workspaces.len() < usize::MAX ==> manager.with_workspace().wf(),
        manager.with_tab(tab).wf(),
        manager.with_selection(tab).wf(),
        manager.without(tab).wf(),
        manager.swapped(from, to).wf(),
        manager.moved(from, to).wf(),
        manager.with_active(index).wf(),
{
    assert forall|k: int| 0 <= k < manager.workspaces.len() implies {
        let view = #[trigger] manager.workspaces[k];
        &&& view.with_tab(tab).wf()
        &&& view.without(tab).wf()
        &&& view.swapped(from, to).wf()
        &&& view.moved(from, to).wf()
    } by {
        lemma_workspace_stays_valid(manager.workspaces[k], tab, tab, from, to);
    }
    assert forall|k: int| 0 <= k < manager.workspaces.len() implies (#[trigger] manager.swapped(
        from,
        to,
    ).workspaces[k]).wf() by {
        assert(manager.workspaces[k].swapped(from, to).wf());
    }
    assert forall|k: int| 0 <= k < manager.workspaces.len() implies (#[trigger] manager.moved(
        from,
        to,
    ).workspaces[k]).wf() by {
        assert(manager.workspaces[k].moved(from, to).wf());
    }
    lemma_removal_leaves_valid_workspaces(manager, tab);
    if !manager.is_homeless(tab) {
        lemma_home_exists(manager, tab);
        let home = choose|k: int| manager.is_home(tab, k);
        assert(manager.workspaces[home].tabs.contains(tab));
    }
}

/// A tab that some workspace holds has a first workspace that holds it.
pub proof fn lemma_home_exists(manager: ManagerView, tab: usize)
    requires
        !manager.is_homeless(tab),
    ensures
        exists|k: int| manager.is_home(tab, k),
{
    let j = choose|j: int|
        0 <= j < manager.workspaces.len() && (#[trigger] manager.workspaces[j]).tabs.contains(tab);
    lemma_first_holder(manager, tab, j);
}

proof fn lemma_first_holder(manager: ManagerView, tab: usize, j: int)
    requires
        0 <= j < manager.workspaces.len(),
        manager.workspaces[j].tabs.contains(tab),
    ensures
        exists|k: int| manager.is_home(tab, k),
    decreases j,
{
    if exists|i: int| 0 <= i < j && (#[trigger] manager.workspaces[i]).tabs.contains(tab) {
        let i = choose|i: int|
            0 <= i < j && (#[trigger] manager.workspaces[i]).tabs.contains(tab);
        lemma_first_holder(manager, tab, i);
    } else {
        assert(manager.is_home(tab, j));
    }
}

/// The workspaces as they are after a removal, before empty ones are dropped.
spec fn reduced(manager: ManagerView, removed: usize) -> Seq<WorkspaceView> {
    manager.workspaces.map_values(|view: WorkspaceView| view.without(removed))
}

proof fn lemma_removal_leaves_valid_workspaces(manager: ManagerView, removed: usize)
    requires
        manager.wf(),
    ensures
        manager.without(removed).wf(),
{
    let all = reduced(manager, removed);
    let useful = |view: WorkspaceView| view.tabs.len() > 0;
    assert forall|k: int| 0 <= k < all.len() implies (#[trigger] all[k]).wf() by {
        lemma_workspace_stays_valid(manager.workspaces[k], 0, removed, 0, 0);
    }
    let kept = all.filter(useful);
    assert forall|k: int| 0 <= k < kept.len() implies (#[trigger] kept[k]).wf() by {
        assert(kept.contains(kept[k]));
        all.lemma_filter_contains_rev(useful, kept[k]);
        let j = choose|j: int| 0 <= j < all.len() && all[j] == kept[k];
        assert(all[j].wf());
    }
    let after = manager.without(removed);
    assert(after.workspaces == if all.len() > 1 && kept.len() > 0 {
        kept
    } else if all.len() > 1 {
        seq![WorkspaceView::empty(workspace::DEFAULT_WORKSPACE_NAME@)]
    } else {
        all
    });
}

/// A removal leaves at least one workspace, and an empty one only where it is the
/// only one.
pub proof fn lemma_removal_drops_empty_workspaces(manager: ManagerView, removed: usize, k: int)
    requires
        0 <= k < manager.without(removed).workspaces.len(),
    ensures
        manager.without(removed).workspaces.len() >= 1,
        manager.without(removed).workspaces[k].tabs.len() > 0 || manager.without(
            removed,
        ).workspaces.len() == 1,
{
    let all = reduced(manager, removed);
    let useful = |view: WorkspaceView| view.tabs.len() > 0;
    let kept = all.filter(useful);
    if all.len() > 1 && kept.len() > 0 {
        assert(manager.without(removed).workspaces == kept);
        assert(useful(kept[k]));
    }
}

/// One more workspace adds what it lists.
proof fn lemma_held_by_one_more(workspaces: Seq<WorkspaceView>, view: WorkspaceView, tab: usize)
    ensures
        times_held(workspaces.push(view), tab) == times_held(workspaces, tab) + times_listed(
            view.tabs,
            tab,
        ),
{
    assert(workspaces.push(view).drop_last() =~= workspaces);
}

/// A workspace without tabs lists nothing.
proof fn lemma_empty_lists_nothing(tabs: Seq<usize>, tab: usize)
    requires
        tabs.len() == 0,
    ensures
        times_listed(tabs, tab) == 0,
{
    assert(!tabs.contains(tab));
}

/// Where each workspace lists `after` as often as the one before it lists `before`,
/// they all do.
proof fn lemma_held_alike(
    left: Seq<WorkspaceView>,
    right: Seq<WorkspaceView>,
    before: usize,
    after: usize,
)
    requires
        left.len() == right.len(),
        forall|k: int|
            0 <= k < left.len() ==> times_listed((#[trigger] right[k]).tabs, after)
                == times_listed(left[k].tabs, before),
    ensures
        times_held(right, after) == times_held(left, before),
    decreases left.len(),
{
    if left.len() > 0 {
        let last = left.len() - 1;
        assert(right[last] == right.last());
        assert forall|k: int| 0 <= k < last implies times_listed(
            (#[trigger] right.drop_last()[k]).tabs,
            after,
        ) == times_listed(left.drop_last()[k].tabs, before) by {
            assert(right.drop_last()[k] == right[k]);
        }
        lemma_held_alike(left.drop_last(), right.drop_last(), before, after);
    }
}

/// Replacing a workspace exchanges what it lists.
proof fn lemma_held_after_update(
    workspaces: Seq<WorkspaceView>,
    k: int,
    view: WorkspaceView,
    tab: usize,
)
    requires
        0 <= k < workspaces.len(),
    ensures
        times_held(workspaces.update(k, view), tab) + times_listed(workspaces[k].tabs, tab)
            == times_held(workspaces, tab) + times_listed(view.tabs, tab),
    decreases workspaces.len(),
{
    let updated = workspaces.update(k, view);
    if k == workspaces.len() - 1 {
        assert(updated.drop_last() =~= workspaces.drop_last());
    } else {
        lemma_held_after_update(workspaces.drop_last(), k, view, tab);
        assert(updated.drop_last() =~= workspaces.drop_last().update(k, view));
    }
}

/// Dropping empty workspaces drops no tab.
proof fn lemma_held_without_empty(workspaces: Seq<WorkspaceView>, tab: usize)
    ensures
        times_held(workspaces.filter(|view: WorkspaceView| view.tabs.len() > 0), tab)
            == times_held(workspaces, tab),
    decreases workspaces.len(),
{
    reveal(Seq::filter);
    if workspaces.len() > 0 {
        let before = workspaces.drop_last();
        lemma_held_without_empty(before, tab);
        if workspaces.last().tabs.len() > 0 {
            lemma_held_by_one_more(
                before.filter(|view: WorkspaceView| view.tabs.len() > 0),
                workspaces.last(),
                tab,
            );
        } else {
            lemma_empty_lists_nothing(workspaces.last().tabs, tab);
        }
    }
}

/// A new window has one tab, and its workspace lists it.
pub proof fn lemma_new_window_holds_its_tab(manager: ManagerView)
    requires
        manager.workspaces == seq![
            WorkspaceView {
                name: workspace::DEFAULT_WORKSPACE_NAME@,
                tabs: seq![0usize],
                selected: 0,
            },
        ],
    ensures
        holds_each_tab_once(manager, 1),
{
    assert forall|tab: usize| #[trigger]
        times_held(manager.workspaces, tab) == if tab < 1 {
            1nat
        } else {
            0nat
        } by {
        assert(manager.workspaces =~= Seq::empty().push(manager.workspaces[0]));
        lemma_held_by_one_more(Seq::empty(), manager.workspaces[0], tab);
        lemma_empty_lists_nothing(Seq::empty(), tab);
        assert(seq![0usize] =~= Seq::empty().push(0usize));
    }
}

/// A tab that is added behind the others is listed like them: each tab once.
pub proof fn lemma_adding_keeps_each_tab_once(manager: ManagerView, count: usize)
    requires
        manager.wf(),
        holds_each_tab_once(manager, count as int),
    ensures
        holds_each_tab_once(manager.with_tab(count), count + 1),
{
    let active = manager.active as int;
    let view = manager.workspaces[active];
    assert forall|tab: usize| #[trigger]
        times_held(manager.with_tab(count).workspaces, tab) == if tab < count + 1 {
            1nat
        } else {
            0nat
        } by {
        assert(times_held(manager.workspaces, tab) == if tab < count {
            1nat
        } else {
            0nat
        });
        lemma_held_after_update(manager.workspaces, active, view.with_tab(count), tab);
    }
}

/// A new workspace, another selection or another active workspace changes nothing
/// about which tabs are listed.
pub proof fn lemma_choosing_keeps_each_tab_once(
    manager: ManagerView,
    count: int,
    tab: usize,
    index: usize,
)
    requires
        holds_each_tab_once(manager, count),
    ensures
        holds_each_tab_once(manager.with_workspace(), count),
        holds_each_tab_once(manager.with_selection(tab), count),
        holds_each_tab_once(ManagerView { active: index, ..manager }, count),
{
    assert forall|other: usize| #[trigger]
        times_held(manager.with_workspace().workspaces, other) == if other < count {
            1nat
        } else {
            0nat
        } by {
        let view = manager.with_workspace().workspaces.last();
        lemma_held_by_one_more(manager.workspaces, view, other);
        lemma_empty_lists_nothing(view.tabs, other);
        assert(times_held(manager.workspaces, other) == if other < count {
            1nat
        } else {
            0nat
        });
    }
    assert forall|other: usize| #[trigger]
        times_held(manager.with_selection(tab).workspaces, other) == if other < count {
            1nat
        } else {
            0nat
        } by {
        if !manager.is_homeless(tab) {
            lemma_home_exists(manager, tab);
            let home = choose|k: int| manager.is_home(tab, k);
            lemma_held_after_update(
                manager.workspaces,
                home,
                WorkspaceView { selected: tab, ..manager.workspaces[home] },
                other,
            );
        }
        assert(times_held(manager.workspaces, other) == if other < count {
            1nat
        } else {
            0nat
        });
    }
}

/// Moving a tab of the window to another place in it leaves each tab listed once.
pub proof fn lemma_moving_keeps_each_tab_once(
    manager: ManagerView,
    count: int,
    from: usize,
    to: usize,
)
    requires
        holds_each_tab_once(manager, count),
        from < count,
        to < count,
    ensures
        holds_each_tab_once(manager.moved(from, to), count),
{
    let rename = |tab: usize| workspace::index_after_move(tab, from, to);
    assert forall|a: usize, b: usize| #[trigger] rename(a) == #[trigger] rename(b) implies a
        == b by {
        lemma_move_back(a, from, to);
        lemma_move_back(b, from, to);
    }
    let after = manager.moved(from, to).workspaces;
    assert forall|tab: usize| #[trigger]
        times_held(after, tab) == if tab < count {
            1nat
        } else {
            0nat
        } by {
        let origin = workspace::index_after_move(tab, to, from);
        lemma_move_back(tab, to, from);
        assert forall|k: int| 0 <= k < after.len() implies times_listed(
            (#[trigger] after[k]).tabs,
            tab,
        ) == times_listed(manager.workspaces[k].tabs, origin) by {
            lemma_renaming_keeps_counts(manager.workspaces[k].tabs, rename, origin);
            lemma_order_keeps_tabs(manager.workspaces[k].tabs.map_values(rename));
        }
        lemma_held_alike(manager.workspaces, after, origin, tab);
        assert(times_held(manager.workspaces, origin) == if origin < count {
            1nat
        } else {
            0nat
        });
    }
}

/// Swapping two tabs of the window leaves each tab listed once.
pub proof fn lemma_swapping_keeps_each_tab_once(
    manager: ManagerView,
    count: int,
    first: usize,
    second: usize,
)
    requires
        holds_each_tab_once(manager, count),
        first < count,
        second < count,
    ensures
        holds_each_tab_once(manager.swapped(first, second), count),
{
    let rename = |tab: usize| workspace::index_after_swap(tab, first, second);
    assert forall|a: usize, b: usize| #[trigger] rename(a) == #[trigger] rename(b) implies a
        == b by {
        lemma_swap_back(a, first, second);
        lemma_swap_back(b, first, second);
    }
    let after = manager.swapped(first, second).workspaces;
    assert forall|tab: usize| #[trigger]
        times_held(after, tab) == if tab < count {
            1nat
        } else {
            0nat
        } by {
        let origin = workspace::index_after_swap(tab, first, second);
        lemma_swap_back(tab, first, second);
        assert forall|k: int| 0 <= k < after.len() implies times_listed(
            (#[trigger] after[k]).tabs,
            tab,
        ) == times_listed(manager.workspaces[k].tabs, origin) by {
            lemma_renaming_keeps_counts(manager.workspaces[k].tabs, rename, origin);
            lemma_order_keeps_tabs(manager.workspaces[k].tabs.map_values(rename));
        }
        lemma_held_alike(manager.workspaces, after, origin, tab);
        assert(times_held(manager.workspaces, origin) == if origin < count {
            1nat
        } else {
            0nat
        });
    }
}

/// Removing a tab of the window keeps the indices consistent: each of the tabs that
/// are left is listed once, under its new index.
pub proof fn lemma_removing_keeps_each_tab_once(manager: ManagerView, count: usize, removed: usize)
    requires
        holds_each_tab_once(manager, count as int),
        removed < count,
    ensures
        holds_each_tab_once(manager.without(removed), count - 1),
{
    let all = reduced(manager, removed);
    let after = manager.without(removed).workspaces;
    assert forall|tab: usize| #[trigger]
        times_held(after, tab) == if tab < count - 1 {
            1nat
        } else {
            0nat
        } by {
        lemma_held_without_empty(all, tab);
        if after != all && after != all.filter(|view: WorkspaceView| view.tabs.len() > 0) {
            let fallback = WorkspaceView::empty(workspace::DEFAULT_WORKSPACE_NAME@);
            assert(after =~= Seq::empty().push(fallback));
            lemma_held_by_one_more(Seq::empty(), fallback, tab);
            lemma_empty_lists_nothing(fallback.tabs, tab);
        }
        assert(times_held(after, tab) == times_held(all, tab));
        lemma_held_after_removal(manager.workspaces, all, removed, tab);
        let origin = if tab < removed {
            tab as int
        } else {
            tab + 1
        };
        if origin <= usize::MAX {
            assert(times_held(manager.workspaces, origin as usize) == if origin < count {
                1nat
            } else {
                0nat
            });
        }
    }
}

proof fn lemma_held_after_removal(
    workspaces: Seq<WorkspaceView>,
    all: Seq<WorkspaceView>,
    removed: usize,
    tab: usize,
)
    requires
        all == workspaces.map_values(|view: WorkspaceView| view.without(removed)),
    ensures
        tab < removed ==> times_held(all, tab) == times_held(workspaces, tab),
        removed <= tab < usize::MAX ==> times_held(all, tab) == times_held(
            workspaces,
            (tab + 1) as usize,
        ),
        tab == usize::MAX ==> times_held(all, tab) == 0,
    decreases workspaces.len(),
{
    if tab < usize::MAX {
        let origin = if tab < removed {
            tab
        } else {
            (tab + 1) as usize
        };
        assert forall|k: int| 0 <= k < all.len() implies times_listed(
            (#[trigger] all[k]).tabs,
            tab,
        ) == times_listed(workspaces[k].tabs, origin) by {
            lemma_removal_keeps_the_others(workspaces[k].tabs, removed, origin);
        }
        lemma_held_alike(workspaces, all, origin, tab);
    } else if all.len() > 0 {
        assert(all.drop_last() =~= workspaces.drop_last().map_values(
            |view: WorkspaceView| view.without(removed),
        ));
        lemma_held_after_removal(workspaces.drop_last(), all.drop_last(), removed, tab);
        lemma_removal_keeps_the_others(workspaces.last().tabs, removed, tab);
    }
}

/// Where a workspace has tabs, the tab to show is the selected one.
pub proof fn lemma_selected_tab_is_shown(view: WorkspaceView)
    requires
        view.wf(),
    ensures
        view.tab_to_show() == if view.tabs.len() > 0 {
            Some(view.selected)
        } else {
            None
        },
{
    if view.tabs.contains(view.selected) {
        let i = choose|i: int| 0 <= i < view.tabs.len() && view.tabs[i] == view.selected;
        assert(view.tabs.len() > 0);
    }
}

/// A tab that was selected is shown by its workspace, also after another tab or the
/// tab itself has moved.
pub proof fn lemma_selection_is_shown(
    manager: ManagerView,
    tab: usize,
    k: int,
    from: usize,
    to: usize,
)
    requires
        manager.is_home(tab, k),
    ensures
        manager.with_selection(tab).workspaces[k].tab_to_show() == Some(tab),
        manager.with_selection(tab).moved(from, to).workspaces[k].tab_to_show() == Some(
            workspace::index_after_move(tab, from, to),
        ),
        manager.with_selection(tab).swapped(from, to).workspaces[k].tab_to_show() == Some(
            workspace::index_after_swap(tab, from, to),
        ),
{
    assert(manager.workspaces[k].tabs.contains(tab));
    assert(!manager.is_homeless(tab));
    let home = choose|j: int| manager.is_home(tab, j);
    workspace::lemma_home_is_unique(manager, tab, home, k);
    let selected = manager.with_selection(tab);
    assert(selected.workspaces[k].tabs.contains(tab));
    lemma_move_keeps_membership_and_selection(selected, from, to, k, tab);
    lemma_swap_keeps_membership_and_selection(selected, from, to, k, tab);
}

/// A new tab is kept in the workspace that was active, and no other workspace changes.
pub proof fn lemma_new_tab_is_kept_in_the_active_workspace(
    manager: ManagerView,
    tab: usize,
    k: int,
)
    requires
        manager.wf(),
        manager.is_homeless(tab),
        0 <= k < manager.workspaces.len(),
    ensures
        manager.with_tab(tab).is_home(tab, manager.active as int),
        k != manager.active ==> manager.with_tab(tab).workspaces[k] == manager.workspaces[k],
{
    let active = manager.active as int;
    let after = manager.with_tab(tab);
    let grown = after.workspaces[active].tabs;
    assert(grown[grown.len() - 1] == tab);
    assert forall|j: int| 0 <= j < active implies !(#[trigger] after.workspaces[j]).tabs.contains(
        tab,
    ) by {
        assert(after.workspaces[j] == manager.workspaces[j]);
    }
}

/// Tabs that are numbered through are listed once each.
proof fn lemma_consecutive_counts(first: int, count: nat, tab: usize)
    requires
        0 <= first,
        first + count <= usize::MAX,
    ensures
        times_listed(Seq::new(count, |i: int| (first + i) as usize), tab) == if first <= tab < first
            + count {
            1nat
        } else {
            0nat
        },
    decreases count,
{
    let numbers = Seq::new(count, |i: int| (first + i) as usize);
    if count == 0 {
        lemma_empty_lists_nothing(numbers, tab);
    } else {
        let shorter = Seq::new((count - 1) as nat, |i: int| (first + i) as usize);
        lemma_consecutive_counts(first, (count - 1) as nat, tab);
        assert(numbers =~= shorter.push((first + count - 1) as usize));
    }
}

proof fn lemma_held_in_restored(state: PersistedWorkspaceState, k: int, tab: usize)
    requires
        state.is_restorable(),
        0 <= k <= state.workspaces@.len(),
    ensures
        times_held(workspace::restored(state).workspaces.take(k), tab) == if tab
            < persisted::total_tabs(state.workspaces@.take(k)) {
            1nat
        } else {
            0nat
        },
    decreases k,
{
    let listed = state.workspaces@;
    let views = workspace::restored(state).workspaces;
    if k == 0 {
        assert(listed.take(0) =~= Seq::empty());
        assert(views.take(0) =~= Seq::empty());
    } else {
        lemma_held_in_restored(state, k - 1, tab);
        persisted::lemma_next_workspace(listed, k - 1);
        persisted::lemma_total_grows(listed, k);
        let first = persisted::total_tabs(listed.take(k - 1)) as int;
        lemma_consecutive_counts(first, listed[k - 1].tabs@.len(), tab);
        assert(views.take(k) =~= views.take(k - 1).push(views[k - 1]));
        lemma_held_by_one_more(views.take(k - 1), views[k - 1], tab);
    }
}

/// Restored workspaces list each of the restored tabs once.
pub proof fn lemma_restored_holds_each_tab_once(state: PersistedWorkspaceState)
    requires
        state.is_restorable(),
    ensures
        holds_each_tab_once(
            workspace::restored(state),
            persisted::all_tabs(state.workspaces@).len() as int,
        ),
{
    let views = workspace::restored(state).workspaces;
    persisted::lemma_all_tabs_len(state.workspaces@);
    assert(state.workspaces@.take(state.workspaces@.len() as int) =~= state.workspaces@);
    assert(views.take(views.len() as int) =~= views);
    assert forall|tab: usize| #[trigger]
        times_held(views, tab) == if tab < persisted::all_tabs(state.workspaces@).len() {
            1nat
        } else {
            0nat
        } by {
        lemma_held_in_restored(state, state.workspaces@.len() as int, tab);
    }
}

/// How many tabs workspaces hold together.
pub open spec fn count_tabs(workspaces: Seq<WorkspaceView>) -> nat
    decreases workspaces.len(),
{
    if workspaces.len() == 0 {
        0
    } else {
        count_tabs(workspaces.drop_last()) + workspaces.last().tabs.len()
    }
}

/// Whether the tabs of the workspaces are numbered through, one workspace after the
/// other.
pub open spec fn is_numbered_through(manager: ManagerView) -> bool {
    forall|k: int, i: int|
        0 <= k < manager.workspaces.len() && 0 <= i < manager.workspaces[k].tabs.len()
            ==> #[trigger] manager.workspaces[k].tabs[i] == count_tabs(manager.workspaces.take(k))
            + i
}

proof fn lemma_snapshot_counts<F: FnMut(usize) -> PersistedTab>(
    manager: ManagerView,
    tab: F,
    state: PersistedWorkspaceState,
    k: int,
)
    requires
        workspace::is_snapshot(manager, tab, state),
        0 <= k <= manager.workspaces.len(),
    ensures
        persisted::total_tabs(state.workspaces@.take(k)) == count_tabs(manager.workspaces.take(k)),
    decreases k,
{
    if k > 0 {
        lemma_snapshot_counts(manager, tab, state, k - 1);
        persisted::lemma_next_workspace(state.workspaces@, k - 1);
        assert(workspace::is_workspace_snapshot(
            manager.workspaces[k - 1],
            tab,
            state.workspaces@[k - 1],
        ));
        assert(manager.workspaces.take(k).drop_last() =~= manager.workspaces.take(k - 1));
        assert(manager.workspaces.take(k).last() == manager.workspaces[k - 1]);
    } else {
        assert(state.workspaces@.take(0) =~= Seq::empty());
        assert(manager.workspaces.take(0) =~= Seq::empty());
    }
}

/// Where a tab stands in the list of all tabs.
proof fn lemma_place_in_all_tabs(workspaces: Seq<PersistedWorkspace>, k: int, i: int)
    requires
        0 <= k < workspaces.len(),
        0 <= i < workspaces[k].tabs@.len(),
    ensures
        persisted::total_tabs(workspaces.take(k)) + i < persisted::all_tabs(workspaces).len(),
        persisted::all_tabs(workspaces)[persisted::total_tabs(workspaces.take(k)) + i]
            == workspaces[k].tabs@[i],
    decreases workspaces.len(),
{
    let before = workspaces.drop_last();
    persisted::lemma_all_tabs_len(before);
    if k < before.len() {
        lemma_place_in_all_tabs(before, k, i);
        assert(before.take(k) =~= workspaces.take(k));
    } else {
        assert(before =~= workspaces.take(k));
    }
}

/// The position of a tab that is listed is a position at which it stands.
proof fn lemma_selected_position(view: WorkspaceView)
    requires
        view.tabs.contains(view.selected),
    ensures
        workspace::is_first_position(view.tabs, view.selected, view.selected_position()),
{
    let j = choose|j: int| 0 <= j < view.tabs.len() && view.tabs[j] == view.selected;
    lemma_first_position_exists(view.tabs, view.selected, j);
}

proof fn lemma_first_position_exists(tabs: Seq<usize>, tab: usize, j: int)
    requires
        0 <= j < tabs.len(),
        tabs[j] == tab,
    ensures
        exists|i: int| workspace::is_first_position(tabs, tab, i),
    decreases j,
{
    if exists|i: int| 0 <= i < j && tabs[i] == tab {
        let i = choose|i: int| 0 <= i < j && tabs[i] == tab;
        lemma_first_position_exists(tabs, tab, i);
    } else {
        assert(workspace::is_first_position(tabs, tab, j));
    }
}

/// A snapshot can be restored exactly if no workspace is without tabs and the tabs are
/// not too many.
pub proof fn lemma_which_snapshots_are_restorable<F: FnMut(usize) -> PersistedTab>(
    manager: ManagerView,
    tab: F,
    state: PersistedWorkspaceState,
)
    requires
        manager.wf(),
        workspace::is_snapshot(manager, tab, state),
    ensures
        state.is_restorable() <==> (forall|k: int|
            0 <= k < manager.workspaces.len() ==> (#[trigger] manager.workspaces[k]).tabs.len() > 0)
            && count_tabs(manager.workspaces) <= persisted::MAX_RESTORED_TABS,
{
    let listed = state.workspaces@;
    let views = manager.workspaces;
    lemma_snapshot_counts(manager, tab, state, views.len() as int);
    assert(listed.take(listed.len() as int) =~= listed);
    assert(views.take(views.len() as int) =~= views);
    assert forall|k: int| 0 <= k < listed.len() implies (#[trigger] listed[k]).tabs@.len()
        == views[k].tabs.len() by {
        assert(workspace::is_workspace_snapshot(views[k], tab, listed[k]));
    }
    if state.is_restorable() {
        assert forall|k: int| 0 <= k < views.len() implies (#[trigger] views[k]).tabs.len() > 0 by {
            assert(listed[k].tabs@.len() > 0);
        }
    }
}

/// What is restored from a snapshot is what the snapshot was taken of: the same
/// workspaces in the same order, under the same names, with as many tabs, the same
/// selected and the same one active. The tab that stands in a place leads to the
/// description of the tab that stood there. Where the tabs were numbered through,
/// nothing changes at all.
///
/// This leaves out workspaces without tabs, and more tabs than are restored.
pub proof fn lemma_snapshot_is_restored<F: FnMut(usize) -> PersistedTab>(
    manager: ManagerView,
    tab: F,
    state: PersistedWorkspaceState,
)
    requires
        manager.wf(),
        workspace::is_snapshot(manager, tab, state),
        forall|k: int|
            0 <= k < manager.workspaces.len() ==> (#[trigger] manager.workspaces[k]).tabs.len() > 0,
        count_tabs(manager.workspaces) <= persisted::MAX_RESTORED_TABS,
    ensures
        state.is_restorable(),
        workspace::restored(state).active == manager.active,
        workspace::restored(state).workspaces.len() == manager.workspaces.len(),
        forall|k: int|
            #![trigger manager.workspaces[k]]
            0 <= k < manager.workspaces.len() ==> is_restored_workspace(
                manager.workspaces[k],
                workspace::restored(state).workspaces[k],
                tab,
                persisted::all_tabs(state.workspaces@),
            ),
        is_numbered_through(manager) ==> workspace::restored(state) == manager,
{
    let listed = state.workspaces@;
    let views = manager.workspaces;
    let back = workspace::restored(state);
    lemma_snapshot_counts(manager, tab, state, views.len() as int);
    assert(listed.take(listed.len() as int) =~= listed);
    assert(views.take(views.len() as int) =~= views);
    assert forall|k: int| 0 <= k < listed.len() implies (#[trigger] listed[k]).tabs@.len() > 0 by {
        assert(workspace::is_workspace_snapshot(views[k], tab, listed[k]));
    }
    assert forall|k: int|
        #![trigger views[k]]
        0 <= k < views.len() implies is_restored_workspace(
        views[k],
        back.workspaces[k],
        tab,
        persisted::all_tabs(listed),
    ) && (is_numbered_through(manager) ==> back.workspaces[k] == views[k]) by {
        let first = persisted::total_tabs(listed.take(k)) as int;
        let view = back.workspaces[k];
        assert(workspace::is_workspace_snapshot(views[k], tab, listed[k]));
        lemma_snapshot_counts(manager, tab, state, k);
        persisted::lemma_next_workspace(listed, k);
        persisted::lemma_total_grows(listed, k + 1);
        lemma_selected_position(views[k]);
        let position = views[k].selected_position();
        assert(view.tabs[position] == view.selected);
        lemma_selected_position(view);
        assert(view.tabs[view.selected_position()] == first + view.selected_position());
        assert forall|i: int| 0 <= i < views[k].tabs.len() implies (#[trigger] view.tabs[i])
            < persisted::all_tabs(listed).len() && call_ensures(
            tab,
            (views[k].tabs[i],),
            persisted::all_tabs(listed)[view.tabs[i] as int],
        ) by {
            lemma_place_in_all_tabs(listed, k, i);
            assert(view.tabs[i] == first + i);
            assert(call_ensures(tab, (views[k].tabs[i],), listed[k].tabs@[i]));
        }
        if is_numbered_through(manager) {
            assert(view.tabs =~= views[k].tabs);
            assert(views[k].tabs[position] == views[k].selected);
        }
    }
    if is_numbered_through(manager) {
        assert(back.workspaces =~= views);
    }
}

/// Whether `after` is a workspace that was restored from what was persisted of
/// `before`, when `all` are the restored tabs and `tab` described the tabs.
pub open spec fn is_restored_workspace<F: FnMut(usize) -> PersistedTab>(
    before: WorkspaceView,
    after: WorkspaceView,
    tab: F,
    all: Seq<PersistedTab>,
) -> bool {
    &&& after.name == before.name
    &&& after.tabs.len() == before.tabs.len()
    &&& after.selected_position() == before.selected_position()
    &&& forall|i: int|
        0 <= i < before.tabs.len() ==> (#[trigger] after.tabs[i]) < all.len() && call_ensures(
            tab,
            (before.tabs[i],),
            all[after.tabs[i] as int],
        )
}

/// A snapshot of restored workspaces is the state that they were restored from, if the
/// tabs are described as they were: the same version, names and tabs. What was active
/// or selected beyond the end is now the last.
pub proof fn lemma_restored_is_persisted_alike<F: FnMut(usize) -> PersistedTab>(
    state: PersistedWorkspaceState,
    tab: F,
    again: PersistedWorkspaceState,
)
    requires
        state.is_restorable(),
        forall|index: usize, described: PersistedTab|
            index < persisted::all_tabs(state.workspaces@).len() && #[trigger] call_ensures(
                tab,
                (index,),
                described,
            ) ==> described == persisted::all_tabs(state.workspaces@)[index as int],
        workspace::is_snapshot(workspace::restored(state), tab, again),
    ensures
        again.version == state.version,
        again.active_workspace == last_at_most(
            state.active_workspace,
            state.workspaces@.len() as int,
        ),
        again.workspaces@.len() == state.workspaces@.len(),
        forall|k: int|
            #![trigger again.workspaces@[k]]
            0 <= k < state.workspaces@.len() ==> {
                &&& again.workspaces@[k].name@ == state.workspaces@[k].name@
                &&& again.workspaces@[k].tabs@ == state.workspaces@[k].tabs@
                &&& again.workspaces@[k].selected_tab == last_at_most(
                    state.workspaces@[k].selected_tab,
                    state.workspaces@[k].tabs@.len() as int,
                )
            },
{
    let listed = state.workspaces@;
    let views = workspace::restored(state).workspaces;
    let all = persisted::all_tabs(listed);
    assert forall|k: int|
        #![trigger again.workspaces@[k]]
        0 <= k < listed.len() implies {
        &&& again.workspaces@[k].name@ == listed[k].name@
        &&& again.workspaces@[k].tabs@ == listed[k].tabs@
        &&& again.workspaces@[k].selected_tab == last_at_most(
            listed[k].selected_tab,
            listed[k].tabs@.len() as int,
        )
    } by {
        let view = views[k];
        let first = persisted::total_tabs(listed.take(k)) as int;
        let position = last_at_most(listed[k].selected_tab, listed[k].tabs@.len() as int);
        assert(workspace::is_workspace_snapshot(view, tab, again.workspaces@[k]));
        persisted::lemma_next_workspace(listed, k);
        persisted::lemma_total_grows(listed, k + 1);
        assert(view.tabs[position] == view.selected);
        lemma_selected_position(view);
        assert(view.tabs[view.selected_position()] == first + view.selected_position());
        assert forall|i: int| 0 <= i < listed[k].tabs@.len() implies again.workspaces@[k].tabs@[i]
            == #[trigger] listed[k].tabs@[i] by {
            lemma_place_in_all_tabs(listed, k, i);
            assert(view.tabs[i] == first + i);
            assert(call_ensures(tab, (view.tabs[i],), again.workspaces@[k].tabs@[i]));
        }
        assert(again.workspaces@[k].tabs@ =~= listed[k].tabs@);
    }
}

/// A place among `count`, which falls back to the last where it lies beyond the end.
pub open spec fn last_at_most(place: usize, count: int) -> int {
    if place < count {
        place as int
    } else {
        count - 1
    }
}

/// A new workspace is active at once, and the next tab is its only and selected one.
pub proof fn lemma_new_workspace_receives_the_next_tab(manager: ManagerView, tab: usize)
    requires
        manager.workspaces.len() < usize::MAX,
    ensures
        ({
            let created = manager.with_workspace();
            let index = manager.workspaces.len() as int;
            let after = created.with_tab(tab);
            &&& created.active == index
            &&& after.active == index
            &&& after.workspaces.len() == index + 1
            &&& after.workspaces[index].tabs == seq![tab]
            &&& after.workspaces[index].selected == tab
            &&& after.workspaces.take(index) == manager.workspaces
        }),
{
    let after = manager.with_workspace().with_tab(tab);
    let index = manager.workspaces.len() as int;
    assert(after.workspaces[index].tabs =~= seq![tab]);
    assert(after.workspaces.take(index) =~= manager.workspaces);
}

/// A call that concerns which workspace is active.
pub enum Choice {
    /// Of `set_active`, with this index.
    Activate(usize),
    /// Of `create`.
    Create,
}

/// The workspaces after one such call after the other.
pub open spec fn after_choices(manager: ManagerView, choices: Seq<Choice>) -> ManagerView
    decreases choices.len(),
{
    if choices.len() == 0 {
        manager
    } else {
        let before = after_choices(manager, choices.drop_last());
        match choices.last() {
            Choice::Activate(index) => before.with_active(index),
            Choice::Create => before.with_workspace(),
        }
    }
}

/// However often another workspace is made active or a new one is created, each
/// workspace keeps its name, its tabs and its selection, and so the tab that it shows.
pub proof fn lemma_choices_keep_selections(manager: ManagerView, choices: Seq<Choice>, k: int)
    requires
        0 <= k < manager.workspaces.len(),
    ensures
        after_choices(manager, choices).workspaces.len() >= manager.workspaces.len(),
        after_choices(manager, choices).workspaces[k] == manager.workspaces[k],
        after_choices(manager, choices).workspaces[k].tab_to_show()
            == manager.workspaces[k].tab_to_show(),
    decreases choices.len(),
{
    if choices.len() > 0 {
        lemma_choices_keep_selections(manager, choices.drop_last(), k);
    }
}

/// A removal keeps the other tabs of a workspace together: the workspace stays, with
/// each of its other tabs under the new index, and its selection stays on its tab.
pub proof fn lemma_removal_keeps_the_other_tabs(
    manager: ManagerView,
    removed: usize,
    k: int,
    tab: usize,
)
    requires
        0 <= k < manager.workspaces.len(),
        manager.workspaces[k].tabs.contains(tab),
        tab != removed,
    ensures
        ({
            let before = manager.workspaces[k];
            let after = before.without(removed);
            &&& manager.without(removed).workspaces.contains(after)
            &&& after.name == before.name
            &&& after.tabs.contains(workspace::index_after_removal(tab, removed))
            &&& before.selected != removed ==> after.selected == workspace::index_after_removal(
                before.selected,
                removed,
            )
        }),
{
    let all = reduced(manager, removed);
    let after = all[k];
    lemma_removal_keeps_the_others(manager.workspaces[k].tabs, removed, tab);
    assert(manager.workspaces[k].tabs.to_multiset().count(tab) > 0);
    let index = workspace::index_after_removal(tab, removed);
    assert(after.tabs.to_multiset().count(index) > 0);
    let i = choose|i: int| 0 <= i < after.tabs.len() && after.tabs[i] == index;
    let useful = |view: WorkspaceView| view.tabs.len() > 0;
    let kept = all.filter(useful);
    assert(useful(all[k]));
    assert(kept.contains(all[k]));
    if all.len() > 1 {
        let j = choose|j: int| 0 <= j < kept.len() && kept[j] == all[k];
        assert(manager.without(removed).workspaces == kept);
    } else {
        assert(manager.without(removed).workspaces == all);
    }
}

/// A removal after which no workspace is empty leaves the same workspaces in the same
/// places, and the same one active.
pub proof fn lemma_removal_keeps_the_places(manager: ManagerView, removed: usize)
    requires
        manager.wf(),
        forall|k: int|
            0 <= k < manager.workspaces.len() ==> (#[trigger] manager.workspaces[k]).without(
                removed,
            ).tabs.len() > 0,
    ensures
        manager.without(removed).active == manager.active,
        manager.without(removed).workspaces == manager.workspaces.map_values(
            |view: WorkspaceView| view.without(removed),
        ),
{
    let all = reduced(manager, removed);
    let useful = |view: WorkspaceView| view.tabs.len() > 0;
    assert forall|k: int| 0 <= k < all.len() implies useful(#[trigger] all[k]) by {
        assert(manager.workspaces[k].without(removed).tabs.len() > 0);
    }
    lemma_nothing_to_drop(all);
}

/// The active workspace stays the active one in a removal that leaves it a tab, where
/// no workspace before it is dropped or none behind it stays.
pub proof fn lemma_removal_keeps_the_active_workspace(manager: ManagerView, removed: usize)
    requires
        manager.wf(),
        manager.workspaces[manager.active as int].without(removed).tabs.len() > 0,
        (forall|k: int|
            0 <= k < manager.active ==> (#[trigger] manager.workspaces[k]).without(
                removed,
            ).tabs.len() > 0) || (forall|k: int|
            manager.active < k < manager.workspaces.len() ==> (
            #[trigger] manager.workspaces[k]).without(removed).tabs.len() == 0),
    ensures
        ({
            let after = manager.without(removed);
            after.workspaces[after.active as int]
                == manager.workspaces[manager.active as int].without(removed)
        }),
{
    let all = reduced(manager, removed);
    let useful = |view: WorkspaceView| view.tabs.len() > 0;
    let active = manager.active as int;
    let earlier = all.take(active);
    let later = all.skip(active + 1);
    let kept = all.filter(useful);
    assert(all =~= earlier.push(all[active]) + later);
    Seq::filter_distributes_over_add(earlier.push(all[active]), later, useful);
    earlier.lemma_filter_push(all[active], useful);
    assert(kept == earlier.filter(useful).push(all[active]) + later.filter(useful));
    if forall|k: int|
        0 <= k < active ==> (#[trigger] manager.workspaces[k]).without(removed).tabs.len() > 0 {
        assert forall|k: int| 0 <= k < earlier.len() implies (#[trigger] earlier[k]).tabs.len()
            > 0 by {
            assert(manager.workspaces[k].without(removed).tabs.len() > 0);
        }
        lemma_nothing_to_drop(earlier);
    } else {
        assert(later.filter(useful).len() == 0) by {
            if later.filter(useful).len() > 0 {
                let view = later.filter(useful)[0];
                assert(later.filter(useful).contains(view));
                later.lemma_filter_contains_rev(useful, view);
                let k = choose|k: int| 0 <= k < later.len() && later[k] == view;
                assert(manager.workspaces[active + 1 + k].without(removed).tabs.len() == 0);
            }
        }
    }
}

/// Tabs before the removed one keep their indices.
proof fn lemma_removal_behind_the_tabs(tabs: Seq<usize>, removed: usize)
    requires
        forall|i: int| 0 <= i < tabs.len() ==> tabs[i] < removed,
    ensures
        workspace::tabs_after_removal(tabs, removed) == tabs,
    decreases tabs.len(),
{
    if tabs.len() == 0 {
        assert(tabs =~= Seq::empty());
        workspace::lemma_removal_from_none(removed);
    } else {
        let before = tabs.drop_last();
        lemma_removal_behind_the_tabs(before, removed);
        workspace::lemma_removal_from_one_more(before, tabs.last(), removed);
        assert(before.push(tabs.last()) =~= tabs);
    }
}

/// Adding a tab behind all others and removing it changes nothing. This leaves out
/// workspaces without tabs, which a removal drops, unless there is only one workspace
/// and its selection is at the beginning.
pub proof fn lemma_adding_and_removing_a_tab(manager: ManagerView, tab: usize)
    requires
        manager.wf(),
        forall|k: int, i: int|
            0 <= k < manager.workspaces.len() && 0 <= i < manager.workspaces[k].tabs.len()
                ==> #[trigger] manager.workspaces[k].tabs[i] < tab,
        forall|k: int|
            0 <= k < manager.workspaces.len() ==> (#[trigger] manager.workspaces[k]).tabs.len() > 0
                || (manager.workspaces.len() == 1 && manager.workspaces[k].selected == 0),
    ensures
        manager.with_tab(tab).without(tab) == manager,
{
    let grown = manager.with_tab(tab);
    let all = reduced(grown, tab);
    assert forall|k: int| 0 <= k < all.len() implies all[k]
        == #[trigger] manager.workspaces[k] by {
        let view = manager.workspaces[k];
        lemma_removal_behind_the_tabs(view.tabs, tab);
        workspace::lemma_removal_from_one_more(view.tabs, tab, tab);
        if view.tabs.len() > 0 {
            let i = choose|i: int| 0 <= i < view.tabs.len() && view.tabs[i] == view.selected;
            assert(manager.workspaces[k].tabs[i] < tab);
        }
        assert(all[k] =~= view);
    }
    assert(all =~= manager.workspaces);
    if all.len() > 1 {
        lemma_nothing_to_drop(all);
    }
    assert(grown.without(tab) =~= manager);
}

proof fn lemma_nothing_to_drop(workspaces: Seq<WorkspaceView>)
    requires
        forall|k: int|
            0 <= k < workspaces.len() ==> (#[trigger] workspaces[k]).tabs.len() > 0,
    ensures
        workspaces.filter(|view: WorkspaceView| view.tabs.len() > 0) == workspaces,
    decreases workspaces.len(),
{
    reveal(Seq::filter);
    if workspaces.len() > 0 {
        assert forall|k: int| 0 <= k < workspaces.drop_last().len() implies (
        #[trigger] workspaces.drop_last()[k]).tabs.len() > 0 by {
            assert(workspaces.drop_last()[k] == workspaces[k]);
        }
        lemma_nothing_to_drop(workspaces.drop_last());
        assert(workspaces.last() == workspaces[workspaces.len() - 1]);
        assert(workspaces.drop_last().push(workspaces.last()) =~= workspaces);
    }
}

/// Where the elements that a filter keeps came from: places that ascend, and exactly
/// those of the elements that it keeps.
proof fn lemma_filter_origins<T>(s: Seq<T>, keep: spec_fn(T) -> bool) -> (origins: Seq<int>)
    ensures
        origins.len() == s.filter(keep).len(),
        forall|j: int|
            0 <= j < origins.len() ==> 0 <= #[trigger] origins[j] < s.len() && s.filter(keep)[j]
                == s[origins[j]] && keep(s[origins[j]]),
        forall|i: int, j: int|
            0 <= i < j < origins.len() ==> #[trigger] origins[i] < #[trigger] origins[j],
        forall|k: int| 0 <= k < s.len() && keep(#[trigger] s[k]) ==> origins.contains(k),
    decreases s.len(),
{
    reveal(Seq::filter);
    if s.len() == 0 {
        Seq::empty()
    } else {
        let before = s.drop_last();
        let last = s.len() - 1;
        let earlier = lemma_filter_origins(before, keep);
        let origins = if keep(s.last()) {
            earlier.push(last)
        } else {
            earlier
        };
        assert forall|j: int| 0 <= j < origins.len() implies 0 <= #[trigger] origins[j] < s.len()
            && s.filter(keep)[j] == s[origins[j]] && keep(s[origins[j]]) by {
            if j < earlier.len() {
                assert(origins[j] == earlier[j]);
                assert(before[earlier[j]] == s[earlier[j]]);
            }
        }
        assert forall|i: int, j: int| 0 <= i < j < origins.len() implies #[trigger] origins[i]
            < #[trigger] origins[j] by {
            assert(origins[i] == earlier[i]);
            if j < earlier.len() {
                assert(origins[j] == earlier[j]);
            }
        }
        assert forall|k: int| 0 <= k < s.len() && keep(#[trigger] s[k]) implies origins.contains(
            k,
        ) by {
            if k < last {
                assert(before[k] == s[k]);
                assert(earlier.contains(k));
                let j = choose|j: int| 0 <= j < earlier.len() && earlier[j] == k;
                assert(origins[j] == k);
            } else {
                assert(origins[origins.len() - 1] == last);
            }
        }
        origins
    }
}

/// Where the tabs that a removal leaves stood.
proof fn lemma_removal_origins(tabs: Seq<usize>, removed: usize) -> (origins: Seq<int>)
    ensures
        origins.len() == workspace::tabs_after_removal(tabs, removed).len(),
        forall|i: int, j: int|
            0 <= i < j < origins.len() ==> #[trigger] origins[i] < #[trigger] origins[j],
        forall|j: int|
            0 <= j < origins.len() ==> 0 <= #[trigger] origins[j] < tabs.len() && tabs[origins[j]]
                != removed && workspace::tabs_after_removal(tabs, removed)[j]
                == workspace::index_after_removal(tabs[origins[j]], removed),
        forall|place: int|
            0 <= place < tabs.len() && (#[trigger] tabs[place]) != removed ==> origins.contains(
                place,
            ),
    decreases tabs.len(),
{
    if tabs.len() == 0 {
        assert(tabs =~= Seq::empty());
        workspace::lemma_removal_from_none(removed);
        Seq::empty()
    } else {
        let before = tabs.drop_last();
        let last = tabs.len() - 1;
        let earlier = lemma_removal_origins(before, removed);
        workspace::lemma_removal_from_one_more(before, tabs.last(), removed);
        assert(before.push(tabs.last()) =~= tabs);
        let origins = if tabs.last() != removed {
            earlier.push(last)
        } else {
            earlier
        };
        assert forall|j: int| 0 <= j < origins.len() implies 0 <= #[trigger] origins[j]
            < tabs.len() && tabs[origins[j]] != removed && workspace::tabs_after_removal(
            tabs,
            removed,
        )[j] == workspace::index_after_removal(tabs[origins[j]], removed) by {
            if j < earlier.len() {
                assert(origins[j] == earlier[j]);
                assert(before[earlier[j]] == tabs[earlier[j]]);
            }
        }
        assert forall|i: int, j: int| 0 <= i < j < origins.len() implies #[trigger] origins[i]
            < #[trigger] origins[j] by {
            assert(origins[i] == earlier[i]);
            if j < earlier.len() {
                assert(origins[j] == earlier[j]);
            }
        }
        assert forall|place: int|
            0 <= place < tabs.len() && (#[trigger] tabs[place])
                != removed implies origins.contains(place) by {
            if place < last {
                assert(before[place] == tabs[place]);
                let j = choose|j: int| 0 <= j < earlier.len() && earlier[j] == place;
                assert(origins[j] == place);
            } else {
                assert(origins[origins.len() - 1] == last);
            }
        }
        origins
    }
}

/// The tabs of a workspace after a removal are its other tabs, in the order in which
/// they stood: `origins` are the places that they stood at. A tab behind the removed one
/// has moved up by one place in the window, and one before it has not. The name stays,
/// and so does the selection, which moves up like its tab. Where the selected tab was
/// removed, the first of the others is selected, or the beginning where there is none.
pub proof fn lemma_other_tabs_stay_in_order(view: WorkspaceView, removed: usize) -> (origins: Seq<
    int,
>)
    ensures
        view.without(removed).name == view.name,
        origins.len() == view.without(removed).tabs.len(),
        forall|i: int, j: int|
            0 <= i < j < origins.len() ==> #[trigger] origins[i] < #[trigger] origins[j],
        forall|j: int|
            0 <= j < origins.len() ==> {
                let place = #[trigger] origins[j];
                &&& 0 <= place < view.tabs.len()
                &&& view.tabs[place] != removed
                &&& view.without(removed).tabs[j] as int == if view.tabs[place] > removed {
                    view.tabs[place] - 1
                } else {
                    view.tabs[place] as int
                }
            },
        forall|place: int|
            0 <= place < view.tabs.len() && (#[trigger] view.tabs[place]) != removed
                ==> origins.contains(place),
        view.selected < removed ==> view.without(removed).selected == view.selected,
        view.selected > removed ==> view.without(removed).selected == view.selected - 1,
        view.selected == removed && origins.len() > 0 ==> view.without(removed).selected
            == view.without(removed).tabs[0],
        view.selected == removed && origins.len() == 0 ==> view.without(removed).selected == 0,
{
    lemma_removal_origins(view.tabs, removed)
}

/// Whether a workspace has a tab besides the removed one.
pub open spec fn keeps_a_tab(view: WorkspaceView, removed: usize) -> bool {
    exists|i: int| 0 <= i < view.tabs.len() && (#[trigger] view.tabs[i]) != removed
}

/// A workspace is without tabs after a removal exactly if it had no other tab.
proof fn lemma_who_keeps_a_tab(view: WorkspaceView, removed: usize)
    ensures
        view.without(removed).tabs.len() > 0 <==> keeps_a_tab(view, removed),
{
    let origins = lemma_other_tabs_stay_in_order(view, removed);
    if origins.len() > 0 {
        assert(view.tabs[origins[0]] != removed);
    }
    if keeps_a_tab(view, removed) {
        let i = choose|i: int| 0 <= i < view.tabs.len() && (#[trigger] view.tabs[i]) != removed;
        assert(origins.contains(i));
    }
}

/// The workspaces after a removal are those that keep a tab, in the order in which they
/// stood: `origins` are the places that they stood at. A lone workspace stays in any
/// case. Where none of several keeps a tab, an empty one that is called `Main` takes
/// their place, with its selection at the beginning. The same place stays active, or the last one where there are fewer.
pub proof fn lemma_removal_keeps_the_order(manager: ManagerView, removed: usize) -> (origins: Seq<
    int,
>)
    ensures
        ({
            let before = manager.workspaces;
            let after = manager.without(removed).workspaces;
            &&& forall|i: int, j: int|
                0 <= i < j < origins.len() ==> #[trigger] origins[i] < #[trigger] origins[j]
            &&& forall|j: int|
                0 <= j < origins.len() ==> 0 <= #[trigger] origins[j] < before.len() && j
                    < after.len() && after[j] == before[origins[j]].without(removed) && (
                before.len() > 1 ==> keeps_a_tab(before[origins[j]], removed))
            &&& forall|k: int|
                0 <= k < before.len() && keeps_a_tab(#[trigger] before[k], removed)
                    ==> origins.contains(k)
            &&& before.len() == 1 ==> origins.len() == 1
            &&& origins.len() > 0 ==> after.len() == origins.len()
            &&& origins.len() == 0 ==> after.len() == 1 && after[0].name == "Main"@
                && after[0].tabs.len() == 0 && after[0].selected == 0
            &&& manager.active < after.len() ==> manager.without(removed).active == manager.active
            &&& manager.active >= after.len() ==> manager.without(removed).active == after.len() - 1
        }),
{
    let all = reduced(manager, removed);
    let useful = |view: WorkspaceView| view.tabs.len() > 0;
    let kept = all.filter(useful);
    let after = manager.without(removed).workspaces;
    assert forall|k: int| 0 <= k < all.len() implies (useful(#[trigger] all[k]) <==> keeps_a_tab(
        manager.workspaces[k],
        removed,
    )) by {
        lemma_who_keeps_a_tab(manager.workspaces[k], removed);
    }
    if all.len() == 1 {
        assert(after == all);
        let origins = seq![0int];
        assert(origins[0] == 0);
        assert forall|k: int|
            0 <= k < manager.workspaces.len() && keeps_a_tab(
                #[trigger] manager.workspaces[k],
                removed,
            ) implies origins.contains(k) by {
            assert(k == 0);
        }
        origins
    } else {
        let origins = lemma_filter_origins(all, useful);
        assert forall|j: int| 0 <= j < origins.len() implies 0 <= #[trigger] origins[j]
            < manager.workspaces.len() && j < after.len() && after[j]
            == manager.workspaces[origins[j]].without(removed) && keeps_a_tab(
            manager.workspaces[origins[j]],
            removed,
        ) by {
            assert(useful(all[origins[j]]));
        }
        assert forall|k: int|
            0 <= k < manager.workspaces.len() && keeps_a_tab(
                #[trigger] manager.workspaces[k],
                removed,
            ) implies origins.contains(k) by {
            assert(useful(all[k]));
        }
        origins
    }
}

/// Two workspaces that keep a tab do not change places in a removal, also where another
/// one is dropped: what becomes of the first stands before what becomes of the second.
pub proof fn lemma_removal_changes_no_places(
    manager: ManagerView,
    removed: usize,
    j: int,
    k: int,
)
    requires
        0 <= j < k < manager.workspaces.len(),
        keeps_a_tab(manager.workspaces[j], removed),
        keeps_a_tab(manager.workspaces[k], removed),
    ensures
        exists|a: int, b: int|
            #![trigger manager.without(removed).workspaces[a], manager.without(removed).workspaces[b]]
            0 <= a < b < manager.without(removed).workspaces.len() && manager.without(
                removed,
            ).workspaces[a] == manager.workspaces[j].without(removed) && manager.without(
                removed,
            ).workspaces[b] == manager.workspaces[k].without(removed),
{
    let origins = lemma_removal_keeps_the_order(manager, removed);
    assert(origins.contains(j) && origins.contains(k));
    let a = choose|a: int| 0 <= a < origins.len() && origins[a] == j;
    let b = choose|b: int| 0 <= b < origins.len() && origins[b] == k;
    assert(a < b) by {
        if b < a {
            assert(origins[b] < origins[a]);
        }
    }
    let after = manager.without(removed).workspaces;
    assert(after[a] == manager.workspaces[origins[a]].without(removed));
    assert(after[b] == manager.workspaces[origins[b]].without(removed));
}

/// A workspace that is made active is the active one, and the tab that is added next
/// goes to its end and to no other workspace. To make active what is not there changes
/// nothing.
pub proof fn lemma_workspace_made_active_receives_the_next_tab(
    manager: ManagerView,
    index: usize,
    tab: usize,
)
    ensures
        ({
            let chosen = manager.with_active(index);
            &&& chosen.workspaces == manager.workspaces
            &&& index < manager.workspaces.len() ==> chosen.active == index && chosen.with_tab(
                tab,
            ).active == index && chosen.with_tab(tab).workspaces.len() == manager.workspaces.len()
                && chosen.with_tab(tab).workspaces[index as int].tabs
                == manager.workspaces[index as int].tabs.push(tab) && forall|k: int|
                0 <= k < manager.workspaces.len() && k != index ==> chosen.with_tab(
                    tab,
                ).workspaces[k] == #[trigger] manager.workspaces[k]
            &&& index >= manager.workspaces.len() ==> chosen.active == manager.active
        }),
{
}

/// Making one workspace active after another leaves the last one active.
pub proof fn lemma_last_one_made_active_counts(manager: ManagerView, first: usize, second: usize)
    requires
        second < manager.workspaces.len(),
    ensures
        manager.with_active(first).with_active(second) == manager.with_active(second),
        manager.with_active(second).active == second,
{
}

/// A tab that is added stands at the end of the active workspace, whose name and other
/// tabs stay. It is selected exactly if it is the only one; otherwise the selection
/// stays. No other workspace changes, and the same one is active.
pub proof fn lemma_added_tab_stands_last(manager: ManagerView, tab: usize, k: int)
    requires
        manager.wf(),
        0 <= k < manager.workspaces.len(),
    ensures
        ({
            let before = manager.workspaces[k];
            let after = manager.with_tab(tab).workspaces[k];
            &&& manager.with_tab(tab).active == manager.active
            &&& manager.with_tab(tab).workspaces.len() == manager.workspaces.len()
            &&& after.name == before.name
            &&& k == manager.active ==> after.tabs.len() == before.tabs.len() + 1
                && after.tabs.drop_last() == before.tabs && after.tabs.last() == tab
            &&& k == manager.active && before.tabs.len() == 0 ==> after.selected == tab
            &&& k == manager.active && before.tabs.len() > 0 ==> after.selected == before.selected
            &&& k != manager.active ==> after == before
        }),
{
    assert(manager.workspaces[k].tabs.push(tab).drop_last() =~= manager.workspaces[k].tabs);
}

/// To select a tab changes one selection: that of the first workspace that holds it. Where
/// none does, nothing changes. Names, tabs and the active workspace stay.
pub proof fn lemma_selecting_changes_one_selection(manager: ManagerView, tab: usize, k: int)
    requires
        0 <= k < manager.workspaces.len(),
    ensures
        ({
            let before = manager.workspaces[k];
            let after = manager.with_selection(tab).workspaces[k];
            let first = before.tabs.contains(tab) && forall|j: int|
                0 <= j < k ==> !(#[trigger] manager.workspaces[j]).tabs.contains(tab);
            &&& manager.with_selection(tab).active == manager.active
            &&& manager.with_selection(tab).workspaces.len() == manager.workspaces.len()
            &&& after.name == before.name
            &&& after.tabs == before.tabs
            &&& after.selected == if first {
                tab
            } else {
                before.selected
            }
        }),
{
    let first = manager.workspaces[k].tabs.contains(tab) && forall|j: int|
        0 <= j < k ==> !(#[trigger] manager.workspaces[j]).tabs.contains(tab);
    if first {
        assert(manager.is_home(tab, k));
    }
    if !manager.is_homeless(tab) {
        lemma_home_exists(manager, tab);
        let home = choose|j: int| manager.is_home(tab, j);
        if first {
            workspace::lemma_home_is_unique(manager, tab, home, k);
        } else {
            assert(home != k);
        }
    }
}

/// The home of a tab is the first workspace that lists it: it lists it, and every other
/// that does comes later. A tab has no home exactly if no workspace lists it.
pub proof fn lemma_home_is_the_first_that_lists_a_tab(manager: ManagerView, tab: usize, k: int)
    ensures
        manager.is_home(tab, k) ==> 0 <= k < manager.workspaces.len()
            && manager.workspaces[k].tabs.contains(tab),
        forall|j: int|
            manager.is_home(tab, k) && 0 <= j < manager.workspaces.len() && (
            #[trigger] manager.workspaces[j]).tabs.contains(tab) ==> k <= j,
        0 <= k < manager.workspaces.len() && manager.workspaces[k].tabs.contains(tab)
            ==> !manager.is_homeless(tab) && exists|home: int| home <= k && manager.is_home(tab, home),
        manager.is_homeless(tab) <==> forall|j: int|
            0 <= j < manager.workspaces.len() ==> !(#[trigger] manager.workspaces[j]).tabs.contains(
                tab,
            ),
{
    if 0 <= k < manager.workspaces.len() && manager.workspaces[k].tabs.contains(tab) {
        assert(!manager.is_homeless(tab));
        lemma_home_exists(manager, tab);
        let home = choose|j: int| manager.is_home(tab, j);
        assert(home <= k);
    }
}

/// The tab that a workspace shows is one of its tabs: the selected one if it is among
/// them, and the first otherwise. It shows one whenever it has one.
pub proof fn lemma_shown_tab_is_listed(view: WorkspaceView)
    ensures
        view.tabs.len() == 0 ==> view.tab_to_show() is None,
        view.tabs.len() > 0 ==> (view.tab_to_show() matches Some(tab) && view.tabs.contains(tab)),
        view.tabs.contains(view.selected) ==> view.tab_to_show() == Some(view.selected),
        view.tabs.len() > 0 && !view.tabs.contains(view.selected) ==> view.tab_to_show() == Some(
            view.tabs[0],
        ),
{
    if view.tabs.contains(view.selected) {
        let i = choose|i: int| 0 <= i < view.tabs.len() && view.tabs[i] == view.selected;
        assert(view.tabs.len() > 0);
    } else if view.tabs.len() > 0 {
        assert(view.tabs.contains(view.tabs[0]));
    }
}

/// A new workspace stands behind the others, is the active one, has no tab and its
/// selection at the beginning, and is called by the number of its place, counted from one. The others stay as they are.
pub proof fn lemma_new_workspace_is_named_by_its_place(manager: ManagerView)
    requires
        manager.workspaces.len() < usize::MAX,
    ensures
        ({
            let created = manager.with_workspace();
            let last = created.workspaces.last();
            &&& created.workspaces.drop_last() == manager.workspaces
            &&& created.active == created.workspaces.len() - 1
            &&& last.tabs.len() == 0
            &&& last.selected == 0
            &&& last.name.len() > 10
            &&& last.name.take(10) == "Workspace "@
            &&& text_laws::spelled_number(last.name.skip(10)) == created.workspaces.len()
            &&& last.name[10] != '0'
            &&& forall|i: int| 10 <= i < last.name.len() ==> text_laws::is_digit(
                #[trigger] last.name[i],
            )
        }),
{
    reveal_strlit("Workspace ");
    let created = manager.with_workspace();
    let name = created.workspaces.last().name;
    let digits = text::decimal_digits(manager.workspaces.len() + 1);
    text_laws::lemma_decimal_is_read_back(manager.workspaces.len() + 1);
    assert(created.workspaces.drop_last() =~= manager.workspaces);
    assert(name.take(10) =~= "Workspace "@);
    assert(name.skip(10) =~= digits);
    assert forall|i: int| 10 <= i < name.len() implies text_laws::is_digit(#[trigger] name[i]) by {
        assert(name[i] == digits[i - 10]);
    }
}

/// A state is restored exactly if it is of version one, has a workspace, has none without
/// tabs, and has no more than twenty-eight tabs in all.
pub proof fn lemma_what_is_restored(state: PersistedWorkspaceState)
    ensures
        state.is_restorable() <==> state.version == 1 && state.workspaces@.len() > 0 && (forall|
            k: int,
        |
            0 <= k < state.workspaces@.len() ==> (#[trigger] state.workspaces@[k]).tabs@.len() > 0)
            && persisted::all_tabs(state.workspaces@).len() <= 28,
{
    persisted::lemma_all_tabs_len(state.workspaces@);
}

/// The tabs of workspaces are those of the first ones, followed by those of the last one.
pub proof fn lemma_all_tabs_in_order(
    workspaces: Seq<PersistedWorkspace>,
    last: PersistedWorkspace,
)
    ensures
        persisted::all_tabs(workspaces.push(last)) == persisted::all_tabs(workspaces) + last.tabs@,
        persisted::all_tabs(Seq::empty()).len() == 0,
{
    assert(workspaces.push(last).drop_last() =~= workspaces);
}

/// Restored workspaces have the names and as many tabs as the persisted ones. Their tabs
/// are numbered through: the very first is the beginning, each other follows the one
/// before it, and the first of a workspace follows the last of the workspace before it.
/// The number of a tab is its place among all restored tabs. The persisted place is
/// selected and active, or the last where that lies beyond the end.
pub proof fn lemma_restored_tabs_are_numbered_through(
    state: PersistedWorkspaceState,
    k: int,
    i: int,
)
    requires
        state.is_restorable(),
        0 <= k < state.workspaces@.len(),
        0 <= i < state.workspaces@[k].tabs@.len(),
    ensures
        ({
            let persisted = state.workspaces@[k];
            let views = workspace::restored(state).workspaces;
            let view = views[k];
            let count = persisted.tabs@.len() as int;
            &&& views.len() == state.workspaces@.len()
            &&& view.name == persisted.name@
            &&& view.tabs.len() == count
            &&& k == 0 ==> view.tabs[0] == 0
            &&& k > 0 ==> views[k - 1].tabs.len() > 0 && view.tabs[0] == views[k
                - 1].tabs.last() + 1
            &&& i > 0 ==> view.tabs[i] == view.tabs[i - 1] + 1
            &&& view.tabs[i] < persisted::all_tabs(state.workspaces@).len()
            &&& persisted::all_tabs(state.workspaces@)[view.tabs[i] as int] == persisted.tabs@[i]
            &&& persisted.selected_tab < count ==> view.selected
                == view.tabs[persisted.selected_tab as int]
            &&& persisted.selected_tab >= count ==> view.selected == view.tabs.last()
            &&& state.active_workspace < views.len() ==> workspace::restored(state).active
                == state.active_workspace
            &&& state.active_workspace >= views.len() ==> workspace::restored(state).active
                == views.len() - 1
        }),
{
    let listed = state.workspaces@;
    let views = workspace::restored(state).workspaces;
    persisted::lemma_next_workspace(listed, k);
    persisted::lemma_total_grows(listed, k + 1);
    lemma_place_in_all_tabs(listed, k, i);
    if k == 0 {
        assert(listed.take(0) =~= Seq::empty());
    } else {
        persisted::lemma_next_workspace(listed, k - 1);
        persisted::lemma_total_grows(listed, k);
    }
}

/// A snapshot is of version one and tells which workspace is active. It has each
/// workspace in its place, under its name, and each tab in its place, as it was
/// described. It tells the first place at which the selected tab stands, or the beginning
/// where that is not listed.
pub proof fn lemma_snapshot_tells_everything<F: FnMut(usize) -> PersistedTab>(
    manager: ManagerView,
    tab: F,
    state: PersistedWorkspaceState,
    k: int,
)
    requires
        workspace::is_snapshot(manager, tab, state),
        0 <= k < manager.workspaces.len(),
    ensures
        ({
            let view = manager.workspaces[k];
            let persisted = state.workspaces@[k];
            &&& state.version == 1
            &&& state.active_workspace == manager.active
            &&& state.workspaces@.len() == manager.workspaces.len()
            &&& persisted.name@ == view.name
            &&& persisted.tabs@.len() == view.tabs.len()
            &&& forall|i: int|
                0 <= i < view.tabs.len() ==> call_ensures(
                    tab,
                    (view.tabs[i],),
                    #[trigger] persisted.tabs@[i],
                )
            &&& view.tabs.contains(view.selected) ==> persisted.selected_tab < view.tabs.len()
                && view.tabs[persisted.selected_tab as int] == view.selected && forall|i: int|
                0 <= i < persisted.selected_tab ==> view.tabs[i] != view.selected
            &&& !view.tabs.contains(view.selected) ==> persisted.selected_tab == 0
        }),
{
    let view = manager.workspaces[k];
    assert(workspace::is_workspace_snapshot(view, tab, state.workspaces@[k]));
    if view.tabs.contains(view.selected) {
        lemma_selected_position(view);
    }
}

} // verus!
