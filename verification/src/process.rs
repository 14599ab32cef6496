//! Finding the Codex process below a terminal's shell.

use std::collections::HashMap;
use vstd::prelude::*;

use crate::text;

verus! {

broadcast use vstd::std_specs::hash::group_hash_axioms;

/// What is known of one running process.
pub struct ProcessInfo {
    pub parent_id: i32,
    /// The command name, in lower case.
    pub name: String,
    /// The command line, in lower case; read only where the name asks for it.
    pub arguments: Vec<String>,
    /// When the process started, in nanoseconds since the Unix epoch.
    pub started_at: i128,
    /// The working directory, where it was looked up and could be read.
    pub current_directory: Option<String>,
}

/// A running Codex process.
pub struct CodexProcess {
    pub id: i32,
    /// When the process started, in nanoseconds since the Unix epoch.
    pub started_at: i128,
    pub current_directory: String,
    pub arguments: Vec<String>,
}

/// Whether the command name is that of the native Codex program.
pub open spec fn is_native(info: ProcessInfo) -> bool {
    info.name@ == "codex"@ || "codex-"@.is_prefix_of(info.name@)
}

/// Whether a command line argument is the path of a Codex launcher.
pub open spec fn is_launcher_path(argument: Seq<char>) -> bool {
    match text::final_component(argument) {
        Some(name) => text::lower(name) == "codex"@ || text::lower(name) == "codex.js"@,
        None => false,
    }
}

/// Whether some command line argument is the path of a Codex launcher.
pub open spec fn is_launcher(info: ProcessInfo) -> bool {
    exists|i: int|
        0 <= i < info.arguments@.len() && is_launcher_path(#[trigger] info.arguments@[i]@)
}

/// Whether `root` is reached from `pid` by going from child to parent at most
/// `depth` times after the first step, through processes of the table.
pub open spec fn descends(
    table: Map<i32, ProcessInfo>,
    root: i32,
    pid: i32,
    depth: nat,
) -> bool
    decreases depth,
{
    table.contains_key(pid) && (table[pid].parent_id == root || (depth > 0 && descends(
        table,
        root,
        table[pid].parent_id,
        (depth - 1) as nat,
    )))
}

/// Whether `pid` runs somewhere below `root`.
pub open spec fn is_descendant(table: Map<i32, ProcessInfo>, root: i32, pid: i32) -> bool {
    exists|depth: nat| descends(table, root, pid, depth)
}

/// Whether `pid` is a native Codex program below `root` with a known directory.
pub open spec fn is_native_match(table: Map<i32, ProcessInfo>, root: i32, pid: i32) -> bool {
    &&& is_descendant(table, root, pid)
    &&& is_native(table[pid])
    &&& table[pid].current_directory is Some
}

/// Whether `pid` is a Codex launcher below `root` with a known directory.
pub open spec fn is_launcher_match(table: Map<i32, ProcessInfo>, root: i32, pid: i32) -> bool {
    &&& is_descendant(table, root, pid)
    &&& is_launcher(table[pid])
    &&& !is_native(table[pid])
    &&& table[pid].current_directory is Some
}

/// Whether `process` is what the table says of `pid`.
pub open spec fn describes(process: CodexProcess, pid: i32, info: ProcessInfo) -> bool {
    &&& process.id == pid
    &&& process.started_at == info.started_at
    &&& process.arguments@ == info.arguments@
    &&& info.current_directory matches Some(directory) && process.current_directory@ == directory@
}

/// Whether `upper` is come across within `depth` steps on the way from `lower` up to
/// `root`: a parent of `lower`, or a parent of that, before the root.
pub open spec fn leads_past(
    table: Map<i32, ProcessInfo>,
    root: i32,
    lower: i32,
    upper: i32,
    depth: nat,
) -> bool
    decreases depth,
{
    &&& depth > 0
    &&& table.contains_key(lower)
    &&& table[lower].parent_id != root
    &&& table[lower].parent_id == upper || leads_past(
        table,
        root,
        table[lower].parent_id,
        upper,
        (depth - 1) as nat,
    )
}

/// Whether `upper` stands between `root` and `lower`.
pub open spec fn is_between(
    table: Map<i32, ProcessInfo>,
    root: i32,
    upper: i32,
    lower: i32,
) -> bool {
    exists|depth: nat| leads_past(table, root, lower, upper, depth)
}

/// What a search below `root` may find: a native program where there is one, else
/// a launcher where there is one, else nothing. Of two programs, or two launchers, one
/// of which runs below the other, the upper one is found. Otherwise, which one of
/// several is found depends on the order in which the table is walked.
pub open spec fn is_codex_below(
    table: Map<i32, ProcessInfo>,
    root: i32,
    found: Option<CodexProcess>,
) -> bool {
    match found {
        Some(process) => {
            &&& root > 0
            &&& describes(process, process.id, table[process.id])
            &&& is_native_match(table, root, process.id) || (is_launcher_match(
                table,
                root,
                process.id,
            ) && forall|pid: i32| !is_native_match(table, root, pid))
            &&& forall|upper: i32| #[trigger]
                is_between(table, root, upper, process.id) ==> !is_native_match(table, root, upper)
                    && (is_launcher_match(table, root, process.id) ==> !is_launcher_match(
                    table,
                    root,
                    upper,
                ))
        },
        None => root <= 0 || forall|pid: i32|
            !is_native_match(table, root, pid) && !is_launcher_match(table, root, pid),
    }
}

/// Whether the command name is that of the native Codex program.
pub fn is_native_codex(info: &ProcessInfo) -> (native: bool)
    ensures
        native == is_native(*info),
{
    text::same_text(info.name.as_str(), "codex") || text::begins_with(info.name.as_str(), "codex-")
}

/// Whether some command line argument is the path of a Codex launcher.
pub fn is_codex_launcher(info: &ProcessInfo) -> (launcher: bool)
    ensures
        launcher == is_launcher(*info),
{
    let mut i: usize = 0;
    while i < info.arguments.len()
        invariant
            i <= info.arguments@.len(),
            forall|j: int| 0 <= j < i ==> !is_launcher_path(#[trigger] info.arguments@[j]@),
        decreases info.arguments@.len() - i,
    {
        if let Some(name) = text::file_name(info.arguments[i].as_str()) {
            if text::spells_ignoring_case(&name, "codex") || text::spells_ignoring_case(
                &name,
                "codex.js",
            ) {
                assert(is_launcher_path(info.arguments@[i as int]@));
                return true;
            }
        }
        i = i + 1;
    }
    false
}

/// Whether the working directory of this process has to be looked up before a
/// search: it is a Codex program or a launcher of one.
pub fn needs_directory(info: &ProcessInfo) -> (needed: bool)
    ensures
        needed == (is_native(*info) || is_launcher(*info)),
{
    is_native_codex(info) || is_codex_launcher(info)
}

/// The children that an index lists for a parent.
spec fn listed_children(index: Map<i32, Vec<i32>>, parent: i32) -> Seq<i32> {
    if index.contains_key(parent) {
        index[parent]@
    } else {
        Seq::empty()
    }
}

/// Whether the index lists every process of the table in `known`, once, under its
/// parent, and nothing else.
spec fn indexes(
    index: Map<i32, Vec<i32>>,
    table: Map<i32, ProcessInfo>,
    known: Set<i32>,
) -> bool {
    &&& forall|parent: i32| (#[trigger] listed_children(index, parent)).no_duplicates()
    &&& forall|parent: i32, child: i32| #[trigger]
        listed_children(index, parent).contains(child) <==> known.contains(child)
            && table[child].parent_id == parent
}

/// Lists the processes of a table under their parents.
fn children_by_parent(processes: &HashMap<i32, ProcessInfo>) -> (index: HashMap<i32, Vec<i32>>)
    ensures
        indexes(index@, processes@, processes@.dom()),
{
    let mut index: HashMap<i32, Vec<i32>> = HashMap::new();
    let ghost mut known: Set<i32> = Set::empty();
    for (pid, info) in it: processes.iter()
        invariant
            indexes(index@, processes@, known),
            it.seq() == vstd::std_specs::iter::IteratorSpec::remaining(&processes.iter()),
            it.seq().no_duplicates(),
            known == Set::new(
                |child: i32| exists|j: int| 0 <= j < it.index() && *(#[trigger] it.seq()[j]).0 == child,
            ),
    {
        let ghost before = index@;
        let ghost position = it.index();
        let ghost listed = listed_children(before, info.parent_id);
        proof {
            assert(it.seq()[position] == (pid, info));
            assert(processes@.contains_key(*it.seq()[position].0));
            if known.contains(*pid) {
                let j = choose|j: int|
                    0 <= j < position && *(#[trigger] it.seq()[j]).0 == *pid;
                assert(processes@[*it.seq()[j].0] == *it.seq()[j].1);
                assert(it.seq()[j] == it.seq()[position]);
            }
        }
        index.entry(info.parent_id).or_insert(Vec::new()).push(*pid);
        proof {
            let after = index@;
            assert(listed_children(after, info.parent_id) =~= listed.push(*pid));
            assert forall|parent: i32| (#[trigger] listed_children(after, parent)).no_duplicates() by {
                assert(listed_children(before, parent).no_duplicates());
                assert(!listed_children(before, info.parent_id).contains(*pid));
            }
            let grown = known.insert(*pid);
            assert forall|parent: i32, child: i32| #[trigger]
                listed_children(after, parent).contains(child) <==> grown.contains(child)
                    && processes@[child].parent_id == parent by {
                assert(listed_children(before, parent).contains(child) <==> known.contains(child)
                    && processes@[child].parent_id == parent);
                if parent == info.parent_id {
                    vstd::seq_lib::lemma_seq_contains_after_push(listed, *pid, child);
                    if listed.contains(child) {
                        let j = choose|j: int| 0 <= j < listed.len() && listed[j] == child;
                        assert(listed.push(*pid)[j] == child);
                    }
                    assert(listed.push(*pid)[listed.len() as int] == *pid);
                }
            }
            known = grown;
            assert(known =~= Set::new(
                |child: i32|
                    exists|j: int|
                        0 <= j < position + 1 && *(#[trigger] it.seq()[j]).0 == child,
            ));
        }
    }
    proof {
        let all = vstd::std_specs::iter::IteratorSpec::remaining(&processes.iter());
        assert forall|child: i32| known.contains(child) <==> processes@.dom().contains(child) by {
            if processes@.contains_key(child) {
                assert(all.contains((&child, &processes@[child])));
                let j = choose|j: int| 0 <= j < all.len() && all[j] == (&child, &processes@[child]);
                assert(*all[j].0 == child);
            }
            if known.contains(child) {
                let j = choose|j: int| 0 <= j < all.len() && *(#[trigger] all[j]).0 == child;
                assert(processes@.contains_key(*all[j].0));
            }
        }
        assert(known =~= processes@.dom());
    }
    index
}

/// Whether a search has come across `pid`: it was looked at or waits to be.
spec fn reached(seen: Set<i32>, pending: Seq<i32>, pid: i32) -> bool {
    seen.contains(pid) || pending.contains(pid)
}

/// Whether all children of the root, and of every other process that was looked at,
/// have been come across.
spec fn covers_children(
    table: Map<i32, ProcessInfo>,
    root: i32,
    seen: Set<i32>,
    pending: Seq<i32>,
) -> bool {
    forall|child: i32| #[trigger]
        table.contains_key(child) && (table[child].parent_id == root || seen.contains(
            table[child].parent_id,
        )) ==> reached(seen, pending, child)
}

/// Whether what a search has come across hangs together: no process twice, all of
/// them below the root, and each one's parent is the root or was looked at before.
spec fn hangs_together(
    table: Map<i32, ProcessInfo>,
    root: i32,
    seen: Set<i32>,
    pending: Seq<i32>,
) -> bool {
    &&& pending.no_duplicates()
    &&& forall|pid: i32| #[trigger] pending.contains(pid) ==> !seen.contains(pid)
    &&& forall|pid: i32| #[trigger]
        reached(seen, pending, pid) ==> is_descendant(table, root, pid) && (table[pid].parent_id
            == root || seen.contains(table[pid].parent_id))
}

/// Once nothing waits, every process below the root was looked at.
proof fn lemma_search_is_complete(
    table: Map<i32, ProcessInfo>,
    root: i32,
    seen: Set<i32>,
    pid: i32,
    depth: nat,
)
    requires
        covers_children(table, root, seen, Seq::empty()),
        descends(table, root, pid, depth),
    ensures
        seen.contains(pid),
    decreases depth,
{
    assert(table.contains_key(pid));
    if table[pid].parent_id != root {
        lemma_search_is_complete(table, root, seen, table[pid].parent_id, (depth - 1) as nat);
    }
    assert(reached(seen, Seq::empty(), pid));
}

/// Whatever stands between the root and a process that was come across was looked at.
proof fn lemma_upper_was_seen(
    table: Map<i32, ProcessInfo>,
    root: i32,
    seen: Set<i32>,
    pending: Seq<i32>,
    lower: i32,
    upper: i32,
    depth: nat,
)
    requires
        hangs_together(table, root, seen, pending),
        reached(seen, pending, lower),
        leads_past(table, root, lower, upper, depth),
    ensures
        seen.contains(upper),
    decreases depth,
{
    let parent = table[lower].parent_id;
    assert(reached(seen, pending, parent));
    if parent != upper {
        lemma_upper_was_seen(table, root, seen, pending, parent, upper, (depth - 1) as nat);
    }
}

/// A child of a process below the root is below the root.
proof fn lemma_child_descends(table: Map<i32, ProcessInfo>, root: i32, pid: i32, child: i32)
    requires
        is_descendant(table, root, pid),
        table.contains_key(child),
        table[child].parent_id == pid,
    ensures
        is_descendant(table, root, child),
{
    let depth = choose|depth: nat| descends(table, root, pid, depth);
    assert(descends(table, root, child, depth + 1));
}

/// Looks at the waiting process `pid` and puts its listed children in its place.
proof fn lemma_step_of_search(
    table: Map<i32, ProcessInfo>,
    root: i32,
    seen: Set<i32>,
    pending: Seq<i32>,
    children: Seq<i32>,
)
    requires
        pending.len() > 0,
        hangs_together(table, root, seen, pending),
        covers_children(table, root, seen, pending),
        children.no_duplicates(),
        pending.last() == root ==> children.len() == 0,
        pending.last() != root ==> forall|child: i32| #[trigger]
            children.contains(child) <==> table.contains_key(child) && table[child].parent_id
                == pending.last(),
    ensures
        hangs_together(table, root, seen.insert(pending.last()), pending.drop_last() + children),
        covers_children(table, root, seen.insert(pending.last()), pending.drop_last() + children),
        !seen.contains(pending.last()),
        is_descendant(table, root, pending.last()),
{
    let pid = pending.last();
    let rest = pending.drop_last();
    let seen_after = seen.insert(pid);
    let pending_after = rest + children;
    assert(pending[pending.len() - 1] == pid);
    assert(pending.contains(pid));
    assert(reached(seen, pending, pid));
    assert forall|other: i32| rest.contains(other) implies pending.contains(other) && other
        != pid by {
        let j = choose|j: int| 0 <= j < rest.len() && rest[j] == other;
        assert(pending[j] == other);
    }
    assert forall|other: i32| pending.contains(other) && other != pid implies rest.contains(
        other,
    ) by {
        let j = choose|j: int| 0 <= j < pending.len() && pending[j] == other;
        assert(rest[j] == other);
    }
    assert forall|child: i32| children.contains(child) implies !reached(seen, pending, child)
        && child != pid by {
        if child == pid || reached(seen, pending, child) {
            assert(reached(seen, pending, child));
            assert(table[child].parent_id == pid);
        }
    }
    assert forall|other: i32| #[trigger] pending_after.contains(other) <==> rest.contains(other)
        || children.contains(other) by {
        if rest.contains(other) {
            let j = choose|j: int| 0 <= j < rest.len() && rest[j] == other;
            assert(pending_after[j] == other);
        }
        if children.contains(other) {
            let j = choose|j: int| 0 <= j < children.len() && children[j] == other;
            assert(pending_after[rest.len() + j] == other);
        }
        if pending_after.contains(other) {
            let j = choose|j: int| 0 <= j < pending_after.len() && pending_after[j] == other;
            if j < rest.len() {
                assert(rest[j] == other);
            } else {
                assert(children[j - rest.len()] == other);
            }
        }
    }
    assert(pending_after.no_duplicates()) by {
        assert forall|i: int, j: int|
            0 <= i < j < pending_after.len() implies pending_after[i] != pending_after[j] by {
            if j < rest.len() {
                assert(pending[i] != pending[j]);
            } else if i < rest.len() {
                assert(rest.contains(rest[i]));
                assert(children.contains(children[j - rest.len()]));
            }
        }
    }
    assert forall|other: i32| #[trigger] reached(
        seen_after,
        pending_after,
        other,
    ) implies is_descendant(table, root, other) && (table[other].parent_id == root
        || seen_after.contains(table[other].parent_id)) by {
        if children.contains(other) {
            lemma_child_descends(table, root, pid, other);
        } else {
            assert(reached(seen, pending, other));
        }
    }
    assert forall|child: i32| #[trigger]
        table.contains_key(child) && (table[child].parent_id == root || seen_after.contains(
            table[child].parent_id,
        )) implies reached(seen_after, pending_after, child) by {
        if table[child].parent_id == root || seen.contains(table[child].parent_id) {
            assert(reached(seen, pending, child));
        } else {
            assert(children.contains(child));
        }
    }
}

/// The Codex process that a process of the table is, if it is known where it runs.
fn match_process(pid: i32, info: &ProcessInfo) -> (process: Option<CodexProcess>)
    ensures
        match process {
            Some(found) => describes(found, pid, *info),
            None => info.current_directory is None,
        },
{
    match &info.current_directory {
        Some(directory) => {
            let arguments = info.arguments.clone();
            assert(arguments@ =~= info.arguments@);
            Some(
                CodexProcess {
                    id: pid,
                    started_at: info.started_at,
                    current_directory: directory.clone(),
                    arguments,
                },
            )
        },
        None => None,
    }
}

/// Searches the processes below `root_pid` for Codex. A native program wins over a
/// launcher, an upper process wins over one below it, and a process whose directory is
/// unknown is passed over.
pub fn codex_process(root_pid: i32, processes: &HashMap<i32, ProcessInfo>) -> (found: Option<
    CodexProcess,
>)
    ensures
        is_codex_below(processes@, root_pid, found),
{
    if root_pid <= 0 {
        return None;
    }
    let mut children = children_by_parent(processes);
    let ghost full = children@;
    let mut pending: Vec<i32> = match children.remove(&root_pid) {
        Some(first) => first,
        None => Vec::new(),
    };
    let mut launcher_match: Option<CodexProcess> = None;
    let ghost mut seen: Set<i32> = Set::empty();
    proof {
        assert(pending@ =~= listed_children(full, root_pid));
        assert forall|pid: i32| #[trigger] reached(seen, pending@, pid) implies is_descendant(
            processes@,
            root_pid,
            pid,
        ) && processes@[pid].parent_id == root_pid by {
            assert(listed_children(full, root_pid).contains(pid));
            assert(descends(processes@, root_pid, pid, 0));
        }
        assert forall|child: i32| #[trigger]
            processes@.contains_key(child) && processes@[child].parent_id
                == root_pid implies reached(seen, pending@, child) by {
            assert(listed_children(full, root_pid).contains(child));
        }
    }
    while pending.len() > 0
        invariant
            root_pid > 0,
            indexes(full, processes@, processes@.dom()),
            children@ == full.remove(root_pid),
            hangs_together(processes@, root_pid, seen, pending@),
            covers_children(processes@, root_pid, seen, pending@),
            seen.subset_of(processes@.dom()),
            forall|pid: i32| #[trigger]
                seen.contains(pid) ==> !is_native_match(processes@, root_pid, pid) && (
                launcher_match is None ==> !is_launcher_match(processes@, root_pid, pid)),
            launcher_match matches Some(process) ==> describes(
                process,
                process.id,
                processes@[process.id],
            ) && is_launcher_match(processes@, root_pid, process.id) && forall|upper: i32| #[trigger]
                is_between(processes@, root_pid, upper, process.id) ==> !is_launcher_match(
                    processes@,
                    root_pid,
                    upper,
                ),
        decreases processes@.dom().len() - seen.len(),
    {
        let ghost pending_before = pending@;
        let ghost seen_before = seen;
        let pid = match pending.pop() {
            Some(last) => last,
            None => return launcher_match,
        };
        let ghost below = if pid == root_pid {
            Seq::empty()
        } else {
            listed_children(full, pid)
        };
        proof {
            assert forall|child: i32| pid != root_pid implies #[trigger] below.contains(child)
                == (processes@.contains_key(child) && processes@[child].parent_id == pid) by {
                assert(listed_children(full, pid).contains(child) <==> processes@.dom().contains(
                    child,
                ) && processes@[child].parent_id == pid);
            }
            lemma_step_of_search(processes@, root_pid, seen_before, pending_before, below);
            let depth = choose|depth: nat| descends(processes@, root_pid, pid, depth);
            assert(processes@.contains_key(pid));
            seen = seen_before.insert(pid);
            assert(seen.subset_of(processes@.dom()));
            vstd::set_lib::lemma_len_subset(seen, processes@.dom());
            assert forall|upper: i32| #[trigger]
                is_between(processes@, root_pid, upper, pid) implies seen_before.contains(upper) by {
                let steps = choose|steps: nat|
                    leads_past(processes@, root_pid, pid, upper, steps);
                assert(pending_before[pending_before.len() - 1] == pid);
                assert(reached(seen_before, pending_before, pid));
                lemma_upper_was_seen(
                    processes@,
                    root_pid,
                    seen_before,
                    pending_before,
                    pid,
                    upper,
                    steps,
                );
            }
        }
        if let Some(info) = processes.get(&pid) {
            let native = is_native_codex(info);
            let launcher = is_codex_launcher(info);
            if native || launcher {
                if let Some(process) = match_process(pid, info) {
                    if native {
                        assert(is_native_match(processes@, root_pid, pid));
                        return Some(process);
                    }
                    if launcher_match.is_none() {
                        launcher_match = Some(process);
                    }
                }
            }
        }
        if let Some(listed) = children.get(&pid) {
            let mut more = listed.clone();
            assert(more@ =~= listed@);
            pending.append(&mut more);
        }
        assert(pending@ =~= pending_before.drop_last() + below);
    }
    proof {
        assert(pending@ =~= Seq::empty());
        assert forall|pid: i32| is_descendant(processes@, root_pid, pid) implies seen.contains(
            pid,
        ) by {
            let depth = choose|depth: nat| descends(processes@, root_pid, pid, depth);
            lemma_search_is_complete(processes@, root_pid, seen, pid, depth);
        }
        assert forall|pid: i32| !is_native_match(processes@, root_pid, pid) by {
            if is_native_match(processes@, root_pid, pid) {
                assert(seen.contains(pid));
            }
        }
        assert forall|pid: i32|
            launcher_match is None implies !is_launcher_match(processes@, root_pid, pid) by {
            if is_launcher_match(processes@, root_pid, pid) {
                assert(seen.contains(pid));
            }
        }
    }
    launcher_match
}

} // verus!
