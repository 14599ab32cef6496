//! What a search for Codex finds, told by the words and the parents of processes.

use vstd::prelude::*;

use crate::process;
use crate::process::{CodexProcess, ProcessInfo};
use crate::text;
use crate::text_laws;

verus! {

/// Whether a word is one that a launcher goes by.
pub open spec fn is_launcher_word(word: Seq<char>) -> bool {
    word == "codex"@ || word == "codex.js"@
}

/// Whether a word that names a launcher may be the name of a file.
proof fn lemma_launcher_word_is_a_name(name: Seq<char>)
    requires
        is_launcher_word(text::lower(name)),
    ensures
        !name.contains('/'),
        name.len() >= 5,
{
    reveal_strlit("codex");
    reveal_strlit("codex.js");
    let lowered = text::lower(name);
    assert(lowered.len() == name.len());
    assert forall|i: int| 0 <= i < name.len() implies name[i] != '/' by {
        assert(lowered[i] == text::lower_char(name[i]));
        assert(lowered[i] != '/');
    }
}

/// Where a launcher's path stands on the command line does not matter. Whatever
/// arguments come before and after it and whatever directory it names, an argument
/// whose file name is `codex` or `codex.js`, in any case, makes a launcher.
pub proof fn lemma_launcher_may_stand_anywhere(
    info: ProcessInfo,
    before: Seq<String>,
    argument: String,
    after: Seq<String>,
    directory: Seq<char>,
    name: Seq<char>,
)
    requires
        info.arguments@ == before.push(argument) + after,
        argument@ == directory + name,
        text_laws::is_directory_part(directory),
        is_launcher_word(text::lower(name)),
    ensures
        process::is_launcher(info),
{
    lemma_launcher_word_is_a_name(name);
    assert(name != seq!['.']) by {
        assert(seq!['.'].len() == 1);
    }
    assert(name != seq!['.', '.']) by {
        assert(seq!['.', '.'].len() == 2);
    }
    text_laws::lemma_name_below_a_directory(directory, name);
    assert(info.arguments@[before.len() as int] == argument);
    assert(process::is_launcher_path(info.arguments@[before.len() as int]@));
}

/// More arguments, before or after, leave a launcher's command line that of a launcher.
pub proof fn lemma_more_arguments_keep_a_launcher(
    info: ProcessInfo,
    longer: ProcessInfo,
    before: Seq<String>,
    after: Seq<String>,
)
    requires
        process::is_launcher(info),
        longer.arguments@ == before + info.arguments@ + after,
    ensures
        process::is_launcher(longer),
{
    let i = choose|i: int|
        0 <= i < info.arguments@.len() && process::is_launcher_path(
            #[trigger] info.arguments@[i]@,
        );
    assert(longer.arguments@[before.len() + i] == info.arguments@[i]);
}

/// Nothing but such an argument makes a launcher: one of the arguments of a launcher has
/// the file name `codex` or `codex.js`, in any case.
pub proof fn lemma_launcher_has_its_argument(info: ProcessInfo)
    requires
        process::is_launcher(info),
    ensures
        exists|i: int|
            #![trigger info.arguments@[i]]
            0 <= i < info.arguments@.len() && (text::final_component(
                info.arguments@[i]@,
            ) matches Some(name) && is_launcher_word(text::lower(name))),
{
    let i = choose|i: int|
        0 <= i < info.arguments@.len() && process::is_launcher_path(
            #[trigger] info.arguments@[i]@,
        );
    let argument = info.arguments@[i];
    assert(text::final_component(argument@) matches Some(name) && is_launcher_word(
        text::lower(name),
    ));
}

/// A process without arguments, or with none that has such a file name, is no launcher.
pub proof fn lemma_without_its_argument_no_launcher(info: ProcessInfo)
    requires
        forall|i: int|
            #![trigger info.arguments@[i]]
            0 <= i < info.arguments@.len() ==> (text::final_component(
                info.arguments@[i]@,
            ) matches Some(name) ==> !is_launcher_word(text::lower(name))),
    ensures
        !process::is_launcher(info),
{
}

/// The native program is called `codex`, or `codex-` and anything at all.
pub proof fn lemma_name_of_the_native_program(info: ProcessInfo, ending: Seq<char>)
    ensures
        info.name@ == "codex"@ ==> process::is_native(info),
        info.name@ == "codex-"@ + ending ==> process::is_native(info),
        process::is_native(info) ==> info.name@ == "codex"@ || (info.name@.len() >= 6
            && info.name@ == "codex-"@ + info.name@.skip(6)),
{
    reveal_strlit("codex-");
    let name = info.name@;
    if name == "codex-"@ + ending {
        assert("codex-"@ =~= name.subrange(0, "codex-"@.len() as int));
    }
    if process::is_native(info) && name != "codex"@ {
        assert("codex-"@.is_prefix_of(name));
        assert(name =~= "codex-"@ + name.skip(6));
    }
}

/// Whether processes of the table lead from `root` down: the first is a child of the
/// root, and each other is a child of the one before it.
pub open spec fn is_chain(table: Map<i32, ProcessInfo>, root: i32, chain: Seq<i32>) -> bool {
    &&& chain.len() > 0
    &&& forall|i: int| 0 <= i < chain.len() ==> table.contains_key(#[trigger] chain[i])
    &&& table[chain[0]].parent_id == root
    &&& forall|i: int, j: int|
        0 <= i < chain.len() && j == i + 1 && j < chain.len() ==> table[#[trigger] chain[j]].parent_id
            == #[trigger] chain[i]
}

/// Whether a process is the native program or a launcher, and it is known where it runs.
pub open spec fn is_codex(info: ProcessInfo) -> bool {
    &&& process::is_native(info) || process::is_launcher(info)
    &&& info.current_directory is Some
}

/// The beginning of a chain is a chain.
proof fn lemma_chain_ends_earlier(
    table: Map<i32, ProcessInfo>,
    root: i32,
    chain: Seq<i32>,
    count: int,
)
    requires
        is_chain(table, root, chain),
        0 < count <= chain.len(),
    ensures
        is_chain(table, root, chain.take(count)),
{
    let upper = chain.take(count);
    assert(upper[0] == chain[0]);
    assert forall|i: int| 0 <= i < upper.len() implies table.contains_key(#[trigger] upper[i]) by {
        assert(upper[i] == chain[i]);
    }
    assert forall|i: int, j: int|
        0 <= i < upper.len() && j == i + 1 && j < upper.len() implies table[
        #[trigger] upper[j]].parent_id == #[trigger] upper[i] by {
        assert(upper[i] == chain[i] && upper[j] == chain[j]);
    }
}

/// What a chain leads to is below the root.
proof fn lemma_chain_descends(table: Map<i32, ProcessInfo>, root: i32, chain: Seq<i32>)
    requires
        is_chain(table, root, chain),
    ensures
        process::descends(table, root, chain.last(), (chain.len() - 1) as nat),
    decreases chain.len(),
{
    let last = chain.len() - 1;
    assert(chain[last] == chain.last());
    assert(table.contains_key(chain[last]));
    if last > 0 {
        let upper = chain.drop_last();
        lemma_chain_ends_earlier(table, root, chain, last);
        assert(upper =~= chain.take(last));
        lemma_chain_descends(table, root, upper);
        assert(upper.last() == chain[last - 1]);
        assert(table[chain[last]].parent_id == chain[last - 1]);
    }
}

/// A chain leads to what is below the root.
proof fn lemma_chain_of_descendant(
    table: Map<i32, ProcessInfo>,
    root: i32,
    pid: i32,
    depth: nat,
) -> (chain: Seq<i32>)
    requires
        process::descends(table, root, pid, depth),
    ensures
        is_chain(table, root, chain),
        chain.last() == pid,
    decreases depth,
{
    if table[pid].parent_id == root {
        seq![pid]
    } else {
        let upper = lemma_chain_of_descendant(
            table,
            root,
            table[pid].parent_id,
            (depth - 1) as nat,
        );
        let chain = upper.push(pid);
        assert(chain[0] == upper[0]);
        assert forall|i: int| 0 <= i < chain.len() implies table.contains_key(
            #[trigger] chain[i],
        ) by {
            if i < upper.len() {
                assert(chain[i] == upper[i]);
            }
        }
        assert forall|i: int, j: int|
            0 <= i < chain.len() && j == i + 1 && j < chain.len() implies table[
            #[trigger] chain[j]].parent_id == #[trigger] chain[i] by {
            assert(chain[i] == upper[i]);
            if j < upper.len() {
                assert(chain[j] == upper[j]);
            }
        }
        chain
    }
}

/// A search finds Codex wherever it runs below the shell, however deep: where some chain
/// of children leads to a Codex process with a known directory, something is found. Where
/// that is the native program, a native program is found.
pub proof fn lemma_codex_below_is_found(
    table: Map<i32, ProcessInfo>,
    root: i32,
    chain: Seq<i32>,
    found: Option<CodexProcess>,
)
    requires
        root > 0,
        is_chain(table, root, chain),
        is_codex(table[chain.last()]),
        process::is_codex_below(table, root, found),
    ensures
        found is Some,
        process::is_native(table[chain.last()]) ==> process::is_native(table[found.unwrap().id]),
{
    lemma_chain_descends(table, root, chain);
    let pid = chain.last();
    assert(process::is_descendant(table, root, pid));
    if process::is_native(table[pid]) {
        assert(process::is_native_match(table, root, pid));
    } else {
        assert(process::is_launcher_match(table, root, pid));
    }
}

/// What a search finds runs below the shell: a chain of children leads to it. It is a
/// Codex process, and it is told of as the table tells of it. Below an id that is not
/// positive nothing is found.
pub proof fn lemma_found_runs_below(table: Map<i32, ProcessInfo>, root: i32, codex: CodexProcess)
    requires
        process::is_codex_below(table, root, Some(codex)),
    ensures
        root > 0,
        exists|chain: Seq<i32>| #[trigger] is_chain(table, root, chain) && chain.last() == codex.id,
        table.contains_key(codex.id),
        is_codex(table[codex.id]),
        codex.started_at == table[codex.id].started_at,
        codex.arguments@ == table[codex.id].arguments@,
        table[codex.id].current_directory matches Some(directory) && directory@
            == codex.current_directory@,
{
    let depth = choose|depth: nat| process::descends(table, root, codex.id, depth);
    let chain = lemma_chain_of_descendant(table, root, codex.id, depth);
    assert(table.contains_key(chain[chain.len() - 1]));
}

/// Of two programs, or two launchers, on one chain the upper one is found: on a chain
/// down to what was found, which does not come back to the root, no native program with
/// a known directory stands before it, and where a launcher was found, no launcher.
pub proof fn lemma_upper_one_is_found(
    table: Map<i32, ProcessInfo>,
    root: i32,
    chain: Seq<i32>,
    codex: CodexProcess,
    i: int,
)
    requires
        process::is_codex_below(table, root, Some(codex)),
        is_chain(table, root, chain),
        chain.last() == codex.id,
        !chain.drop_last().contains(root),
        0 <= i < chain.len() - 1,
    ensures
        !(process::is_native(table[chain[i]]) && table[chain[i]].current_directory is Some),
        !process::is_native(table[codex.id]) ==> !is_codex(table[chain[i]]),
{
    let last = chain.len() - 1;
    lemma_chain_leads_past(table, root, chain, i, last);
    assert(chain[last] == codex.id);
    assert(process::is_between(table, root, chain[i], codex.id));
    let upper = chain.take(i + 1);
    lemma_chain_ends_earlier(table, root, chain, i + 1);
    lemma_chain_descends(table, root, upper);
    assert(upper.last() == chain[i]);
    assert(process::is_descendant(table, root, chain[i]));
}

proof fn lemma_chain_leads_past(
    table: Map<i32, ProcessInfo>,
    root: i32,
    chain: Seq<i32>,
    i: int,
    j: int,
)
    requires
        is_chain(table, root, chain),
        !chain.drop_last().contains(root),
        0 <= i < j < chain.len(),
    ensures
        process::leads_past(table, root, chain[j], chain[i], (j - i) as nat),
    decreases j - i,
{
    assert(table.contains_key(chain[j]));
    assert(table[chain[j]].parent_id == chain[j - 1]);
    assert(chain.drop_last()[j - 1] == chain[j - 1]);
    if i < j - 1 {
        lemma_chain_leads_past(table, root, chain, i, j - 1);
    }
}

} // verus!
