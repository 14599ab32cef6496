//! Saving the workspaces without ever leaving half a file behind.

use vstd::prelude::*;

verus! {

/// The directory of the state file, below a directory for local data.
pub const STATE_DIRECTORY: &'static str = "rio";

/// The name of the state file.
pub const STATE_FILE: &'static str = "workspaces.json";

/// The extension of the file that is written before it replaces the state file.
pub const TEMPORARY_EXTENSION: &'static str = "json.tmp";

/// The directory that the state is kept under: that for local data, else that for
/// data, else the current one.
pub fn state_base<P>(local: Option<P>, data: Option<P>, current: P) -> (base: P)
    ensures
        base == match (local, data) {
            (Some(directory), _) => directory,
            (None, Some(directory)) => directory,
            (None, None) => current,
        },
{
    match local {
        Some(directory) => directory,
        None => match data {
            Some(directory) => directory,
            None => current,
        },
    }
}

/// What to do next in order to save the workspaces.
#[derive(Clone, Copy, Debug, PartialEq, Eq, Structural)]
pub enum SaveStep {
    /// Turn the workspaces into bytes.
    Serialize,
    /// Find the directory of the state file.
    FindDirectory,
    /// Create that directory.
    CreateDirectory,
    /// Write the bytes to the temporary file.
    WriteTemporary,
    /// Put the temporary file in the place of the state file.
    ReplaceState,
    /// Remove the temporary file.
    RemoveTemporary,
    /// Nothing: the workspaces were saved, or they were not.
    Finished(bool),
}

/// The step that follows.
pub open spec fn step_after(step: SaveStep, succeeded: bool) -> SaveStep {
    match step {
        SaveStep::Serialize if succeeded => SaveStep::FindDirectory,
        SaveStep::FindDirectory if succeeded => SaveStep::CreateDirectory,
        SaveStep::CreateDirectory if succeeded => SaveStep::WriteTemporary,
        SaveStep::WriteTemporary if succeeded => SaveStep::ReplaceState,
        SaveStep::ReplaceState => if succeeded {
            SaveStep::Finished(true)
        } else {
            SaveStep::RemoveTemporary
        },
        SaveStep::Finished(saved) => SaveStep::Finished(saved),
        _ => SaveStep::Finished(false),
    }
}

/// The step that follows when `step` succeeded or failed.
pub fn next_step(step: SaveStep, succeeded: bool) -> (next: SaveStep)
    ensures
        next == step_after(step, succeeded),
{
    match step {
        SaveStep::Serialize => if succeeded {
            SaveStep::FindDirectory
        } else {
            SaveStep::Finished(false)
        },
        SaveStep::FindDirectory => if succeeded {
            SaveStep::CreateDirectory
        } else {
            SaveStep::Finished(false)
        },
        SaveStep::CreateDirectory => if succeeded {
            SaveStep::WriteTemporary
        } else {
            SaveStep::Finished(false)
        },
        SaveStep::WriteTemporary => if succeeded {
            SaveStep::ReplaceState
        } else {
            SaveStep::Finished(false)
        },
        SaveStep::ReplaceState => if succeeded {
            SaveStep::Finished(true)
        } else {
            SaveStep::RemoveTemporary
        },
        SaveStep::RemoveTemporary => SaveStep::Finished(false),
        SaveStep::Finished(saved) => SaveStep::Finished(saved),
    }
}

/// The step that is reached when the steps from `first` on come out like this.
pub open spec fn step_reached(first: SaveStep, outcomes: Seq<bool>) -> SaveStep
    decreases outcomes.len(),
{
    if outcomes.len() == 0 {
        first
    } else {
        step_after(step_reached(first, outcomes.drop_last()), outcomes.last())
    }
}

/// Whether all of the first `count` steps succeeded.
pub open spec fn all_succeeded(outcomes: Seq<bool>, count: int) -> bool {
    count <= outcomes.len() && forall|i: int| 0 <= i < count ==> outcomes[i]
}

/// Saving is a chain: a step is reached exactly if the steps before it succeeded one
/// by one. So the state file is replaced only by a file that was written whole, the
/// workspaces count as saved only once it was replaced, and the temporary file is
/// removed exactly if it could not take the state file's place.
pub proof fn lemma_saving_is_a_chain(outcomes: Seq<bool>)
    ensures
        ({
            let reached = step_reached(SaveStep::Serialize, outcomes);
            &&& reached == SaveStep::Serialize <==> outcomes.len() == 0
            &&& reached == SaveStep::FindDirectory <==> outcomes.len() == 1 && all_succeeded(
                outcomes,
                1,
            )
            &&& reached == SaveStep::CreateDirectory <==> outcomes.len() == 2 && all_succeeded(
                outcomes,
                2,
            )
            &&& reached == SaveStep::WriteTemporary <==> outcomes.len() == 3 && all_succeeded(
                outcomes,
                3,
            )
            &&& reached == SaveStep::ReplaceState <==> outcomes.len() == 4 && all_succeeded(
                outcomes,
                4,
            )
            &&& reached == SaveStep::RemoveTemporary <==> outcomes.len() == 5 && all_succeeded(
                outcomes,
                4,
            ) && !outcomes[4]
            &&& reached == SaveStep::Finished(true) <==> all_succeeded(outcomes, 5)
        }),
    decreases outcomes.len(),
{
    if outcomes.len() > 0 {
        let before = outcomes.drop_last();
        lemma_saving_is_a_chain(before);
        assert forall|i: int| 0 <= i < before.len() implies before[i] == outcomes[i] by {}
        assert(outcomes.last() == outcomes[outcomes.len() - 1]);
        assert forall|count: int| 0 <= count <= before.len() implies #[trigger] all_succeeded(
            before,
            count,
        ) == all_succeeded(outcomes, count) by {}
    }
}

/// Saving comes to an end: after six steps nothing is left to do.
pub proof fn lemma_saving_ends(outcomes: Seq<bool>)
    requires
        outcomes.len() >= 6,
    ensures
        step_reached(SaveStep::Serialize, outcomes) == SaveStep::Finished(
            all_succeeded(outcomes, 5),
        ),
{
    lemma_saving_is_a_chain(outcomes);
}

} // verus!
