# rioterm

Two parts of a terminal front end, verified with Verus:

- the workspaces that group the tabs of a window: adding, removing, moving and
  swapping tabs, taking snapshots of them and restoring them
  (`src/workspace.rs`, `src/persisted.rs`, `src/saving.rs`, and the properties
  that hold over several operations in `src/workspace_laws.rs`);
- the monitor that tells whether Codex, running below a terminal, is handling a
  prompt: the search among the processes (`src/process.rs`, `src/report.rs`), the
  transcripts (`src/transcript.rs`, `src/json.rs`) and the monitor itself
  (`src/activity.rs`, with its properties in `src/activity_laws.rs`).

The library does no input or output. `app/` reads and writes the files, lists the
processes and holds the width of the drawer.
