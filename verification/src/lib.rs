//! Workspaces of terminal tabs, and the activity of the coding agent that runs
//! below a terminal.

pub mod activity;
pub mod activity_laws;
pub mod json;
pub mod persisted;
pub mod process;
pub mod process_laws;
pub mod report;
pub mod report_laws;
pub mod saving;
pub mod split;
pub mod text;
pub mod text_laws;
pub mod transcript;
pub mod transcript_laws;
pub mod workspace;
pub mod workspace_laws;
