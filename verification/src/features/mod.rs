//! What the editor offers beside editing: search, panels, pickers, language
//! servers, tasks, terminals, and sessions. Each feature decides what is shown
//! and what is asked of the services that do the work.

pub mod context;
pub mod spots;
pub mod buffer_search;
pub mod edit_prediction;
pub mod git_panel;
pub mod language;
pub mod outline_panel;
pub mod project_panel;
pub mod project_search;
pub mod quick_open;
pub mod sessions;
pub mod tasks;
pub mod terminal_panel;
pub mod theme_picker;
