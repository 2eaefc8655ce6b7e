//! The logic of zec, a terminal editor: prompts, key mapping, panels,
//! rendering, search and replace, sessions, and the state behind them.

pub mod text;
pub mod order;
pub mod paths;
pub mod input;
pub mod prompt;
pub mod geometry;
pub mod paint;
pub mod render;
pub mod overlay;
pub mod outline_panel;
pub mod project_panel;
pub mod git_panel;
pub mod project_search;
pub mod inline_assistant;
pub mod remote_session;
pub mod json;
pub mod notebook;
pub mod logging;
pub mod features;
pub mod probe;
pub mod laws;
