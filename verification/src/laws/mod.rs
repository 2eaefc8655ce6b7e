//! What the operations of the library promise, whatever they are given: each
//! law speaks of what goes in and what comes out.

pub mod assistant;
pub mod files;
pub mod find;
pub mod geometry;
pub mod git;
pub mod input;
pub mod language;
pub mod logging;
pub mod notebook;
pub mod outline;
pub mod overlay;
pub mod paint;
pub mod paths;
pub mod pickers;
pub mod prediction;
pub mod probe;
pub mod project_search;
pub mod remote;
pub mod render;
pub mod replace;
pub mod scene;
pub mod terminal;
pub mod text;
pub mod tree;
