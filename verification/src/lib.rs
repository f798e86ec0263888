//! A task list kept in a human-readable markdown file: the data model, its
//! operations, the markdown format, and the command and screen logic around them.
pub mod task;
pub mod list;
pub mod text;
pub mod markdown;
pub mod cli;
pub mod tui;
