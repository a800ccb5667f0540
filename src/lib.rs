//! The session driver of an interactive shell: prompt rendering, the
//! history file, the interactive loop as a state machine, and the choice of
//! how the shell runs. Reading input, running commands and touching files
//! are left to the caller, which performs what the driver decides.

pub mod dispatch;
pub mod error;
pub mod history;
pub mod prompt;
pub mod repl;
