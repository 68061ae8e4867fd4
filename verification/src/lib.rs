//! A small interactive shell: the line grammar, the built-in commands and the
//! bookkeeping of the shell's state, each with its contract.

pub mod builtins;
pub mod command;
pub mod feeder;
pub mod job;
pub mod pipeline;
pub mod script;
pub mod shell;
pub mod split;
pub mod text;
