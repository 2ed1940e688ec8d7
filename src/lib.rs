//! A small scripting engine for pointer automation: scripts of `pos`,
//! `move`, `mouse`, `sleep` and `loop-start` / `loop-end` lines are parsed
//! into a tree of instructions, and executing that tree yields the actions
//! to perform, in order.
pub mod instruct;
pub mod interpreter;
pub mod text;
