//! A backtracking virtual machine for "fancy" regular expressions.
//!
//! The machine runs a compiled instruction program against an input string
//! and reports the capture slots of the first match it finds. Backtracking
//! state is kept copy-on-write: slot writes are recorded in an undo log and
//! rewound when a backtrack frame is popped.
pub mod error;
pub mod utf8;
pub mod state;
pub mod vm;
