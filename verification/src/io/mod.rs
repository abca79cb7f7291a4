//! Reading and writing arrays.

pub mod ipc;
pub mod print;
