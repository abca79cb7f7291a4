//! Reading arrays out of a message body.

pub mod array;
pub mod common;
pub mod deserialize;
pub mod dictionary;
pub mod file;
pub mod read_basic;
pub mod reader;
pub mod stream;
