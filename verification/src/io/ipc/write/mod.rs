//! Writing arrays into a message body.

pub mod common;
pub mod dictionary;
pub mod file;
pub mod schema;
pub mod serialize;
pub mod stream;
