//! Columnar arrays and their inter-process wire format: the recursive
//! per-type buffer codec, message framing, dictionary tables and the
//! stream and file containers, with a table printer for decoded chunks.

pub mod array;
pub mod bitmap;
pub mod chunk;
pub mod datatypes;
pub mod display;
pub mod error;
pub mod io;
pub mod validate;
