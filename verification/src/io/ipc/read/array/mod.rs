//! One reader and one skipper for each category of leaf type.

pub mod binary;
pub mod boolean;
pub mod primitive;
