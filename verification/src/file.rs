//! Documents and their tokens: the token tree, the highlight vocabulary and
//! the open files.

pub mod manager;
pub mod parser;
pub mod token;
