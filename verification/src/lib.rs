//! Backend core of a code editor: the transport and correlation layer for
//! language servers, and the engine that decodes semantic tokens and merges
//! them with lexical highlighting into one token tree per document.

pub mod file;
pub mod lsp;
pub mod pattern;
pub mod text;
