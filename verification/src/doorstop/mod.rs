//! The model: level keys, items, documents and the document tree.

pub mod document;
pub mod document_tree;
pub mod file;
pub mod index;
pub mod level;
pub mod text;
