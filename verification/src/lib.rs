//! Reads a hierarchy of requirement documents into an in-memory model.
//!
//! Items (single requirements) are grouped into documents, and documents
//! are linked into one tree by the parent each of them names. Everything
//! here works on plain values: the caller walks the file system and parses
//! the files, and hands over what it found.

pub mod doorstop;
