//! What is asked of the entries of a directory walk.

use vstd::prelude::*;
use crate::doorstop::text::{has_prefix, has_suffix, same_text};

verus! {

/// An entry of a directory walk: what the walk says of one file or
/// directory.
#[derive(Debug)]
pub struct DirEntry {
    /// The path of the entry.
    pub path: String,
    /// The last component of the path, where it is valid Unicode.
    pub file_name: Option<String>,
    /// Whether the entry is a directory.
    pub is_dir: bool,
    /// Whether the entry is a regular file.
    pub is_file: bool,
}

/// Whether the entry is a directory whose name begins with a dot.
pub open spec fn hidden_dir(entry: DirEntry) -> bool {
    match entry.file_name {
        Some(name) => "."@.is_prefix_of(name@) && entry.is_dir,
        None => false,
    }
}

/// Whether the entry has the name of a descriptor.
pub open spec fn doorstop_config(entry: DirEntry) -> bool {
    match entry.file_name {
        Some(name) => name@ == ".doorstop.yml"@,
        None => false,
    }
}

/// Whether the entry is a regular file whose name begins with `prefix` and
/// ends in `.yml`.
pub open spec fn yml_with_prefix(entry: DirEntry, prefix: Seq<char>) -> bool {
    match entry.file_name {
        Some(name) => entry.is_file && prefix.is_prefix_of(name@) && ".yml"@.is_suffix_of(name@),
        None => false,
    }
}

/// The paths of the entries that have the name of a descriptor, in the
/// order of the entries.
pub open spec fn config_paths(entries: Seq<DirEntry>) -> Seq<Seq<char>>
    decreases entries.len(),
{
    if entries.len() == 0 {
        Seq::empty()
    } else if doorstop_config(entries.last()) {
        config_paths(entries.drop_last()).push(entries.last().path@)
    } else {
        config_paths(entries.drop_last())
    }
}

/// The paths of the entries that are item files of a document with the
/// given prefix, in the order of the entries.
pub open spec fn item_paths(entries: Seq<DirEntry>, prefix: Seq<char>) -> Seq<Seq<char>>
    decreases entries.len(),
{
    if entries.len() == 0 {
        Seq::empty()
    } else if yml_with_prefix(entries.last(), prefix) {
        item_paths(entries.drop_last(), prefix).push(entries.last().path@)
    } else {
        item_paths(entries.drop_last(), prefix)
    }
}

/// The paths as sequences of characters.
pub open spec fn path_views(paths: Seq<String>) -> Seq<Seq<char>> {
    paths.map_values(|path: String| path@)
}

/// Whether the entry is a hidden directory. A walk does not go into one.
pub fn is_hidden_dir(entry: &DirEntry) -> (hidden: bool)
    ensures
        hidden == hidden_dir(*entry),
{
    match &entry.file_name {
        Some(name) => has_prefix(name.as_str(), ".") && entry.is_dir,
        None => false,
    }
}

/// Whether the entry is a descriptor.
pub fn is_doorstop_config(entry: &DirEntry) -> (config: bool)
    ensures
        config == doorstop_config(*entry),
{
    match &entry.file_name {
        Some(name) => same_text(name.as_str(), ".doorstop.yml"),
        None => false,
    }
}

/// Whether the entry is an item file of a document with the given prefix.
pub fn is_yml_with_prefix(entry: &DirEntry, prefix: &str) -> (item_file: bool)
    ensures
        item_file == yml_with_prefix(*entry, prefix@),
{
    match &entry.file_name {
        Some(name) => entry.is_file && has_prefix(name.as_str(), prefix) && has_suffix(
            name.as_str(),
            ".yml",
        ),
        None => false,
    }
}

} // verus!
