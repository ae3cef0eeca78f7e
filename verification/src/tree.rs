//! A directory tree as a value: what a scan reads of the file system.

use vstd::prelude::*;
use crate::Timestamp;

verus! {

/// What is found under one name.
#[derive(Debug)]
pub enum Node {
    /// A file, with its modification time where that could be read.
    File { modified: Option<Timestamp> },
    /// A directory and what it lists, in any order.
    Directory { entries: Vec<Entry> },
    /// A directory that could not be listed.
    Unreadable,
    /// Nothing: the name does not exist.
    Missing,
}

/// One name in a directory and what is found under it.
#[derive(Debug)]
pub struct Entry {
    pub name: String,
    pub node: Node,
}

/// The names of the entries, in the order of the listing.
pub open spec fn names(entries: Seq<Entry>) -> Seq<Seq<char>> {
    entries.map_values(|e: Entry| e.name@)
}

} // verus!
