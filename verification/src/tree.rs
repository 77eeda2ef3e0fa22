//! What a folder holds, as it was read from the file system.
use vstd::prelude::*;
use crate::path::UnixPath;

verus! {

/// What reading a folder gave.
#[derive(Debug)]
pub enum Listing {
    /// The message of the error.
    Unreadable(String),
    /// What the folder holds, in the order in which it was read.
    Items(Vec<Item>),
}

/// What reading the next thing in a folder gave.
#[derive(Debug)]
pub enum Item {
    /// The message of the error.
    Broken(String),
    /// A file, and its canonical path or the message of the error that finding it gave.
    File(UnixPath, Result<UnixPath, String>),
    /// A folder.
    Folder(Listing),
    /// Anything else.
    Other,
}

/// What an input path leads to.
#[derive(Debug)]
pub enum Input {
    Missing,
    File,
    Folder(Listing),
    /// Neither a file nor a folder, and what reading it as a folder gave.
    Other(Listing),
}

} // verus!
