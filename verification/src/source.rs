//! Files as they come from the file system.
use vstd::prelude::*;

verus! {

/// A file as it was read: the name it is known by, and its contents.
pub struct SourceFile {
    /// A tile's file name, without directories; a frame's path.
    pub name: String,
    /// The bytes of the file.
    pub contents: Vec<u8>,
}

} // verus!
