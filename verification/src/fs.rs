//! Where module sources come from.
use vstd::prelude::*;

verus! {

/// A source file as it was read.
#[derive(Debug)]
pub struct Module {
    pub name: String,
    pub content: String,
    /// The path the file was found at, which tells modules apart.
    pub absolute: String,
}

/// Reads module sources by path. The compiler is given one; tests give it
/// files held in memory.
pub trait FileSystem {
    /// The file at `path`, as this file system holds it. A file system
    /// that does not state it holds some file or none there.
    open spec fn spec_read(&self, path: Seq<char>) -> Option<Module> {
        arbitrary()
    }

    /// Reads the file at `path`.
    fn read(&self, path: &str) -> (r: Option<Module>)
        ensures
            r == self.spec_read(path@),
    ;
}

} // verus!
