//! Files by the directory that they are in.

use vstd::prelude::*;

verus! {

/// A file in a directory. How the two are joined is the file system's business.
#[derive(Debug, Clone, PartialEq, Eq)]
pub struct FilePath {
    pub directory: String,
    pub name: String,
}

/// The contents of a `FilePath`.
pub struct PathView {
    pub directory: Seq<char>,
    pub name: Seq<char>,
}

impl View for FilePath {
    type V = PathView;

    open spec fn view(&self) -> PathView {
        PathView { directory: self.directory@, name: self.name@ }
    }
}

impl FilePath {
    /// A copy of the path.
    pub fn duplicate(&self) -> (r: FilePath)
        ensures
            r@ == self@,
    {
        FilePath { directory: self.directory.clone(), name: self.name.clone() }
    }
}

/// The contents of a path are its directory and its name.
pub proof fn law_path_contents(p: FilePath)
    ensures
        p@.directory == p.directory@,
        p@.name == p.name@,
{
}

}
