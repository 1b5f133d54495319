//! Paths in file systems, as far as idents look into them.
use vstd::prelude::*;

verus! {

/// A path in one of the file systems of the host.
#[derive(Debug, Hash)]
pub struct FileSystemPath {
    /// The number under which the host knows the file system.
    pub fs: u64,
    /// The path within the file system.
    pub path: String,
    /// The path as the host writes it out, together with its file system.
    pub text: String,
}

/// What a path is made of.
#[verifier::ext_equal]
pub struct PathView {
    pub fs: u64,
    pub path: Seq<char>,
    pub text: Seq<char>,
}

impl View for FileSystemPath {
    type V = PathView;

    open spec fn view(&self) -> PathView {
        PathView { fs: self.fs, path: self.path@, text: self.text@ }
    }
}

impl Clone for FileSystemPath {
    fn clone(&self) -> (r: Self)
        ensures
            r == *self,
    {
        FileSystemPath { fs: self.fs, path: self.path.clone(), text: self.text.clone() }
    }
}

impl PartialEq for FileSystemPath {
    fn eq(&self, other: &Self) -> (same: bool) {
        self.fs == other.fs && self.path == other.path && self.text == other.text
    }
}

impl vstd::std_specs::cmp::PartialEqSpecImpl for FileSystemPath {
    open spec fn obeys_eq_spec() -> bool {
        true
    }

    open spec fn eq_spec(&self, other: &Self) -> bool {
        self@ == other@
    }
}

impl Eq for FileSystemPath {

}

}
