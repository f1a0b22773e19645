//! The file node of the tree.

use vstd::prelude::*;

use super::node::Node;

verus! {

/// Represents a file in the remote filesystem.
///
/// A `File` carries only its name: the crawler never downloads contents.
#[derive(Clone, Debug)]
pub struct File {
    /// The name of the file.
    pub name: String,
}

impl View for File {
    type V = Seq<char>;

    open spec fn view(&self) -> Seq<char> {
        self.name@
    }
}

impl File {
    /// Creates a new file with the given name.
    pub fn new(name: String) -> (r: Self)
        ensures
            r@ == name@,
    {
        File { name }
    }
}

impl Node for File {
    open spec fn spec_name(&self) -> Seq<char> {
        self.name@
    }

    fn name(&self) -> (r: &str)
        ensures
            r@ == self.spec_name(),
    {
        self.name.as_str()
    }
}

} // verus!
