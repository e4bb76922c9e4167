use vstd::prelude::*;

use crate::directory::Directory;
use crate::node::Node;
use crate::path::SEPARATOR;

verus! {

/// A filesystem: one root directory, which holds the whole tree.
pub struct Filesystem {
    pub root: Directory,
}

impl Filesystem {
    /// Creates a new filesystem, whose root is an empty directory named `/`.
    pub fn new() -> (r: Self)
        ensures
            r.root@ == Node::empty_directory(seq![SEPARATOR]),
            r.wf(),
    {
        Filesystem { root: Directory::root() }
    }

    /// Every directory of the tree keeps its entries in strictly ascending name order.
    pub open spec fn wf(&self) -> bool {
        self.root@.wf()
    }
}

impl Default for Filesystem {
    fn default() -> (r: Self)
        ensures
            r.root@ == Node::empty_directory(seq![SEPARATOR]),
            r.wf(),
    {
        Filesystem::new()
    }
}

} // verus!
