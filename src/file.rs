use vstd::prelude::*;

use crate::metadata::Metadata;
use crate::node::Node;
use crate::path::append_bytes;

verus! {

/// A file: a name and a sequence of bytes.
pub struct File {
    pub metadata: Metadata,
    pub content: Vec<u8>,
}

impl View for File {
    type V = Node;

    open spec fn view(&self) -> Node {
        Node::File { name: self.metadata.name@, content: self.content@ }
    }
}

impl File {
    /// Creates a new, empty file.
    pub fn new(name: Vec<u8>) -> (r: Self)
        ensures
            r@ == Node::empty_file(name@),
    {
        File { metadata: Metadata::new(name), content: Vec::new() }
    }

    /// Appends `bytes` to the content.
    pub fn append(&mut self, bytes: &[u8])
        ensures
            final(self)@ == (Node::File { name: old(self)@.name(), content: old(self)@->content + bytes@ }),
    {
        append_bytes(&mut self.content, bytes);
    }
}

} // verus!
