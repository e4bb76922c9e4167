use vstd::prelude::*;

use crate::directory::Directory;
use crate::file::File;
use crate::metadata::Metadata;
use crate::node::Node;

verus! {

/// An entry of a directory: a file or a directory.
pub enum Entry {
    File(File),
    Directory(Directory),
}

/// The mathematical value of an entry, down to its last descendant.
pub open spec fn entry_node(e: Entry) -> Node
    decreases e,
{
    match e {
        Entry::File(f) => f@,
        Entry::Directory(d) => Node::Directory {
            name: d.metadata.name@,
            entries: Seq::new(
                d.entries@.len(),
                |i: int|
                    if 0 <= i < d.entries@.len() {
                        entry_node(d.entries@[i])
                    } else {
                        Node::empty_file(Seq::empty())
                    },
            ),
        },
    }
}

impl View for Entry {
    type V = Node;

    open spec fn view(&self) -> Node {
        entry_node(*self)
    }
}

impl Entry {
    /// The entry's name.
    pub fn name(&self) -> (r: &[u8])
        ensures
            r@ == self@.name(),
    {
        match self {
            Entry::File(file) => file.metadata.name.as_slice(),
            Entry::Directory(directory) => directory.metadata.name.as_slice(),
        }
    }

    /// The entry's metadata.
    pub fn metadata(&self) -> (r: &Metadata)
        ensures
            r.name@ == self@.name(),
            r == match self {
                Entry::File(file) => &file.metadata,
                Entry::Directory(directory) => &directory.metadata,
            },
    {
        match self {
            Entry::File(file) => &file.metadata,
            Entry::Directory(directory) => &directory.metadata,
        }
    }

    /// Whether this entry is a directory.
    pub fn is_directory(&self) -> (r: bool)
        ensures
            r == self@ is Directory,
    {
        match self {
            Entry::File(_) => false,
            Entry::Directory(_) => true,
        }
    }

    /// Whether this entry is a file.
    pub fn is_file(&self) -> (r: bool)
        ensures
            r == self@ is File,
    {
        match self {
            Entry::File(_) => true,
            Entry::Directory(_) => false,
        }
    }

    /// Gives the entry another name; nothing else changes.
    pub fn rename(&mut self, name: Vec<u8>)
        ensures
            final(self)@ == old(self)@.renamed(name@),
    {
        match self {
            Entry::File(file) => file.metadata.name = name,
            Entry::Directory(directory) => directory.metadata.name = name,
        }
        proof {
            if self@ is Directory {
                assert(self@->entries =~= old(self)@->entries);
            }
        }
    }
}

} // verus!

verus! {

/// A shared view of what stands at a path: a file, or a directory (the root among them).
pub enum Borrowed<'a> {
    File(&'a File),
    Directory(&'a Directory),
}

impl<'a> View for Borrowed<'a> {
    type V = Node;

    open spec fn view(&self) -> Node {
        match self {
            Borrowed::File(f) => f@,
            Borrowed::Directory(d) => d@,
        }
    }
}

impl<'a> Borrowed<'a> {
    /// A view of an entry.
    pub fn from_entry(entry: &'a Entry) -> (r: Self)
        ensures
            r@ == entry@,
    {
        match entry {
            Entry::File(f) => Borrowed::File(f),
            Entry::Directory(d) => Borrowed::Directory(d),
        }
    }

    /// The name of what is viewed.
    pub fn name(&self) -> (r: &'a [u8])
        ensures
            r@ == self@.name(),
    {
        match self {
            Borrowed::File(f) => f.metadata.name.as_slice(),
            Borrowed::Directory(d) => d.metadata.name.as_slice(),
        }
    }

    /// Whether a directory is viewed.
    pub fn is_directory(&self) -> (r: bool)
        ensures
            r == self@ is Directory,
    {
        match self {
            Borrowed::File(_) => false,
            Borrowed::Directory(_) => true,
        }
    }

    /// Whether a file is viewed.
    pub fn is_file(&self) -> (r: bool)
        ensures
            r == self@ is File,
    {
        match self {
            Borrowed::File(_) => true,
            Borrowed::Directory(_) => false,
        }
    }
}

} // verus!
