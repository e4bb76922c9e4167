use vstd::prelude::*;

use core::cmp::Ordering;

use crate::entry::{entry_node, Entry};
use crate::file::File;
use crate::metadata::Metadata;
use crate::node::{
    has_child, child_index, lemma_name_lt_asymmetric, lemma_name_lt_irreflexive, lemma_name_lt_total,
    lemma_put_child_at, lemma_put_child_wf, lemma_remove_child_wf, lemma_sorted_unique, name_lt,
    put_child, without_child, Node,
};
use crate::path::SEPARATOR;

verus! {

/// A directory: a name and its entries, kept in strictly ascending name order.
pub struct Directory {
    pub metadata: Metadata,
    pub entries: Vec<Entry>,
}

impl View for Directory {
    type V = Node;

    open spec fn view(&self) -> Node {
        entry_node(Entry::Directory(*self))
    }
}

/// Compares two names byte by byte.
pub fn compare_names(a: &[u8], b: &[u8]) -> (r: Ordering)
    ensures
        r == Ordering::Less <==> name_lt(a@, b@),
        r == Ordering::Equal <==> a@ == b@,
        r == Ordering::Greater <==> name_lt(b@, a@),
{
    proof {
        lemma_name_lt_irreflexive(a@);
        lemma_name_lt_irreflexive(b@);
        if name_lt(a@, b@) {
            lemma_name_lt_asymmetric(a@, b@);
        }
        if name_lt(b@, a@) {
            lemma_name_lt_asymmetric(b@, a@);
        }
    }
    let mut k: usize = 0;
    assert(a@.skip(0) =~= a@);
    assert(b@.skip(0) =~= b@);
    loop
        invariant
            0 <= k <= a@.len(),
            k <= b@.len(),
            a@.take(k as int) == b@.take(k as int),
            name_lt(a@, b@) == name_lt(a@.skip(k as int), b@.skip(k as int)),
            name_lt(b@, a@) == name_lt(b@.skip(k as int), a@.skip(k as int)),
            !name_lt(a@, a@),
            name_lt(a@, b@) ==> !name_lt(b@, a@),
            name_lt(b@, a@) ==> !name_lt(a@, b@),
        decreases a@.len() - k,
    {
        if k == a.len() {
            if k == b.len() {
                assert(a@ =~= a@.take(k as int));
                assert(b@ =~= b@.take(k as int));
                return Ordering::Equal;
            } else {
                return Ordering::Less;
            }
        } else if k == b.len() {
            return Ordering::Greater;
        } else if a[k] < b[k] {
            assert(a@.skip(k as int)[0] == a@[k as int]);
            assert(b@.skip(k as int)[0] == b@[k as int]);
            return Ordering::Less;
        } else if a[k] > b[k] {
            assert(a@.skip(k as int)[0] == a@[k as int]);
            assert(b@.skip(k as int)[0] == b@[k as int]);
            return Ordering::Greater;
        } else {
            assert(a@.skip(k as int).drop_first() =~= a@.skip(k + 1));
            assert(b@.skip(k as int).drop_first() =~= b@.skip(k + 1));
            assert(a@.take(k + 1) =~= a@.take(k as int).push(a@[k as int]));
            assert(b@.take(k + 1) =~= b@.take(k as int).push(b@[k as int]));
            k = k + 1;
        }
    }
}

impl Directory {
    /// Creates a new, empty directory.
    pub fn new(name: Vec<u8>) -> (r: Self)
        ensures
            r@ == Node::empty_directory(name@),
    {
        let r = Directory { metadata: Metadata::new(name), entries: Vec::new() };
        assert(r@->entries =~= Seq::<Node>::empty());
        r
    }

    /// Creates a root directory, named `/`.
    pub fn root() -> (r: Self)
        ensures
            r@ == Node::empty_directory(seq![SEPARATOR]),
    {
        let mut name: Vec<u8> = Vec::new();
        name.push(SEPARATOR);
        assert(name@ =~= seq![SEPARATOR]);
        Directory::new(name)
    }

    /// Where a child named `name` stands or would stand: the first position whose child is
    /// not named below `name`, and whether that child bears `name`.
    fn locate(&self, name: &[u8]) -> (r: (usize, bool))
        ensures
            r.0 <= self@->entries.len(),
            forall|j: int| 0 <= j < r.0 ==> name_lt(#[trigger] self@->entries[j].name(), name@),
            r.0 < self@->entries.len() ==> !name_lt(self@->entries[r.0 as int].name(), name@),
            r.1 <==> r.0 < self@->entries.len() && self@->entries[r.0 as int].name() == name@,
    {
        let mut k: usize = 0;
        while k < self.entries.len()
            invariant
                k <= self.entries@.len(),
                forall|j: int| 0 <= j < k ==> name_lt(#[trigger] self@->entries[j].name(), name@),
            decreases self.entries@.len() - k,
        {
            assert(self@->entries[k as int] == self.entries@[k as int]@);
            match compare_names(self.entries[k].name(), name) {
                Ordering::Less => {
                    k = k + 1;
                },
                Ordering::Equal => {
                    return (k, true);
                },
                Ordering::Greater => {
                    proof {
                        lemma_name_lt_asymmetric(name@, self@->entries[k as int].name());
                    }
                    return (k, false);
                },
            }
        }
        (k, false)
    }

    /// The position of the entry named `name`, if there is one.
    pub fn find(&self, name: &[u8]) -> (r: Option<usize>)
        requires
            self@.wf(),
        ensures
            r is Some <==> has_child(self@->entries, name@),
            (r matches Some(i) ==> i < self@->entries.len() && i == child_index(self@->entries, name@)),
    {
        let (k, found) = self.locate(name);
        if found {
            proof {
                lemma_sorted_unique(self@->entries, k as int);
            }
            Some(k)
        } else {
            proof {
                if has_child(self@->entries, name@) {
                    let j = child_index(self@->entries, name@);
                    if j < k {
                        lemma_name_lt_irreflexive(name@);
                    } else if j > k {
                        assert(name_lt(self@->entries[k as int].name(), self@->entries[j].name()));
                        lemma_name_lt_total(self@->entries[k as int].name(), name@);
                    }
                }
            }
            None
        }
    }

    /// Puts `entry` among the entries at its place in name order, in the place of an entry of
    /// the same name if there is one.
    pub fn put(&mut self, entry: Entry)
        requires
            old(self)@.wf(),
            entry@.wf(),
        ensures
            final(self)@ == (Node::Directory {
                name: old(self)@.name(),
                entries: put_child(old(self)@->entries, entry@),
            }),
            final(self)@.wf(),
    {
        let ghost es = self@->entries;
        let ghost c = entry@;
        let (k, found) = self.locate(entry.name());
        proof {
            lemma_put_child_at(es, c, k as int);
            lemma_put_child_wf(es, c, k as int);
        }
        if found {
            let _ = self.entries.remove(k);
        }
        self.entries.insert(k, entry);
        assert(self@->entries =~= put_child(es, c));
    }

    /// Takes the entry named `name` out, if there is one.
    pub fn take(&mut self, name: &[u8]) -> (r: Option<Entry>)
        requires
            old(self)@.wf(),
        ensures
            r is Some <==> has_child(old(self)@->entries, name@),
            (r matches Some(e) ==> e@ == old(self)@->entries[child_index(old(self)@->entries, name@)]),
            final(self)@ == (Node::Directory {
                name: old(self)@.name(),
                entries: without_child(old(self)@->entries, name@),
            }),
            final(self)@.wf(),
    {
        let ghost es = self@->entries;
        match self.find(name) {
            Some(i) => {
                let e = self.entries.remove(i);
                assert(self@->entries =~= es.remove(i as int));
                proof {
                    lemma_remove_child_wf(es, i as int);
                }
                Some(e)
            },
            None => {
                assert(self@->entries =~= es);
                None
            },
        }
    }

    /// The directory at position `i`, to be changed in place.
    pub fn child_directory_mut(&mut self, i: usize) -> (r: &mut Directory)
        requires
            i < old(self)@->entries.len(),
            old(self)@->entries[i as int] is Directory,
        ensures
            (*r)@ == old(self)@->entries[i as int],
            final(self)@ == (Node::Directory {
                name: old(self)@.name(),
                entries: old(self)@->entries.update(i as int, (*final(r))@),
            }),
    {
        assert(old(self)@->entries[i as int] == old(self).entries@[i as int]@);
        proof {
            lemma_update_view();
        }
        match &mut self.entries[i] {
            Entry::Directory(d) => d,
            Entry::File(_) => unreached(),
        }
    }

    /// The file at position `i`, to be changed in place.
    pub fn child_file_mut(&mut self, i: usize) -> (r: &mut File)
        requires
            i < old(self)@->entries.len(),
            old(self)@->entries[i as int] is File,
        ensures
            (*r)@ == old(self)@->entries[i as int],
            final(self)@ == (Node::Directory {
                name: old(self)@.name(),
                entries: old(self)@->entries.update(i as int, (*final(r))@),
            }),
    {
        assert(old(self)@->entries[i as int] == old(self).entries@[i as int]@);
        proof {
            lemma_update_file_view();
        }
        match &mut self.entries[i] {
            Entry::File(f) => f,
            Entry::Directory(_) => unreached(),
        }
    }
}

/// A directory whose entries are those of `x` with the file at `i` replaced has as its value
/// that of `x` with the child at `i` replaced.
proof fn lemma_update_file_view()
    ensures
        forall|x: Directory, y: Directory, i: int, f: File|
            0 <= i < x.entries@.len() && y.metadata == x.metadata && #[trigger] y.entries@
                == #[trigger] x.entries@.update(i, Entry::File(f)) ==> y@ == (Node::Directory {
                name: x@.name(),
                entries: x@->entries.update(i, f@),
            }),
{
    assert forall|x: Directory, y: Directory, i: int, f: File|
        0 <= i < x.entries@.len() && y.metadata == x.metadata && #[trigger] y.entries@
            == #[trigger] x.entries@.update(i, Entry::File(f)) implies y@ == (Node::Directory {
            name: x@.name(),
            entries: x@->entries.update(i, f@),
        }) by {
        assert(entry_node(Entry::File(f)) == f@);
        assert(y@->entries[i] == f@);
        assert(y@->entries =~= x@->entries.update(i, f@));
    }
}

/// A directory whose entries are those of `x` with the one at `i` replaced has as its value
/// that of `x` with the child at `i` replaced.
proof fn lemma_update_view()
    ensures
        forall|x: Directory, y: Directory, i: int, d: Directory|
            0 <= i < x.entries@.len() && y.metadata == x.metadata && #[trigger] y.entries@
                == #[trigger] x.entries@.update(i, Entry::Directory(d)) ==> y@ == (Node::Directory {
                name: x@.name(),
                entries: x@->entries.update(i, d@),
            }),
{
    assert forall|x: Directory, y: Directory, i: int, d: Directory|
        0 <= i < x.entries@.len() && y.metadata == x.metadata && #[trigger] y.entries@
            == #[trigger] x.entries@.update(i, Entry::Directory(d)) implies y@ == (Node::Directory {
            name: x@.name(),
            entries: x@->entries.update(i, d@),
        }) by {
        assert(y@->entries =~= x@->entries.update(i, d@));
    }
}

} // verus!
