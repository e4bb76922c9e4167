use vstd::prelude::*;

use vstd::string::StringSliceAdditionalSpecFns;

use crate::directory::Directory;
use crate::entry::{Borrowed, Entry};
use crate::error::{Error, Fault};
use crate::file::File;
use crate::filesystem::Filesystem;
use crate::walk::{answered, is_walk, walk_into, Walk};
use crate::node::{
    child_index, diverge, has_child, lemma_put_back, lemma_put_child_other, lemma_put_then_find,
    lemma_put_then_resolve, lemma_remove_child_wf, lemma_renamed_wf, lemma_replace_at_same,
    lemma_replace_at_twice, lemma_replace_at_wf, lemma_resolve_elsewhere, lemma_resolve_push,
    lemma_resolve_replace_at, lemma_resolve_wf, lemma_without_child_gone, name_lt, put_child,
    replace_at, resolve, with_entries, without_child, Node,
};
use crate::path::{
    clean, clean_components, copy_bytes, join_path, joined, render, render_names, views,
    SEPARATOR,
};

verus! {

/// The canonical names of `path` read against the directory `cwd`.
pub open spec fn canonical(cwd: Seq<u8>, path: Seq<u8>) -> Result<Seq<Seq<u8>>, Fault> {
    clean(joined(cwd, path))
}

/// What `path` leads to in `tree`: its canonical names and the node there.
pub open spec fn lookup(tree: Node, cwd: Seq<u8>, path: Seq<u8>) -> Result<(Seq<Seq<u8>>, Node), Fault> {
    match canonical(cwd, path) {
        Err(f) => Err(f),
        Ok(names) => match resolve(tree, names) {
            Err(f) => Err(f),
            Ok(n) => Ok((names, n)),
        },
    }
}

/// The names of the directory that holds, or would hold, `path`, and the name that it has
/// or would have there. The root has no parent; the parent must be a directory.
pub open spec fn parent_of(tree: Node, cwd: Seq<u8>, path: Seq<u8>) -> Result<(Seq<Seq<u8>>, Seq<u8>), Fault> {
    match canonical(cwd, path) {
        Err(f) => Err(f),
        Ok(names) => {
            if names.len() == 0 {
                Err(Fault::NoParent(render(names)))
            } else {
                let parent = names.drop_last();
                match resolve(tree, parent) {
                    Err(f) => Err(f),
                    Ok(n) => {
                        if n is Directory {
                            Ok((parent, names.last()))
                        } else {
                            Err(Fault::NotDirectory(render(parent)))
                        }
                    },
                }
            }
        },
    }
}

/// The tree after an empty directory (or an empty file) is made at `path`, where that name
/// is still free.
pub open spec fn create_outcome(tree: Node, cwd: Seq<u8>, path: Seq<u8>, directory: bool) -> Result<Node, Fault> {
    match parent_of(tree, cwd, path) {
        Err(f) => Err(f),
        Ok((parent, name)) => {
            let d = resolve(tree, parent)->Ok_0;
            let fresh = if directory {
                Node::empty_directory(name)
            } else {
                Node::empty_file(name)
            };
            if has_child(d->entries, name) {
                Err(Fault::Exists(name))
            } else {
                Ok(replace_at(tree, parent, with_entries(d, put_child(d->entries, fresh))))
            }
        },
    }
}

/// The current directory after a change to `path`: the canonical path of a directory.
pub open spec fn change_outcome(tree: Node, cwd: Seq<u8>, path: Seq<u8>) -> Result<Seq<u8>, Fault> {
    match lookup(tree, cwd, path) {
        Err(f) => Err(f),
        Ok((names, n)) => {
            if n is Directory {
                Ok(render(names))
            } else {
                Err(Fault::NotDirectory(render(names)))
            }
        },
    }
}

/// The entries of the directory at `path`.
pub open spec fn list_outcome(tree: Node, cwd: Seq<u8>, path: Seq<u8>) -> Result<Seq<Node>, Fault> {
    match lookup(tree, cwd, path) {
        Err(f) => Err(f),
        Ok((names, n)) => {
            if n is Directory {
                Ok(n->entries)
            } else {
                Err(Fault::NotDirectory(render(names)))
            }
        },
    }
}

/// The content of the file at `path`.
pub open spec fn read_outcome(tree: Node, cwd: Seq<u8>, path: Seq<u8>) -> Result<Seq<u8>, Fault> {
    match lookup(tree, cwd, path) {
        Err(f) => Err(f),
        Ok((names, n)) => {
            if n is File {
                Ok(n->content)
            } else {
                Err(Fault::NotFile(render(names)))
            }
        },
    }
}

/// The tree after the entry at `path` is deleted, with all it holds.
pub open spec fn remove_outcome(tree: Node, cwd: Seq<u8>, path: Seq<u8>) -> Result<Node, Fault> {
    match parent_of(tree, cwd, path) {
        Err(f) => Err(f),
        Ok((parent, name)) => {
            let d = resolve(tree, parent)->Ok_0;
            if !has_child(d->entries, name) {
                Err(Fault::NotExist(name))
            } else {
                Ok(replace_at(tree, parent, with_entries(d, without_child(d->entries, name))))
            }
        },
    }
}

/// The tree after `bytes` are appended to the file at `path`.
pub open spec fn write_outcome(tree: Node, cwd: Seq<u8>, path: Seq<u8>, bytes: Seq<u8>) -> Result<Node, Fault> {
    match lookup(tree, cwd, path) {
        Err(f) => Err(f),
        Ok((names, n)) => {
            if n is File {
                Ok(replace_at(tree, names, Node::File { name: n.name(), content: n->content + bytes }))
            } else {
                Err(Fault::NotFile(render(names)))
            }
        },
    }
}

/// The tree after the entry at `src` is moved to `dst`, under the last name of `dst`, in
/// the place of what stood there. `dst` is read in the tree from which `src` was taken out.
pub open spec fn move_outcome(tree: Node, cwd: Seq<u8>, src: Seq<u8>, dst: Seq<u8>) -> Result<Node, Fault> {
    match parent_of(tree, cwd, src) {
        Err(f) => Err(f),
        Ok((sp, sn)) => {
            let sd = resolve(tree, sp)->Ok_0;
            if !has_child(sd->entries, sn) {
                Err(Fault::NotExist(src))
            } else {
                let moved = sd->entries[child_index(sd->entries, sn)];
                let detached = replace_at(tree, sp, with_entries(sd, without_child(sd->entries, sn)));
                match parent_of(detached, cwd, dst) {
                    Err(f) => Err(f),
                    Ok((dp, dn)) => {
                        let dd = resolve(detached, dp)->Ok_0;
                        Ok(
                            replace_at(
                                detached,
                                dp,
                                with_entries(dd, put_child(dd->entries, moved.renamed(dn))),
                            ),
                        )
                    },
                }
            }
        },
    }
}

/// Whether an operation that changes the tree succeeded, and why not.
pub open spec fn status(r: Result<Node, Fault>) -> Result<(), Fault> {
    match r {
        Ok(_) => Ok(()),
        Err(f) => Err(f),
    }
}

/// The tree after an operation: the new one on success, the old one on failure.
pub open spec fn tree_after(old_tree: Node, r: Result<Node, Fault>) -> Node {
    match r {
        Ok(t) => t,
        Err(_) => old_tree,
    }
}

/// Creating, then looking up: after an empty directory (or an empty file) is made at `path`,
/// `path` leads to it, a file made so reads empty, and making anything at `path` a second
/// time fails with `Exists`, naming it.
pub proof fn create_then_lookup(tree: Node, cwd: Seq<u8>, path: Seq<u8>, directory: bool)
    requires
        tree.wf(),
        create_outcome(tree, cwd, path, directory) is Ok,
    ensures
        ({
            let t2 = create_outcome(tree, cwd, path, directory)->Ok_0;
            let names = canonical(cwd, path)->Ok_0;
            let fresh = if directory {
                Node::empty_directory(names.last())
            } else {
                Node::empty_file(names.last())
            };
            &&& names.len() > 0
            &&& t2.wf()
            &&& lookup(t2, cwd, path) == Ok::<(Seq<Seq<u8>>, Node), Fault>((names, fresh))
            &&& !directory ==> read_outcome(t2, cwd, path) == Ok::<Seq<u8>, Fault>(Seq::empty())
            &&& create_outcome(t2, cwd, path, true) == Err::<Node, Fault>(Fault::Exists(names.last()))
            &&& create_outcome(t2, cwd, path, false) == Err::<Node, Fault>(Fault::Exists(names.last()))
        }),
{
    let names = canonical(cwd, path)->Ok_0;
    let parent = names.drop_last();
    let name = names.last();
    let fresh = if directory {
        Node::empty_directory(name)
    } else {
        Node::empty_file(name)
    };
    let d = resolve(tree, parent)->Ok_0;
    lemma_resolve_wf(tree, parent);
    lemma_put_then_resolve(tree, parent, fresh);
    lemma_put_then_find(d->entries, fresh);
    assert(parent.push(name) =~= names);
}

/// Appending twice, then reading: after `x` and then `y` are written to a file, it holds
/// what it held before, followed by `x`, followed by `y`.
pub proof fn write_twice_then_read(tree: Node, cwd: Seq<u8>, path: Seq<u8>, x: Seq<u8>, y: Seq<u8>)
    requires
        tree.wf(),
        write_outcome(tree, cwd, path, x) is Ok,
    ensures
        ({
            let t1 = write_outcome(tree, cwd, path, x)->Ok_0;
            &&& read_outcome(tree, cwd, path) is Ok
            &&& t1.wf()
            &&& write_outcome(t1, cwd, path, y) is Ok
            &&& read_outcome(write_outcome(t1, cwd, path, y)->Ok_0, cwd, path) == Ok::<Seq<u8>, Fault>(
                read_outcome(tree, cwd, path)->Ok_0 + x + y,
            )
        }),
{
    let (names, f) = lookup(tree, cwd, path)->Ok_0;
    let f1 = Node::File { name: f.name(), content: f->content + x };
    lemma_replace_at_wf(tree, names, f1);
    lemma_resolve_replace_at(tree, names, f1);
    let t1 = replace_at(tree, names, f1);
    let f2 = Node::File { name: f1.name(), content: f1->content + y };
    lemma_resolve_replace_at(t1, names, f2);
}

/// Writing leaves other entries alone: after a write at `path`, every path that diverges from
/// it leads where it led, and a file there holds what it held.
pub proof fn write_leaves_others(tree: Node, cwd: Seq<u8>, path: Seq<u8>, bytes: Seq<u8>, other: Seq<u8>)
    requires
        tree.wf(),
        write_outcome(tree, cwd, path, bytes) is Ok,
        canonical(cwd, other) is Ok,
        diverge(canonical(cwd, path)->Ok_0, canonical(cwd, other)->Ok_0),
    ensures
        lookup(write_outcome(tree, cwd, path, bytes)->Ok_0, cwd, other) == lookup(tree, cwd, other),
        read_outcome(write_outcome(tree, cwd, path, bytes)->Ok_0, cwd, other) == read_outcome(
            tree,
            cwd,
            other,
        ),
{
    let (names, f) = lookup(tree, cwd, path)->Ok_0;
    let f1 = Node::File { name: f.name(), content: f->content + bytes };
    lemma_resolve_elsewhere(tree, names, canonical(cwd, other)->Ok_0, f1);
}

/// A move that fails changes nothing: the tree after it is the tree before it, so its source
/// still leads where it led.
pub proof fn failed_move_changes_nothing(tree: Node, cwd: Seq<u8>, src: Seq<u8>, dst: Seq<u8>)
    requires
        move_outcome(tree, cwd, src, dst) is Err,
    ensures
        tree_after(tree, move_outcome(tree, cwd, src, dst)) == tree,
        lookup(tree_after(tree, move_outcome(tree, cwd, src, dst)), cwd, src) == lookup(tree, cwd, src),
{
}

/// A move that succeeds puts what stood at `src`, under the last name of `dst` and with all
/// that it holds, at `dst`.
pub proof fn move_then_lookup(tree: Node, cwd: Seq<u8>, src: Seq<u8>, dst: Seq<u8>)
    requires
        tree.wf(),
        move_outcome(tree, cwd, src, dst) is Ok,
    ensures
        lookup(tree, cwd, src) is Ok,
        ({
            let t2 = move_outcome(tree, cwd, src, dst)->Ok_0;
            let names = canonical(cwd, dst)->Ok_0;
            &&& t2.wf()
            &&& lookup(t2, cwd, dst) == Ok::<(Seq<Seq<u8>>, Node), Fault>(
                (names, (lookup(tree, cwd, src)->Ok_0.1).renamed(names.last())),
            )
        }),
{
    let snames = canonical(cwd, src)->Ok_0;
    let (sp, sn) = parent_of(tree, cwd, src)->Ok_0;
    let sd = resolve(tree, sp)->Ok_0;
    lemma_resolve_wf(tree, sp);
    let ci = child_index(sd->entries, sn);
    let moved = sd->entries[ci];
    assert(0 <= ci < sd->entries.len());
    assert(moved.wf());
    assert(sp.push(sn) =~= snames);
    lemma_resolve_push(tree, sp, sn);
    let one = seq![sn];
    assert(one[0] == sn);
    assert(one.drop_first() =~= Seq::<Seq<u8>>::empty());
    assert(resolve(moved, one.drop_first()) == Ok::<Node, Fault>(moved));
    assert(resolve(sd, one) == Ok::<Node, Fault>(moved));
    let rest = with_entries(sd, without_child(sd->entries, sn));
    lemma_remove_child_wf(sd->entries, ci);
    lemma_replace_at_wf(tree, sp, rest);
    let t1 = replace_at(tree, sp, rest);
    let dnames = canonical(cwd, dst)->Ok_0;
    let (dp, dn) = parent_of(t1, cwd, dst)->Ok_0;
    lemma_renamed_wf(moved, dn);
    lemma_put_then_resolve(t1, dp, moved.renamed(dn));
    assert(dp.push(dn) =~= dnames);
}

/// Renaming within a directory: a move that succeeds from `src` to another name in the same
/// directory leaves nothing under the old name.
pub proof fn rename_leaves_nothing_behind(tree: Node, cwd: Seq<u8>, src: Seq<u8>, dst: Seq<u8>)
    requires
        tree.wf(),
        move_outcome(tree, cwd, src, dst) is Ok,
        canonical(cwd, dst) is Ok,
        (canonical(cwd, src)->Ok_0).drop_last() == (canonical(cwd, dst)->Ok_0).drop_last(),
        (canonical(cwd, src)->Ok_0).last() != (canonical(cwd, dst)->Ok_0).last(),
    ensures
        lookup(move_outcome(tree, cwd, src, dst)->Ok_0, cwd, src) == Err::<(Seq<Seq<u8>>, Node), Fault>(
            Fault::NotExist((canonical(cwd, src)->Ok_0).last()),
        ),
{
    let snames = canonical(cwd, src)->Ok_0;
    let (sp, sn) = parent_of(tree, cwd, src)->Ok_0;
    let sd = resolve(tree, sp)->Ok_0;
    lemma_resolve_wf(tree, sp);
    let ci = child_index(sd->entries, sn);
    let moved = sd->entries[ci];
    assert(0 <= ci < sd->entries.len());
    assert(moved.wf());
    let rest = with_entries(sd, without_child(sd->entries, sn));
    lemma_remove_child_wf(sd->entries, ci);
    lemma_replace_at_wf(tree, sp, rest);
    lemma_resolve_replace_at(tree, sp, rest);
    let t1 = replace_at(tree, sp, rest);
    let (dp, dn) = parent_of(t1, cwd, dst)->Ok_0;
    assert(dp == sp);
    lemma_without_child_gone(sd->entries, sn);
    lemma_put_child_other(rest->entries, moved.renamed(dn), sn);
    let nd = with_entries(rest, put_child(rest->entries, moved.renamed(dn)));
    lemma_renamed_wf(moved, dn);
    lemma_put_then_find(rest->entries, moved.renamed(dn));
    lemma_resolve_replace_at(t1, sp, nd);
    let t2 = replace_at(t1, sp, nd);
    assert(sp.push(sn) =~= snames);
    lemma_resolve_push(t2, sp, sn);
    assert(seq![sn][0] == sn);
}

// The text that `String::from_utf8_lossy` makes of the bytes.
pub uninterp spec fn lossy_text(b: Seq<u8>) -> Seq<char>;

/// Relies on `String::from_utf8_lossy`: the bytes read as UTF-8, each invalid sequence
/// replaced by U+FFFD; valid UTF-8 comes out as the text it encodes.
#[verifier::external_body]
fn text_of(b: &[u8]) -> (r: String)
    ensures
        r@ == lossy_text(b@),
        vstd::utf8::valid_utf8(b@) ==> r@ == vstd::utf8::decode_utf8(b@),
{
    String::from_utf8_lossy(b).into_owned()
}

/// An interactive session with a [`Filesystem`]: the tree and a current directory that
/// relative paths are read against.
pub struct Session {
    filesystem: Filesystem,
    current_directory: Vec<u8>,
}

impl Session {
    /// The tree.
    pub closed spec fn tree(&self) -> Node {
        self.filesystem.root@
    }

    /// The current directory, as a path.
    pub closed spec fn cwd(&self) -> Seq<u8> {
        self.current_directory@
    }

    /// The tree is well formed.
    pub closed spec fn wf(&self) -> bool {
        self.filesystem.wf()
    }

    /// Creates a new session on `filesystem`, in its root.
    pub fn new(filesystem: Filesystem) -> (r: Self)
        requires
            filesystem.wf(),
        ensures
            r.wf(),
            r.tree() == filesystem.root@,
            r.cwd() == seq![SEPARATOR],
    {
        let mut current_directory: Vec<u8> = Vec::new();
        current_directory.push(SEPARATOR);
        assert(current_directory@ =~= seq![SEPARATOR]);
        Session { filesystem, current_directory }
    }

    /// Returns the current directory of the session.
    pub fn current_directory(&self) -> (r: &[u8])
        ensures
            r@ == self.cwd(),
    {
        self.current_directory.as_slice()
    }

    /// The canonical names of `path`, read against the current directory.
    fn canonicalize(&self, path: &str) -> (r: Result<Vec<Vec<u8>>, Error>)
        ensures
            match r {
                Ok(names) => canonical(self.cwd(), path.spec_bytes()) == Ok::<Seq<Seq<u8>>, Fault>(
                    views(names@),
                ),
                Err(e) => canonical(self.cwd(), path.spec_bytes()) == Err::<Seq<Seq<u8>>, Fault>(e@),
            },
    {
        let full = join_path(self.current_directory.as_slice(), path.as_bytes());
        clean_components(full.as_slice())
    }

    /// What the names lead to from the root.
    fn resolve_names(&self, names: &Vec<Vec<u8>>) -> (r: Result<Borrowed<'_>, Error>)
        requires
            self.wf(),
        ensures
            match r {
                Ok(e) => resolve(self.tree(), views(names@)) == Ok::<Node, Fault>(e@) && e@.wf(),
                Err(e) => resolve(self.tree(), views(names@)) == Err::<Node, Fault>(e@),
            },
    {
        let mut cur = Borrowed::Directory(&self.filesystem.root);
        let mut k: usize = 0;
        assert(views(names@).skip(0) =~= views(names@));
        while k < names.len()
            invariant
                k <= names@.len(),
                cur@.wf(),
                resolve(self.tree(), views(names@)) == resolve(cur@, views(names@).skip(k as int)),
            decreases names@.len() - k,
        {
            let ghost rest = views(names@).skip(k as int);
            assert(rest[0] == names@[k as int]@);
            assert(rest.drop_first() =~= views(names@).skip(k + 1));
            match cur {
                Borrowed::File(f) => {
                    return Err(Error::NotDirectory(copy_bytes(f.metadata.name.as_slice())));
                },
                Borrowed::Directory(d) => {
                    match d.find(names[k].as_slice()) {
                        None => {
                            return Err(Error::NotExist(copy_bytes(names[k].as_slice())));
                        },
                        Some(i) => {
                            assert(d@->entries[i as int] == d.entries@[i as int]@);
                            cur = Borrowed::from_entry(&d.entries[i]);
                        },
                    }
                },
            }
            k = k + 1;
        }
        assert(views(names@).skip(k as int) =~= Seq::<Seq<u8>>::empty());
        Ok(cur)
    }

    /// Resolves `path` to its canonical path and a view of what stands there.
    ///
    /// This takes time linear in the number of components of the canonical path.
    pub fn resolve(&self, path: &str) -> (r: Result<(Vec<u8>, Borrowed<'_>), Error>)
        requires
            self.wf(),
        ensures
            match r {
                Ok((p, e)) => {
                    &&& lookup(self.tree(), self.cwd(), path.spec_bytes()) is Ok
                    &&& p@ == render(lookup(self.tree(), self.cwd(), path.spec_bytes())->Ok_0.0)
                    &&& e@ == lookup(self.tree(), self.cwd(), path.spec_bytes())->Ok_0.1
                    &&& e@.wf()
                },
                Err(e) => lookup(self.tree(), self.cwd(), path.spec_bytes()) == Err::<
                    (Seq<Seq<u8>>, Node),
                    Fault,
                >(e@),
            },
    {
        let names = match self.canonicalize(path) {
            Ok(names) => names,
            Err(e) => return Err(e),
        };
        match self.resolve_names(&names) {
            Ok(entry) => Ok((render_names(&names), entry)),
            Err(e) => Err(e),
        }
    }
}


/// The directory that the names from `k` on lead to from `d`, to be changed in place.
///
/// This takes time linear in the number of names.
fn resolve_mut<'a>(d: &'a mut Directory, names: &Vec<Vec<u8>>, k: usize) -> (r: &'a mut Directory)
    requires
        k <= names@.len(),
        old(d)@.wf(),
        resolve(old(d)@, views(names@).skip(k as int)) is Ok,
        (resolve(old(d)@, views(names@).skip(k as int))->Ok_0) is Directory,
    ensures
        (*r)@ == resolve(old(d)@, views(names@).skip(k as int))->Ok_0,
        final(d)@ == replace_at(old(d)@, views(names@).skip(k as int), (*final(r))@),
    decreases names@.len() - k,
{
    let ghost rest = views(names@).skip(k as int);
    if k == names.len() {
        assert(rest =~= Seq::<Seq<u8>>::empty());
        return d;
    }
    assert(rest[0] == names@[k as int]@);
    assert(rest.drop_first() =~= views(names@).skip(k + 1));
    let i = match d.find(names[k].as_slice()) {
        Some(i) => i,
        None => unreached(),
    };
    assert(d@->entries[i as int].wf());
    assert(resolve(d@, rest) == resolve(d@->entries[i as int], rest.drop_first()));
    assert(d@->entries[i as int] is Directory) by {
        if rest.drop_first().len() > 0 {
        }
    }
    let c = d.child_directory_mut(i);
    resolve_mut(c, names, k + 1)
}

/// The file that the names from `k` on lead to from `d`, to be changed in place.
fn resolve_file_mut<'a>(d: &'a mut Directory, names: &Vec<Vec<u8>>, k: usize) -> (r: &'a mut File)
    requires
        k < names@.len(),
        old(d)@.wf(),
        resolve(old(d)@, views(names@).skip(k as int)) is Ok,
        (resolve(old(d)@, views(names@).skip(k as int))->Ok_0) is File,
    ensures
        (*r)@ == resolve(old(d)@, views(names@).skip(k as int))->Ok_0,
        final(d)@ == replace_at(old(d)@, views(names@).skip(k as int), (*final(r))@),
    decreases names@.len() - k,
{
    let ghost rest = views(names@).skip(k as int);
    assert(rest[0] == names@[k as int]@);
    assert(rest.drop_first() =~= views(names@).skip(k + 1));
    let i = match d.find(names[k].as_slice()) {
        Some(i) => i,
        None => unreached(),
    };
    assert(d@->entries[i as int].wf());
    assert(resolve(d@, rest) == resolve(d@->entries[i as int], rest.drop_first()));
    if k == names.len() - 1 {
        assert(rest.drop_first().len() == 0);
        proof {
            crate::node::lemma_replace_at_empty(d@->entries[i as int], rest.drop_first());
        }
        assert forall|x: Node| #[trigger] replace_at(d@, rest, x) == (Node::Directory {
            name: d@.name(),
            entries: d@->entries.update(i as int, x),
        }) by {
            assert(replace_at(d@->entries[i as int], rest.drop_first(), x) == x);
        }
        return d.child_file_mut(i);
    }
    assert(d@->entries[i as int] is Directory) by {
        if rest.drop_first().len() > 0 {
        }
    }
    let c = d.child_directory_mut(i);
    resolve_file_mut(c, names, k + 1)
}

impl Session {
    /// The names of the directory that holds, or would hold, `path`, and the name that it
    /// has or would have there.
    fn resolve_parent(&self, path: &str) -> (r: Result<(Vec<Vec<u8>>, Vec<u8>), Error>)
        requires
            self.wf(),
        ensures
            match r {
                Ok((parent, name)) => parent_of(self.tree(), self.cwd(), path.spec_bytes()) == Ok::<
                    (Seq<Seq<u8>>, Seq<u8>),
                    Fault,
                >((views(parent@), name@)),
                Err(e) => parent_of(self.tree(), self.cwd(), path.spec_bytes()) == Err::<
                    (Seq<Seq<u8>>, Seq<u8>),
                    Fault,
                >(e@),
            },
    {
        let mut names = match self.canonicalize(path) {
            Ok(names) => names,
            Err(e) => return Err(e),
        };
        if names.len() == 0 {
            return Err(Error::NoParent(render_names(&names)));
        }
        let ghost all = views(names@);
        let name = match names.pop() {
            Some(name) => name,
            None => unreached(),
        };
        assert(views(names@) =~= all.drop_last());
        let is_directory = match self.resolve_names(&names) {
            Ok(entry) => entry.is_directory(),
            Err(e) => return Err(e),
        };
        if !is_directory {
            return Err(Error::NotDirectory(render_names(&names)));
        }
        Ok((names, name))
    }

    /// Changes the current directory to `path`.
    ///
    /// Fails where `path` does not lead anywhere, or leads to a file (`NotDirectory`).
    pub fn change_directory(&mut self, path: &str) -> (r: Result<(), Error>)
        requires
            old(self).wf(),
        ensures
            final(self).wf(),
            final(self).tree() == old(self).tree(),
            match change_outcome(old(self).tree(), old(self).cwd(), path.spec_bytes()) {
                Ok(p) => r is Ok && final(self).cwd() == p,
                Err(f) => r == Err::<(), Error>(r->Err_0) && r->Err_0@ == f && final(self).cwd() == old(
                    self,
                ).cwd(),
            },
    {
        let (p, is_directory) = match self.resolve(path) {
            Ok((p, entry)) => (p, entry.is_directory()),
            Err(e) => return Err(e),
        };
        if !is_directory {
            return Err(Error::NotDirectory(p));
        }
        self.current_directory = p;
        Ok(())
    }

    /// Creates an empty directory at `path`.
    ///
    /// Fails where the parent does not exist or is not a directory, where `path` is the root
    /// (`NoParent`), and where the name is taken (`Exists`).
    pub fn create_directory(&mut self, path: &str) -> (r: Result<(), Error>)
        requires
            old(self).wf(),
        ensures
            final(self).wf(),
            final(self).cwd() == old(self).cwd(),
            crate::error::unit_outcome(r) == status(
                create_outcome(old(self).tree(), old(self).cwd(), path.spec_bytes(), true),
            ),
            final(self).tree() == tree_after(
                old(self).tree(),
                create_outcome(old(self).tree(), old(self).cwd(), path.spec_bytes(), true),
            ),
    {
        let (parent, name) = match self.resolve_parent(path) {
            Ok(found) => found,
            Err(e) => return Err(e),
        };
        self.create(parent, Entry::Directory(Directory::new(name)))
    }

    /// Creates an empty file at `path`.
    ///
    /// Fails where the parent does not exist or is not a directory, where `path` is the root
    /// (`NoParent`), and where the name is taken (`Exists`).
    pub fn create_file(&mut self, path: &str) -> (r: Result<(), Error>)
        requires
            old(self).wf(),
        ensures
            final(self).wf(),
            final(self).cwd() == old(self).cwd(),
            crate::error::unit_outcome(r) == status(
                create_outcome(old(self).tree(), old(self).cwd(), path.spec_bytes(), false),
            ),
            final(self).tree() == tree_after(
                old(self).tree(),
                create_outcome(old(self).tree(), old(self).cwd(), path.spec_bytes(), false),
            ),
    {
        let (parent, name) = match self.resolve_parent(path) {
            Ok(found) => found,
            Err(e) => return Err(e),
        };
        self.create(parent, Entry::File(File::new(name)))
    }

    /// Puts `fresh` into the directory that `parent` leads to, unless its name is taken there.
    fn create(&mut self, parent: Vec<Vec<u8>>, fresh: Entry) -> (r: Result<(), Error>)
        requires
            old(self).wf(),
            fresh@.wf(),
            resolve(old(self).tree(), views(parent@)) is Ok,
            (resolve(old(self).tree(), views(parent@))->Ok_0) is Directory,
        ensures
            final(self).wf(),
            final(self).cwd() == old(self).cwd(),
            ({
                let d = resolve(old(self).tree(), views(parent@))->Ok_0;
                if has_child(d->entries, fresh@.name()) {
                    r == Err::<(), Error>(r->Err_0) && r->Err_0@ == Fault::Exists(fresh@.name())
                        && final(self).tree() == old(self).tree()
                } else {
                    r is Ok && final(self).tree() == replace_at(
                        old(self).tree(),
                        views(parent@),
                        with_entries(d, put_child(d->entries, fresh@)),
                    )
                }
            }),
    {
        let ghost t = self.tree();
        let ghost p = views(parent@);
        let ghost d = resolve(t, p)->Ok_0;
        let ghost c = fresh@;
        proof {
            lemma_resolve_wf(t, p);
        }
        assert(views(parent@).skip(0) =~= views(parent@));
        let dir = resolve_mut(&mut self.filesystem.root, &parent, 0);
        if dir.find(fresh.name()).is_some() {
            let name = copy_bytes(fresh.name());
            assert(dir@ == d);
            proof {
                lemma_replace_at_same(t, p);
            }
            return Err(Error::Exists(name));
        }
        dir.put(fresh);
        assert(dir@ == with_entries(d, put_child(d->entries, c)));
        proof {
            lemma_replace_at_wf(t, p, with_entries(d, put_child(d->entries, c)));
        }
        Ok(())
    }
}


impl Session {
    /// Returns the entries of the directory at `path`, in strictly ascending name order.
    ///
    /// The vector is taken at the time of the call. Fails where `path` does not lead
    /// anywhere, or leads to a file (`NotDirectory`).
    pub fn list_directory(&self, path: &str) -> (r: Result<Vec<&Entry>, Error>)
        requires
            self.wf(),
        ensures
            match r {
                Ok(v) => {
                    &&& list_outcome(self.tree(), self.cwd(), path.spec_bytes()) is Ok
                    &&& v@.len() == (list_outcome(self.tree(), self.cwd(), path.spec_bytes())->Ok_0).len()
                    &&& forall|i: int|
                        0 <= i < v@.len() ==> (#[trigger] v@[i])@ == (list_outcome(
                            self.tree(),
                            self.cwd(),
                            path.spec_bytes(),
                        )->Ok_0)[i]
                    &&& forall|i: int, j: int|
                        0 <= i < j < v@.len() ==> name_lt(
                            (#[trigger] v@[i])@.name(),
                            (#[trigger] v@[j])@.name(),
                        )
                },
                Err(e) => list_outcome(self.tree(), self.cwd(), path.spec_bytes()) == Err::<
                    Seq<Node>,
                    Fault,
                >(e@),
            },
    {
        let (p, entry) = match self.resolve(path) {
            Ok(found) => found,
            Err(e) => return Err(e),
        };
        match entry {
            Borrowed::Directory(d) => {
                let mut v: Vec<&Entry> = Vec::new();
                let mut i: usize = 0;
                while i < d.entries.len()
                    invariant
                        i <= d.entries@.len(),
                        v@.len() == i,
                        forall|j: int| 0 <= j < i ==> (#[trigger] v@[j])@ == d@->entries[j],
                    decreases d.entries@.len() - i,
                {
                    assert(d@->entries[i as int] == d.entries@[i as int]@);
                    v.push(&d.entries[i]);
                    i = i + 1;
                }
                Ok(v)
            },
            Borrowed::File(_) => Err(Error::NotDirectory(p)),
        }
    }

    /// Removes the directory or file at `path`, with all it holds.
    ///
    /// Fails where `path` is the root (`NoParent`), where its parent does not exist or is
    /// not a directory, and where nothing stands at `path` (`NotExist`).
    pub fn remove(&mut self, path: &str) -> (r: Result<(), Error>)
        requires
            old(self).wf(),
        ensures
            final(self).wf(),
            final(self).cwd() == old(self).cwd(),
            crate::error::unit_outcome(r) == status(
                remove_outcome(old(self).tree(), old(self).cwd(), path.spec_bytes()),
            ),
            final(self).tree() == tree_after(
                old(self).tree(),
                remove_outcome(old(self).tree(), old(self).cwd(), path.spec_bytes()),
            ),
    {
        let (parent, name) = match self.resolve_parent(path) {
            Ok(found) => found,
            Err(e) => return Err(e),
        };
        let ghost t = self.tree();
        let ghost p = views(parent@);
        let ghost d = resolve(t, p)->Ok_0;
        proof {
            lemma_resolve_wf(t, p);
        }
        assert(views(parent@).skip(0) =~= views(parent@));
        let dir = resolve_mut(&mut self.filesystem.root, &parent, 0);
        match dir.take(name.as_slice()) {
            None => {
                assert(dir@ == d);
                proof {
                    lemma_replace_at_same(t, p);
                }
                Err(Error::NotExist(name))
            },
            Some(_) => {
                assert(dir@ == with_entries(d, without_child(d->entries, name@)));
                proof {
                    lemma_replace_at_wf(t, p, with_entries(d, without_child(d->entries, name@)));
                }
                Ok(())
            },
        }
    }

    /// Appends `content` to the file at `path`.
    ///
    /// Fails where `path` does not lead anywhere, or leads to a directory (`NotFile`).
    pub fn write_file(&mut self, path: &str, content: Vec<u8>) -> (r: Result<(), Error>)
        requires
            old(self).wf(),
        ensures
            final(self).wf(),
            final(self).cwd() == old(self).cwd(),
            crate::error::unit_outcome(r) == status(
                write_outcome(old(self).tree(), old(self).cwd(), path.spec_bytes(), content@),
            ),
            final(self).tree() == tree_after(
                old(self).tree(),
                write_outcome(old(self).tree(), old(self).cwd(), path.spec_bytes(), content@),
            ),
    {
        let names = match self.canonicalize(path) {
            Ok(names) => names,
            Err(e) => return Err(e),
        };
        let is_file = match self.resolve_names(&names) {
            Ok(entry) => entry.is_file(),
            Err(e) => return Err(e),
        };
        if !is_file {
            return Err(Error::NotFile(render_names(&names)));
        }
        let ghost t = self.tree();
        let ghost p = views(names@);
        let ghost f = resolve(t, p)->Ok_0;
        assert(p.len() > 0);
        assert(views(names@).skip(0) =~= views(names@));
        let file = resolve_file_mut(&mut self.filesystem.root, &names, 0);
        file.append(content.as_slice());
        assert(file@ == (Node::File { name: f.name(), content: f->content + content@ }));
        proof {
            lemma_replace_at_wf(t, p, Node::File { name: f.name(), content: f->content + content@ });
        }
        Ok(())
    }

    /// Returns the content of the file at `path` as text, each sequence of bytes that is not
    /// UTF-8 replaced by U+FFFD.
    ///
    /// Fails where `path` does not lead anywhere, or leads to a directory (`NotFile`).
    pub fn read_file(&self, path: &str) -> (r: Result<String, Error>)
        requires
            self.wf(),
        ensures
            match r {
                Ok(s) => read_outcome(self.tree(), self.cwd(), path.spec_bytes()) is Ok && s@
                    == lossy_text(read_outcome(self.tree(), self.cwd(), path.spec_bytes())->Ok_0),
                Err(e) => read_outcome(self.tree(), self.cwd(), path.spec_bytes()) == Err::<
                    Seq<u8>,
                    Fault,
                >(e@),
            },
    {
        let (p, entry) = match self.resolve(path) {
            Ok(found) => found,
            Err(e) => return Err(e),
        };
        match entry {
            Borrowed::File(f) => Ok(text_of(f.content.as_slice())),
            Borrowed::Directory(_) => Err(Error::NotFile(p)),
        }
    }
}


impl Session {
    /// Moves the directory or file at `src` to `dst`: it takes the last name of `dst` and
    /// stands in the place of whatever stood at `dst`.
    ///
    /// Fails where `src` has no parent directory or nothing stands at `src` (`NotExist`,
    /// naming `src` as given), and where `dst` has no parent directory once `src` is taken
    /// out. On every failure the tree is left as it was: an entry taken out is put back. So a
    /// directory cannot be moved into itself or below: once it is taken out, nothing below it
    /// can be found.
    pub fn move_entry(&mut self, src: &str, dst: &str) -> (r: Result<(), Error>)
        requires
            old(self).wf(),
        ensures
            final(self).wf(),
            final(self).cwd() == old(self).cwd(),
            crate::error::unit_outcome(r) == status(
                move_outcome(old(self).tree(), old(self).cwd(), src.spec_bytes(), dst.spec_bytes()),
            ),
            final(self).tree() == tree_after(
                old(self).tree(),
                move_outcome(old(self).tree(), old(self).cwd(), src.spec_bytes(), dst.spec_bytes()),
            ),
    {
        let (sp, sn) = match self.resolve_parent(src) {
            Ok(found) => found,
            Err(e) => return Err(e),
        };
        let ghost t0 = self.tree();
        let ghost p = views(sp@);
        let ghost sd = resolve(t0, p)->Ok_0;
        proof {
            lemma_resolve_wf(t0, p);
        }
        assert(views(sp@).skip(0) =~= views(sp@));
        let sdir = resolve_mut(&mut self.filesystem.root, &sp, 0);
        let entry = match sdir.take(sn.as_slice()) {
            None => {
                assert(sdir@ == sd);
                proof {
                    lemma_replace_at_same(t0, p);
                }
                return Err(Error::NotExist(copy_bytes(src.as_bytes())));
            },
            Some(entry) => entry,
        };
        let ghost ci = child_index(sd->entries, sn@);
        let ghost rest = with_entries(sd, without_child(sd->entries, sn@));
        assert(sdir@ == rest);
        assert(0 <= ci < sd->entries.len());
        assert(sd->entries[ci].wf());
        proof {
            lemma_replace_at_wf(t0, p, rest);
        }
        match self.resolve_parent(dst) {
            Err(e) => {
                let ghost t1 = self.tree();
                proof {
                    lemma_resolve_replace_at(t0, p, rest);
                }
                let sdir = resolve_mut(&mut self.filesystem.root, &sp, 0);
                sdir.put(entry);
                proof {
                    lemma_put_back(sd->entries, ci);
                    assert(with_entries(rest, put_child(rest->entries, sd->entries[ci])) == sd);
                    lemma_replace_at_twice(t0, p, rest, sd);
                    lemma_replace_at_same(t0, p);
                }
                Err(e)
            },
            Ok((dp, dn)) => {
                let ghost t1 = self.tree();
                let ghost q = views(dp@);
                let ghost dd = resolve(t1, q)->Ok_0;
                let ghost moved = sd->entries[ci].renamed(dn@);
                proof {
                    lemma_resolve_wf(t1, q);
                    lemma_renamed_wf(sd->entries[ci], dn@);
                }
                let mut entry = entry;
                entry.rename(dn);
                assert(views(dp@).skip(0) =~= views(dp@));
                let ddir = resolve_mut(&mut self.filesystem.root, &dp, 0);
                ddir.put(entry);
                assert(ddir@ == with_entries(dd, put_child(dd->entries, moved)));
                proof {
                    lemma_replace_at_wf(t1, q, with_entries(dd, put_child(dd->entries, moved)));
                }
                Ok(())
            },
        }
    }
}


impl Session {
    /// Walks the tree from `root`, depth first: hands each entry to `f` with its path before
    /// the entries that it holds, these in ascending name order, and goes no further into a
    /// directory for which `f` says `Skip`. Returns the paths visited, in order.
    ///
    /// Fails where `root` does not lead anywhere.
    pub fn walk<'s, F: Fn(&[u8], &Borrowed<'s>) -> Walk>(&'s self, root: &str, f: F) -> (r: Result<Vec<Vec<u8>>, Error>)
        requires
            self.wf(),
            forall|q: &[u8], x: &Borrowed<'s>| #[trigger] f.requires((q, x)),
        ensures
            r is Ok <==> lookup(self.tree(), self.cwd(), root.spec_bytes()) is Ok,
            (r matches Ok(v) ==> exists|skips: Seq<bool>|
                #[trigger] is_walk(
                    lookup(self.tree(), self.cwd(), root.spec_bytes())->Ok_0.1,
                    render(lookup(self.tree(), self.cwd(), root.spec_bytes())->Ok_0.0),
                    views(v@),
                    skips,
                ) && forall|k: int| 0 <= k < skips.len() ==> answered(&f, v@[k]@, #[trigger] skips[k])),
            (r matches Err(e) ==> lookup(self.tree(), self.cwd(), root.spec_bytes()) == Err::<
                (Seq<Seq<u8>>, Node),
                Fault,
            >(e@)),
    {
        let (p, entry) = match self.resolve(root) {
            Ok(found) => found,
            Err(e) => return Err(e),
        };
        let mut out: Vec<Vec<u8>> = Vec::new();
        let skips = walk_into(entry, p, &f, &mut out);
        assert(out@.skip(0) =~= out@);
        let ghost visited = views(out@);
        let ghost n = lookup(self.tree(), self.cwd(), root.spec_bytes())->Ok_0;
        assert(is_walk(n.1, render(n.0), visited, skips@));
        let r: Result<Vec<Vec<u8>>, Error> = Ok(out);
        assert(views(r->Ok_0@) == visited);
        assert(forall|k: int| 0 <= k < skips@.len() ==> answered(&f, out@[k]@, #[trigger] skips@[k]));
        r
    }
}

} // verus!
