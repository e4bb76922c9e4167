use vstd::prelude::*;

use crate::error::Fault;

verus! {

/// The mathematical value of an entry of the tree: its name and, for a file, its bytes; for
/// a directory, its children in the order in which they are kept.
pub enum Node {
    File { name: Seq<u8>, content: Seq<u8> },
    Directory { name: Seq<u8>, entries: Seq<Node> },
}

/// Byte-wise lexicographic order on names: a proper prefix comes first.
pub open spec fn name_lt(a: Seq<u8>, b: Seq<u8>) -> bool
    decreases a.len(),
{
    if a.len() == 0 {
        b.len() > 0
    } else if b.len() == 0 {
        false
    } else if a[0] != b[0] {
        a[0] < b[0]
    } else {
        name_lt(a.drop_first(), b.drop_first())
    }
}

pub proof fn lemma_name_lt_irreflexive(a: Seq<u8>)
    ensures
        !name_lt(a, a),
    decreases a.len(),
{
    if a.len() > 0 {
        lemma_name_lt_irreflexive(a.drop_first());
    }
}

pub proof fn lemma_name_lt_transitive(a: Seq<u8>, b: Seq<u8>, c: Seq<u8>)
    requires
        name_lt(a, b),
        name_lt(b, c),
    ensures
        name_lt(a, c),
    decreases a.len(),
{
    if a.len() > 0 && b.len() > 0 && c.len() > 0 && a[0] == b[0] && b[0] == c[0] {
        lemma_name_lt_transitive(a.drop_first(), b.drop_first(), c.drop_first());
    }
}

pub proof fn lemma_name_lt_total(a: Seq<u8>, b: Seq<u8>)
    requires
        a != b,
    ensures
        name_lt(a, b) || name_lt(b, a),
    decreases a.len(),
{
    if a.len() > 0 && b.len() > 0 && a[0] == b[0] {
        if a.drop_first() == b.drop_first() {
            assert(a =~= seq![a[0]] + a.drop_first());
            assert(b =~= seq![b[0]] + b.drop_first());
        }
        lemma_name_lt_total(a.drop_first(), b.drop_first());
    } else if a.len() == 0 && b.len() == 0 {
        assert(a =~= b);
    }
}

pub proof fn lemma_name_lt_asymmetric(a: Seq<u8>, b: Seq<u8>)
    requires
        name_lt(a, b),
    ensures
        !name_lt(b, a),
{
    if name_lt(b, a) {
        lemma_name_lt_transitive(a, b, a);
        lemma_name_lt_irreflexive(a);
    }
}

impl Node {
    pub open spec fn name(self) -> Seq<u8> {
        match self {
            Node::File { name, .. } => name,
            Node::Directory { name, .. } => name,
        }
    }

    /// Every directory of the tree keeps its children in strictly ascending name order.
    pub open spec fn wf(self) -> bool
        decreases self,
    {
        match self {
            Node::File { .. } => true,
            Node::Directory { entries, .. } => {
                &&& sorted(entries)
                &&& forall|i: int| 0 <= i < entries.len() ==> (#[trigger] entries[i]).wf()
            },
        }
    }

    /// An empty directory.
    pub open spec fn empty_directory(name: Seq<u8>) -> Node {
        Node::Directory { name, entries: Seq::empty() }
    }

    /// An empty file.
    pub open spec fn empty_file(name: Seq<u8>) -> Node {
        Node::File { name, content: Seq::empty() }
    }

    /// The same node under another name.
    pub open spec fn renamed(self, name: Seq<u8>) -> Node {
        match self {
            Node::File { content, .. } => Node::File { name, content },
            Node::Directory { entries, .. } => Node::Directory { name, entries },
        }
    }
}

/// Names strictly ascending, hence distinct.
pub open spec fn sorted(es: Seq<Node>) -> bool {
    forall|i: int, j: int| 0 <= i < j < es.len() ==> name_lt(#[trigger] es[i].name(), #[trigger] es[j].name())
}

/// Some child bears the name `n`.
pub open spec fn has_child(es: Seq<Node>, n: Seq<u8>) -> bool {
    exists|i: int| 0 <= i < es.len() && #[trigger] es[i].name() == n
}

/// The position of the child named `n` (meaningful where [`has_child`] holds).
pub open spec fn child_index(es: Seq<Node>, n: Seq<u8>) -> int {
    choose|i: int| 0 <= i < es.len() && #[trigger] es[i].name() == n
}

/// The child named `n` inserted at its place in name order, or put in the place of the
/// child that bears that name already.
pub open spec fn put_child(es: Seq<Node>, c: Node) -> Seq<Node>
    decreases es.len(),
{
    if es.len() == 0 {
        seq![c]
    } else if es[0].name() == c.name() {
        es.update(0, c)
    } else if name_lt(c.name(), es[0].name()) {
        seq![c] + es
    } else {
        seq![es[0]] + put_child(es.drop_first(), c)
    }
}

/// The children without the one named `n`, if there is one.
pub open spec fn without_child(es: Seq<Node>, n: Seq<u8>) -> Seq<Node> {
    if has_child(es, n) {
        es.remove(child_index(es, n))
    } else {
        es
    }
}

/// The node that the names lead to from `n`, one child at a time. Fails with `NotDirectory`
/// naming a file that a name would have to be looked up in, and with `NotExist` naming the
/// first name that is missing.
pub open spec fn resolve(n: Node, names: Seq<Seq<u8>>) -> Result<Node, Fault>
    decreases names.len(),
{
    if names.len() == 0 {
        Ok(n)
    } else {
        match n {
            Node::File { name, .. } => Err(Fault::NotDirectory(name)),
            Node::Directory { entries, .. } => {
                if has_child(entries, names[0]) {
                    resolve(entries[child_index(entries, names[0])], names.drop_first())
                } else {
                    Err(Fault::NotExist(names[0]))
                }
            },
        }
    }
}

/// `n` with the node that the names lead to replaced by `new` (unchanged where they lead
/// nowhere).
pub open spec fn replace_at(n: Node, names: Seq<Seq<u8>>, new: Node) -> Node
    decreases names.len(),
{
    if names.len() == 0 {
        new
    } else {
        match n {
            Node::File { .. } => n,
            Node::Directory { name, entries } => {
                if has_child(entries, names[0]) {
                    let i = child_index(entries, names[0]);
                    Node::Directory {
                        name,
                        entries: entries.update(i, replace_at(entries[i], names.drop_first(), new)),
                    }
                } else {
                    n
                }
            },
        }
    }
}

/// In sorted children, a name is borne by one child at most.
pub proof fn lemma_sorted_unique(es: Seq<Node>, i: int)
    requires
        sorted(es),
        0 <= i < es.len(),
    ensures
        has_child(es, es[i].name()),
        child_index(es, es[i].name()) == i,
{
    let n = es[i].name();
    assert(has_child(es, n));
    let j = child_index(es, n);
    if j < i {
        assert(name_lt(es[j].name(), es[i].name()));
        lemma_name_lt_irreflexive(n);
    } else if i < j {
        assert(name_lt(es[i].name(), es[j].name()));
        lemma_name_lt_irreflexive(n);
    }
}

/// Where every child before `k` is named below `c` and the child at `k`, if any, is not,
/// [`put_child`] puts `c` at `k`.
pub proof fn lemma_put_child_at(es: Seq<Node>, c: Node, k: int)
    requires
        0 <= k <= es.len(),
        forall|j: int| 0 <= j < k ==> name_lt(#[trigger] es[j].name(), c.name()),
        k < es.len() ==> !name_lt(es[k].name(), c.name()),
    ensures
        put_child(es, c) == if k < es.len() && es[k].name() == c.name() {
            es.update(k, c)
        } else {
            es.insert(k, c)
        },
    decreases k,
{
    if k == 0 {
        if es.len() == 0 {
            assert(es.insert(0, c) =~= seq![c]);
        } else if es[0].name() != c.name() {
            lemma_name_lt_total(es[0].name(), c.name());
            assert(es.insert(0, c) =~= seq![c] + es);
        }
    } else {
        let n0 = es[0].name();
        assert(name_lt(n0, c.name()));
        lemma_name_lt_asymmetric(n0, c.name());
        if n0 == c.name() {
            lemma_name_lt_irreflexive(n0);
        }
        let rest = es.drop_first();
        assert forall|j: int| 0 <= j < k - 1 implies name_lt(#[trigger] rest[j].name(), c.name()) by {
            assert(rest[j] == es[j + 1]);
        }
        lemma_put_child_at(rest, c, k - 1);
        if k < es.len() && es[k].name() == c.name() {
            assert(seq![es[0]] + rest.update(k - 1, c) =~= es.update(k, c));
        } else {
            assert(seq![es[0]] + rest.insert(k - 1, c) =~= es.insert(k, c));
        }
    }
}

/// Replacing, at a path that resolves, a node by a well-formed node of the same name keeps
/// the tree well formed.
pub proof fn lemma_replace_at_wf(n: Node, names: Seq<Seq<u8>>, new: Node)
    requires
        n.wf(),
        new.wf(),
        resolve(n, names) is Ok,
        new.name() == (resolve(n, names)->Ok_0).name(),
    ensures
        replace_at(n, names, new).wf(),
        replace_at(n, names, new).name() == n.name(),
        names.len() > 0 ==> (replace_at(n, names, new) is Directory <==> n is Directory),
    decreases names.len(),
{
    if names.len() > 0 {
        match n {
            Node::Directory { name, entries } => {
                assert(has_child(entries, names[0]));
                let i = child_index(entries, names[0]);
                let child = entries[i];
                assert(0 <= i < entries.len());
                assert(child.wf());
                lemma_replace_at_wf(child, names.drop_first(), new);
                let sub = replace_at(child, names.drop_first(), new);
                let es2 = entries.update(i, sub);
                assert forall|a: int, b: int| 0 <= a < b < es2.len() implies name_lt(
                    #[trigger] es2[a].name(),
                    #[trigger] es2[b].name(),
                ) by {
                    assert(es2[a].name() == entries[a].name());
                    assert(es2[b].name() == entries[b].name());
                }
                assert forall|a: int| 0 <= a < es2.len() implies #[trigger] es2[a].wf() by {
                    if a != i {
                        assert(es2[a] == entries[a]);
                    } else {
                        assert(es2[a] == sub);
                    }
                }
            },
            Node::File { .. } => {},
        }
    }
}

} // verus!

verus! {

/// Putting a well-formed child at its place keeps well-formed children well formed.
pub proof fn lemma_put_child_wf(es: Seq<Node>, c: Node, k: int)
    requires
        0 <= k <= es.len(),
        forall|j: int| 0 <= j < k ==> name_lt(#[trigger] es[j].name(), c.name()),
        k < es.len() ==> !name_lt(es[k].name(), c.name()),
        sorted(es),
        forall|j: int| 0 <= j < es.len() ==> (#[trigger] es[j]).wf(),
        c.wf(),
    ensures
        sorted(put_child(es, c)),
        forall|j: int| 0 <= j < put_child(es, c).len() ==> (#[trigger] put_child(es, c)[j]).wf(),
        (Node::Directory { name: Seq::empty(), entries: put_child(es, c) }).wf(),
{
    lemma_put_child_at(es, c, k);
    let r = put_child(es, c);
    if k < es.len() && es[k].name() == c.name() {
        assert forall|a: int, b: int| 0 <= a < b < r.len() implies name_lt(
            #[trigger] r[a].name(),
            #[trigger] r[b].name(),
        ) by {
            assert(r[a].name() == es[a].name());
            assert(r[b].name() == es[b].name());
        }
    } else {
        if k < es.len() {
            lemma_name_lt_total(es[k].name(), c.name());
        }
        assert forall|a: int, b: int| 0 <= a < b < r.len() implies name_lt(
            #[trigger] r[a].name(),
            #[trigger] r[b].name(),
        ) by {
            if b < k {
                assert(r[a] == es[a] && r[b] == es[b]);
            } else if b == k {
                assert(r[a] == es[a] && r[b] == c);
            } else if a < k {
                assert(r[a] == es[a] && r[b] == es[b - 1]);
            } else if a == k {
                assert(r[a] == c && r[b] == es[b - 1]);
                if b - 1 > k {
                    assert(name_lt(es[k].name(), es[b - 1].name()));
                    lemma_name_lt_transitive(c.name(), es[k].name(), es[b - 1].name());
                }
            } else {
                assert(r[a] == es[a - 1] && r[b] == es[b - 1]);
            }
        }
    }
    assert forall|j: int| 0 <= j < r.len() implies (#[trigger] r[j]).wf() by {
        if k < es.len() && es[k].name() == c.name() {
            if j != k {
                assert(r[j] == es[j]);
            }
        } else if j < k {
            assert(r[j] == es[j]);
        } else if j > k {
            assert(r[j] == es[j - 1]);
        }
    }
}

/// Taking a child out keeps well-formed children well formed.
pub proof fn lemma_remove_child_wf(es: Seq<Node>, i: int)
    requires
        0 <= i < es.len(),
        sorted(es),
        forall|j: int| 0 <= j < es.len() ==> (#[trigger] es[j]).wf(),
    ensures
        sorted(es.remove(i)),
        (Node::Directory { name: Seq::empty(), entries: es.remove(i) }).wf(),
{
    let r = es.remove(i);
    assert forall|a: int, b: int| 0 <= a < b < r.len() implies name_lt(
        #[trigger] r[a].name(),
        #[trigger] r[b].name(),
    ) by {
        let a2 = if a < i { a } else { a + 1 };
        let b2 = if b < i { b } else { b + 1 };
        assert(r[a] == es[a2] && r[b] == es[b2]);
    }
    assert forall|j: int| 0 <= j < r.len() implies (#[trigger] r[j]).wf() by {
        if j < i {
            assert(r[j] == es[j]);
        } else {
            assert(r[j] == es[j + 1]);
        }
    }
}

} // verus!

verus! {

/// A node with the children `es`, under the name of `d`.
pub open spec fn with_entries(d: Node, es: Seq<Node>) -> Node {
    Node::Directory { name: d.name(), entries: es }
}

/// Putting back, at the path it came from, the node that was there leaves the tree as it was.
pub proof fn lemma_replace_at_same(n: Node, names: Seq<Seq<u8>>)
    requires
        resolve(n, names) is Ok,
    ensures
        replace_at(n, names, resolve(n, names)->Ok_0) == n,
    decreases names.len(),
{
    if names.len() > 0 {
        let es = n->entries;
        let i = child_index(es, names[0]);
        lemma_replace_at_same(es[i], names.drop_first());
        assert(es.update(i, es[i]) =~= es);
    }
}

/// After a replacement, the path leads to the new node.
pub proof fn lemma_resolve_replace_at(n: Node, names: Seq<Seq<u8>>, new: Node)
    requires
        n.wf(),
        resolve(n, names) is Ok,
        new.name() == (resolve(n, names)->Ok_0).name(),
    ensures
        resolve(replace_at(n, names, new), names) == Ok::<Node, Fault>(new),
    decreases names.len(),
{
    if names.len() > 0 {
        let es = n->entries;
        let i = child_index(es, names[0]);
        assert(0 <= i < es.len());
        assert(es[i].wf());
        lemma_resolve_replace_at(es[i], names.drop_first(), new);
        let es2 = es.update(i, replace_at(es[i], names.drop_first(), new));
        assert(es2[i].name() == es[i].name()) by {
            if names.drop_first().len() > 0 {
                lemma_replace_at_name(es[i], names.drop_first(), new);
            }
        };
        lemma_sorted_unique(es, i);
        assert forall|a: int, b: int| 0 <= a < b < es2.len() implies name_lt(
            #[trigger] es2[a].name(),
            #[trigger] es2[b].name(),
        ) by {
            assert(es2[a].name() == es[a].name());
            assert(es2[b].name() == es[b].name());
        }
        lemma_sorted_unique(es2, i);
    }
}

/// A second replacement at the same path undoes the first.
pub proof fn lemma_replace_at_twice(n: Node, names: Seq<Seq<u8>>, x: Node, y: Node)
    requires
        n.wf(),
        resolve(n, names) is Ok,
        x.name() == (resolve(n, names)->Ok_0).name(),
    ensures
        replace_at(replace_at(n, names, x), names, y) == replace_at(n, names, y),
    decreases names.len(),
{
    if names.len() > 0 {
        let es = n->entries;
        let i = child_index(es, names[0]);
        assert(0 <= i < es.len());
        assert(es[i].wf());
        lemma_replace_at_twice(es[i], names.drop_first(), x, y);
        let es2 = es.update(i, replace_at(es[i], names.drop_first(), x));
        assert(es2[i].name() == es[i].name()) by {
            if names.drop_first().len() > 0 {
                lemma_replace_at_name(es[i], names.drop_first(), x);
            }
        };
        lemma_sorted_unique(es, i);
        assert forall|a: int, b: int| 0 <= a < b < es2.len() implies name_lt(
            #[trigger] es2[a].name(),
            #[trigger] es2[b].name(),
        ) by {
            assert(es2[a].name() == es[a].name());
            assert(es2[b].name() == es[b].name());
        }
        lemma_sorted_unique(es2, i);
        assert(es2.update(i, replace_at(es2[i], names.drop_first(), y)) =~= es.update(
            i,
            replace_at(es[i], names.drop_first(), y),
        ));
    }
}

/// A replacement below the node keeps the node's name.
pub proof fn lemma_replace_at_name(n: Node, names: Seq<Seq<u8>>, new: Node)
    requires
        names.len() > 0,
    ensures
        replace_at(n, names, new).name() == n.name(),
{
}

/// Taking a child out and putting it back gives the children that there were.
pub proof fn lemma_put_back(es: Seq<Node>, i: int)
    requires
        sorted(es),
        0 <= i < es.len(),
    ensures
        put_child(es.remove(i), es[i]) == es,
{
    let r = es.remove(i);
    assert forall|j: int| 0 <= j < i implies name_lt(#[trigger] r[j].name(), es[i].name()) by {
        assert(r[j] == es[j]);
    }
    if i < r.len() {
        assert(r[i] == es[i + 1]);
        assert(name_lt(es[i].name(), es[i + 1].name()));
        lemma_name_lt_asymmetric(es[i].name(), es[i + 1].name());
        lemma_name_lt_irreflexive(es[i].name());
    }
    lemma_put_child_at(r, es[i], i);
    assert(r.insert(i, es[i]) =~= es);
}

/// Renaming keeps a node well formed.
pub proof fn lemma_renamed_wf(n: Node, name: Seq<u8>)
    requires
        n.wf(),
    ensures
        n.renamed(name).wf(),
        n.renamed(name).name() == name,
{
}

} // verus!

verus! {

/// What a path leads to in a well-formed tree is well formed.
pub proof fn lemma_resolve_wf(n: Node, names: Seq<Seq<u8>>)
    requires
        n.wf(),
        resolve(n, names) is Ok,
    ensures
        (resolve(n, names)->Ok_0).wf(),
    decreases names.len(),
{
    if names.len() > 0 {
        let es = n->entries;
        let i = child_index(es, names[0]);
        assert(0 <= i < es.len());
        assert(es[i].wf());
        lemma_resolve_wf(es[i], names.drop_first());
    }
}

/// With no names, a replacement replaces the whole node.
pub proof fn lemma_replace_at_empty(n: Node, names: Seq<Seq<u8>>)
    requires
        names.len() == 0,
    ensures
        forall|x: Node| #[trigger] replace_at(n, names, x) == x,
{
}

} // verus!

verus! {

/// Resolving one name more goes one child further from where the shorter path leads.
pub proof fn lemma_resolve_push(n: Node, names: Seq<Seq<u8>>, last: Seq<u8>)
    ensures
        resolve(n, names.push(last)) == match resolve(n, names) {
            Err(f) => Err(f),
            Ok(m) => resolve(m, seq![last]),
        },
    decreases names.len(),
{
    if names.len() == 0 {
        assert(names.push(last) =~= seq![last]);
    } else {
        assert(names.push(last)[0] == names[0]);
        assert(names.push(last).drop_first() =~= names.drop_first().push(last));
        if n is Directory && has_child(n->entries, names[0]) {
            lemma_resolve_push(n->entries[child_index(n->entries, names[0])], names.drop_first(), last);
        }
    }
}

/// The first position whose child is not named below `n`.
pub open spec fn position(es: Seq<Node>, n: Seq<u8>) -> int
    decreases es.len(),
{
    if es.len() == 0 {
        0
    } else if name_lt(es[0].name(), n) {
        1 + position(es.drop_first(), n)
    } else {
        0
    }
}

proof fn lemma_position(es: Seq<Node>, n: Seq<u8>)
    ensures
        0 <= position(es, n) <= es.len(),
        forall|j: int| 0 <= j < position(es, n) ==> name_lt(#[trigger] es[j].name(), n),
        position(es, n) < es.len() ==> !name_lt(es[position(es, n)].name(), n),
    decreases es.len(),
{
    if es.len() > 0 && name_lt(es[0].name(), n) {
        let rest = es.drop_first();
        lemma_position(rest, n);
        assert forall|j: int| 0 <= j < position(es, n) implies name_lt(#[trigger] es[j].name(), n) by {
            if j > 0 {
                assert(es[j] == rest[j - 1]);
            }
        }
        if position(es, n) < es.len() {
            assert(es[position(es, n)] == rest[position(rest, n)]);
        }
    }
}

/// A child put into well-formed children is found under its name, and the children stay
/// well formed.
pub proof fn lemma_put_then_find(es: Seq<Node>, c: Node)
    requires
        sorted(es),
        forall|j: int| 0 <= j < es.len() ==> (#[trigger] es[j]).wf(),
        c.wf(),
    ensures
        has_child(put_child(es, c), c.name()),
        put_child(es, c)[child_index(put_child(es, c), c.name())] == c,
        sorted(put_child(es, c)),
        forall|j: int| 0 <= j < put_child(es, c).len() ==> (#[trigger] put_child(es, c)[j]).wf(),
{
    lemma_position(es, c.name());
    let k = position(es, c.name());
    lemma_put_child_at(es, c, k);
    lemma_put_child_wf(es, c, k);
    lemma_sorted_unique(put_child(es, c), k);
}

/// Putting a child into the directory that a path leads to: the path, one name longer, then
/// leads to that child.
pub proof fn lemma_put_then_resolve(t: Node, parent: Seq<Seq<u8>>, c: Node)
    requires
        t.wf(),
        c.wf(),
        resolve(t, parent) is Ok,
        (resolve(t, parent)->Ok_0) is Directory,
    ensures
        ({
            let d = resolve(t, parent)->Ok_0;
            let t2 = replace_at(t, parent, with_entries(d, put_child(d->entries, c)));
            &&& t2.wf()
            &&& resolve(t2, parent) == Ok::<Node, Fault>(with_entries(d, put_child(d->entries, c)))
            &&& resolve(t2, parent.push(c.name())) == Ok::<Node, Fault>(c)
        }),
{
    let d = resolve(t, parent)->Ok_0;
    lemma_resolve_wf(t, parent);
    lemma_put_then_find(d->entries, c);
    let nd = with_entries(d, put_child(d->entries, c));
    lemma_replace_at_wf(t, parent, nd);
    lemma_resolve_replace_at(t, parent, nd);
    let t2 = replace_at(t, parent, nd);
    lemma_resolve_push(t2, parent, c.name());
    let one = seq![c.name()];
    assert(one[0] == c.name());
    assert(one.drop_first() =~= Seq::<Seq<u8>>::empty());
    assert(resolve(c, one.drop_first()) == Ok::<Node, Fault>(c));
    assert(resolve(nd, one) == Ok::<Node, Fault>(c));
}

} // verus!

verus! {

/// Taking out the child named `n` leaves no child of that name.
pub proof fn lemma_without_child_gone(es: Seq<Node>, n: Seq<u8>)
    requires
        sorted(es),
    ensures
        !has_child(without_child(es, n), n),
{
    if has_child(es, n) {
        let ci = child_index(es, n);
        let r = es.remove(ci);
        lemma_sorted_unique(es, ci);
        if has_child(r, n) {
            let j = child_index(r, n);
            let j2 = if j < ci { j } else { j + 1 };
            assert(r[j] == es[j2]);
            lemma_sorted_unique(es, j2);
        }
    }
}

/// Putting a child named otherwise adds no child named `n`.
pub proof fn lemma_put_child_other(es: Seq<Node>, c: Node, n: Seq<u8>)
    requires
        !has_child(es, n),
        c.name() != n,
    ensures
        !has_child(put_child(es, c), n),
{
    lemma_position(es, c.name());
    let k = position(es, c.name());
    lemma_put_child_at(es, c, k);
    let r = put_child(es, c);
    if has_child(r, n) {
        let j = child_index(r, n);
        if k < es.len() && es[k].name() == c.name() {
            if j != k {
                assert(r[j] == es[j]);
            }
        } else if j < k {
            assert(r[j] == es[j]);
        } else if j > k {
            assert(r[j] == es[j - 1]);
        }
    }
}

} // verus!

verus! {

/// Two paths that differ in some name they both have: neither lies below the other.
pub open spec fn diverge(a: Seq<Seq<u8>>, b: Seq<Seq<u8>>) -> bool {
    exists|i: int| 0 <= i < a.len() && i < b.len() && #[trigger] a[i] != b[i]
}

/// Replacing what one path leads to leaves what a diverging path leads to as it was.
pub proof fn lemma_resolve_elsewhere(n: Node, a: Seq<Seq<u8>>, b: Seq<Seq<u8>>, x: Node)
    requires
        n.wf(),
        resolve(n, a) is Ok,
        x.name() == (resolve(n, a)->Ok_0).name(),
        diverge(a, b),
    ensures
        resolve(replace_at(n, a, x), b) == resolve(n, b),
    decreases a.len(),
{
    let i = choose|i: int| 0 <= i < a.len() && i < b.len() && #[trigger] a[i] != b[i];
    let es = n->entries;
    let ci = child_index(es, a[0]);
    assert(0 <= ci < es.len());
    assert(es[ci].wf());
    let sub = replace_at(es[ci], a.drop_first(), x);
    let es2 = es.update(ci, sub);
    assert(resolve(n, a) == resolve(es[ci], a.drop_first()));
    assert(sub.name() == es[ci].name()) by {
        if a.drop_first().len() > 0 {
            lemma_replace_at_name(es[ci], a.drop_first(), x);
        }
    }
    assert forall|p: int, q: int| 0 <= p < q < es2.len() implies name_lt(
        #[trigger] es2[p].name(),
        #[trigger] es2[q].name(),
    ) by {
        assert(es2[p].name() == es[p].name());
        assert(es2[q].name() == es[q].name());
    }
    if a[0] == b[0] {
        assert(i > 0);
        assert(a.drop_first()[i - 1] != b.drop_first()[i - 1]);
        lemma_resolve_elsewhere(es[ci], a.drop_first(), b.drop_first(), x);
        lemma_sorted_unique(es, ci);
        lemma_sorted_unique(es2, ci);
    } else {
        if has_child(es, b[0]) {
            let cj = child_index(es, b[0]);
            lemma_sorted_unique(es, cj);
            assert(es2[cj] == es[cj]);
            lemma_sorted_unique(es2, cj);
        } else {
            if has_child(es2, b[0]) {
                let cj = child_index(es2, b[0]);
                assert(es2[cj].name() == es[cj].name());
            }
        }
    }
}

} // verus!
