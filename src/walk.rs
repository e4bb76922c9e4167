use vstd::prelude::*;

use crate::entry::Borrowed;
use crate::node::Node;
use crate::path::{copy_bytes, join_path, joined, views};

verus! {

/// What a walk does after visiting an entry: go into it, or leave out what it holds. The
/// choice does not matter for a file.
#[derive(PartialEq, Eq, Structural, Debug, Clone, Copy)]
pub enum Walk {
    Skip,
    Continue,
}

impl From<()> for Walk {
    fn from(unit: ()) -> (r: Self)
        ensures
            r == Walk::Continue,
    {
        Walk::Continue
    }
}

impl vstd::std_specs::convert::FromSpecImpl<()> for Walk {
    open spec fn obeys_from_spec() -> bool {
        true
    }

    open spec fn from_spec(v: ()) -> Walk {
        Walk::Continue
    }
}

/// The number of children of a node.
pub open spec fn width(n: Node) -> int {
    match n {
        Node::Directory { entries, .. } => entries.len() as int,
        Node::File { .. } => 0,
    }
}

/// `paths`, with `skips` saying where the walk went no further, is a walk of `n` from
/// `path`: `path` first, then, unless skipped there or a file, a walk of each child in turn,
/// from `path` joined with the child's name.
pub open spec fn is_walk(n: Node, path: Seq<u8>, paths: Seq<Seq<u8>>, skips: Seq<bool>) -> bool
    decreases n, width(n) + 1,
{
    &&& paths.len() >= 1
    &&& skips.len() == paths.len()
    &&& paths[0] == path
    &&& if skips[0] || n is File {
        paths.len() == 1
    } else {
        walks_children(n, path, paths.drop_first(), skips.drop_first(), width(n))
    }
}

/// `paths`, with `skips`, are walks of the first `k` children of `n`, one after the other.
pub open spec fn walks_children(n: Node, path: Seq<u8>, paths: Seq<Seq<u8>>, skips: Seq<bool>, k: int) -> bool
    decreases n, k,
{
    &&& skips.len() == paths.len()
    &&& if k <= 0 {
        paths.len() == 0
    } else if n is Directory && k <= width(n) {
        exists|m: int|
            0 <= m <= paths.len() && walks_children(n, path, paths.take(m), skips.take(m), k - 1)
                && is_walk(
                n->entries[k - 1],
                joined(path, n->entries[k - 1].name()),
                #[trigger] paths.skip(m),
                skips.skip(m),
            )
    } else {
        false
    }
}

proof fn lemma_children_block(n: Node, path: Seq<u8>, paths: Seq<Seq<u8>>, skips: Seq<bool>, k: int, j: int)
    requires
        walks_children(n, path, paths, skips, k),
        0 <= j < k,
    ensures
        exists|a: int, b: int|
            0 <= a < b <= paths.len() && #[trigger] is_walk(
                n->entries[j],
                joined(path, n->entries[j].name()),
                paths.subrange(a, b),
                skips.subrange(a, b),
            ),
    decreases k,
{
    let m = choose|m: int|
        0 <= m <= paths.len() && walks_children(n, path, paths.take(m), skips.take(m), k - 1)
            && is_walk(
            n->entries[k - 1],
            joined(path, n->entries[k - 1].name()),
            #[trigger] paths.skip(m),
            skips.skip(m),
        );
    if j == k - 1 {
        assert(paths.subrange(m, paths.len() as int) =~= paths.skip(m));
        assert(skips.subrange(m, paths.len() as int) =~= skips.skip(m));
        assert(is_walk(
            n->entries[j],
            joined(path, n->entries[j].name()),
            paths.subrange(m, paths.len() as int),
            skips.subrange(m, paths.len() as int),
        ));
    } else {
        lemma_children_block(n, path, paths.take(m), skips.take(m), k - 1, j);
        let (a, b) = choose|a: int, b: int|
            0 <= a < b <= paths.take(m).len() && #[trigger] is_walk(
                n->entries[j],
                joined(path, n->entries[j].name()),
                paths.take(m).subrange(a, b),
                skips.take(m).subrange(a, b),
            );
        assert(paths.take(m).subrange(a, b) =~= paths.subrange(a, b));
        assert(skips.take(m).subrange(a, b) =~= skips.subrange(a, b));
    }
}

/// Skipping a directory: in a walk that goes into a directory, each child is walked over a
/// stretch of the visits that starts with the child's own path, so every child is visited;
/// and where the walk skips a child, that stretch is the one visit of the child, so nothing
/// that the child holds is visited.
pub proof fn walk_skip(n: Node, path: Seq<u8>, paths: Seq<Seq<u8>>, skips: Seq<bool>, j: int)
    requires
        is_walk(n, path, paths, skips),
        n is Directory,
        !skips[0],
        0 <= j < n->entries.len(),
    ensures
        exists|a: int, b: int|
            1 <= a < b <= paths.len() && #[trigger] is_walk(
                n->entries[j],
                joined(path, n->entries[j].name()),
                paths.subrange(a, b),
                skips.subrange(a, b),
            ) && paths[a] == joined(path, n->entries[j].name()) && (skips[a] ==> b == a + 1),
        paths.contains(joined(path, n->entries[j].name())),
{
    let ps = paths.drop_first();
    let ss = skips.drop_first();
    lemma_children_block(n, path, ps, ss, width(n), j);
    let (a, b) = choose|a: int, b: int|
        0 <= a < b <= ps.len() && #[trigger] is_walk(
            n->entries[j],
            joined(path, n->entries[j].name()),
            ps.subrange(a, b),
            ss.subrange(a, b),
        );
    assert(ps.subrange(a, b) =~= paths.subrange(a + 1, b + 1));
    assert(ss.subrange(a, b) =~= skips.subrange(a + 1, b + 1));
    assert(paths.subrange(a + 1, b + 1)[0] == paths[a + 1]);
    assert(skips.subrange(a + 1, b + 1)[0] == skips[a + 1]);
    assert(is_walk(
        n->entries[j],
        joined(path, n->entries[j].name()),
        paths.subrange(a + 1, b + 1),
        skips.subrange(a + 1, b + 1),
    ));
    assert(paths[a + 1] == joined(path, n->entries[j].name()));
}

/// `f` answered `Skip` (or, where `skip` is false, `Continue`) when handed `path`.
pub open spec fn answered<'b, F: Fn(&[u8], &Borrowed<'b>) -> Walk>(f: &F, path: Seq<u8>, skip: bool) -> bool {
    exists|q: &[u8], x: &Borrowed<'b>, w: Walk|
        q@ == path && w == (if skip {
            Walk::Skip
        } else {
            Walk::Continue
        }) && #[trigger] f.ensures((q, x), w)
}

/// Walks `entry`, visited at `path`, and what it holds: hands each entry to `f` in pre-order,
/// children in name order, and records its path in `out`; goes no further into an entry for
/// which `f` says `Skip`.
pub fn walk_into<'b, F: Fn(&[u8], &Borrowed<'b>) -> Walk>(
    entry: Borrowed<'b>,
    path: Vec<u8>,
    f: &F,
    out: &mut Vec<Vec<u8>>,
) -> (skips: Ghost<Seq<bool>>)
    requires
        forall|q: &[u8], x: &Borrowed<'b>| #[trigger] f.requires((q, x)),
        entry@.wf(),
    ensures
        final(out)@.len() > old(out)@.len(),
        final(out)@.take(old(out)@.len() as int) == old(out)@,
        is_walk(entry@, path@, views(final(out)@.skip(old(out)@.len() as int)), skips@),
        forall|k: int|
            0 <= k < skips@.len() ==> answered(
                f,
                final(out)@[old(out)@.len() + k]@,
                #[trigger] skips@[k],
            ),
    decreases entry@,
{
    let ghost before = out@;
    let ghost start = out@.len() as int;
    let decision = f(path.as_slice(), &entry);
    let skip = match decision {
        Walk::Skip => true,
        Walk::Continue => false,
    };
    assert(answered(f, path@, skip));
    out.push(copy_bytes(path.as_slice()));
    let ghost mut skips: Seq<bool> = seq![skip];
    assert(out@.take(start) =~= before);
    assert(views(out@.skip(start)) =~= seq![path@]);
    if !skip {
        if let Borrowed::Directory(d) = entry {
            let mut k: usize = 0;
            assert(views(out@.skip(start + 1)) =~= Seq::<Seq<u8>>::empty());
            assert(skips.drop_first() =~= Seq::<bool>::empty());
            while k < d.entries.len()
                invariant
                    0 <= k <= d.entries@.len(),
                    d@ == entry@,
                    d@.wf(),
                    forall|q: &[u8], x: &Borrowed<'b>| #[trigger] f.requires((q, x)),
                    0 <= start,
                    start == before.len(),
                    out@.len() >= start + 1,
                    out@.take(start) == before,
                    out@[start]@ == path@,
                    skips.len() == out@.len() - start,
                    skips[0] == skip,
                    !skip,
                    walks_children(d@, path@, views(out@.skip(start + 1)), skips.drop_first(), k as int),
                    forall|i: int| 0 <= i < skips.len() ==> answered(f, out@[start + i]@, #[trigger] skips[i]),
                decreases d.entries@.len() - k,
            {
                assert(d@->entries[k as int] == d.entries@[k as int]@);
                assert(d@->entries[k as int].wf());
                let child = Borrowed::from_entry(&d.entries[k]);
                let child_path = join_path(path.as_slice(), child.name());
                let ghost prev = out@;
                let ghost m = out@.len() - (start + 1);
                let g = walk_into(child, child_path, f, out);
                proof {
                    let done = views(prev.skip(start + 1));
                    let all = views(out@.skip(start + 1));
                    let ds0 = skips.drop_first();
                    skips = skips + g@;
                    assert forall|i: int| 0 <= i < prev.len() implies out@[i] == prev[i] by {
                        assert(out@.take(prev.len() as int)[i] == out@[i]);
                    }
                    assert(out@.skip(start + 1).take(m) =~= prev.skip(start + 1));
                    assert(all.take(m) =~= done);
                    assert(skips.drop_first().take(m) =~= ds0);
                    assert(all.skip(m) =~= views(out@.skip(prev.len() as int)));
                    assert(skips.drop_first().skip(m) =~= g@);
                    assert(out@.take(start) =~= prev.take(start));
                    assert(out@[start] == prev[start]);
                    assert(walks_children(d@, path@, all, skips.drop_first(), k + 1));
                    assert forall|i: int| 0 <= i < skips.len() implies answered(
                        f,
                        out@[start + i]@,
                        #[trigger] skips[i],
                    ) by {
                        if i < ds0.len() + 1 {
                            assert(out@[start + i] == prev[start + i]);
                            assert(skips[i] == (seq![skip] + ds0)[i]);
                        } else {
                            assert(skips[i] == g@[i - ds0.len() - 1]);
                            assert(start + i == prev.len() + (i - ds0.len() - 1));
                        }
                    }
                }
                k = k + 1;
            }
            assert(views(out@.skip(start)).drop_first() =~= views(out@.skip(start + 1)));
        }
    }
    assert(views(out@.skip(start))[0] == path@);
    Ghost(skips)
}

} // verus!
