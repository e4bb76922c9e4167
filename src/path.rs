use vstd::prelude::*;

use vstd::string::StringSliceAdditionalSpecFns;

use crate::error::{Error, Fault};

verus! {

/// The byte `/`, which separates the components of a path.
pub const SEPARATOR: u8 = 0x2f;

/// The byte `.`.
pub const DOT: u8 = 0x2e;

/// A path is absolute when it starts at the root, with a separator.
pub open spec fn is_absolute(b: Seq<u8>) -> bool {
    b.len() > 0 && b[0] == SEPARATOR
}

/// Reads `b` left to right: the components finished so far, and the component being read.
/// Runs of separators delimit components; empty components are not kept.
pub open spec fn scan(b: Seq<u8>) -> (Seq<Seq<u8>>, Seq<u8>)
    decreases b.len(),
{
    if b.len() == 0 {
        (Seq::empty(), Seq::empty())
    } else {
        let (done, cur) = scan(b.drop_last());
        if b.last() == SEPARATOR {
            if cur.len() == 0 {
                (done, Seq::empty())
            } else {
                (done.push(cur), Seq::empty())
            }
        } else {
            (done, cur.push(b.last()))
        }
    }
}

/// The non-empty components of `b`, in order.
pub open spec fn components(b: Seq<u8>) -> Seq<Seq<u8>> {
    let (done, cur) = scan(b);
    if cur.len() == 0 {
        done
    } else {
        done.push(cur)
    }
}

/// The component `.`.
pub open spec fn is_current(c: Seq<u8>) -> bool {
    c == seq![DOT]
}

/// The component `..`.
pub open spec fn is_up(c: Seq<u8>) -> bool {
    c == seq![DOT, DOT]
}

/// A component that names an entry: neither `.` nor `..`.
pub open spec fn is_name(c: Seq<u8>) -> bool {
    !is_current(c) && !is_up(c)
}

/// One component applied to a stack of names: `.` keeps it, `..` pops a name (none when
/// there is none to pop), a name is pushed.
pub open spec fn step(names: Seq<Seq<u8>>, c: Seq<u8>) -> Option<Seq<Seq<u8>>> {
    if is_current(c) {
        Some(names)
    } else if is_up(c) {
        if names.len() == 0 {
            None
        } else {
            Some(names.drop_last())
        }
    } else {
        Some(names.push(c))
    }
}

/// The names that the components come to, applied left to right from the root; `None`
/// when a `..` would climb above the root.
pub open spec fn normalize(cs: Seq<Seq<u8>>) -> Option<Seq<Seq<u8>>>
    decreases cs.len(),
{
    if cs.len() == 0 {
        Some(Seq::empty())
    } else {
        match normalize(cs.drop_last()) {
            None => None,
            Some(names) => step(names, cs.last()),
        }
    }
}

/// The canonical names of an absolute path, or why it has none.
pub open spec fn clean(b: Seq<u8>) -> Result<Seq<Seq<u8>>, Fault> {
    if !is_absolute(b) {
        Err(Fault::NotAbsolute(b))
    } else {
        match normalize(components(b)) {
            None => Err(Fault::NoParent(b)),
            Some(names) => Ok(names),
        }
    }
}

/// Each name preceded by a separator.
pub open spec fn join_names(names: Seq<Seq<u8>>) -> Seq<u8>
    decreases names.len(),
{
    if names.len() == 0 {
        Seq::empty()
    } else {
        join_names(names.drop_last()).push(SEPARATOR) + names.last()
    }
}

/// The path written for a sequence of names: `/` for the root.
pub open spec fn render(names: Seq<Seq<u8>>) -> Seq<u8> {
    if names.len() == 0 {
        seq![SEPARATOR]
    } else {
        join_names(names)
    }
}

/// The canonical form of an absolute path, written out.
pub open spec fn canon(b: Seq<u8>) -> Result<Seq<u8>, Fault> {
    match clean(b) {
        Ok(names) => Ok(render(names)),
        Err(f) => Err(f),
    }
}

/// The path `p` read against the directory `base`: `p` itself when absolute, else `p`
/// appended to `base` with a separator between them.
pub open spec fn joined(base: Seq<u8>, p: Seq<u8>) -> Seq<u8> {
    if is_absolute(p) {
        p
    } else if base.len() > 0 && base.last() == SEPARATOR {
        base + p
    } else {
        base.push(SEPARATOR) + p
    }
}

/// The bytes of each name.
pub open spec fn views(v: Seq<Vec<u8>>) -> Seq<Seq<u8>> {
    v.map_values(|x: Vec<u8>| x@)
}

proof fn lemma_scan_parts(b: Seq<u8>)
    ensures
        forall|i: int|
            0 <= i < scan(b).0.len() ==> #[trigger] scan(b).0[i].len() > 0 && no_separator(
                scan(b).0[i],
            ),
        no_separator(scan(b).1),
    decreases b.len(),
{
    if b.len() > 0 {
        lemma_scan_parts(b.drop_last());
        let (done, cur) = scan(b.drop_last());
        if b.last() != SEPARATOR {
            assert forall|k: int| 0 <= k < cur.push(b.last()).len() implies cur.push(b.last())[k]
                != SEPARATOR by {
                if k < cur.len() {
                    assert(cur[k] != SEPARATOR);
                }
            }
        }
    }
}

/// No byte of `c` is a separator.
pub open spec fn no_separator(c: Seq<u8>) -> bool {
    forall|i: int| 0 <= i < c.len() ==> c[i] != SEPARATOR
}

proof fn lemma_components_parts(b: Seq<u8>)
    ensures
        forall|i: int|
            0 <= i < components(b).len() ==> #[trigger] components(b)[i].len() > 0
                && no_separator(components(b)[i]),
{
    lemma_scan_parts(b);
    let (done, cur) = scan(b);
    if cur.len() > 0 {
        assert forall|i: int| 0 <= i < components(b).len() implies #[trigger] components(b)[i].len()
            > 0 && no_separator(components(b)[i]) by {
            if i < done.len() {
                assert(components(b)[i] == done[i]);
            }
        }
    }
}

proof fn lemma_normalize_names(cs: Seq<Seq<u8>>)
    requires
        forall|i: int| 0 <= i < cs.len() ==> is_name(#[trigger] cs[i]),
    ensures
        normalize(cs) == Some(cs),
    decreases cs.len(),
{
    if cs.len() > 0 {
        lemma_normalize_names(cs.drop_last());
        assert(is_name(cs[cs.len() - 1]));
        assert(cs.drop_last().push(cs.last()) =~= cs);
    }
}

proof fn lemma_scan_append(x: Seq<u8>, c: Seq<u8>)
    requires
        no_separator(c),
    ensures
        scan(x + c) == (scan(x).0, scan(x).1 + c),
    decreases c.len(),
{
    if c.len() == 0 {
        assert(x + c =~= x);
        assert(scan(x).1 + c =~= scan(x).1);
    } else {
        lemma_scan_append(x, c.drop_last());
        assert((x + c).drop_last() =~= x + c.drop_last());
        assert((x + c).last() == c.last());
        assert(c[c.len() - 1] != SEPARATOR);
        assert((scan(x).1 + c.drop_last()).push(c.last()) =~= scan(x).1 + c);
    }
}

proof fn lemma_scan_join(cs: Seq<Seq<u8>>)
    requires
        cs.len() > 0,
        forall|i: int| 0 <= i < cs.len() ==> #[trigger] cs[i].len() > 0 && no_separator(cs[i]),
    ensures
        scan(join_names(cs)) == (cs.drop_last(), cs.last()),
        join_names(cs).len() > 0 && join_names(cs)[0] == SEPARATOR,
    decreases cs.len(),
{
    let front = cs.drop_last();
    let j = join_names(front);
    assert(j.push(SEPARATOR).drop_last() =~= j);
    if front.len() == 0 {
        assert(j =~= Seq::<u8>::empty());
        assert(scan(j) == (Seq::<Seq<u8>>::empty(), Seq::<u8>::empty()));
        assert(j.push(SEPARATOR).last() == SEPARATOR);
        assert(scan(j.push(SEPARATOR)) == (Seq::<Seq<u8>>::empty(), Seq::<u8>::empty()));
    } else {
        assert forall|i: int| 0 <= i < front.len() implies #[trigger] front[i].len() > 0
            && no_separator(front[i]) by {
            assert(front[i] == cs[i]);
        }
        lemma_scan_join(front);
        assert(front.drop_last().push(front.last()) =~= front);
        assert(scan(j.push(SEPARATOR)) == (front, Seq::<u8>::empty()));
    }
    assert(cs[cs.len() - 1].len() > 0 && no_separator(cs[cs.len() - 1]));
    lemma_scan_append(j.push(SEPARATOR), cs.last());
    assert(Seq::<u8>::empty() + cs.last() =~= cs.last());
}

proof fn lemma_components_render(cs: Seq<Seq<u8>>)
    requires
        forall|i: int| 0 <= i < cs.len() ==> #[trigger] cs[i].len() > 0 && no_separator(cs[i]),
    ensures
        components(render(cs)) == cs,
        is_absolute(render(cs)),
{
    if cs.len() == 0 {
        assert(seq![SEPARATOR].drop_last() =~= Seq::<u8>::empty());
        assert(scan(Seq::<u8>::empty()) == (Seq::<Seq<u8>>::empty(), Seq::<u8>::empty()));
        assert(seq![SEPARATOR].last() == SEPARATOR);
        assert(scan(seq![SEPARATOR]) == (Seq::<Seq<u8>>::empty(), Seq::<u8>::empty()));
        assert(cs =~= Seq::<Seq<u8>>::empty());
    } else {
        lemma_scan_join(cs);
        assert(cs.drop_last().push(cs.last()) =~= cs);
    }
}

/// Canonicalizing is idempotent: an absolute path none of whose components is `.` or `..`
/// has a canonical form, and that form is its own canonical form.
pub proof fn canon_idempotent(b: Seq<u8>)
    requires
        is_absolute(b),
        forall|i: int| 0 <= i < components(b).len() ==> is_name(#[trigger] components(b)[i]),
    ensures
        canon(b) is Ok,
        canon(canon(b)->Ok_0) == canon(b),
{
    let cs = components(b);
    lemma_normalize_names(cs);
    lemma_components_parts(b);
    lemma_components_render(cs);
}

/// Bytes copied into a vector of their own.
pub fn copy_bytes(b: &[u8]) -> (r: Vec<u8>)
    ensures
        r@ == b@,
{
    let mut r: Vec<u8> = Vec::new();
    let mut i: usize = 0;
    while i < b.len()
        invariant
            0 <= i <= b@.len(),
            r@ == b@.take(i as int),
        decreases b@.len() - i,
    {
        r.push(b[i]);
        i = i + 1;
        assert(r@ =~= b@.take(i as int));
    }
    assert(b@.take(b@.len() as int) =~= b@);
    r
}

/// Appends the bytes of `src` to `dst`.
pub fn append_bytes(dst: &mut Vec<u8>, src: &[u8])
    ensures
        final(dst)@ == old(dst)@ + src@,
{
    let mut i: usize = 0;
    while i < src.len()
        invariant
            0 <= i <= src@.len(),
            dst@ == old(dst)@ + src@.take(i as int),
        decreases src@.len() - i,
    {
        dst.push(src[i]);
        i = i + 1;
        assert(dst@ =~= old(dst)@ + src@.take(i as int));
    }
    assert(src@.take(src@.len() as int) =~= src@);
}

/// `p` read against the directory `base`, as [`joined`] says.
pub fn join_path(base: &[u8], p: &[u8]) -> (r: Vec<u8>)
    ensures
        r@ == joined(base@, p@),
{
    if p.len() > 0 && p[0] == SEPARATOR {
        return copy_bytes(p);
    }
    let mut r = copy_bytes(base);
    let n = r.len();
    if n == 0 || r[n - 1] != SEPARATOR {
        r.push(SEPARATOR);
    }
    append_bytes(&mut r, p);
    r
}

/// Applies one component to the stack of names; `false` where `..` finds no name to pop,
/// the stack then being left as it was.
fn apply_component(names: &mut Vec<Vec<u8>>, c: Vec<u8>) -> (ok: bool)
    ensures
        ok <==> step(views(old(names)@), c@) is Some,
        ok ==> step(views(old(names)@), c@) == Some(views(final(names)@)),
{
    let n = c.len();
    if n == 1 && c[0] == DOT {
        assert(c@ =~= seq![DOT]);
        true
    } else if n == 2 && c[0] == DOT && c[1] == DOT {
        assert(c@ =~= seq![DOT, DOT]);
        if names.len() == 0 {
            false
        } else {
            let _ = names.pop();
            assert(views(names@) =~= views(old(names)@).drop_last());
            true
        }
    } else {
        assert(!is_current(c@)) by {
            if is_current(c@) {
                assert(c@.len() == 1 && c@[0] == DOT);
            }
        }
        assert(!is_up(c@)) by {
            if is_up(c@) {
                assert(c@.len() == 2 && c@[0] == DOT && c@[1] == DOT);
            }
        }
        names.push(c);
        assert(views(names@) =~= views(old(names)@).push(c@));
        true
    }
}

/// The canonical names of the absolute path `b`.
pub fn clean_components(b: &[u8]) -> (r: Result<Vec<Vec<u8>>, Error>)
    ensures
        match r {
            Ok(names) => clean(b@) == Ok::<Seq<Seq<u8>>, Fault>(views(names@)),
            Err(e) => clean(b@) == Err::<Seq<Seq<u8>>, Fault>(e@),
        },
{
    if b.len() == 0 || b[0] != SEPARATOR {
        return Err(Error::NotAbsolute(copy_bytes(b)));
    }
    let mut names: Vec<Vec<u8>> = Vec::new();
    let mut cur: Vec<u8> = Vec::new();
    let mut failed = false;
    let ghost mut done: Seq<Seq<u8>> = Seq::empty();
    let mut i: usize = 0;
    while i < b.len()
        invariant
            0 <= i <= b@.len(),
            scan(b@.take(i as int)) == (done, cur@),
            failed <==> normalize(done) is None,
            !failed ==> normalize(done) == Some(views(names@)),
        decreases b@.len() - i,
    {
        let ghost prev = b@.take(i as int);
        assert(b@.take(i + 1).drop_last() =~= prev);
        assert(b@.take(i + 1).last() == b@[i as int]);
        if b[i] == SEPARATOR {
            if cur.len() > 0 {
                let c = cur;
                cur = Vec::new();
                proof {
                    done = done.push(c@);
                    assert(done.drop_last() =~= done.drop_last());
                }
                assert(done.drop_last() == scan(prev).0);
                if !failed {
                    let ok = apply_component(&mut names, c);
                    if !ok {
                        failed = true;
                    }
                }
            }
        } else {
            cur.push(b[i]);
        }
        i = i + 1;
    }
    assert(b@.take(b@.len() as int) =~= b@);
    if cur.len() > 0 {
        let c = cur;
        proof {
            done = done.push(c@);
        }
        assert(done.drop_last() == scan(b@).0);
        if !failed {
            let ok = apply_component(&mut names, c);
            if !ok {
                failed = true;
            }
        }
    }
    assert(components(b@) == done);
    if failed {
        Err(Error::NoParent(copy_bytes(b)))
    } else {
        Ok(names)
    }
}

/// Writes out the path of a sequence of names: `/` for none.
pub fn render_names(names: &Vec<Vec<u8>>) -> (r: Vec<u8>)
    ensures
        r@ == render(views(names@)),
{
    let mut r: Vec<u8> = Vec::new();
    if names.len() == 0 {
        r.push(SEPARATOR);
        assert(r@ =~= seq![SEPARATOR]);
        return r;
    }
    let mut i: usize = 0;
    while i < names.len()
        invariant
            0 <= i <= names@.len(),
            r@ == join_names(views(names@).take(i as int)),
        decreases names@.len() - i,
    {
        r.push(SEPARATOR);
        append_bytes(&mut r, names[i].as_slice());
        i = i + 1;
        assert(views(names@).take(i as int).drop_last() =~= views(names@).take(i - 1));
    }
    assert(views(names@).take(names@.len() as int) =~= views(names@));
    r
}

/// Returns `path` with `.` and `..` worked out and repeated separators merged.
///
/// This is purely a matter of the text: `/a/../b` comes to `/b` whether or not `/a`
/// exists. Fails with `NotAbsolute` for a path that does not start at the root, and with
/// `NoParent` where `..` would climb above the root.
pub fn clean_path(path: &str) -> (r: Result<Vec<u8>, Error>)
    ensures
        crate::error::bytes_outcome(r) == canon(path.spec_bytes()),
{
    let b = path.as_bytes();
    match clean_components(b) {
        Ok(names) => Ok(render_names(&names)),
        Err(e) => Err(e),
    }
}

} // verus!
