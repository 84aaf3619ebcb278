//! The interface of a key/value storage engine.
use vstd::prelude::*;

use crate::error::Result;

verus! {

/// `a` sorts before `b`, byte by byte, a proper prefix first.
pub open spec fn lex_lt(a: Seq<u8>, b: Seq<u8>) -> bool
    decreases a.len(),
{
    if a.len() == 0 {
        b.len() > 0
    } else if b.len() == 0 {
        false
    } else if a[0] != b[0] {
        a[0] < b[0]
    } else {
        lex_lt(a.drop_first(), b.drop_first())
    }
}

pub proof fn lemma_lex_irreflexive(a: Seq<u8>)
    ensures
        !lex_lt(a, a),
    decreases a.len(),
{
    if a.len() > 0 {
        lemma_lex_irreflexive(a.drop_first());
    }
}

pub proof fn lemma_lex_total(a: Seq<u8>, b: Seq<u8>)
    ensures
        a == b || lex_lt(a, b) || lex_lt(b, a),
        !(lex_lt(a, b) && lex_lt(b, a)),
    decreases a.len(),
{
    if a.len() > 0 && b.len() > 0 {
        lemma_lex_total(a.drop_first(), b.drop_first());
        if a[0] == b[0] && a.drop_first() == b.drop_first() {
            assert(a =~= seq![a[0]] + a.drop_first());
            assert(b =~= seq![b[0]] + b.drop_first());
        }
    } else if a.len() == 0 && b.len() == 0 {
        assert(a =~= b);
    }
}

pub proof fn lemma_lex_transitive(a: Seq<u8>, b: Seq<u8>, c: Seq<u8>)
    requires
        lex_lt(a, b),
        lex_lt(b, c),
    ensures
        lex_lt(a, c),
    decreases a.len(),
{
    if a.len() > 0 && b.len() > 0 && c.len() > 0 && a[0] == b[0] && b[0] == c[0] {
        lemma_lex_transitive(a.drop_first(), b.drop_first(), c.drop_first());
    }
}

/// `p` is a prefix of `k`.
pub open spec fn has_prefix(k: Seq<u8>, p: Seq<u8>) -> bool {
    p.len() <= k.len() && k.subrange(0, p.len() as int) == p
}

/// The three outcomes of comparing two byte strings.
#[derive(PartialEq, Eq, Structural, Clone, Copy, Debug)]
pub enum Cmp {
    Less,
    Equal,
    Greater,
}

/// Compares two byte strings in `lex_lt` order.
pub fn compare_bytes(a: &[u8], b: &[u8]) -> (c: Cmp)
    ensures
        c == Cmp::Less <==> lex_lt(a@, b@),
        c == Cmp::Equal <==> a@ == b@,
        c == Cmp::Greater <==> lex_lt(b@, a@),
{
    proof {
        lemma_lex_total(a@, b@);
        lemma_lex_irreflexive(a@);
    }
    let mut i: usize = 0;
    assert(a@.skip(0) =~= a@);
    assert(b@.skip(0) =~= b@);
    while i < a.len() && i < b.len()
        invariant
            i <= a@.len(),
            i <= b@.len(),
            a@.take(i as int) == b@.take(i as int),
            lex_lt(a@, b@) == lex_lt(a@.skip(i as int), b@.skip(i as int)),
            lex_lt(b@, a@) == lex_lt(b@.skip(i as int), a@.skip(i as int)),
        decreases a@.len() - i,
    {
        assert(a@.skip(i as int).drop_first() =~= a@.skip(i + 1));
        assert(b@.skip(i as int).drop_first() =~= b@.skip(i + 1));
        if a[i] < b[i] {
            return Cmp::Less;
        }
        if a[i] > b[i] {
            return Cmp::Greater;
        }
        assert(a@.take(i + 1) =~= a@.take(i as int).push(a@[i as int]));
        assert(b@.take(i + 1) =~= b@.take(i as int).push(b@[i as int]));
        i = i + 1;
    }
    if a.len() == b.len() {
        assert(a@ =~= a@.take(i as int));
        assert(b@ =~= b@.take(i as int));
        Cmp::Equal
    } else if i == a.len() {
        Cmp::Less
    } else {
        Cmp::Greater
    }
}

/// Tells whether `p` is a prefix of `k`.
pub fn starts_with(k: &[u8], p: &[u8]) -> (r: bool)
    ensures
        r == has_prefix(k@, p@),
{
    if p.len() > k.len() {
        return false;
    }
    let mut i: usize = 0;
    while i < p.len()
        invariant
            p@.len() <= k@.len(),
            i <= p@.len(),
            k@.subrange(0, i as int) == p@.subrange(0, i as int),
        decreases p@.len() - i,
    {
        if k[i] != p[i] {
            assert(k@.subrange(0, p@.len() as int)[i as int] != p@[i as int]);
            return false;
        }
        assert(k@.subrange(0, i + 1) =~= k@.subrange(0, i as int).push(k@[i as int]));
        assert(p@.subrange(0, i + 1) =~= p@.subrange(0, i as int).push(p@[i as int]));
        i = i + 1;
    }
    assert(p@.subrange(0, i as int) =~= p@);
    true
}

/// The entries of a scan: their keys rise strictly, each entry is in
/// `contents` and has the prefix, and no entry of `contents` with the prefix
/// is left out.
pub open spec fn is_prefix_scan(
    contents: Map<Seq<u8>, Seq<u8>>,
    prefix: Seq<u8>,
    entries: Seq<(Seq<u8>, Seq<u8>)>,
) -> bool {
    &&& forall|i: int, j: int| 0 <= i < j < entries.len() ==> lex_lt(entries[i].0, entries[j].0)
    &&& forall|i: int|
        0 <= i < entries.len() ==> {
            &&& has_prefix(#[trigger] entries[i].0, prefix)
            &&& contents.contains_key(entries[i].0)
            &&& contents[entries[i].0] == entries[i].1
        }
    &&& forall|k: Seq<u8>|
        contents.contains_key(k) && has_prefix(k, prefix) ==> exists|i: int|
            0 <= i < entries.len() && #[trigger] entries[i].0 == k
}

/// The views of scanned entries.
pub open spec fn entries_view(v: Seq<(Vec<u8>, Vec<u8>)>) -> Seq<(Seq<u8>, Seq<u8>)> {
    v.map_values(|e: (Vec<u8>, Vec<u8>)| (e.0@, e.1@))
}

/// A key/value storage engine. Its contents are a finite map from byte
/// strings to byte strings; an engine that can fail (on disk, say) leaves its
/// contents as they were when an operation fails.
///
/// The contracts below hold of the engines that define the three spec
/// functions, and for the engines of this library (`MemoryEngine`) they are
/// checked. An engine that keeps the defaults, as one implemented outside
/// the verified code must (the one that keeps its data in files), has no
/// model: its `wf` is `false`, so no `requires` here admits it, and nothing
/// proved over `E: Engine` speaks of it.
pub trait Engine {
    /// What the engine holds; left open by default.
    open spec fn contents(&self) -> Map<Seq<u8>, Seq<u8>> {
        arbitrary()
    }

    /// The engine's own invariant; by default it never holds.
    open spec fn wf(&self) -> bool {
        false
    }

    /// Holds of an engine whose operations never fail; by default it does
    /// not.
    open spec fn infallible(&self) -> bool {
        false
    }

    fn set(&mut self, key: Vec<u8>, value: Vec<u8>) -> (r: Result<()>)
        requires
            old(self).wf(),
        ensures
            final(self).wf(),
            final(self).infallible() == old(self).infallible(),
            old(self).infallible() ==> r is Ok,
            r matches Err(e) ==> e is Internal,
            r is Ok ==> final(self).contents() == old(self).contents().insert(key@, value@),
            r is Err ==> final(self).contents() == old(self).contents(),
    ;

    fn get(&mut self, key: Vec<u8>) -> (r: Result<Option<Vec<u8>>>)
        requires
            old(self).wf(),
        ensures
            final(self).wf(),
            final(self).infallible() == old(self).infallible(),
            final(self).contents() == old(self).contents(),
            old(self).infallible() ==> r is Ok,
            r matches Err(e) ==> e is Internal,
            r matches Ok(v) ==> match v {
                Some(v) => old(self).contents().contains_key(key@) && old(self).contents()[key@]
                    == v@,
                None => !old(self).contents().contains_key(key@),
            },
    ;

    fn delete(&mut self, key: Vec<u8>) -> (r: Result<()>)
        requires
            old(self).wf(),
        ensures
            final(self).wf(),
            final(self).infallible() == old(self).infallible(),
            old(self).infallible() ==> r is Ok,
            r matches Err(e) ==> e is Internal,
            r is Ok ==> final(self).contents() == old(self).contents().remove(key@),
            r is Err ==> final(self).contents() == old(self).contents(),
    ;

    /// The entries whose keys start with `prefix`, in ascending key order.
    fn scan_prefix(&mut self, prefix: Vec<u8>) -> (r: Result<Vec<(Vec<u8>, Vec<u8>)>>)
        requires
            old(self).wf(),
        ensures
            final(self).wf(),
            final(self).infallible() == old(self).infallible(),
            final(self).contents() == old(self).contents(),
            old(self).infallible() ==> r is Ok,
            r matches Err(e) ==> e is Internal,
            r matches Ok(v) ==> is_prefix_scan(old(self).contents(), prefix@, entries_view(v@)),
    ;
}

} // verus!
