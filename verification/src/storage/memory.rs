//! A storage engine that keeps its entries in memory, sorted by key.
use vstd::prelude::*;

use super::engine::{compare_bytes, entries_view, has_prefix, lemma_lex_irreflexive, lemma_lex_total, lemma_lex_transitive, lex_lt, starts_with, Cmp, Engine};
use crate::error::Result;

verus! {

/// A copy of a byte string.
pub fn copy_bytes(v: &Vec<u8>) -> (r: Vec<u8>)
    ensures
        r@ == v@,
{
    let mut r: Vec<u8> = Vec::new();
    let mut i: usize = 0;
    while i < v.len()
        invariant
            i <= v@.len(),
            r@ == v@.take(i as int),
        decreases v@.len() - i,
    {
        r.push(v[i]);
        i = i + 1;
        assert(r@ =~= v@.take(i as int));
    }
    assert(v@.take(i as int) =~= v@);
    r
}

/// An in-memory engine: its entries in strictly ascending key order.
pub struct MemoryEngine {
    entries: Vec<(Vec<u8>, Vec<u8>)>,
    map: Ghost<Map<Seq<u8>, Seq<u8>>>,
}

impl MemoryEngine {
    pub fn new() -> (e: Self)
        ensures
            e.wf(),
            e.contents() == Map::<Seq<u8>, Seq<u8>>::empty(),
            e.infallible(),
    {
        MemoryEngine { entries: Vec::new(), map: Ghost(Map::empty()) }
    }

    /// The first position whose key is not below `key`, and whether the key
    /// found there is `key`.
    fn find(&self, key: &[u8]) -> (r: (bool, usize))
        requires
            self.wf(),
        ensures
            r.1 <= self.entries@.len(),
            forall|j: int| 0 <= j < r.1 ==> lex_lt(#[trigger] self.entries@[j].0@, key@),
            r.1 < self.entries@.len() ==> !lex_lt(self.entries@[r.1 as int].0@, key@),
            r.0 <==> r.1 < self.entries@.len() && self.entries@[r.1 as int].0@ == key@,
            !r.0 ==> !self.map@.contains_key(key@),
            r.0 ==> self.map@[key@] == self.entries@[r.1 as int].1@,
    {
        let mut i: usize = 0;
        while i < self.entries.len()
            invariant
                self.wf(),
                i <= self.entries@.len(),
                forall|j: int| 0 <= j < i ==> lex_lt(#[trigger] self.entries@[j].0@, key@),
            decreases self.entries@.len() - i,
        {
            match compare_bytes(self.entries[i].0.as_slice(), key) {
                Cmp::Less => {
                    i = i + 1;
                },
                Cmp::Equal => {
                    return (true, i);
                },
                Cmp::Greater => {
                    proof {
                        lemma_lex_total(self.entries@[i as int].0@, key@);
                        self.lemma_absent_beyond(i as int, key@);
                    }
                    return (false, i);
                },
            }
        }
        proof {
            if self.map@.contains_key(key@) {
                let k = choose|k: int| 0 <= k < self.entries@.len() && self.entries@[k].0@ == key@;
                lemma_lex_irreflexive(key@);
                assert(lex_lt(self.entries@[k].0@, key@));
            }
        }
        (false, i)
    }

    proof fn lemma_absent_beyond(&self, i: int, key: Seq<u8>)
        requires
            self.wf(),
            0 <= i < self.entries@.len(),
            lex_lt(key, self.entries@[i].0@),
            forall|j: int| 0 <= j < i ==> lex_lt(#[trigger] self.entries@[j].0@, key),
        ensures
            !self.map@.contains_key(key),
    {
        if self.map@.contains_key(key) {
            let k = choose|k: int| 0 <= k < self.entries@.len() && self.entries@[k].0@ == key;
            lemma_lex_irreflexive(key);
            if k > i {
                lemma_lex_transitive(key, self.entries@[i].0@, self.entries@[k].0@);
            } else if k == i {
            } else {
                assert(lex_lt(self.entries@[k].0@, key));
            }
        }
    }
}

impl Engine for MemoryEngine {
    closed spec fn contents(&self) -> Map<Seq<u8>, Seq<u8>> {
        self.map@
    }

    closed spec fn wf(&self) -> bool {
        &&& forall|i: int, j: int|
            0 <= i < j < self.entries@.len() ==> lex_lt(
                #[trigger] self.entries@[i].0@,
                #[trigger] self.entries@[j].0@,
            )
        &&& forall|i: int|
            0 <= i < self.entries@.len() ==> {
                &&& self.map@.contains_key(#[trigger] self.entries@[i].0@)
                &&& self.map@[self.entries@[i].0@] == self.entries@[i].1@
            }
        &&& forall|k: Seq<u8>|
            self.map@.contains_key(k) ==> exists|i: int|
                0 <= i < self.entries@.len() && #[trigger] self.entries@[i].0@ == k
    }

    open spec fn infallible(&self) -> bool {
        true
    }

    fn set(&mut self, key: Vec<u8>, value: Vec<u8>) -> (r: Result<()>) {
        let (found, idx) = self.find(key.as_slice());
        let ghost old_entries = self.entries@;
        let ghost k = key@;
        let ghost v = value@;
        if found {
            self.entries.set(idx, (key, value));
            self.map = Ghost(self.map@.insert(k, v));
            assert forall|i: int, j: int|
                0 <= i < j < self.entries@.len() implies lex_lt(
                #[trigger] self.entries@[i].0@,
                #[trigger] self.entries@[j].0@,
            ) by {
                assert(old_entries[i].0@ == self.entries@[i].0@);
                assert(old_entries[j].0@ == self.entries@[j].0@);
            }
            assert forall|i: int| 0 <= i < self.entries@.len() implies {
                &&& self.map@.contains_key(#[trigger] self.entries@[i].0@)
                &&& self.map@[self.entries@[i].0@] == self.entries@[i].1@
            } by {
                if i != idx {
                    lemma_lex_total(old_entries[i].0@, k);
                    if i < idx {
                        assert(lex_lt(old_entries[i].0@, old_entries[idx as int].0@));
                    } else {
                        assert(lex_lt(old_entries[idx as int].0@, old_entries[i].0@));
                    }
                    lemma_lex_irreflexive(k);
                }
            }
            assert forall|kk: Seq<u8>| self.map@.contains_key(kk) implies exists|i: int|
                0 <= i < self.entries@.len() && #[trigger] self.entries@[i].0@ == kk by {
                if kk == k {
                    assert(self.entries@[idx as int].0@ == kk);
                } else {
                    let i = choose|i: int| 0 <= i < old_entries.len() && old_entries[i].0@ == kk;
                    assert(self.entries@[i].0@ == kk);
                }
            }
        } else {
            self.entries.insert(idx, (key, value));
            self.map = Ghost(self.map@.insert(k, v));
            proof {
                if idx < old_entries.len() {
                    lemma_lex_total(old_entries[idx as int].0@, k);
                }
            }
            assert forall|i: int, j: int|
                0 <= i < j < self.entries@.len() implies lex_lt(
                #[trigger] self.entries@[i].0@,
                #[trigger] self.entries@[j].0@,
            ) by {
                if j < idx {
                    assert(lex_lt(old_entries[i].0@, old_entries[j].0@));
                } else if j == idx {
                    assert(lex_lt(old_entries[i].0@, k));
                } else if i < idx {
                    assert(lex_lt(old_entries[i].0@, k));
                    assert(lex_lt(k, old_entries[idx as int].0@));
                    if j - 1 > idx {
                        assert(lex_lt(old_entries[idx as int].0@, old_entries[j - 1].0@));
                        lemma_lex_transitive(k, old_entries[idx as int].0@, old_entries[j - 1].0@);
                    }
                    lemma_lex_transitive(old_entries[i].0@, k, old_entries[j - 1].0@);
                } else if i == idx {
                    if j - 1 > idx {
                        assert(lex_lt(old_entries[idx as int].0@, old_entries[j - 1].0@));
                        lemma_lex_transitive(k, old_entries[idx as int].0@, old_entries[j - 1].0@);
                    }
                } else {
                    assert(lex_lt(old_entries[i - 1].0@, old_entries[j - 1].0@));
                }
            }
            assert forall|i: int| 0 <= i < self.entries@.len() implies {
                &&& self.map@.contains_key(#[trigger] self.entries@[i].0@)
                &&& self.map@[self.entries@[i].0@] == self.entries@[i].1@
            } by {
                if i < idx {
                    assert(self.entries@[i] == old_entries[i]);
                    lemma_lex_irreflexive(k);
                } else if i > idx {
                    assert(self.entries@[i] == old_entries[i - 1]);
                    if old_entries[i - 1].0@ == k {
                        assert(old_entries[i - 1].0@ == k);
                    }
                }
            }
            assert forall|kk: Seq<u8>| self.map@.contains_key(kk) implies exists|i: int|
                0 <= i < self.entries@.len() && #[trigger] self.entries@[i].0@ == kk by {
                if kk == k {
                    assert(self.entries@[idx as int].0@ == kk);
                } else {
                    let i = choose|i: int| 0 <= i < old_entries.len() && old_entries[i].0@ == kk;
                    if i < idx {
                        assert(self.entries@[i].0@ == kk);
                    } else {
                        assert(self.entries@[i + 1].0@ == kk);
                    }
                }
            }
        }
        Ok(())
    }

    fn get(&mut self, key: Vec<u8>) -> (r: Result<Option<Vec<u8>>>) {
        let (found, idx) = self.find(key.as_slice());
        if found {
            Ok(Some(copy_bytes(&self.entries[idx].1)))
        } else {
            Ok(None)
        }
    }

    fn delete(&mut self, key: Vec<u8>) -> (r: Result<()>) {
        let (found, idx) = self.find(key.as_slice());
        let ghost old_entries = self.entries@;
        let ghost k = key@;
        if found {
            self.entries.remove(idx);
            self.map = Ghost(self.map@.remove(k));
            assert forall|i: int, j: int|
                0 <= i < j < self.entries@.len() implies lex_lt(
                #[trigger] self.entries@[i].0@,
                #[trigger] self.entries@[j].0@,
            ) by {
                let oi = if i < idx { i } else { i + 1 };
                let oj = if j < idx { j } else { j + 1 };
                assert(lex_lt(old_entries[oi].0@, old_entries[oj].0@));
            }
            assert forall|i: int| 0 <= i < self.entries@.len() implies {
                &&& self.map@.contains_key(#[trigger] self.entries@[i].0@)
                &&& self.map@[self.entries@[i].0@] == self.entries@[i].1@
            } by {
                let oi = if i < idx { i } else { i + 1 };
                assert(self.entries@[i] == old_entries[oi]);
                lemma_lex_irreflexive(k);
                if oi < idx {
                    assert(lex_lt(old_entries[oi].0@, old_entries[idx as int].0@));
                } else {
                    assert(lex_lt(old_entries[idx as int].0@, old_entries[oi].0@));
                }
            }
            assert forall|kk: Seq<u8>| self.map@.contains_key(kk) implies exists|i: int|
                0 <= i < self.entries@.len() && #[trigger] self.entries@[i].0@ == kk by {
                let i = choose|i: int| 0 <= i < old_entries.len() && old_entries[i].0@ == kk;
                if i < idx {
                    assert(self.entries@[i].0@ == kk);
                } else {
                    assert(self.entries@[i - 1].0@ == kk);
                }
            }
        } else {
            assert(self.map@.remove(k) =~= self.map@);
        }
        Ok(())
    }

    fn scan_prefix(&mut self, prefix: Vec<u8>) -> (r: Result<Vec<(Vec<u8>, Vec<u8>)>>) {
        let mut out: Vec<(Vec<u8>, Vec<u8>)> = Vec::new();
        let ghost picked: Seq<int> = Seq::empty();
        let mut i: usize = 0;
        while i < self.entries.len()
            invariant
                self.wf(),
                i <= self.entries@.len(),
                picked.len() == out@.len(),
                forall|a: int, b: int| 0 <= a < b < picked.len() ==> picked[a] < picked[b],
                forall|a: int| 0 <= a < picked.len() ==> 0 <= #[trigger] picked[a] < i,
                forall|a: int|
                    0 <= a < picked.len() ==> (#[trigger] out@[a]).0@ == self.entries@[picked[a]].0@
                        && out@[a].1@ == self.entries@[picked[a]].1@,
                forall|a: int|
                    0 <= a < picked.len() ==> has_prefix(#[trigger] out@[a].0@, prefix@),
                forall|j: int|
                    0 <= j < i && has_prefix(#[trigger] self.entries@[j].0@, prefix@) ==> exists|
                        a: int,
                    | 0 <= a < picked.len() && picked[a] == j,
            decreases self.entries@.len() - i,
        {
            let ghost picked0 = picked;
            let took = starts_with(self.entries[i].0.as_slice(), prefix.as_slice());
            if took {
                let k = copy_bytes(&self.entries[i].0);
                let v = copy_bytes(&self.entries[i].1);
                let ghost old_out = out@;
                let ghost old_picked = picked;
                out.push((k, v));
                proof {
                    picked = picked.push(i as int);
                    assert forall|a: int| 0 <= a < old_picked.len() implies out@[a] == old_out[a]
                        && picked[a] == old_picked[a] by {}
                }
            }
            assert forall|j: int|
                0 <= j < i + 1 && has_prefix(#[trigger] self.entries@[j].0@, prefix@) implies exists|
                a: int,
            | 0 <= a < picked.len() && picked[a] == j by {
                if j == i {
                    assert(picked[picked.len() - 1] == j);
                } else {
                    let a = choose|a: int| 0 <= a < picked0.len() && picked0[a] == j;
                    assert(picked[a] == j);
                }
            }
            i = i + 1;
        }
        let ghost ev = entries_view(out@);
        assert forall|a: int, b: int| 0 <= a < b < ev.len() implies lex_lt(ev[a].0, ev[b].0) by {
            assert(lex_lt(self.entries@[picked[a]].0@, self.entries@[picked[b]].0@));
        }
        assert forall|a: int| 0 <= a < ev.len() implies {
            &&& has_prefix(#[trigger] ev[a].0, prefix@)
            &&& self.contents().contains_key(ev[a].0)
            &&& self.contents()[ev[a].0] == ev[a].1
        } by {
            assert(ev[a].0 == out@[a].0@);
            assert(self.map@.contains_key(self.entries@[picked[a]].0@));
        }
        assert forall|k: Seq<u8>|
            self.contents().contains_key(k) && has_prefix(k, prefix@) implies exists|a: int|
            0 <= a < ev.len() && #[trigger] ev[a].0 == k by {
            let j = choose|j: int| 0 <= j < self.entries@.len() && self.entries@[j].0@ == k;
            assert(has_prefix(self.entries@[j].0@, prefix@));
            let a = choose|a: int| 0 <= a < picked.len() && picked[a] == j;
            assert(ev[a].0 == k);
        }
        Ok(out)
    }
}

} // verus!
