//! Multi-version concurrency control over a key/value engine: snapshot
//! isolation, with conflicting writes refused.
use vstd::prelude::*;

use super::bincode_codec::{
    deserialize_option_bytes, deserialize_u64, lemma_le_u64_roundtrip, lemma_read_option_bytes,
    le_u64, option_bytes, read_option_bytes, serialize_option_bytes, serialize_u64, u64_le,
};
use super::engine::{entries_view, has_prefix, Engine};
use super::keycode::{u64_be, escape};
use super::mvcc_key::{
    key_bytes, lemma_key_bytes_injective, lemma_parse_key_bytes, lemma_parse_key_canonical,
    parse_key, prefix_bytes, MvccKeyModel, Version,
};
pub use super::mvcc_key::{MvccKey, MvccKeyPrefix};
use crate::error::{Error, Result};

verus! {

/// The key under which the next version is kept.
pub open spec fn next_version_key() -> Seq<u8> {
    key_bytes(MvccKeyModel::NextVersion)
}

/// The key that marks `v` as an active transaction.
pub open spec fn active_key(v: Version) -> Seq<u8> {
    key_bytes(MvccKeyModel::TxnActive(v))
}

/// The key that records that transaction `v` wrote `k`.
pub open spec fn write_key(v: Version, k: Seq<u8>) -> Seq<u8> {
    key_bytes(MvccKeyModel::TxnWrite(v, k))
}

/// The key of version `v` of the user key `k`.
pub open spec fn version_key(k: Seq<u8>, v: Version) -> Seq<u8> {
    key_bytes(MvccKeyModel::Version(k, v))
}

/// The version that the next transaction gets: 1 in an empty store.
pub open spec fn next_version(c: Map<Seq<u8>, Seq<u8>>) -> Option<Version> {
    if c.contains_key(next_version_key()) {
        if c[next_version_key()].len() >= 8 {
            Some(le_u64(c[next_version_key()]))
        } else {
            None
        }
    } else {
        Some(1)
    }
}

/// A store that holds only what the multi-version layer writes: every key
/// decodes, every version holds an optional value, and the version counter
/// holds a number.
pub open spec fn store_wf(c: Map<Seq<u8>, Seq<u8>>) -> bool {
    forall|k: Seq<u8>|
        #[trigger] c.contains_key(k) ==> {
            &&& parse_key(k) is Some
            &&& (parse_key(k) matches Some(MvccKeyModel::Version(_, _)) ==> read_option_bytes(
                c[k],
            ) is Some)
            &&& (parse_key(k) matches Some(MvccKeyModel::NextVersion) ==> c[k].len() >= 8)
        }
}

/// `c` without the keys that satisfy `f`.
pub open spec fn drop_where(c: Map<Seq<u8>, Seq<u8>>, f: spec_fn(Seq<u8>) -> bool) -> Map<
    Seq<u8>,
    Seq<u8>,
> {
    Map::new(|k: Seq<u8>| c.contains_key(k) && !f(k), |k: Seq<u8>| c[k])
}

/// The smallest element of a non-empty sequence.
pub open spec fn seq_min(s: Seq<Version>) -> Version
    decreases s.len(),
{
    if s.len() <= 1 {
        s[0]
    } else {
        let m = seq_min(s.drop_last());
        if s.last() < m {
            s.last()
        } else {
            m
        }
    }
}

pub proof fn lemma_seq_min(s: Seq<Version>)
    requires
        s.len() > 0,
    ensures
        s.contains(seq_min(s)),
        forall|i: int| 0 <= i < s.len() ==> seq_min(s) <= #[trigger] s[i],
    decreases s.len(),
{
    if s.len() > 1 {
        lemma_seq_min(s.drop_last());
        let m = seq_min(s.drop_last());
        let j = choose|j: int| 0 <= j < s.drop_last().len() && s.drop_last()[j] == m;
        assert(s[j] == m);
        assert forall|i: int| 0 <= i < s.len() implies seq_min(s) <= #[trigger] s[i] by {
            if i < s.len() - 1 {
                assert(s.drop_last()[i] == s[i]);
            }
        }
    } else {
        assert(s[0] == seq_min(s));
    }
}

/// A transaction's view of the store: its own version and the versions of
/// the transactions that were active when it began.
pub struct TransactionState {
    pub version: Version,
    pub active_versions: Vec<Version>,
}

impl TransactionState {
    /// Version `v` is visible: it is not that of a transaction that was
    /// active at the start, and it is not later than this one.
    pub open spec fn sees(&self, v: Version) -> bool {
        !self.active_versions@.contains(v) && v <= self.version
    }

    pub fn is_visible(&self, version: Version) -> (r: bool)
        ensures
            r == self.sees(version),
    {
        let mut i: usize = 0;
        while i < self.active_versions.len()
            invariant
                i <= self.active_versions@.len(),
                forall|j: int| 0 <= j < i ==> self.active_versions@[j] != version,
            decreases self.active_versions@.len() - i,
        {
            if self.active_versions[i] == version {
                return false;
            }
            i = i + 1;
        }
        version <= self.version
    }

    /// The lowest version that a write of this transaction can conflict
    /// with: the oldest active one, or the next after its own.
    pub open spec fn conflict_floor(&self) -> int {
        if self.active_versions@.len() == 0 {
            self.version + 1
        } else {
            seq_min(self.active_versions@) as int
        }
    }
}

/// The transaction sees version `v` of `k` in `c`.
pub open spec fn visible_version(
    c: Map<Seq<u8>, Seq<u8>>,
    st: TransactionState,
    k: Seq<u8>,
    v: Version,
) -> bool {
    c.contains_key(version_key(k, v)) && st.sees(v)
}

/// `v` is the newest version of `k` that the transaction sees.
pub open spec fn latest_visible(
    c: Map<Seq<u8>, Seq<u8>>,
    st: TransactionState,
    k: Seq<u8>,
    v: Version,
) -> bool {
    &&& visible_version(c, st, k, v)
    &&& forall|w: Version| visible_version(c, st, k, w) ==> w <= v
}

/// What the transaction reads for `k`: the value of the newest version it
/// sees, `None` for none or for a deletion; the outer `None` where that
/// version's bytes do not decode.
pub open spec fn read_key(c: Map<Seq<u8>, Seq<u8>>, st: TransactionState, k: Seq<u8>) -> Option<
    Option<Seq<u8>>,
> {
    if exists|v: Version| latest_visible(c, st, k, v) {
        read_option_bytes(c[version_key(k, choose|v: Version| latest_visible(c, st, k, v))])
    } else {
        Some(None)
    }
}

/// `v` is the newest version of `k` at or above `floor`.
pub open spec fn newest_from(c: Map<Seq<u8>, Seq<u8>>, k: Seq<u8>, floor: int, v: Version) -> bool {
    &&& c.contains_key(version_key(k, v))
    &&& v >= floor
    &&& forall|w: Version| c.contains_key(version_key(k, w)) && w >= floor ==> w <= v
}

/// A write of `k` conflicts: the newest version of `k` from the conflict
/// floor on is one that the transaction does not see.
pub open spec fn write_conflict(c: Map<Seq<u8>, Seq<u8>>, st: TransactionState, k: Seq<u8>) -> bool {
    exists|v: Version| newest_from(c, k, st.conflict_floor(), v) && !st.sees(v)
}

/// What a write of `value` to `k` leaves in the store.
pub open spec fn after_write(
    c: Map<Seq<u8>, Seq<u8>>,
    st: TransactionState,
    k: Seq<u8>,
    value: Option<Seq<u8>>,
) -> Map<Seq<u8>, Seq<u8>> {
    c.insert(write_key(st.version, k), Seq::empty()).insert(
        version_key(k, st.version),
        option_bytes(value),
    )
}

/// What a commit leaves: the records of the transaction's writes and its
/// active mark are gone.
pub open spec fn after_commit(c: Map<Seq<u8>, Seq<u8>>, v: Version) -> Map<Seq<u8>, Seq<u8>> {
    drop_where(
        c,
        |k: Seq<u8>| has_prefix(k, prefix_bytes(MvccKeyPrefix::TxnWrite(v))) || k == active_key(v),
    )
}

/// What a rollback leaves: as a commit, and the versions the transaction
/// wrote are gone too.
pub open spec fn after_rollback(c: Map<Seq<u8>, Seq<u8>>, v: Version) -> Map<Seq<u8>, Seq<u8>> {
    drop_where(
        c,
        |k: Seq<u8>|
            has_prefix(k, prefix_bytes(MvccKeyPrefix::TxnWrite(v))) || k == active_key(v) || exists|
                raw: Seq<u8>,
            | k == version_key(raw, v) && c.contains_key(write_key(v, raw)),
    )
}

/// Entry `k` of store `c` is one of transaction `v`'s own: the record that
/// `v` wrote some key, or a version that `v` wrote, whose record `c` holds.
pub open spec fn own_entry(c: Map<Seq<u8>, Seq<u8>>, k: Seq<u8>, v: Version) -> bool {
    ||| exists|raw: Seq<u8>| k == #[trigger] write_key(v, raw)
    ||| exists|raw: Seq<u8>| k == #[trigger] version_key(raw, v) && c.contains_key(write_key(v, raw))
}

/// `c1` is `c0` with writes of transaction `v` added: no entry is gone, and
/// each entry that is new or changed is one of `v`'s own.
pub open spec fn own_writes(c0: Map<Seq<u8>, Seq<u8>>, c1: Map<Seq<u8>, Seq<u8>>, v: Version) -> bool {
    &&& forall|k: Seq<u8>| #[trigger] c0.contains_key(k) ==> c1.contains_key(k)
    &&& forall|k: Seq<u8>|
        #[trigger] c1.contains_key(k) ==> (c0.contains_key(k) && c0[k] == c1[k]) || own_entry(c1, k, v)
}

/// From `c0` to `c1` the store stayed well formed and took on only writes
/// of transaction `st`.
pub open spec fn wrote_own(c0: Map<Seq<u8>, Seq<u8>>, c1: Map<Seq<u8>, Seq<u8>>, st: TransactionState) -> bool {
    store_wf(c1) && own_writes(c0, c1, st.version)
}

/// A key/value pair that a scan found.
pub struct ScanResult {
    pub key: Vec<u8>,
    pub value: Vec<u8>,
}

/// The multi-version store over an engine.
pub struct Mvcc<E: Engine> {
    engine: E,
}

impl<E: Engine> Mvcc<E> {
    pub closed spec fn contents(&self) -> Map<Seq<u8>, Seq<u8>> {
        self.engine.contents()
    }

    pub closed spec fn wf(&self) -> bool {
        self.engine.wf()
    }

    pub closed spec fn infallible(&self) -> bool {
        self.engine.infallible()
    }

    pub fn new(eng: E) -> (m: Self)
        ensures
            m.contents() == eng.contents(),
            m.wf() == eng.wf(),
            m.infallible() == eng.infallible(),
    {
        Mvcc { engine: eng }
    }

    /// Begins a transaction.
    pub fn begin(&mut self) -> (r: Result<MvccTransaciton>)
        requires
            old(self).wf(),
        ensures
            final(self).wf(),
            final(self).infallible() == old(self).infallible(),
            r matches Ok(t) ==> t.began(old(self).contents(), final(self).contents()),
            old(self).infallible() && store_wf(old(self).contents()) && next_version(
                old(self).contents(),
            ) != Some(u64::MAX) ==> r is Ok,
    {
        MvccTransaciton::begin(&mut self.engine)
    }
}

/// A transaction of the multi-version store.
pub struct MvccTransaciton {
    state: TransactionState,
}

impl MvccTransaciton {
    #[verifier::type_invariant]
    spec fn inv(&self) -> bool {
        &&& self.state.version < u64::MAX
        &&& self.state.active_versions@.no_duplicates()
    }

    pub closed spec fn state(&self) -> TransactionState {
        self.state
    }

    pub closed spec fn version_spec(&self) -> Version {
        self.state.version
    }

    /// This transaction began on a store with contents `c0`, which it left
    /// as `c1`: it took the next version, moved the counter on, marked
    /// itself active, and sees none of the transactions active at its start,
    /// each listed once.
    pub open spec fn began(&self, c0: Map<Seq<u8>, Seq<u8>>, c1: Map<Seq<u8>, Seq<u8>>) -> bool {
        &&& next_version(c0) == Some(self.state().version)
        &&& self.state().version < u64::MAX
        &&& c1 == c0.insert(next_version_key(), u64_le((self.state().version + 1) as u64)).insert(
            active_key(self.state().version),
            Seq::empty(),
        )
        &&& forall|v: Version|
            #[trigger] self.state().active_versions@.contains(v) <==> c0.contains_key(
                active_key(v),
            )
        &&& self.state().active_versions@.no_duplicates()
    }

    /// The transaction's own version.
    pub fn version(&self) -> (v: Version)
        ensures
            v == self.state().version,
    {
        self.state.version
    }

    /// The versions of the transactions that are active in the store.
    pub fn scan_active<E: Engine>(engine: &mut E) -> (r: Result<Vec<Version>>)
        requires
            old(engine).wf(),
        ensures
            final(engine).wf(),
            final(engine).infallible() == old(engine).infallible(),
            final(engine).contents() == old(engine).contents(),
            r matches Ok(vs) ==> forall|v: Version|
                #[trigger] vs@.contains(v) <==> old(engine).contents().contains_key(active_key(v)),
            old(engine).infallible() && store_wf(old(engine).contents()) ==> r is Ok,
            r matches Ok(vs) ==> vs@.no_duplicates(),
            r matches Err(e) ==> e is Internal,
            (exists|k: Seq<u8>| #[trigger] old(engine).contents().contains_key(k) && has_prefix(k, seq![1u8])
                && !(parse_key(k) is Some)) ==> r is Err,
    {
        let ghost c = engine.contents();
        let entries = engine.scan_prefix(MvccKeyPrefix::TxnActive.encode())?;
        let ghost ev = entries_view(entries@);
        let mut active: Vec<Version> = Vec::new();
        let mut i: usize = 0;
        while i < entries.len()
            invariant
                engine.wf(),
                engine.infallible() == old(engine).infallible(),
                engine.contents() == c,
                c == old(engine).contents(),
                0 <= i <= entries@.len(),
                ev == entries_view(entries@),
                super::engine::is_prefix_scan(c, seq![1u8], ev),
                forall|v: Version|
                    #[trigger] active@.contains(v) ==> c.contains_key(active_key(v)),
                forall|j: int|
                    0 <= j < i ==> (parse_key(#[trigger] ev[j].0) matches Some(
                        MvccKeyModel::TxnActive(v),
                    ) && active@.contains(v)),
                active@.len() == i,
                forall|j: int| 0 <= j < i ==> parse_key(#[trigger] ev[j].0) == Some(MvccKeyModel::TxnActive(active@[j])),
                active@.no_duplicates(),
                store_wf(c) ==> forall|j: int| 0 <= j < ev.len() ==> parse_key(#[trigger] ev[j].0) is Some,
            decreases entries@.len() - i,
        {
            let ghost e = ev[i as int].0;
            assert(entries@[i as int].0@ == e);
            assert(has_prefix(e, seq![1u8]) && c.contains_key(e));
            assert(e.subrange(0, 1)[0] == e[0]);
            let key = MvccKey::decode(super::memory::copy_bytes(&entries[i].0))?;
            match key {
                MvccKey::TxnActive(v) => {
                    proof {
                        lemma_parse_key_canonical(e);
                        assert(parse_key(e) == Some(MvccKeyModel::TxnActive(v)));
                        assert(active_key(v) == e);
                    }
                    let ghost old_active = active@;
                    proof {
                        assert forall|j: int| 0 <= j < old_active.len() implies old_active[j] != v by {
                            assert(parse_key(ev[j].0) == Some(MvccKeyModel::TxnActive(old_active[j])));
                            if old_active[j] == v {
                                lemma_parse_key_canonical(ev[j].0);
                                assert(ev[j].0 == e);
                                super::engine::lemma_lex_irreflexive(e);
                                assert(super::engine::lex_lt(ev[j].0, ev[i as int].0));
                            }
                        }
                    }
                    active.push(v);
                    assert(active@[active@.len() - 1] == v);
                    proof {
                        assert forall|a: int, b: int| 0 <= a < active@.len() && 0 <= b < active@.len() && a != b
                            implies active@[a] != active@[b] by {
                            if a < old_active.len() && b < old_active.len() {
                                assert(active@[a] == old_active[a] && active@[b] == old_active[b]);
                            } else if a < old_active.len() {
                                assert(active@[a] == old_active[a]);
                            } else {
                                assert(active@[b] == old_active[b]);
                            }
                        }
                        assert forall|j: int| 0 <= j < i + 1 implies parse_key(#[trigger] ev[j].0) == Some(
                            MvccKeyModel::TxnActive(active@[j]),
                        ) by {
                            if j < i {
                                assert(active@[j] == old_active[j]);
                            }
                        }
                    }
                    assert forall|w: Version| #[trigger] active@.contains(w) implies c.contains_key(
                        active_key(w),
                    ) by {
                        let k = choose|k: int| 0 <= k < active@.len() && active@[k] == w;
                        if k < old_active.len() {
                            assert(old_active[k] == w);
                            assert(old_active.contains(w));
                        } else {
                            assert(w == v);
                        }
                    }
                    assert forall|j: int| 0 <= j < i implies (parse_key(#[trigger] ev[j].0) matches Some(
                        MvccKeyModel::TxnActive(w),
                    ) && active@.contains(w)) by {
                        if let Some(MvccKeyModel::TxnActive(w)) = parse_key(ev[j].0) {
                            let k = choose|k: int| 0 <= k < old_active.len() && old_active[k] == w;
                            assert(active@[k] == w);
                        }
                    }
                },
                _ => {
                    proof {
                        assert(e[0] == 1);
                    }
                    return Err(Error::Internal(String::from_str("unexpected key")));
                },
            }
            i = i + 1;
        }
        assert forall|v: Version| c.contains_key(active_key(v)) implies #[trigger] active@.contains(
            v,
        ) by {
            assert(active_key(v).subrange(0, 1) =~= seq![1u8]);
            assert(has_prefix(active_key(v), seq![1u8]));
            let j = choose|j: int| 0 <= j < ev.len() && ev[j].0 == active_key(v);
            lemma_parse_key_bytes(MvccKeyModel::TxnActive(v));
        }
        Ok(active)
    }

    pub fn begin<E: Engine>(engine: &mut E) -> (r: Result<Self>)
        requires
            old(engine).wf(),
        ensures
            final(engine).wf(),
            final(engine).infallible() == old(engine).infallible(),
            r matches Ok(t) ==> t.began(old(engine).contents(), final(engine).contents()),
            old(engine).infallible() && store_wf(old(engine).contents()) && next_version(
                old(engine).contents(),
            ) != Some(u64::MAX) ==> r is Ok,
    {
        let ghost c = engine.contents();
        let nv = engine.get(MvccKey::NextVersion.encode())?;
        let next = match nv {
            Some(value) => deserialize_u64(value.as_slice())?,
            None => 1,
        };
        proof {
            if store_wf(c) && c.contains_key(next_version_key()) {
                lemma_parse_key_bytes(MvccKeyModel::NextVersion);
            }
        }
        if next == u64::MAX {
            return Err(Error::Internal(String::from_str("version overflow")));
        }
        let bytes = serialize_u64(next + 1)?;
        engine.set(MvccKey::NextVersion.encode(), bytes)?;
        let ghost c1 = engine.contents();
        proof {
            assert forall|v: Version| c1.contains_key(active_key(v)) <==> c.contains_key(
                active_key(v),
            ) by {
                lemma_key_bytes_injective(MvccKeyModel::NextVersion, MvccKeyModel::TxnActive(v));
            }
            if store_wf(c) {
                lemma_parse_key_bytes(MvccKeyModel::NextVersion);
                lemma_le_u64_roundtrip((next + 1) as u64);
                assert(store_wf(c1));
            }
        }
        let active_versions = Self::scan_active(engine)?;
        engine.set(MvccKey::TxnActive(next).encode(), Vec::new())?;
        let t = MvccTransaciton { state: TransactionState { version: next, active_versions } };
        assert(t.state().active_versions@ == active_versions@);
        Ok(t)
    }
}


/// The keys in `keys`, as byte strings.
pub open spec fn key_set(keys: Seq<Vec<u8>>) -> Set<Seq<u8>> {
    Set::new(|k: Seq<u8>| exists|j: int| 0 <= j < keys.len() && #[trigger] keys[j]@ == k)
}

/// Deletes the given keys, one after another.
fn delete_all<E: Engine>(engine: &mut E, keys: Vec<Vec<u8>>) -> (r: Result<()>)
    requires
        old(engine).wf(),
    ensures
        final(engine).wf(),
        final(engine).infallible() == old(engine).infallible(),
        r is Ok ==> final(engine).contents() == drop_where(
            old(engine).contents(),
            |k: Seq<u8>| key_set(keys@).contains(k),
        ),
        old(engine).infallible() ==> r is Ok,
{
    let ghost c = engine.contents();
    let mut i: usize = 0;
    while i < keys.len()
        invariant
            engine.wf(),
            engine.infallible() == old(engine).infallible(),
            c == old(engine).contents(),
            i <= keys@.len(),
            engine.contents() == drop_where(c, |k: Seq<u8>| key_set(keys@.take(i as int)).contains(k)),
        decreases keys@.len() - i,
    {
        engine.delete(super::memory::copy_bytes(&keys[i]))?;
        assert(key_set(keys@.take(i + 1)) =~= key_set(keys@.take(i as int)).insert(keys@[i as int]@))
            by {
            assert forall|k: Seq<u8>| key_set(keys@.take(i + 1)).contains(k) implies key_set(
                keys@.take(i as int),
            ).insert(keys@[i as int]@).contains(k) by {
                let j = choose|j: int| 0 <= j < i + 1 && #[trigger] keys@.take(i + 1)[j]@ == k;
                if j < i {
                    assert(keys@.take(i as int)[j]@ == k);
                }
            }
            assert forall|k: Seq<u8>| key_set(keys@.take(i as int)).insert(keys@[i as int]@).contains(
                k,
            ) implies key_set(keys@.take(i + 1)).contains(k) by {
                if k == keys@[i as int]@ {
                    assert(keys@.take(i + 1)[i as int]@ == k);
                } else {
                    let j = choose|j: int| 0 <= j < i && #[trigger] keys@.take(i as int)[j]@ == k;
                    assert(keys@.take(i + 1)[j]@ == k);
                }
            }
        }
        i = i + 1;
        assert(engine.contents() =~= drop_where(
            c,
            |k: Seq<u8>| key_set(keys@.take(i as int)).contains(k),
        ));
    }
    assert(keys@.take(i as int) =~= keys@);
    Ok(())
}

impl MvccTransaciton {
    /// Commits: forgets which keys the transaction wrote, and that it is
    /// active; what it wrote stays.
    pub fn commmit<E: Engine>(&self, mvcc: &mut Mvcc<E>) -> (r: Result<()>)
        requires
            old(mvcc).wf(),
        ensures
            final(mvcc).wf(),
            final(mvcc).infallible() == old(mvcc).infallible(),
            r is Ok ==> final(mvcc).contents() == after_commit(
                old(mvcc).contents(),
                self.state().version,
            ),
            old(mvcc).infallible() ==> r is Ok,
    {
        let ghost c = mvcc.contents();
        let v = self.state.version;
        let prefix = MvccKeyPrefix::TxnWrite(v).encode();
        let ghost p = prefix@;
        let entries = mvcc.engine.scan_prefix(prefix)?;
        let ghost ev = entries_view(entries@);
        let mut keys: Vec<Vec<u8>> = Vec::new();
        let mut i: usize = 0;
        while i < entries.len()
            invariant
                i <= entries@.len(),
                ev == entries_view(entries@),
                keys@.len() == i,
                forall|j: int| 0 <= j < i ==> #[trigger] keys@[j]@ == ev[j].0,
            decreases entries@.len() - i,
        {
            keys.push(super::memory::copy_bytes(&entries[i].0));
            i = i + 1;
        }
        keys.push(MvccKey::TxnActive(v).encode());
        let ghost ks = keys@;
        delete_all(&mut mvcc.engine, keys)?;
        proof {
            let f1 = |k: Seq<u8>| key_set(ks).contains(k);
            assert forall|k: Seq<u8>| c.contains_key(k) implies (key_set(ks).contains(k) <==> (
            has_prefix(k, prefix_bytes(MvccKeyPrefix::TxnWrite(v))) || k == active_key(v))) by {
                if key_set(ks).contains(k) {
                    let j = choose|j: int| 0 <= j < ks.len() && #[trigger] ks[j]@ == k;
                    if j < ks.len() - 1 {
                        assert(ks[j]@ == ev[j].0);
                    }
                }
                if has_prefix(k, p) {
                    let j = choose|j: int| 0 <= j < ev.len() && #[trigger] ev[j].0 == k;
                    assert(ks[j]@ == k);
                }
                if k == active_key(v) {
                    assert(ks[ks.len() - 1]@ == k);
                }
            }
            assert(mvcc.contents() =~= after_commit(c, v));
        }
        Ok(())
    }
}


impl MvccTransaciton {
    /// Rolls back: removes the versions the transaction wrote, the records
    /// of its writes, and its active mark.
    pub fn rollback<E: Engine>(&self, mvcc: &mut Mvcc<E>) -> (r: Result<()>)
        requires
            old(mvcc).wf(),
        ensures
            final(mvcc).wf(),
            final(mvcc).infallible() == old(mvcc).infallible(),
            r is Ok ==> final(mvcc).contents() == after_rollback(
                old(mvcc).contents(),
                self.state().version,
            ),
            old(mvcc).infallible() && store_wf(old(mvcc).contents()) ==> r is Ok,
    {
        let ghost c = mvcc.contents();
        let v = self.state.version;
        let prefix = MvccKeyPrefix::TxnWrite(v).encode();
        let ghost p = prefix@;
        let entries = mvcc.engine.scan_prefix(prefix)?;
        let ghost ev = entries_view(entries@);
        let mut keys: Vec<Vec<u8>> = Vec::new();
        let mut i: usize = 0;
        proof {
            super::keycode::lemma_be_u64_roundtrip(v);
        }
        while i < entries.len()
            invariant
                mvcc.wf(),
                mvcc.infallible() == old(mvcc).infallible(),
                mvcc.contents() == c,
                c == old(mvcc).contents(),
                i <= entries@.len(),
                ev == entries_view(entries@),
                p == prefix_bytes(MvccKeyPrefix::TxnWrite(v)),
                super::engine::is_prefix_scan(c, p, ev),
                super::keycode::be_u64(u64_be(v)) == v,
                forall|k: Seq<u8>|
                    #[trigger] key_set(keys@).contains(k) ==> (exists|j: int|
                        0 <= j < i && ev[j].0 == k) || exists|raw: Seq<u8>|
                        k == version_key(raw, v) && c.contains_key(write_key(v, raw)),
                forall|j: int| 0 <= j < i ==> key_set(keys@).contains(#[trigger] ev[j].0),
                forall|j: int|
                    0 <= j < i ==> (parse_key(#[trigger] ev[j].0) matches Some(
                        MvccKeyModel::TxnWrite(_, raw),
                    ) && key_set(keys@).contains(version_key(raw, v))),
                store_wf(c) ==> forall|j: int|
                    0 <= j < ev.len() ==> parse_key(#[trigger] ev[j].0) is Some,
            decreases entries@.len() - i,
        {
            let ghost e = ev[i as int].0;
            assert(entries@[i as int].0@ == e);
            assert(has_prefix(e, p) && c.contains_key(e));
            assert(e.subrange(0, 9)[0] == e[0]);
            let key = MvccKey::decode(super::memory::copy_bytes(&entries[i].0))?;
            match key {
                MvccKey::TxnWrite(_, raw_key) => {
                    let ghost raw = raw_key@;
                    let ghost w = choose|w: Version| parse_key(e) == Some(MvccKeyModel::TxnWrite(w, raw));
                    proof {
                        lemma_parse_key_canonical(e);
                        assert(e == write_key(w, raw));
                        assert(e.subrange(1, 9) =~= u64_be(w));
                        assert(p.subrange(1, 9) =~= u64_be(v));
                        assert(e.subrange(0, 9) == p);
                        assert(e.subrange(1, 9) =~= p.subrange(1, 9));
                        super::keycode::lemma_be_u64_roundtrip(w);
                        assert(w == v);
                    }
                    let ghost old_keys = keys@;
                    keys.push(MvccKey::Version(raw_key, v).encode());
                    keys.push(super::memory::copy_bytes(&entries[i].0));
                    proof {
                        assert(keys@[old_keys.len() as int]@ == version_key(raw, v));
                        assert(keys@[old_keys.len() as int + 1]@ == e);
                        assert forall|k: Seq<u8>| #[trigger] key_set(keys@).contains(k) implies (
                        exists|j: int| 0 <= j < i + 1 && ev[j].0 == k) || exists|raw2: Seq<u8>|
                            k == version_key(raw2, v) && c.contains_key(write_key(v, raw2)) by {
                            let j = choose|j: int| 0 <= j < keys@.len() && #[trigger] keys@[j]@ == k;
                            if j < old_keys.len() {
                                assert(old_keys[j]@ == k);
                                assert(key_set(old_keys).contains(k));
                            } else if j == old_keys.len() {
                                assert(c.contains_key(write_key(v, raw)));
                            } else {
                                assert(ev[i as int].0 == k);
                            }
                        }
                        assert forall|k: Seq<u8>| key_set(old_keys).contains(k) implies key_set(
                            keys@,
                        ).contains(k) by {
                            let j = choose|j: int| 0 <= j < old_keys.len() && #[trigger] old_keys[j]@ == k;
                            assert(keys@[j]@ == k);
                        }
                        assert(key_set(keys@).contains(e));
                        assert(key_set(keys@).contains(version_key(raw, v)));
                    }
                },
                _ => {
                    proof {
                        assert(e[0] == 2);
                    }
                    return Err(Error::Internal(String::from_str("unexpected key")));
                },
            }
            i = i + 1;
        }
        let ghost old_keys = keys@;
        keys.push(MvccKey::TxnActive(v).encode());
        let ghost ks = keys@;
        proof {
            assert forall|k: Seq<u8>| key_set(old_keys).contains(k) implies key_set(ks).contains(k) by {
                let j = choose|j: int| 0 <= j < old_keys.len() && #[trigger] old_keys[j]@ == k;
                assert(ks[j]@ == k);
            }
            assert(ks[ks.len() - 1]@ == active_key(v));
        }
        delete_all(&mut mvcc.engine, keys)?;
        proof {
            let f = |k: Seq<u8>|
                has_prefix(k, prefix_bytes(MvccKeyPrefix::TxnWrite(v))) || k == active_key(v) || exists|
                    raw: Seq<u8>,
                | k == version_key(raw, v) && c.contains_key(write_key(v, raw));
            assert forall|k: Seq<u8>| c.contains_key(k) implies (key_set(ks).contains(k) <==> f(k)) by {
                if key_set(ks).contains(k) {
                    let j = choose|j: int| 0 <= j < ks.len() && #[trigger] ks[j]@ == k;
                    if j < ks.len() - 1 {
                        assert(key_set(old_keys).contains(k)) by {
                            assert(old_keys[j]@ == k);
                        }
                    }
                }
                if has_prefix(k, p) {
                    let j = choose|j: int| 0 <= j < ev.len() && #[trigger] ev[j].0 == k;
                    assert(key_set(old_keys).contains(ev[j].0));
                }
                if exists|raw: Seq<u8>| k == version_key(raw, v) && c.contains_key(write_key(v, raw)) {
                    let raw = choose|raw: Seq<u8>| k == version_key(raw, v) && c.contains_key(
                        write_key(v, raw),
                    );
                    let wk = write_key(v, raw);
                    assert(wk.subrange(0, 9) =~= p);
                    assert(has_prefix(wk, p));
                    let j = choose|j: int| 0 <= j < ev.len() && #[trigger] ev[j].0 == wk;
                    lemma_parse_key_bytes(MvccKeyModel::TxnWrite(v, raw));
                    assert(parse_key(ev[j].0) == Some(MvccKeyModel::TxnWrite(v, raw)));
                    assert(key_set(old_keys).contains(version_key(raw, v)));
                }
            }
            assert(mvcc.contents() =~= after_rollback(c, v));
        }
        Ok(())
    }
}


/// The view of an optional byte string.
pub open spec fn opt_view(o: Option<Vec<u8>>) -> Option<Seq<u8>> {
    match o {
        Some(v) => Some(v@),
        None => None,
    }
}

/// Every version of `key` in `c` has the prefix that a scan for the
/// versions of `key` uses.
proof fn lemma_version_key_prefix(key: Seq<u8>, v: Version)
    ensures
        has_prefix(version_key(key, v), seq![3u8] + escape(key)),
{
    let k = version_key(key, v);
    let p = seq![3u8] + escape(key);
    assert(k =~= p + u64_be(v));
    assert(k.subrange(0, p.len() as int) =~= p);
}

impl MvccTransaciton {
    /// The lowest version that a write can conflict with.
    fn conflict_floor(&self) -> (lo: u64)
        ensures
            lo == self.state().conflict_floor(),
    {
        proof {
            use_type_invariant(self);
        }
        let active = &self.state.active_versions;
        if active.len() == 0 {
            return self.state.version + 1;
        }
        let mut m = active[0];
        let mut i: usize = 1;
        assert(active@.take(1).drop_last().len() == 0);
        while i < active.len()
            invariant
                1 <= i <= active@.len(),
                m == seq_min(active@.take(i as int)),
            decreases active@.len() - i,
        {
            assert(active@.take(i + 1).drop_last() =~= active@.take(i as int));
            if active[i] < m {
                m = active[i];
            }
            i = i + 1;
        }
        assert(active@.take(i as int) =~= active@);
        m
    }

    /// The newest version of `key` at or above `floor`, if there is one.
    fn newest_version_from<E: Engine>(mvcc: &mut Mvcc<E>, key: &Vec<u8>, floor: u64) -> (r: Result<
        Option<Version>,
    >)
        requires
            old(mvcc).wf(),
        ensures
            final(mvcc).wf(),
            final(mvcc).infallible() == old(mvcc).infallible(),
            final(mvcc).contents() == old(mvcc).contents(),
            r matches Ok(Some(n)) ==> newest_from(old(mvcc).contents(), key@, floor as int, n),
            r matches Ok(None) ==> forall|w: Version|
                old(mvcc).contents().contains_key(#[trigger] version_key(key@, w)) ==> w < floor,
            r matches Err(e) ==> e is Internal,
            old(mvcc).infallible() && store_wf(old(mvcc).contents()) ==> r is Ok,
    {
        let ghost c = mvcc.contents();
        let prefix = MvccKeyPrefix::Version(super::memory::copy_bytes(key)).encode();
        let ghost p = prefix@;
        assert(p == seq![3u8] + escape(key@));
        let entries = mvcc.engine.scan_prefix(prefix)?;
        let ghost ev = entries_view(entries@);
        let mut newest: Option<Version> = None;
        let mut i: usize = 0;
        while i < entries.len()
            invariant
                mvcc.wf(),
                mvcc.infallible() == old(mvcc).infallible(),
                mvcc.contents() == c,
                c == old(mvcc).contents(),
                i <= entries@.len(),
                ev == entries_view(entries@),
                super::engine::is_prefix_scan(c, p, ev),
                p == seq![3u8] + escape(key@),
                newest matches Some(n) ==> c.contains_key(version_key(key@, n)) && n >= floor,
                forall|j: int|
                    0 <= j < i ==> (parse_key(#[trigger] ev[j].0) matches Some(
                        MvccKeyModel::Version(raw, w),
                    ) && (raw == key@ && w >= floor ==> (newest matches Some(n) && w <= n))),
                store_wf(c) ==> forall|j: int|
                    0 <= j < ev.len() ==> parse_key(#[trigger] ev[j].0) is Some,
            decreases entries@.len() - i,
        {
            let ghost e = ev[i as int].0;
            assert(entries@[i as int].0@ == e);
            assert(has_prefix(e, p) && c.contains_key(e));
            assert(e.subrange(0, p.len() as int)[0] == e[0]);
            let k = MvccKey::decode(super::memory::copy_bytes(&entries[i].0))?;
            match k {
                MvccKey::Version(raw, ver) => {
                    proof {
                        lemma_parse_key_canonical(e);
                    }
                    let same = super::engine::compare_bytes(raw.as_slice(), key.as_slice());
                    if same == super::engine::Cmp::Equal && ver >= floor {
                        let newer = match newest {
                            None => true,
                            Some(n) => ver > n,
                        };
                        if newer {
                            newest = Some(ver);
                        }
                    }
                },
                _ => {
                    proof {
                        assert(e[0] == 3);
                    }
                    return Err(Error::Internal(String::from_str("unexpected key")));
                },
            }
            i = i + 1;
        }
        proof {
            assert forall|w: Version|
                c.contains_key(#[trigger] version_key(key@, w)) && w >= floor implies (
            newest matches Some(n) && w <= n) by {
                lemma_version_key_prefix(key@, w);
                let j = choose|j: int| 0 <= j < ev.len() && #[trigger] ev[j].0 == version_key(key@, w);
                lemma_parse_key_bytes(MvccKeyModel::Version(key@, w));
            }
        }
        Ok(newest)
    }

    /// Writes `value` (a deletion where it is `None`) as this transaction's
    /// version of `key`, unless the newest version of `key` from the conflict
    /// floor on is one that the transaction does not see.
    fn write_inner<E: Engine>(&self, mvcc: &mut Mvcc<E>, key: Vec<u8>, value: Option<Vec<u8>>) -> (r:
        Result<()>)
        requires
            old(mvcc).wf(),
        ensures
            final(mvcc).wf(),
            final(mvcc).infallible() == old(mvcc).infallible(),
            r matches Err(Error::WriteConflict) ==> write_conflict(
                old(mvcc).contents(),
                self.state(),
                key@,
            ) && final(mvcc).contents() == old(mvcc).contents(),
            r is Ok ==> !write_conflict(old(mvcc).contents(), self.state(), key@) && final(mvcc).contents() == after_write(old(mvcc).contents(), self.state(), key@, opt_view(value)),
            old(mvcc).infallible() && store_wf(old(mvcc).contents()) ==> (r is Ok || r matches Err(
                Error::WriteConflict,
            )),
            old(mvcc).infallible() && store_wf(old(mvcc).contents()) && !write_conflict(
                old(mvcc).contents(),
                self.state(),
                key@,
            ) ==> r is Ok,
    {
        let ghost c = mvcc.contents();
        let ghost st = self.state();
        let lo = self.conflict_floor();
        let newest = Self::newest_version_from(mvcc, &key, lo);
        let newest = match newest {
            Ok(n) => n,
            Err(e) => {
                return Err(e);
            },
        };
        proof {
            if store_wf(c) && mvcc.infallible() {
                assert(newest is Some || newest is None);
            }
        }
        match newest {
            Some(ver) => {
                if !self.state.is_visible(ver) {
                    return Err(Error::WriteConflict);
                }
                proof {
                    assert forall|v: Version| newest_from(c, key@, st.conflict_floor(), v) implies st.sees(
                        v,
                    ) by {
                        assert(v <= ver && ver <= v);
                    }
                }
            },
            None => {
                proof {
                    assert forall|v: Version| !newest_from(c, key@, st.conflict_floor(), v) by {}
                }
            },
        }
        let version = self.state.version;
        mvcc.engine.set(MvccKey::TxnWrite(version, super::memory::copy_bytes(&key)).encode(), Vec::new())?;
        let bytes = serialize_option_bytes(&value)?;
        mvcc.engine.set(MvccKey::Version(key, version).encode(), bytes)?;
        Ok(())
    }

    /// Writes `value` for `key`.
    pub fn set<E: Engine>(&self, mvcc: &mut Mvcc<E>, key: Vec<u8>, value: Vec<u8>) -> (r: Result<()>)
        requires
            old(mvcc).wf(),
        ensures
            final(mvcc).wf(),
            final(mvcc).infallible() == old(mvcc).infallible(),
            r matches Err(Error::WriteConflict) ==> write_conflict(
                old(mvcc).contents(),
                self.state(),
                key@,
            ) && final(mvcc).contents() == old(mvcc).contents(),
            r is Ok ==> !write_conflict(old(mvcc).contents(), self.state(), key@) && final(mvcc).contents() == after_write(old(mvcc).contents(), self.state(), key@, Some(value@)),
            old(mvcc).infallible() && store_wf(old(mvcc).contents()) ==> (r is Ok || r matches Err(
                Error::WriteConflict,
            )),
            old(mvcc).infallible() && store_wf(old(mvcc).contents()) && !write_conflict(
                old(mvcc).contents(),
                self.state(),
                key@,
            ) ==> r is Ok,
    {
        self.write_inner(mvcc, key, Some(value))
    }

    /// Deletes `key`: writes a version that holds no value.
    pub fn delete<E: Engine>(&self, mvcc: &mut Mvcc<E>, key: Vec<u8>) -> (r: Result<()>)
        requires
            old(mvcc).wf(),
        ensures
            final(mvcc).wf(),
            final(mvcc).infallible() == old(mvcc).infallible(),
            r matches Err(Error::WriteConflict) ==> write_conflict(
                old(mvcc).contents(),
                self.state(),
                key@,
            ) && final(mvcc).contents() == old(mvcc).contents(),
            r is Ok ==> !write_conflict(old(mvcc).contents(), self.state(), key@) && final(mvcc).contents() == after_write(old(mvcc).contents(), self.state(), key@, None),
            old(mvcc).infallible() && store_wf(old(mvcc).contents()) ==> (r is Ok || r matches Err(
                Error::WriteConflict,
            )),
            old(mvcc).infallible() && store_wf(old(mvcc).contents()) && !write_conflict(
                old(mvcc).contents(),
                self.state(),
                key@,
            ) ==> r is Ok,
    {
        self.write_inner(mvcc, key, None)
    }

    /// Reads `key`: the value of the newest version that this transaction
    /// sees, `None` where there is none or it is a deletion.
    pub fn get<E: Engine>(&self, mvcc: &mut Mvcc<E>, key: Vec<u8>) -> (r: Result<Option<Vec<u8>>>)
        requires
            old(mvcc).wf(),
        ensures
            final(mvcc).wf(),
            final(mvcc).infallible() == old(mvcc).infallible(),
            final(mvcc).contents() == old(mvcc).contents(),
            r matches Ok(o) ==> read_key(old(mvcc).contents(), self.state(), key@) == Some(
                opt_view(o),
            ),
            r matches Err(e) ==> e is Internal,
            old(mvcc).infallible() && store_wf(old(mvcc).contents()) ==> r is Ok,
    {
        let ghost c = mvcc.contents();
        let ghost st = self.state();
        let prefix = MvccKeyPrefix::Version(super::memory::copy_bytes(&key)).encode();
        let ghost p = prefix@;
        let entries = mvcc.engine.scan_prefix(prefix)?;
        let ghost ev = entries_view(entries@);
        let mut best: Option<(Version, usize)> = None;
        let mut i: usize = 0;
        while i < entries.len()
            invariant
                mvcc.wf(),
                mvcc.infallible() == old(mvcc).infallible(),
                mvcc.contents() == c,
                c == old(mvcc).contents(),
                st == self.state(),
                i <= entries@.len(),
                ev == entries_view(entries@),
                super::engine::is_prefix_scan(c, p, ev),
                p == seq![3u8] + escape(key@),
                best matches Some((n, idx)) ==> 0 <= idx < ev.len() && ev[idx as int].0
                    == version_key(key@, n) && st.sees(n),
                forall|j: int|
                    0 <= j < i ==> (parse_key(#[trigger] ev[j].0) matches Some(
                        MvccKeyModel::Version(raw, w),
                    ) && (raw == key@ && st.sees(w) ==> (best matches Some((n, _)) && w <= n))),
                store_wf(c) ==> forall|j: int|
                    0 <= j < ev.len() ==> parse_key(#[trigger] ev[j].0) is Some,
            decreases entries@.len() - i,
        {
            let ghost e = ev[i as int].0;
            assert(entries@[i as int].0@ == e);
            assert(has_prefix(e, p) && c.contains_key(e));
            assert(e.subrange(0, p.len() as int)[0] == e[0]);
            let k = MvccKey::decode(super::memory::copy_bytes(&entries[i].0))?;
            match k {
                MvccKey::Version(raw, ver) => {
                    proof {
                        lemma_parse_key_canonical(e);
                    }
                    let same = super::engine::compare_bytes(raw.as_slice(), key.as_slice());
                    if same == super::engine::Cmp::Equal && self.state.is_visible(ver) {
                        let newer = match best {
                            None => true,
                            Some((n, _)) => ver > n,
                        };
                        if newer {
                            best = Some((ver, i));
                        }
                    }
                },
                _ => {
                    proof {
                        assert(e[0] == 3);
                    }
                    return Err(Error::Internal(String::from_str("unexpected key")));
                },
            }
            i = i + 1;
        }
        proof {
            assert forall|w: Version| visible_version(c, st, key@, w) implies (best matches Some((n, _))
                && w <= n) by {
                lemma_version_key_prefix(key@, w);
                let j = choose|j: int| 0 <= j < ev.len() && #[trigger] ev[j].0 == version_key(key@, w);
                lemma_parse_key_bytes(MvccKeyModel::Version(key@, w));
            }
        }
        match best {
            None => {
                assert(!exists|v: Version| latest_visible(c, st, key@, v));
                Ok(None)
            },
            Some((n, idx)) => {
                proof {
                    assert(latest_visible(c, st, key@, n));
                    let v = choose|v: Version| latest_visible(c, st, key@, v);
                    assert(v <= n && n <= v);
                    assert(ev[idx as int].1 == c[version_key(key@, n)]);
                    assert(entries@[idx as int].1@ == ev[idx as int].1);
                    if store_wf(c) {
                        lemma_parse_key_bytes(MvccKeyModel::Version(key@, n));
                    }
                }
                deserialize_option_bytes(entries[idx].1.as_slice())
            },
        }
    }
}


/// A found version: the user key, its version, and where the scan met it.
type Found = (Vec<u8>, Version, usize);

pub open spec fn found_view(f: Seq<Found>) -> Seq<(Seq<u8>, Version, usize)> {
    f.map_values(|x: Found| (x.0@, x.1, x.2))
}

pub open spec fn strictly_sorted_keys(f: Seq<(Seq<u8>, Version, usize)>) -> bool {
    forall|i: int, j: int| 0 <= i < j < f.len() ==> super::engine::lex_lt(#[trigger] f[i].0, #[trigger] f[j].0)
}

/// Puts `(raw, ver, idx)` into `found`, which stays sorted by key with each
/// key once: a key already there keeps the newer of the two versions.
#[verifier::spinoff_prover]
#[verifier::rlimit(60)]
fn upsert(found: &mut Vec<Found>, raw: Vec<u8>, ver: Version, idx: usize)
    requires
        strictly_sorted_keys(found_view(old(found)@)),
    ensures
        strictly_sorted_keys(found_view(final(found)@)),
        forall|a: int|
            0 <= a < final(found)@.len() ==> #[trigger] found_view(final(found)@)[a] == (raw@, ver, idx)
                || exists|b: int|
                0 <= b < old(found)@.len() && found_view(old(found)@)[b] == found_view(
                    final(found)@,
                )[a],
        exists|a: int|
            0 <= a < final(found)@.len() && #[trigger] found_view(final(found)@)[a].0 == raw@
                && found_view(final(found)@)[a].1 >= ver,
        forall|b: int|
            #![trigger found_view(old(found)@)[b]]
            0 <= b < old(found)@.len() ==> exists|a: int|
                0 <= a < final(found)@.len() && #[trigger] found_view(final(found)@)[a].0
                    == found_view(old(found)@)[b].0 && found_view(final(found)@)[a].1 >= found_view(
                    old(found)@,
                )[b].1,
{
    let ghost f0 = found_view(found@);
    let mut pos: usize = 0;
    while pos < found.len()
        invariant
            pos <= found@.len(),
            f0 == found_view(found@),
            strictly_sorted_keys(f0),
            forall|j: int| 0 <= j < pos ==> super::engine::lex_lt(#[trigger] f0[j].0, raw@),
        ensures
            pos <= found@.len(),
            forall|j: int| 0 <= j < pos ==> super::engine::lex_lt(#[trigger] f0[j].0, raw@),
            pos < found@.len() ==> !super::engine::lex_lt(f0[pos as int].0, raw@),
        decreases found@.len() - pos,
    {
        let c = super::engine::compare_bytes(found[pos].0.as_slice(), raw.as_slice());
        assert(f0[pos as int].0 == found@[pos as int].0@);
        if c == super::engine::Cmp::Less {
            pos = pos + 1;
        } else {
            break;
        }
    }
    let same = pos < found.len() && super::engine::compare_bytes(found[pos].0.as_slice(), raw.as_slice())
        == super::engine::Cmp::Equal;
    proof {
        if pos < found@.len() {
            assert(f0[pos as int].0 == found@[pos as int].0@);
            super::engine::lemma_lex_total(f0[pos as int].0, raw@);
        }
    }
    if same {
        if ver > found[pos].1 {
            found.set(pos, (raw, ver, idx));
        }
        let ghost f1 = found_view(found@);
        assert forall|i: int, j: int| 0 <= i < j < f1.len() implies super::engine::lex_lt(
            #[trigger] f1[i].0,
            #[trigger] f1[j].0,
        ) by {
            assert(f1[i].0 == f0[i].0);
            assert(f1[j].0 == f0[j].0);
        }
        assert forall|a: int| 0 <= a < f1.len() implies #[trigger] f1[a] == (raw@, ver, idx)
            || exists|b: int| 0 <= b < f0.len() && f0[b] == f1[a] by {
            if f1[a] != (raw@, ver, idx) {
                assert(f0[a] == f1[a]);
            }
        }
        assert(f1[pos as int].0 == raw@ && f1[pos as int].1 >= ver);
        assert forall|b: int| #![trigger f0[b]] 0 <= b < f0.len() implies exists|a: int|
            0 <= a < f1.len() && #[trigger] f1[a].0 == f0[b].0 && f1[a].1 >= f0[b].1 by {
            assert(f1[b].0 == f0[b].0 && f1[b].1 >= f0[b].1);
        }
    } else {
        found.insert(pos, (raw, ver, idx));
        let ghost f1 = found_view(found@);
        assert(f1.len() == f0.len() + 1);
        assert forall|a: int| 0 <= a < f1.len() implies (a < pos ==> #[trigger] f1[a] == f0[a]) && (a
            == pos ==> f1[a] == (raw@, ver, idx)) && (a > pos ==> f1[a] == f0[a - 1]) by {}
        assert forall|i: int, j: int| 0 <= i < j < f1.len() implies super::engine::lex_lt(
            #[trigger] f1[i].0,
            #[trigger] f1[j].0,
        ) by {
            assert(f1[i] == f0[i] || i == pos || f1[i] == f0[i - 1]);
            if j < pos {
                assert(f1[i] == f0[i] && f1[j] == f0[j]);
            } else if j == pos {
                assert(f1[i] == f0[i]);
            } else if i < pos {
                assert(f1[i] == f0[i] && f1[j] == f0[j - 1]);
                if j - 1 > pos {
                    assert(super::engine::lex_lt(f0[pos as int].0, f0[j - 1].0));
                    super::engine::lemma_lex_transitive(raw@, f0[pos as int].0, f0[j - 1].0);
                }
                super::engine::lemma_lex_transitive(f0[i].0, raw@, f0[j - 1].0);
            } else if i == pos {
                assert(f1[j] == f0[j - 1]);
                if j - 1 > pos {
                    assert(super::engine::lex_lt(f0[pos as int].0, f0[j - 1].0));
                    super::engine::lemma_lex_transitive(raw@, f0[pos as int].0, f0[j - 1].0);
                }
            } else {
                assert(f1[i] == f0[i - 1] && f1[j] == f0[j - 1]);
            }
        }
        assert forall|a: int| 0 <= a < f1.len() implies #[trigger] f1[a] == (raw@, ver, idx)
            || exists|b: int| 0 <= b < f0.len() && f0[b] == f1[a] by {
            if a < pos {
                assert(f0[a] == f1[a]);
            } else if a > pos {
                assert(f0[a - 1] == f1[a]);
            }
        }
        assert(f1[pos as int].0 == raw@);
        assert forall|b: int| #![trigger f0[b]] 0 <= b < f0.len() implies exists|a: int|
            0 <= a < f1.len() && #[trigger] f1[a].0 == f0[b].0 && f1[a].1 >= f0[b].1 by {
            if b < pos {
                assert(f1[b] == f0[b]);
            } else {
                assert(f1[b + 1] == f0[b]);
            }
        }
    }
}

/// The key of the scanned pair is one that the transaction reads a value for.
pub open spec fn scan_entry(
    c: Map<Seq<u8>, Seq<u8>>,
    st: TransactionState,
    prefix: Seq<u8>,
    k: Seq<u8>,
    v: Seq<u8>,
) -> bool {
    has_prefix(k, prefix) && read_key(c, st, k) == Some(Some(v))
}

/// The result of a transaction's scan for `prefix`: the user keys with that
/// prefix that it reads a value for, each once with that value, in
/// ascending key order.
pub open spec fn is_mvcc_scan(
    c: Map<Seq<u8>, Seq<u8>>,
    st: TransactionState,
    prefix: Seq<u8>,
    res: Seq<ScanResult>,
) -> bool {
    &&& forall|i: int, j: int|
        0 <= i < j < res.len() ==> super::engine::lex_lt(#[trigger] res[i].key@, #[trigger] res[j].key@)
    &&& forall|i: int| 0 <= i < res.len() ==> scan_entry(c, st, prefix, #[trigger] res[i].key@, res[i].value@)
    &&& forall|k: Seq<u8>|
        has_prefix(k, prefix) && (#[trigger] read_key(c, st, k) matches Some(Some(_))) ==> exists|i: int|
            0 <= i < res.len() && res[i].key@ == k
}

proof fn lemma_raw_prefix(k: Seq<u8>, p: Seq<u8>, v: Version)
    requires
        has_prefix(k, p),
    ensures
        has_prefix(version_key(k, v), seq![3u8] + super::keycode::escape_body(p)),
{
    let q = seq![3u8] + super::keycode::escape_body(p);
    assert(k =~= p + k.skip(p.len() as int));
    super::keycode::lemma_escape_body_concat(p, k.skip(p.len() as int));
    let vk = version_key(k, v);
    assert(vk =~= q + super::keycode::escape_body(k.skip(p.len() as int)) + seq![0u8, 0u8] + u64_be(v));
    assert(vk.subrange(0, q.len() as int) =~= q);
}

/// One step of a scan: after `upsert` of the version found at entry `i`,
/// the scan's facts hold of one entry more.
proof fn lemma_scan_step(
    st: TransactionState,
    prefix: Seq<u8>,
    ev: Seq<(Seq<u8>, Seq<u8>)>,
    i: int,
    rawv: Seq<u8>,
    ver: Version,
    f0: Seq<(Seq<u8>, Version, usize)>,
    f1: Seq<(Seq<u8>, Version, usize)>,
)
    requires
        0 <= i < ev.len(),
        i <= usize::MAX,
        parse_key(ev[i].0) == Some(MvccKeyModel::Version(rawv, ver)),
        key_bytes(MvccKeyModel::Version(rawv, ver)) == ev[i].0,
        st.sees(ver),
        has_prefix(rawv, prefix),
        forall|a: int|
            0 <= a < f1.len() ==> #[trigger] f1[a] == (rawv, ver, i as usize) || exists|b: int|
                0 <= b < f0.len() && f0[b] == f1[a],
        exists|a: int| 0 <= a < f1.len() && #[trigger] f1[a].0 == rawv && f1[a].1 >= ver,
        forall|b: int|
            #![trigger f0[b]]
            0 <= b < f0.len() ==> exists|a: int|
                0 <= a < f1.len() && #[trigger] f1[a].0 == f0[b].0 && f1[a].1 >= f0[b].1,
        forall|a: int|
            0 <= a < f0.len() ==> {
                let f = #[trigger] f0[a];
                &&& 0 <= f.2 < ev.len()
                &&& ev[f.2 as int].0 == version_key(f.0, f.1)
                &&& st.sees(f.1)
                &&& has_prefix(f.0, prefix)
            },
        forall|j: int|
            0 <= j < i ==> (parse_key(#[trigger] ev[j].0) matches Some(
                MvccKeyModel::Version(raw, w),
            ) && (has_prefix(raw, prefix) && st.sees(w) ==> exists|a: int|
                0 <= a < f0.len() && f0[a].0 == raw && w <= f0[a].1)),
    ensures
        forall|a: int|
            0 <= a < f1.len() ==> {
                let f = #[trigger] f1[a];
                &&& 0 <= f.2 < ev.len()
                &&& ev[f.2 as int].0 == version_key(f.0, f.1)
                &&& st.sees(f.1)
                &&& has_prefix(f.0, prefix)
            },
        forall|j: int|
            0 <= j < i + 1 ==> (parse_key(#[trigger] ev[j].0) matches Some(
                MvccKeyModel::Version(raw, w),
            ) && (has_prefix(raw, prefix) && st.sees(w) ==> exists|a: int|
                0 <= a < f1.len() && f1[a].0 == raw && w <= f1[a].1)),
{
    assert forall|a: int| 0 <= a < f1.len() implies {
        let f = #[trigger] f1[a];
        &&& 0 <= f.2 < ev.len()
        &&& ev[f.2 as int].0 == version_key(f.0, f.1)
        &&& st.sees(f.1)
        &&& has_prefix(f.0, prefix)
    } by {
        if f1[a] != (rawv, ver, i as usize) {
            let b = choose|b: int| 0 <= b < f0.len() && f0[b] == f1[a];
            assert(f0[b] == f1[a]);
        }
    }
    assert forall|j: int| 0 <= j < i + 1 implies (parse_key(#[trigger] ev[j].0) matches Some(
        MvccKeyModel::Version(raw2, w),
    ) && (has_prefix(raw2, prefix) && st.sees(w) ==> exists|a: int|
        0 <= a < f1.len() && f1[a].0 == raw2 && w <= f1[a].1)) by {
        if j < i {
            if let Some(MvccKeyModel::Version(raw2, w)) = parse_key(ev[j].0) {
                if has_prefix(raw2, prefix) && st.sees(w) {
                    let b = choose|b: int| 0 <= b < f0.len() && f0[b].0 == raw2 && w <= f0[b].1;
                    let a = choose|a: int| 0 <= a < f1.len() && #[trigger] f1[a].0 == f0[b].0 && f1[a].1 >= f0[b].1;
                    assert(f1[a].0 == raw2 && w <= f1[a].1);
                }
            }
        } else {
            let a = choose|a: int| 0 <= a < f1.len() && #[trigger] f1[a].0 == rawv && f1[a].1 >= ver;
            assert(f1[a].0 == rawv);
        }
    }
}

impl MvccTransaciton {
    #[verifier::rlimit(80)]
    /// Scans the user keys that start with `prefix`: for each that this
    /// transaction reads a value for, the key and the value, in key order.
    pub fn scan_prefix<E: Engine>(&self, mvcc: &mut Mvcc<E>, prefix: Vec<u8>) -> (r: Result<
        Vec<ScanResult>,
    >)
        requires
            old(mvcc).wf(),
        ensures
            final(mvcc).wf(),
            final(mvcc).infallible() == old(mvcc).infallible(),
            final(mvcc).contents() == old(mvcc).contents(),
            r matches Ok(res) ==> is_mvcc_scan(old(mvcc).contents(), self.state(), prefix@, res@),
            old(mvcc).infallible() && store_wf(old(mvcc).contents()) ==> r is Ok,
    {
        let ghost c = mvcc.contents();
        let ghost st = self.state();
        let mut enc = MvccKeyPrefix::Version(super::memory::copy_bytes(&prefix)).encode();
        let n = enc.len();
        enc.truncate(n - 2);
        let ghost q = enc@;
        assert(q =~= seq![3u8] + super::keycode::escape_body(prefix@));
        let entries = mvcc.engine.scan_prefix(enc)?;
        let ghost ev = entries_view(entries@);
        let mut found: Vec<Found> = Vec::new();
        let mut i: usize = 0;
        while i < entries.len()
            invariant
                mvcc.wf(),
                mvcc.infallible() == old(mvcc).infallible(),
                mvcc.contents() == c,
                c == old(mvcc).contents(),
                st == self.state(),
                i <= entries@.len(),
                ev == entries_view(entries@),
                super::engine::is_prefix_scan(c, q, ev),
                q == seq![3u8] + super::keycode::escape_body(prefix@),
                strictly_sorted_keys(found_view(found@)),
                forall|a: int|
                    0 <= a < found@.len() ==> {
                        let f = #[trigger] found_view(found@)[a];
                        &&& 0 <= f.2 < ev.len()
                        &&& ev[f.2 as int].0 == version_key(f.0, f.1)
                        &&& st.sees(f.1)
                        &&& has_prefix(f.0, prefix@)
                    },
                forall|j: int|
                    0 <= j < i ==> (parse_key(#[trigger] ev[j].0) matches Some(
                        MvccKeyModel::Version(raw, w),
                    ) && (has_prefix(raw, prefix@) && st.sees(w) ==> exists|a: int|
                        0 <= a < found@.len() && found_view(found@)[a].0 == raw && w
                            <= found_view(found@)[a].1)),
                store_wf(c) ==> forall|j: int|
                    0 <= j < ev.len() ==> parse_key(#[trigger] ev[j].0) is Some,
            decreases entries@.len() - i,
        {
            let ghost e = ev[i as int].0;
            assert(entries@[i as int].0@ == e);
            assert(has_prefix(e, q) && c.contains_key(e));
            assert(e.subrange(0, q.len() as int)[0] == e[0]);
            let k = MvccKey::decode(super::memory::copy_bytes(&entries[i].0))?;
            match k {
                MvccKey::Version(raw, ver) => {
                    proof {
                        lemma_parse_key_canonical(e);
                    }
                    let ghost rawv = raw@;
                    if super::engine::starts_with(raw.as_slice(), prefix.as_slice())
                        && self.state.is_visible(ver) {
                        let ghost f0 = found_view(found@);
                        upsert(&mut found, raw, ver, i);
                        proof {
                            lemma_scan_step(st, prefix@, ev, i as int, rawv, ver, f0, found_view(found@));
                        }
                    }
                },
                _ => {
                    proof {
                        assert(e[0] == 3);
                    }
                    return Err(Error::Internal(String::from_str("unexpected key")));
                },
            }
            i = i + 1;
        }
        let ghost fv = found_view(found@);
        proof {
            // Each found version is the newest one of its key that the transaction sees.
            assert forall|a: int| 0 <= a < fv.len() implies latest_visible(c, st, #[trigger] fv[a].0, fv[a].1) by {
                let f = fv[a];
                assert(c.contains_key(ev[f.2 as int].0));
                assert forall|w: Version| visible_version(c, st, f.0, w) implies w <= f.1 by {
                    lemma_raw_prefix(f.0, prefix@, w);
                    let j = choose|j: int| 0 <= j < ev.len() && #[trigger] ev[j].0 == version_key(f.0, w);
                    lemma_parse_key_bytes(MvccKeyModel::Version(f.0, w));
                    let b = choose|b: int| 0 <= b < fv.len() && fv[b].0 == f.0 && w <= fv[b].1;
                    if b != a {
                        super::engine::lemma_lex_irreflexive(f.0);
                        if b < a {
                            assert(super::engine::lex_lt(fv[b].0, fv[a].0));
                        } else {
                            assert(super::engine::lex_lt(fv[a].0, fv[b].0));
                        }
                    }
                }
            }
        }
        let mut res: Vec<ScanResult> = Vec::new();
        let ghost picked: Seq<int> = Seq::empty();
        let mut a: usize = 0;
        while a < found.len()
            invariant
                mvcc.wf(),
                mvcc.infallible() == old(mvcc).infallible(),
                mvcc.contents() == c,
                c == old(mvcc).contents(),
                st == self.state(),
                ev == entries_view(entries@),
                fv == found_view(found@),
                super::engine::is_prefix_scan(c, q, ev),
                a <= fv.len(),
                strictly_sorted_keys(fv),
                forall|b: int|
                    0 <= b < fv.len() ==> {
                        let f = #[trigger] fv[b];
                        &&& 0 <= f.2 < ev.len()
                        &&& ev[f.2 as int].0 == version_key(f.0, f.1)
                        &&& has_prefix(f.0, prefix@)
                        &&& latest_visible(c, st, f.0, f.1)
                    },
                picked.len() == res@.len(),
                forall|x: int, y: int| 0 <= x < y < picked.len() ==> picked[x] < picked[y],
                forall|x: int| 0 <= x < picked.len() ==> 0 <= #[trigger] picked[x] < a,
                forall|x: int|
                    0 <= x < picked.len() ==> (#[trigger] res@[x]).key@ == fv[picked[x]].0
                        && read_key(c, st, res@[x].key@) == Some(Some(res@[x].value@)),
                forall|b: int|
                    0 <= b < a && (read_key(c, st, #[trigger] fv[b].0) matches Some(Some(_)))
                        ==> exists|x: int| 0 <= x < picked.len() && picked[x] == b,
                store_wf(c) ==> forall|k: Seq<u8>| #[trigger] c.contains_key(k) && (parse_key(k) matches Some(MvccKeyModel::Version(_, _))) ==> read_option_bytes(c[k]) is Some,
            decreases fv.len() - a,
        {
            let ghost f = fv[a as int];
            let idx = found[a].2;
            proof {
                let v = choose|v: Version| latest_visible(c, st, f.0, v);
                assert(v <= f.1 && f.1 <= v);
                assert(ev[idx as int].1 == c[version_key(f.0, f.1)]);
                assert(entries@[idx as int].1@ == ev[idx as int].1);
                assert(read_key(c, st, f.0) == read_option_bytes(ev[idx as int].1));
                if store_wf(c) {
                    lemma_parse_key_bytes(MvccKeyModel::Version(f.0, f.1));
                }
            }
            let ghost picked0 = picked;
            let value = deserialize_option_bytes(entries[idx].1.as_slice())?;
            match value {
                Some(v) => {
                    let ghost old_res = res@;
                    res.push(ScanResult { key: super::memory::copy_bytes(&found[a].0), value: v });
                    proof {
                        picked = picked.push(a as int);
                        assert forall|x: int| 0 <= x < old_res.len() implies res@[x] == old_res[x] && picked[x] == picked0[x] by {}
                    }
                },
                None => {},
            }
            assert forall|b: int|
                0 <= b < a + 1 && (read_key(c, st, #[trigger] fv[b].0) matches Some(Some(_)))
                    implies exists|x: int| 0 <= x < picked.len() && picked[x] == b by {
                if b == a {
                    assert(picked[picked.len() - 1] == b);
                } else {
                    let x = choose|x: int| 0 <= x < picked0.len() && picked0[x] == b;
                    assert(picked[x] == b);
                }
            }
            a = a + 1;
        }
        proof {
            let rs = res@;
            assert forall|x: int, y: int| 0 <= x < y < rs.len() implies super::engine::lex_lt(
                #[trigger] rs[x].key@,
                #[trigger] rs[y].key@,
            ) by {
                assert(super::engine::lex_lt(fv[picked[x]].0, fv[picked[y]].0));
            }
            assert forall|x: int| 0 <= x < rs.len() implies scan_entry(c, st, prefix@, #[trigger] rs[x].key@, rs[x].value@) by {
                assert(has_prefix(fv[picked[x]].0, prefix@));
            }
            assert forall|k: Seq<u8>|
                has_prefix(k, prefix@) && (#[trigger] read_key(c, st, k) matches Some(Some(_))) implies exists|x: int|
                0 <= x < rs.len() && rs[x].key@ == k by {
                let w = choose|v: Version| latest_visible(c, st, k, v);
                lemma_raw_prefix(k, prefix@, w);
                let j = choose|j: int| 0 <= j < ev.len() && #[trigger] ev[j].0 == version_key(k, w);
                lemma_parse_key_bytes(MvccKeyModel::Version(k, w));
                let b = choose|b: int| 0 <= b < fv.len() && fv[b].0 == k && w <= fv[b].1;
                assert(read_key(c, st, fv[b].0) matches Some(Some(_)));
                let x = choose|x: int| 0 <= x < picked.len() && picked[x] == b;
                assert(rs[x].key@ == k);
            }
        }
        Ok(res)
    }
}

} // verus!
