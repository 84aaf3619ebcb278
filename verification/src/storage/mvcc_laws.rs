//! What the multi-version store promises across its operations.
use vstd::prelude::*;

use super::bincode_codec::{lemma_le_u64_roundtrip, lemma_read_option_bytes, option_bytes, u64_le};
use super::engine::has_prefix;
use super::mvcc::{
    active_key, after_commit, after_rollback, after_write, is_mvcc_scan, latest_visible,
    newest_from, next_version, next_version_key, own_entry, own_writes, read_key, scan_entry, store_wf, version_key, visible_version,
    write_conflict, write_key, MvccTransaciton, ScanResult, TransactionState,
};
use super::mvcc_key::{
    key_bytes, lemma_key_bytes_injective, lemma_parse_key_bytes, parse_key, prefix_bytes,
    MvccKeyModel, MvccKeyPrefix, Version,
};

verus! {

/// Two reads agree where the versions of `k` that the reader sees agree.
proof fn lemma_read_same_versions(
    c1: Map<Seq<u8>, Seq<u8>>,
    c2: Map<Seq<u8>, Seq<u8>>,
    st: TransactionState,
    k: Seq<u8>,
)
    requires
        forall|w: Version|
            st.sees(w) ==> (c1.contains_key(#[trigger] version_key(k, w)) == c2.contains_key(
                version_key(k, w),
            ) && (c1.contains_key(version_key(k, w)) ==> c1[version_key(k, w)] == c2[version_key(
                k,
                w,
            )])),
    ensures
        read_key(c1, st, k) == read_key(c2, st, k),
{
    assert forall|w: Version| latest_visible(c1, st, k, w) <==> latest_visible(c2, st, k, w) by {
        if latest_visible(c1, st, k, w) {
            assert forall|u: Version| visible_version(c2, st, k, u) implies u <= w by {
                assert(visible_version(c1, st, k, u));
            }
        }
        if latest_visible(c2, st, k, w) {
            assert forall|u: Version| visible_version(c1, st, k, u) implies u <= w by {
                assert(visible_version(c2, st, k, u));
            }
        }
    }
}

/// A transaction reads what it wrote itself: after it writes `value` to
/// `k` (a deletion where `value` is `None`), it reads `value` for `k`.
pub proof fn law_read_own_write(
    c: Map<Seq<u8>, Seq<u8>>,
    st: TransactionState,
    k: Seq<u8>,
    value: Option<Seq<u8>>,
)
    requires
        !st.active_versions@.contains(st.version),
        value matches Some(v) ==> v.len() <= u64::MAX,
    ensures
        read_key(after_write(c, st, k, value), st, k) == Some(value),
{
    let c2 = after_write(c, st, k, value);
    let v = st.version;
    lemma_key_bytes_injective(MvccKeyModel::TxnWrite(v, k), MvccKeyModel::Version(k, v));
    assert(c2.contains_key(version_key(k, v)));
    assert(latest_visible(c2, st, k, v));
    let w = choose|w: Version| latest_visible(c2, st, k, w);
    assert(w <= v && v <= w);
    lemma_read_option_bytes(value);
}

/// A write of one key leaves what any transaction reads for every other key
/// as it was.
pub proof fn law_write_leaves_other_keys(
    c: Map<Seq<u8>, Seq<u8>>,
    st: TransactionState,
    k: Seq<u8>,
    value: Option<Seq<u8>>,
    reader: TransactionState,
    other: Seq<u8>,
)
    requires
        other != k,
    ensures
        read_key(after_write(c, st, k, value), reader, other) == read_key(c, reader, other),
{
    let c2 = after_write(c, st, k, value);
    assert forall|w: Version| reader.sees(w) implies (c2.contains_key(
        #[trigger] version_key(other, w),
    ) == c.contains_key(version_key(other, w)) && (c2.contains_key(version_key(other, w))
        ==> c2[version_key(other, w)] == c[version_key(other, w)])) by {
        lemma_key_bytes_injective(
            MvccKeyModel::TxnWrite(st.version, k),
            MvccKeyModel::Version(other, w),
        );
        lemma_key_bytes_injective(
            MvccKeyModel::Version(k, st.version),
            MvccKeyModel::Version(other, w),
        );
    }
    lemma_read_same_versions(c2, c, reader, other);
}

/// Snapshot isolation: a transaction does not see a write of a transaction
/// whose version it does not see (one active when it began, or a later one).
pub proof fn law_unseen_write_is_invisible(
    c: Map<Seq<u8>, Seq<u8>>,
    writer: TransactionState,
    k: Seq<u8>,
    value: Option<Seq<u8>>,
    reader: TransactionState,
    key: Seq<u8>,
)
    requires
        !reader.sees(writer.version),
    ensures
        read_key(after_write(c, writer, k, value), reader, key) == read_key(c, reader, key),
{
    let c2 = after_write(c, writer, k, value);
    assert forall|w: Version| reader.sees(w) implies (c2.contains_key(
        #[trigger] version_key(key, w),
    ) == c.contains_key(version_key(key, w)) && (c2.contains_key(version_key(key, w)) ==> c2[version_key(key, w)] == c[version_key(key, w)])) by {
        lemma_key_bytes_injective(
            MvccKeyModel::TxnWrite(writer.version, k),
            MvccKeyModel::Version(key, w),
        );
        lemma_key_bytes_injective(
            MvccKeyModel::Version(k, writer.version),
            MvccKeyModel::Version(key, w),
        );
    }
    lemma_read_same_versions(c2, c, reader, key);
}

/// A commit changes no transaction's reads: it only drops bookkeeping.
pub proof fn law_commit_keeps_reads(
    c: Map<Seq<u8>, Seq<u8>>,
    v: Version,
    reader: TransactionState,
    key: Seq<u8>,
)
    ensures
        read_key(after_commit(c, v), reader, key) == read_key(c, reader, key),
{
    let c2 = after_commit(c, v);
    assert forall|w: Version| reader.sees(w) implies (c2.contains_key(
        #[trigger] version_key(key, w),
    ) == c.contains_key(version_key(key, w)) && (c2.contains_key(version_key(key, w)) ==> c2[version_key(key, w)] == c[version_key(key, w)])) by {
        let vk = version_key(key, w);
        lemma_key_bytes_injective(MvccKeyModel::TxnActive(v), MvccKeyModel::Version(key, w));
        assert(vk[0] == 3);
        if has_prefix(vk, prefix_bytes(MvccKeyPrefix::TxnWrite(v))) {
            assert(vk.subrange(0, 9)[0] == vk[0]);
        }
    }
    lemma_read_same_versions(c2, c, reader, key);
}

/// A rollback changes nothing that a transaction which does not see the
/// rolled-back version reads.
pub proof fn law_rollback_invisible_to_others(
    c: Map<Seq<u8>, Seq<u8>>,
    v: Version,
    reader: TransactionState,
    key: Seq<u8>,
)
    requires
        !reader.sees(v),
    ensures
        read_key(after_rollback(c, v), reader, key) == read_key(c, reader, key),
{
    let c2 = after_rollback(c, v);
    assert forall|w: Version| reader.sees(w) implies (c2.contains_key(
        #[trigger] version_key(key, w),
    ) == c.contains_key(version_key(key, w)) && (c2.contains_key(version_key(key, w)) ==> c2[version_key(key, w)] == c[version_key(key, w)])) by {
        let vk = version_key(key, w);
        lemma_key_bytes_injective(MvccKeyModel::TxnActive(v), MvccKeyModel::Version(key, w));
        assert(vk[0] == 3);
        if has_prefix(vk, prefix_bytes(MvccKeyPrefix::TxnWrite(v))) {
            assert(vk.subrange(0, 9)[0] == vk[0]);
        }
        if exists|raw: Seq<u8>| vk == version_key(raw, v) && c.contains_key(write_key(v, raw)) {
            let raw = choose|raw: Seq<u8>| vk == version_key(raw, v) && c.contains_key(write_key(v, raw));
            lemma_key_bytes_injective(MvccKeyModel::Version(raw, v), MvccKeyModel::Version(key, w));
        }
    }
    lemma_read_same_versions(c2, c, reader, key);
}

/// A rollback undoes a write: after a transaction writes `k` and rolls back,
/// every transaction reads for `k` what it read before the write.
pub proof fn law_rollback_undoes_write(
    c: Map<Seq<u8>, Seq<u8>>,
    st: TransactionState,
    k: Seq<u8>,
    value: Option<Seq<u8>>,
    reader: TransactionState,
)
    requires
        !c.contains_key(version_key(k, st.version)),
    ensures
        read_key(after_rollback(after_write(c, st, k, value), st.version), reader, k) == read_key(
            c,
            reader,
            k,
        ),
{
    let v = st.version;
    let c1 = after_write(c, st, k, value);
    let c2 = after_rollback(c1, v);
    assert forall|w: Version| reader.sees(w) implies (c2.contains_key(
        #[trigger] version_key(k, w),
    ) == c.contains_key(version_key(k, w)) && (c2.contains_key(version_key(k, w)) ==> c2[version_key(k, w)] == c[version_key(k, w)])) by {
        let vk = version_key(k, w);
        lemma_key_bytes_injective(MvccKeyModel::TxnActive(v), MvccKeyModel::Version(k, w));
        lemma_key_bytes_injective(MvccKeyModel::TxnWrite(v, k), MvccKeyModel::Version(k, w));
        assert(vk[0] == 3);
        if has_prefix(vk, prefix_bytes(MvccKeyPrefix::TxnWrite(v))) {
            assert(vk.subrange(0, 9)[0] == vk[0]);
        }
        if w == v {
            assert(c1.contains_key(write_key(v, k)));
        } else if exists|raw: Seq<u8>| vk == version_key(raw, v) && c1.contains_key(write_key(v, raw)) {
            let raw = choose|raw: Seq<u8>| vk == version_key(raw, v) && c1.contains_key(write_key(v, raw));
            lemma_key_bytes_injective(MvccKeyModel::Version(raw, v), MvccKeyModel::Version(k, w));
        }
    }
    lemma_read_same_versions(c2, c, reader, k);
}

/// Versions only move forward: after a transaction of version `v` begins,
/// the next one gets `v + 1`.
pub proof fn law_begin_advances_version(c: Map<Seq<u8>, Seq<u8>>, v: Version)
    requires
        v < u64::MAX,
    ensures
        next_version(
            c.insert(next_version_key(), u64_le((v + 1) as u64)).insert(active_key(v), Seq::empty()),
        ) == Some((v + 1) as Version),
{
    lemma_key_bytes_injective(MvccKeyModel::NextVersion, MvccKeyModel::TxnActive(v));
    lemma_le_u64_roundtrip((v + 1) as u64);
}


/// A write keeps a well-formed store well-formed.
pub proof fn law_write_keeps_store_wf(
    c: Map<Seq<u8>, Seq<u8>>,
    st: TransactionState,
    k: Seq<u8>,
    value: Option<Seq<u8>>,
)
    requires
        store_wf(c),
        value matches Some(v) ==> v.len() <= u64::MAX,
    ensures
        store_wf(after_write(c, st, k, value)),
{
    let c2 = after_write(c, st, k, value);
    lemma_parse_key_bytes(MvccKeyModel::TxnWrite(st.version, k));
    lemma_parse_key_bytes(MvccKeyModel::Version(k, st.version));
    lemma_read_option_bytes(value);
    assert forall|key: Seq<u8>| #[trigger] c2.contains_key(key) implies {
        &&& parse_key(key) is Some
        &&& (parse_key(key) matches Some(MvccKeyModel::Version(_, _)) ==> super::bincode_codec::read_option_bytes(c2[key]) is Some)
        &&& (parse_key(key) matches Some(MvccKeyModel::NextVersion) ==> c2[key].len() >= 8)
    } by {
        if key != write_key(st.version, k) && key != version_key(k, st.version) {
            assert(c.contains_key(key));
        }
    }
}

/// Dropping keys keeps a well-formed store well-formed.
proof fn lemma_drop_keeps_store_wf(c: Map<Seq<u8>, Seq<u8>>, c2: Map<Seq<u8>, Seq<u8>>)
    requires
        store_wf(c),
        forall|k: Seq<u8>| #[trigger] c2.contains_key(k) ==> c.contains_key(k) && c2[k] == c[k],
    ensures
        store_wf(c2),
{
    assert forall|key: Seq<u8>| #[trigger] c2.contains_key(key) implies {
        &&& parse_key(key) is Some
        &&& (parse_key(key) matches Some(MvccKeyModel::Version(_, _)) ==> super::bincode_codec::read_option_bytes(c2[key]) is Some)
        &&& (parse_key(key) matches Some(MvccKeyModel::NextVersion) ==> c2[key].len() >= 8)
    } by {
        assert(c.contains_key(key));
    }
}

/// Commits and rollbacks keep a well-formed store well-formed.
pub proof fn law_end_keeps_store_wf(c: Map<Seq<u8>, Seq<u8>>, v: Version)
    requires
        store_wf(c),
    ensures
        store_wf(after_commit(c, v)),
        store_wf(after_rollback(c, v)),
{
    lemma_drop_keeps_store_wf(c, after_commit(c, v));
    lemma_drop_keeps_store_wf(c, after_rollback(c, v));
}

/// Beginning a transaction keeps a well-formed store well-formed.
pub proof fn law_begin_keeps_store_wf(c: Map<Seq<u8>, Seq<u8>>, v: Version)
    requires
        store_wf(c),
        v < u64::MAX,
    ensures
        store_wf(
            c.insert(next_version_key(), u64_le((v + 1) as u64)).insert(active_key(v), Seq::empty()),
        ),
{
    let c2 = c.insert(next_version_key(), u64_le((v + 1) as u64)).insert(active_key(v), Seq::empty());
    lemma_parse_key_bytes(MvccKeyModel::NextVersion);
    lemma_parse_key_bytes(MvccKeyModel::TxnActive(v));
    lemma_le_u64_roundtrip((v + 1) as u64);
    assert forall|key: Seq<u8>| #[trigger] c2.contains_key(key) implies {
        &&& parse_key(key) is Some
        &&& (parse_key(key) matches Some(MvccKeyModel::Version(_, _)) ==> super::bincode_codec::read_option_bytes(c2[key]) is Some)
        &&& (parse_key(key) matches Some(MvccKeyModel::NextVersion) ==> c2[key].len() >= 8)
    } by {
        if key != next_version_key() && key != active_key(v) {
            assert(c.contains_key(key));
        }
    }
}

/// The empty store is well-formed, and its first transaction gets version 1.
pub proof fn law_empty_store()
    ensures
        store_wf(Map::<Seq<u8>, Seq<u8>>::empty()),
        next_version(Map::<Seq<u8>, Seq<u8>>::empty()) == Some(1u64),
{
}


/// A transaction's scan sees its own writes: after it writes `v` to a key
/// with the scanned prefix, every result of its scan holds that key, with
/// `v`.
pub proof fn law_scan_sees_own_write(
    c: Map<Seq<u8>, Seq<u8>>,
    st: TransactionState,
    k: Seq<u8>,
    v: Seq<u8>,
    prefix: Seq<u8>,
    res: Seq<ScanResult>,
)
    requires
        !st.active_versions@.contains(st.version),
        v.len() <= u64::MAX,
        has_prefix(k, prefix),
        is_mvcc_scan(after_write(c, st, k, Some(v)), st, prefix, res),
    ensures
        exists|i: int| 0 <= i < res.len() && res[i].key@ == k && res[i].value@ == v,
{
    let c2 = after_write(c, st, k, Some(v));
    law_read_own_write(c, st, k, Some(v));
    assert(read_key(c2, st, k) matches Some(Some(_)));
    let i = choose|i: int| 0 <= i < res.len() && res[i].key@ == k;
    assert(scan_entry(c2, st, prefix, res[i].key@, res[i].value@));
}


/// A write of one key changes nothing of whether a write of another key
/// conflicts.
pub proof fn law_write_keeps_other_conflicts(
    c: Map<Seq<u8>, Seq<u8>>,
    st: TransactionState,
    k1: Seq<u8>,
    value: Option<Seq<u8>>,
    k: Seq<u8>,
)
    requires
        k != k1,
    ensures
        write_conflict(after_write(c, st, k1, value), st, k) == write_conflict(c, st, k),
{
    let c2 = after_write(c, st, k1, value);
    let f = st.conflict_floor();
    assert forall|w: Version|
        #[trigger] c2.contains_key(version_key(k, w)) == c.contains_key(version_key(k, w)) by {
        lemma_key_bytes_injective(MvccKeyModel::Version(k, w), MvccKeyModel::Version(k1, st.version));
        lemma_key_bytes_injective(MvccKeyModel::Version(k, w), MvccKeyModel::TxnWrite(st.version, k1));
    }
    assert forall|v: Version| newest_from(c2, k, f, v) == newest_from(c, k, f, v) by {
        assert(c2.contains_key(version_key(k, v)) == c.contains_key(version_key(k, v)));
    }
    if write_conflict(c2, st, k) {
        let v = choose|v: Version| newest_from(c2, k, f, v) && !st.sees(v);
        assert(newest_from(c, k, f, v));
    }
    if write_conflict(c, st, k) {
        let v = choose|v: Version| newest_from(c, k, f, v) && !st.sees(v);
        assert(newest_from(c2, k, f, v));
    }
}

/// A store is its own writes' start: nothing changed.
pub proof fn lemma_own_writes_refl(c: Map<Seq<u8>, Seq<u8>>, v: Version)
    ensures
        own_writes(c, c, v),
{
}

/// Writes of one transaction, then more of its writes, are its writes.
pub proof fn lemma_own_writes_trans(
    a: Map<Seq<u8>, Seq<u8>>,
    b: Map<Seq<u8>, Seq<u8>>,
    c: Map<Seq<u8>, Seq<u8>>,
    v: Version,
)
    requires
        own_writes(a, b, v),
        own_writes(b, c, v),
    ensures
        own_writes(a, c, v),
{
    assert forall|k: Seq<u8>| #[trigger] c.contains_key(k) implies (a.contains_key(k) && a[k] == c[k])
        || own_entry(c, k, v) by {
        if !(b.contains_key(k) && b[k] == c[k]) {
            assert(own_entry(c, k, v));
        } else if !(a.contains_key(k) && a[k] == b[k]) {
            assert(own_entry(b, k, v));
            if exists|raw: Seq<u8>| k == #[trigger] write_key(v, raw) {
            } else {
                let raw = choose|raw: Seq<u8>| k == #[trigger] version_key(raw, v) && b.contains_key(write_key(v, raw));
                assert(c.contains_key(write_key(v, raw)));
            }
        }
    }
}

/// A write of a transaction is one of its own writes.
pub proof fn lemma_own_writes_after_write(
    c: Map<Seq<u8>, Seq<u8>>,
    st: TransactionState,
    k: Seq<u8>,
    value: Option<Seq<u8>>,
)
    ensures
        own_writes(c, after_write(c, st, k, value), st.version),
{
    let v = st.version;
    let c1 = after_write(c, st, k, value);
    assert forall|x: Seq<u8>| #[trigger] c1.contains_key(x) implies (c.contains_key(x) && c[x] == c1[x])
        || own_entry(c1, x, v) by {
        if x == write_key(v, k) {
            assert(x == write_key(v, k));
        } else if x == version_key(k, v) {
            assert(c1.contains_key(write_key(v, k)));
        }
    }
}

/// The record that transaction `v` wrote `raw` lies under `v`'s prefix of
/// write records.
proof fn lemma_write_key_prefix(v: Version, raw: Seq<u8>)
    ensures
        has_prefix(write_key(v, raw), prefix_bytes(MvccKeyPrefix::TxnWrite(v))),
{
    let p = prefix_bytes(MvccKeyPrefix::TxnWrite(v));
    let k = write_key(v, raw);
    assert(k.subrange(0, p.len() as int) =~= p);
}

/// A rollback forgets all that the transaction wrote: where its version `v`
/// is new to `cb` (no version of any key is `v`), rolling back after any
/// writes of `v` leaves what rolling back with none would.
pub proof fn law_rollback_forgets_own_writes(
    cb: Map<Seq<u8>, Seq<u8>>,
    cr: Map<Seq<u8>, Seq<u8>>,
    v: Version,
)
    requires
        own_writes(cb, cr, v),
        forall|raw: Seq<u8>| !cb.contains_key(#[trigger] version_key(raw, v)),
    ensures
        after_rollback(cr, v) == after_rollback(cb, v),
{
    let p = prefix_bytes(MvccKeyPrefix::TxnWrite(v));
    let ar = after_rollback(cr, v);
    let ab = after_rollback(cb, v);
    assert forall|k: Seq<u8>| #[trigger] cr.contains_key(k) && !(cb.contains_key(k) && cb[k] == cr[k])
        implies (has_prefix(k, p) || exists|raw: Seq<u8>| k == version_key(raw, v) && cr.contains_key(
        write_key(v, raw),
    )) by {
        assert(own_entry(cr, k, v));
        if exists|raw: Seq<u8>| k == #[trigger] write_key(v, raw) {
            let raw = choose|raw: Seq<u8>| k == #[trigger] write_key(v, raw);
            lemma_write_key_prefix(v, raw);
        }
    }
    assert forall|k: Seq<u8>| cb.contains_key(k) implies !(exists|raw: Seq<u8>| k == #[trigger] version_key(
        raw,
        v,
    )) by {
        if exists|raw: Seq<u8>| k == #[trigger] version_key(raw, v) {
            let raw = choose|raw: Seq<u8>| k == #[trigger] version_key(raw, v);
            assert(!cb.contains_key(version_key(raw, v)));
        }
    }
    assert forall|k: Seq<u8>| #[trigger] ar.contains_key(k) <==> ab.contains_key(k) by {
        if cr.contains_key(k) && !(cb.contains_key(k) && cb[k] == cr[k]) {
            if exists|raw: Seq<u8>| k == version_key(raw, v) && cr.contains_key(write_key(v, raw)) {
                let raw = choose|raw: Seq<u8>| k == version_key(raw, v) && cr.contains_key(write_key(v, raw));
                assert(k == version_key(raw, v));
            }
        }
    }
    assert forall|k: Seq<u8>| #[trigger] ar.contains_key(k) implies ar[k] == ab[k] by {
        if !(cb.contains_key(k) && cb[k] == cr[k]) {
            if exists|raw: Seq<u8>| k == version_key(raw, v) && cr.contains_key(write_key(v, raw)) {
                let raw = choose|raw: Seq<u8>| k == version_key(raw, v) && cr.contains_key(write_key(v, raw));
                assert(k == version_key(raw, v));
            }
        }
    }
    assert(ar =~= ab);
}

/// The store after transaction `st` makes the writes `ws` in order, each a
/// key and a value (`None` deletes).
pub open spec fn after_writes(
    c: Map<Seq<u8>, Seq<u8>>,
    st: TransactionState,
    ws: Seq<(Seq<u8>, Option<Seq<u8>>)>,
) -> Map<Seq<u8>, Seq<u8>>
    decreases ws.len(),
{
    if ws.len() == 0 {
        c
    } else {
        after_write(after_writes(c, st, ws.drop_last()), st, ws.last().0, ws.last().1)
    }
}

/// The value that the last of the writes `ws` to `k` wrote, if any wrote
/// `k`.
pub open spec fn last_written(ws: Seq<(Seq<u8>, Option<Seq<u8>>)>, k: Seq<u8>) -> Option<Option<Seq<u8>>>
    decreases ws.len(),
{
    if ws.len() == 0 {
        None
    } else if ws.last().0 == k {
        Some(ws.last().1)
    } else {
        last_written(ws.drop_last(), k)
    }
}

/// Over any run of writes and deletions, a transaction reads for each key
/// what it last wrote or deleted there, and for a key it did not touch what
/// it read before.
pub proof fn law_reads_after_writes(
    c: Map<Seq<u8>, Seq<u8>>,
    st: TransactionState,
    ws: Seq<(Seq<u8>, Option<Seq<u8>>)>,
    k: Seq<u8>,
)
    requires
        !st.active_versions@.contains(st.version),
        forall|i: int| 0 <= i < ws.len() ==> ((#[trigger] ws[i]).1 matches Some(v) ==> v.len() <= u64::MAX),
    ensures
        read_key(after_writes(c, st, ws), st, k) == match last_written(ws, k) {
            Some(v) => Some(v),
            None => read_key(c, st, k),
        },
    decreases ws.len(),
{
    if ws.len() > 0 {
        let p = ws.drop_last();
        assert forall|i: int| 0 <= i < p.len() implies ((#[trigger] p[i]).1 matches Some(v) ==> v.len()
            <= u64::MAX) by {
            assert(p[i] == ws[i]);
        }
        law_reads_after_writes(c, st, p, k);
        let w = ws.last();
        assert(w == ws[ws.len() - 1]);
        if w.0 == k {
            law_read_own_write(after_writes(c, st, p), st, k, w.1);
        } else {
            law_write_leaves_other_keys(after_writes(c, st, p), st, w.0, w.1, st, k);
        }
    }
}

/// Transactions that begin one after the other take successive versions.
pub proof fn law_begins_take_successive_versions(
    t1: MvccTransaciton,
    t2: MvccTransaciton,
    c0: Map<Seq<u8>, Seq<u8>>,
    c1: Map<Seq<u8>, Seq<u8>>,
    c2: Map<Seq<u8>, Seq<u8>>,
)
    requires
        t1.began(c0, c1),
        t2.began(c1, c2),
    ensures
        t2.state().version == t1.state().version + 1,
        t2.state().active_versions@.contains(t1.state().version),
{
    law_begin_advances_version(c0, t1.state().version);
}

/// A transaction that has committed or rolled back is no longer active: a
/// transaction that begins afterwards does not list it.
pub proof fn law_ended_is_not_active(
    t: MvccTransaciton,
    c: Map<Seq<u8>, Seq<u8>>,
    c2: Map<Seq<u8>, Seq<u8>>,
    v: Version,
    committed: bool,
)
    requires
        t.began(if committed { after_commit(c, v) } else { after_rollback(c, v) }, c2),
    ensures
        !t.state().active_versions@.contains(v),
{
}

} // verus!
