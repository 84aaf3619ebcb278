//! Tables and rows kept as keys of the multi-version store.
use vstd::prelude::*;

use crate::error::{Error, Result};
use crate::sql::codec::{
    chars_bytes, decode_row, decode_table, encode_row, encode_table, encode_value, lemma_read_chars,
    lemma_read_row, lemma_read_value, read_chars, read_value, value_fits, value_wf,
    lemma_read_table, push_chars, read_row, read_table, row_bytes, row_fits, table_bytes,
    table_fits, value_bytes,
};
use crate::sql::schema::{pk_position, table_valid, ColumnModel, Table, TableModel};
use crate::sql::text::chars_of;
use crate::sql::types::{datatype_of, row_view, row_wf, value_text, Row, Value, ValueModel};
use crate::storage::engine::Engine as StorageEngine;
use crate::storage::memory::copy_bytes;
use crate::storage::mvcc_laws::{law_read_own_write, law_scan_sees_own_write};
use crate::storage::engine::has_prefix;
use crate::storage::mvcc::{
    after_write, wrote_own, is_mvcc_scan, read_key, store_wf, write_conflict, Mvcc, MvccTransaciton,
    ScanResult, TransactionState,
};

verus! {

/// The key of the schema of table `name`.
pub open spec fn table_key(name: Seq<char>) -> Seq<u8> {
    seq![0u8] + chars_bytes(name)
}

/// The prefix of the keys of all schemas.
pub open spec fn tables_prefix() -> Seq<u8> {
    seq![0u8]
}

/// The prefix of the keys of the rows of table `table`.
pub open spec fn row_prefix(table: Seq<char>) -> Seq<u8> {
    seq![1u8] + chars_bytes(table)
}

/// The key of the row of table `table` whose primary key is `id`.
pub open spec fn row_key(table: Seq<char>, id: ValueModel) -> Seq<u8> {
    row_prefix(table) + value_bytes(id)
}

/// A key of the SQL layer.
pub enum Key {
    Table(String),
    Row(String, Value),
}

impl Key {
    pub open spec fn bytes(&self) -> Seq<u8> {
        match self {
            Key::Table(name) => table_key(name@),
            Key::Row(table, id) => row_key(table@, id@),
        }
    }

    /// The bytes of the key.
    pub fn encode(&self) -> (r: Result<Vec<u8>>)
        ensures
            r matches Ok(b) && b@ == self.bytes(),
    {
        let mut out: Vec<u8> = Vec::new();
        match self {
            Key::Table(name) => {
                out.push(0u8);
                push_chars(&mut out, &chars_of(name.as_str()));
            },
            Key::Row(table, id) => {
                out.push(1u8);
                push_chars(&mut out, &chars_of(table.as_str()));
                encode_value(&mut out, id);
            },
        }
        assert(out@ =~= self.bytes());
        Ok(out)
    }
}

/// A key prefix of the SQL layer.
pub enum KeyPrefix {
    Table,
    Row(String),
}

impl KeyPrefix {
    pub open spec fn bytes(&self) -> Seq<u8> {
        match self {
            KeyPrefix::Table => tables_prefix(),
            KeyPrefix::Row(table) => row_prefix(table@),
        }
    }

    /// The bytes of the prefix.
    pub fn encode(&self) -> (r: Result<Vec<u8>>)
        ensures
            r matches Ok(b) && b@ == self.bytes(),
    {
        let mut out: Vec<u8> = Vec::new();
        match self {
            KeyPrefix::Table => {
                out.push(0u8);
            },
            KeyPrefix::Row(table) => {
                out.push(1u8);
                push_chars(&mut out, &chars_of(table.as_str()));
            },
        }
        assert(out@ =~= self.bytes());
        Ok(out)
    }
}

/// What a transaction reads for the schema of table `name`: the table, or
/// none; `None` where the stored bytes do not decode.
#[verifier::opaque]
pub open spec fn table_read(
    c: Map<Seq<u8>, Seq<u8>>,
    st: TransactionState,
    name: Seq<char>,
) -> Option<Option<TableModel>> {
    match read_key(c, st, table_key(name)) {
        Some(Some(b)) => match read_table(b) {
            Some(t) => Some(Some(t)),
            None => None,
        },
        Some(None) => Some(None),
        None => None,
    }
}

pub open spec fn opt_table_view(o: Option<Table>) -> Option<TableModel> {
    match o {
        Some(t) => Some(t@),
        None => None,
    }
}

/// The SQL engine over the multi-version store.
pub struct KVEngine<E: StorageEngine> {
    pub kv: Mvcc<E>,
}

impl<E: StorageEngine> KVEngine<E> {
    pub fn new(engine: E) -> (r: Self)
        ensures
            r.kv.contents() == engine.contents(),
            r.kv.wf() == engine.wf(),
            r.kv.infallible() == engine.infallible(),
    {
        KVEngine { kv: Mvcc::new(engine) }
    }

    /// Begins a transaction.
    pub fn begin(&mut self) -> (r: Result<KVTransaction>)
        requires
            old(self).kv.wf(),
        ensures
            final(self).kv.wf(),
            final(self).kv.infallible() == old(self).kv.infallible(),
            r matches Ok(t) ==> t.txn.began(old(self).kv.contents(), final(self).kv.contents()),
            old(self).kv.infallible() && store_wf(old(self).kv.contents())
                && crate::storage::mvcc::next_version(old(self).kv.contents()) != Some(u64::MAX)
                ==> r is Ok,
    {
        let txn = self.kv.begin()?;
        Ok(KVTransaction::new(txn))
    }
}

/// A transaction of the SQL engine.
pub struct KVTransaction {
    pub txn: MvccTransaciton,
}

impl KVTransaction {
    pub open spec fn state(&self) -> TransactionState {
        self.txn.state()
    }

    pub fn new(txn: MvccTransaciton) -> (t: Self)
        ensures
            t.txn == txn,
    {
        KVTransaction { txn }
    }

    /// The transaction's version.
    pub fn version(&self) -> (v: u64)
        ensures
            v == self.state().version,
    {
        self.txn.version()
    }

    /// Commits the transaction.
    pub fn commmit<E: StorageEngine>(&self, kv: &mut Mvcc<E>) -> (r: Result<()>)
        requires
            old(kv).wf(),
        ensures
            final(kv).wf(),
            final(kv).infallible() == old(kv).infallible(),
            r is Ok ==> final(kv).contents() == crate::storage::mvcc::after_commit(
                old(kv).contents(),
                self.state().version,
            ),
            old(kv).infallible() ==> r is Ok,
    {
        self.txn.commmit(kv)
    }

    /// Rolls the transaction back.
    pub fn rollback<E: StorageEngine>(&self, kv: &mut Mvcc<E>) -> (r: Result<()>)
        requires
            old(kv).wf(),
        ensures
            final(kv).wf(),
            final(kv).infallible() == old(kv).infallible(),
            r is Ok ==> final(kv).contents() == crate::storage::mvcc::after_rollback(
                old(kv).contents(),
                self.state().version,
            ),
            old(kv).infallible() && store_wf(old(kv).contents()) ==> r is Ok,
    {
        self.txn.rollback(kv)
    }

    /// The schema of table `table_name`, if there is one.
    pub fn get_table<E: StorageEngine>(&self, kv: &mut Mvcc<E>, table_name: String) -> (r: Result<
        Option<Table>,
    >)
        requires
            old(kv).wf(),
        ensures
            final(kv).wf(),
            final(kv).infallible() == old(kv).infallible(),
            final(kv).contents() == old(kv).contents(),
            r matches Ok(o) ==> table_read(old(kv).contents(), self.state(), table_name@) == Some(
                opt_table_view(o),
            ),
            old(kv).infallible() && store_wf(old(kv).contents()) ==> (r is Ok <==> table_read(
                old(kv).contents(),
                self.state(),
                table_name@,
            ) is Some),
            r matches Err(e) ==> e is Internal,
    {
        reveal(table_read);
        let key = Key::Table(table_name).encode()?;
        match self.txn.get(kv, key)? {
            Some(v) => match decode_table(v.as_slice()) {
                Some(t) => Ok(Some(t)),
                None => Err(Error::Internal(String::from_str("stored table does not decode"))),
            },
            None => Ok(None),
        }
    }

    /// The schema of table `table_name`; an error where there is none.
    pub fn must_get_table<E: StorageEngine>(&self, kv: &mut Mvcc<E>, table_name: String) -> (r:
        Result<Table>)
        requires
            old(kv).wf(),
        ensures
            final(kv).wf(),
            final(kv).infallible() == old(kv).infallible(),
            final(kv).contents() == old(kv).contents(),
            r matches Ok(t) ==> table_read(old(kv).contents(), self.state(), table_name@) == Some(
                Some(t@),
            ),
            table_read(old(kv).contents(), self.state(), table_name@) == Some(None::<TableModel>)
                ==> r is Err,
            old(kv).infallible() && store_wf(old(kv).contents()) ==> (r is Ok <==> table_read(
                old(kv).contents(),
                self.state(),
                table_name@,
            ) matches Some(Some(_))),
            r matches Err(e) ==> e is Internal,
            old(kv).infallible() && store_wf(old(kv).contents()) && table_read(
                old(kv).contents(),
                self.state(),
                table_name@,
            ) == Some(None::<TableModel>) ==> (r matches Err(Error::Internal(m)) && m@ == "table "@
                + table_name@ + " does not exist"@),
    {
        let name = table_name.clone();
        match self.get_table(kv, table_name)? {
            Some(t) => Ok(t),
            None => Err(
                Error::Internal(
                    String::from_str("table ").concat(name.as_str()).concat(" does not exist"),
                ),
            ),
        }
    }

    /// Creates a table: refused where it exists already or is not valid.
    pub fn create_table<E: StorageEngine>(&self, kv: &mut Mvcc<E>, table: Table) -> (r: Result<()>)
        requires
            old(kv).wf(),
        ensures
            final(kv).wf(),
            final(kv).infallible() == old(kv).infallible(),
            r is Ok ==> table_read(old(kv).contents(), self.state(), table.name@) == Some(
                None::<TableModel>,
            ) && table_valid(table@) && final(kv).contents() == after_write(
                old(kv).contents(),
                self.state(),
                table_key(table.name@),
                Some(table_bytes(table@)),
            ),
            table_read(old(kv).contents(), self.state(), table.name@) matches Some(Some(_))
                ==> r is Err,
            !table_valid(table@) ==> r is Err,
            r matches Err(Error::WriteConflict) ==> write_conflict(
                old(kv).contents(),
                self.state(),
                table_key(table.name@),
            ),
            old(kv).infallible() && store_wf(old(kv).contents()) && table_read(
                old(kv).contents(),
                self.state(),
                table.name@,
            ) == Some(None::<TableModel>) && table_valid(table@) && !write_conflict(
                old(kv).contents(),
                self.state(),
                table_key(table.name@),
            ) ==> r is Ok,
            r is Ok && store_wf(old(kv).contents()) ==> store_wf(final(kv).contents()),
            old(kv).infallible() && store_wf(old(kv).contents()) && r is Err ==> final(kv).contents()
                == old(kv).contents(),
            old(kv).infallible() && store_wf(old(kv).contents()) ==> wrote_own(
                old(kv).contents(),
                final(kv).contents(),
                self.state(),
            ),
            old(kv).infallible() && store_wf(old(kv).contents()) && (table_read(
                old(kv).contents(),
                self.state(),
                table.name@,
            ) matches Some(Some(_))) ==> (r matches Err(Error::Internal(m)) && m@ == "table "@
                + table.name@ + " already exists"@),
    {
        let ghost c0 = kv.contents();
        if self.get_table(kv, table.name.clone())?.is_some() {
            return Err(
                Error::Internal(
                    String::from_str("table ").concat(table.name.as_str()).concat(
                        " already exists",
                    ),
                ),
            );
        }
        table.validate()?;
        let key = Key::Table(table.name.clone()).encode()?;
        let value = encode_table(&table);
        let ghost cb = kv.contents();
        let ghost kb = key@;
        let ghost vb = value@;
        assert(vb.len() == value.len() && value.len() <= usize::MAX && usize::MAX <= u64::MAX);
        let r = self.txn.set(kv, key, value);
        proof {
            if r is Ok && store_wf(cb) {
                crate::storage::mvcc_laws::law_write_keeps_store_wf(cb, self.state(), kb, Some(vb));
                crate::storage::mvcc_laws::lemma_own_writes_after_write(cb, self.state(), kb, Some(vb));
            }
            crate::storage::mvcc_laws::lemma_own_writes_refl(c0, self.state().version);
        }
        r
    }
}

/// A value may stand in a column: it has the column's type, or it is `Null`
/// and the column may be null.
pub open spec fn value_fits_column(c: ColumnModel, v: ValueModel) -> bool {
    match datatype_of(v) {
        None => c.nullable,
        Some(d) => d == c.datatype,
    }
}

/// A row may be stored in table `t`: it has a value for each column, and
/// each fits its column.
pub open spec fn row_accepted(t: TableModel, row: Seq<ValueModel>) -> bool {
    &&& row.len() >= t.columns.len()
    &&& forall|i: int| 0 <= i < t.columns.len() ==> value_fits_column(t.columns[i], #[trigger] row[i])
}

/// The rows that scanned values decode to; `None` where one does not.
pub open spec fn decode_rows(vals: Seq<Seq<u8>>) -> Option<Seq<Seq<ValueModel>>>
    decreases vals.len(),
{
    if vals.len() == 0 {
        Some(Seq::empty())
    } else {
        match (decode_rows(vals.drop_last()), read_row(vals.last())) {
            (Some(rs), Some((r, _))) => Some(rs.push(r)),
            _ => None,
        }
    }
}

/// The table names that scanned values decode to; `None` where one does not.
pub open spec fn decode_names(vals: Seq<Seq<u8>>) -> Option<Seq<Seq<char>>>
    decreases vals.len(),
{
    if vals.len() == 0 {
        Some(Seq::empty())
    } else {
        match (decode_names(vals.drop_last()), read_table(vals.last())) {
            (Some(ns), Some(t)) => Some(ns.push(t.name)),
            _ => None,
        }
    }
}

/// Listing the tables gives one name for each stored schema, in the order
/// they were read, each the name of that schema; it fails exactly where a
/// stored schema does not decode.
pub proof fn law_table_names(vals: Seq<Seq<u8>>)
    ensures
        decode_names(vals) is Some <==> forall|i: int| 0 <= i < vals.len() ==> read_table(#[trigger] vals[i]) is Some,
        decode_names(vals) matches Some(ns) ==> ns.len() == vals.len() && forall|i: int|
            0 <= i < vals.len() ==> (read_table(#[trigger] vals[i]) matches Some(t) && ns[i] == t.name),
    decreases vals.len(),
{
    if vals.len() > 0 {
        let p = vals.drop_last();
        law_table_names(p);
        assert(forall|i: int| 0 <= i < p.len() ==> p[i] == vals[i]);
        assert(vals.last() == vals[vals.len() - 1]);
        if decode_names(vals) is None && decode_names(p) is None {
            let i = choose|i: int| 0 <= i < p.len() && !(read_table(#[trigger] p[i]) is Some);
            assert(read_table(vals[i]) is None);
        }
    }
}

/// The values of scanned pairs.
pub open spec fn scan_values(res: Seq<ScanResult>) -> Seq<Seq<u8>> {
    res.map_values(|x: ScanResult| x.value@)
}

/// What a transaction reads of the rows of table `table`, in key order;
/// `None` where a stored row does not decode.
pub open spec fn rows_read(
    c: Map<Seq<u8>, Seq<u8>>,
    st: TransactionState,
    table: Seq<char>,
    rows: Seq<Seq<ValueModel>>,
) -> bool {
    exists|res: Seq<ScanResult>|
        is_mvcc_scan(c, st, row_prefix(table), res) && decode_rows(scan_values(res)) == Some(rows)
}

/// Inserting row `row` into table `name` took the store from `c0` to `c1`.
#[verifier::opaque]
pub open spec fn row_inserted(
    c0: Map<Seq<u8>, Seq<u8>>,
    c1: Map<Seq<u8>, Seq<u8>>,
    st: TransactionState,
    name: Seq<char>,
    row: Seq<ValueModel>,
) -> bool {
    match table_read(c0, st, name) {
        Some(Some(t)) => match pk_position(t.columns) {
            Some(p) => {
                &&& row_accepted(t, row)
                &&& read_key(c0, st, row_key(name, row[p])) == Some(None::<Seq<u8>>)
                &&& c1 == after_write(c0, st, row_key(name, row[p]), Some(row_bytes(row)))
            },
            None => false,
        },
        _ => false,
    }
}

/// Nothing stands in the way of inserting `row` into table `name`.
pub open spec fn row_insertable(
    c: Map<Seq<u8>, Seq<u8>>,
    st: TransactionState,
    name: Seq<char>,
    row: Seq<ValueModel>,
) -> bool {
    match table_read(c, st, name) {
        Some(Some(t)) => match pk_position(t.columns) {
            Some(p) => {
                &&& row_accepted(t, row)
                &&& read_key(c, st, row_key(name, row[p])) == Some(None::<Seq<u8>>)
                &&& !write_conflict(c, st, row_key(name, row[p]))
            },
            None => false,
        },
        _ => false,
    }
}

/// The primary key of `row` is taken in table `name`.
pub open spec fn row_duplicate(
    c: Map<Seq<u8>, Seq<u8>>,
    st: TransactionState,
    name: Seq<char>,
    row: Seq<ValueModel>,
) -> bool {
    match table_read(c, st, name) {
        Some(Some(t)) => match pk_position(t.columns) {
            Some(p) => p < row.len() && read_key(c, st, row_key(name, row[p])) matches Some(Some(_)),
            None => false,
        },
        _ => false,
    }
}

/// Table `name` exists and `row` fits its columns.
pub open spec fn row_takes(
    c: Map<Seq<u8>, Seq<u8>>,
    st: TransactionState,
    name: Seq<char>,
    row: Seq<ValueModel>,
) -> bool {
    table_read(c, st, name) matches Some(Some(t)) && row_accepted(t, row)
}

/// The message that refuses `row` for table `name`: its primary key is
/// taken.
pub open spec fn duplicate_text(
    c: Map<Seq<u8>, Seq<u8>>,
    st: TransactionState,
    name: Seq<char>,
    row: Seq<ValueModel>,
) -> Seq<char> {
    match table_read(c, st, name) {
        Some(Some(t)) => "Duplicate data for primary key "@ + value_text(row[pk_position(t.columns)->0])
            + " in table "@ + name,
        _ => Seq::empty(),
    }
}

/// Checks that `row` may be stored in `table`.
pub fn check_row(table: &Table, row: &Row) -> (r: Result<()>)
    ensures
        r is Ok <==> row_accepted(table@, row_view(row@)),
        r matches Err(e) ==> e is Internal,
{
    let ghost t = table@;
    let ghost rv = row_view(row@);
    let n = table.columns.len();
    if row.len() < n {
        return Err(
            Error::Internal(
                String::from_str("too few values for table ").concat(table.name.as_str()),
            ),
        );
    }
    let mut i: usize = 0;
    while i < n
        invariant
            i <= n,
            n == table.columns@.len(),
            n <= row@.len(),
            t == table@,
            rv == row_view(row@),
            forall|j: int| 0 <= j < i ==> value_fits_column(t.columns[j], #[trigger] rv[j]),
        decreases n - i,
    {
        let col = &table.columns[i];
        assert(t.columns[i as int] == col@);
        assert(rv[i as int] == row@[i as int]@);
        match row[i].datatype() {
            None => {
                if !col.nullable {
                    assert(!value_fits_column(t.columns[i as int], rv[i as int]));
                    return Err(
                        Error::Internal(
                            String::from_str("column ").concat(col.name.as_str()).concat(
                                " cannot be null",
                            ),
                        ),
                    );
                }
            },
            Some(dt) => {
                if dt != col.datatype {
                    assert(!value_fits_column(t.columns[i as int], rv[i as int]));
                    return Err(
                        Error::Internal(
                            String::from_str("column ").concat(col.name.as_str()).concat(
                                " type mismatch",
                            ),
                        ),
                    );
                }
            },
        }
        i = i + 1;
    }
    Ok(())
}

impl KVTransaction {
    /// Inserts a row into table `table_name`: refused where the table does
    /// not exist, a value does not fit its column, or the primary key is
    /// taken.
    pub fn create_row<E: StorageEngine>(&self, kv: &mut Mvcc<E>, table_name: String, row: Row) -> (r:
        Result<()>)
        requires
            old(kv).wf(),
        ensures
            final(kv).wf(),
            final(kv).infallible() == old(kv).infallible(),
            r is Ok ==> row_inserted(
                old(kv).contents(),
                final(kv).contents(),
                self.state(),
                table_name@,
                row_view(row@),
            ),
            table_read(old(kv).contents(), self.state(), table_name@) == Some(None::<TableModel>)
                ==> r is Err,
            (table_read(old(kv).contents(), self.state(), table_name@) matches Some(Some(t))
                && !row_accepted(t, row_view(row@))) ==> r is Err,
            row_duplicate(old(kv).contents(), self.state(), table_name@, row_view(row@))
                ==> r is Err,
            old(kv).infallible() && store_wf(old(kv).contents()) && row_insertable(
                old(kv).contents(),
                self.state(),
                table_name@,
                row_view(row@),
            ) ==> r is Ok,
            r is Ok && store_wf(old(kv).contents()) ==> store_wf(final(kv).contents()),
            old(kv).infallible() && store_wf(old(kv).contents()) && r is Err ==> final(kv).contents()
                == old(kv).contents(),
            old(kv).infallible() && store_wf(old(kv).contents()) ==> wrote_own(
                old(kv).contents(),
                final(kv).contents(),
                self.state(),
            ),
            old(kv).infallible() && store_wf(old(kv).contents()) && row_duplicate(
                old(kv).contents(),
                self.state(),
                table_name@,
                row_view(row@),
            ) && row_takes(old(kv).contents(), self.state(), table_name@, row_view(row@))
                ==> (r matches Err(Error::Internal(m)) && m@ == duplicate_text(
                old(kv).contents(),
                self.state(),
                table_name@,
                row_view(row@),
            )),
    {
        reveal(row_inserted);
        let ghost c = kv.contents();
        let ghost st = self.state();
        let ghost rv = row_view(row@);
        let table = self.must_get_table(kv, table_name.clone())?;
        let ghost t = table@;
        check_row(&table, &row)?;
        let p = match table.primary_key_index() {
            Some(p) => p,
            None => {
                return Err(Error::Internal(String::from_str("No primary key found")));
            },
        };
        proof {
            crate::sql::schema::lemma_pk_position(t.columns);
        }
        let pk = row[p].copy();
        let shown = pk.to_string();
        let id = Key::Row(table_name.clone(), pk).encode()?;
        if self.txn.get(kv, copy_bytes(&id))?.is_some() {
            return Err(
                Error::Internal(
                    String::from_str("Duplicate data for primary key ").concat(
                        shown.as_str(),
                    ).concat(" in table ").concat(table_name.as_str()),
                ),
            );
        }
        let mut value: Vec<u8> = Vec::new();
        encode_row(&mut value, &row);
        let ghost cb = kv.contents();
        let ghost kb = id@;
        let ghost vb = value@;
        assert(vb.len() == value.len() && value.len() <= usize::MAX && usize::MAX <= u64::MAX);
        let r = self.txn.set(kv, id, value);
        proof {
            if r is Ok && store_wf(cb) {
                crate::storage::mvcc_laws::law_write_keeps_store_wf(cb, st, kb, Some(vb));
                crate::storage::mvcc_laws::lemma_own_writes_after_write(cb, st, kb, Some(vb));
            }
            crate::storage::mvcc_laws::lemma_own_writes_refl(c, st.version);
        }
        r
    }
}

proof fn lemma_decode_rows_none(vals: Seq<Seq<u8>>, i: int)
    requires
        0 <= i <= vals.len(),
        decode_rows(vals.take(i)) is None,
    ensures
        decode_rows(vals) is None,
    decreases vals.len() - i,
{
    if i < vals.len() {
        assert(vals.take(i + 1).drop_last() =~= vals.take(i));
        lemma_decode_rows_none(vals, i + 1);
    } else {
        assert(vals.take(i) =~= vals);
    }
}

proof fn lemma_decode_names_none(vals: Seq<Seq<u8>>, i: int)
    requires
        0 <= i <= vals.len(),
        decode_names(vals.take(i)) is None,
    ensures
        decode_names(vals) is None,
    decreases vals.len() - i,
{
    if i < vals.len() {
        assert(vals.take(i + 1).drop_last() =~= vals.take(i));
        lemma_decode_names_none(vals, i + 1);
    } else {
        assert(vals.take(i) =~= vals);
    }
}

/// What a transaction reads for the row of table `name` whose primary key
/// is `id`: the row, or none; `None` where the stored bytes do not decode.
pub open spec fn row_at(
    c: Map<Seq<u8>, Seq<u8>>,
    st: TransactionState,
    name: Seq<char>,
    id: ValueModel,
) -> Option<Option<Seq<ValueModel>>> {
    match read_key(c, st, row_key(name, id)) {
        Some(Some(b)) => match read_row(b) {
            Some((r, _)) => Some(Some(r)),
            None => None,
        },
        Some(None) => Some(None),
        None => None,
    }
}

pub open spec fn opt_row_view(o: Option<Row>) -> Option<Seq<ValueModel>> {
    match o {
        Some(r) => Some(row_view(r@)),
        None => None,
    }
}

pub open spec fn all_rows_wf(rows: Seq<Row>) -> bool {
    forall|i: int| 0 <= i < rows.len() ==> row_wf(#[trigger] rows[i]@)
}

/// Updating the row of table `t` whose primary key is `id` to `row` took
/// the store from `c0` to `c1`: a new version of that row where the primary
/// key stays, else a deletion of it and an insertion of the new row.
#[verifier::opaque]
pub open spec fn row_updated(
    c0: Map<Seq<u8>, Seq<u8>>,
    c1: Map<Seq<u8>, Seq<u8>>,
    st: TransactionState,
    t: TableModel,
    id: ValueModel,
    row: Seq<ValueModel>,
) -> bool {
    match pk_position(t.columns) {
        Some(p) => p < row.len() && if row[p] == id {
            c1 == after_write(c0, st, row_key(t.name, id), Some(row_bytes(row)))
        } else {
            row_inserted(after_write(c0, st, row_key(t.name, id), None), c1, st, t.name, row)
        },
        None => false,
    }
}

/// Nothing stands in the way of replacing the row of table `t` whose
/// primary key is `id` by `row`: the table has a primary key and `row` a
/// value for it; the write of the row's key does not conflict; where the
/// key changes, the new row can then be inserted.
pub open spec fn row_updatable(
    c: Map<Seq<u8>, Seq<u8>>,
    st: TransactionState,
    t: TableModel,
    id: ValueModel,
    row: Seq<ValueModel>,
) -> bool {
    match pk_position(t.columns) {
        Some(p) => p < row.len() && !write_conflict(c, st, row_key(t.name, id)) && (row[p] != id
            ==> row_insertable(after_write(c, st, row_key(t.name, id), None), st, t.name, row)),
        None => false,
    }
}

impl KVTransaction {
    /// The rows of table `table_name`, in the order of their keys.
    pub fn scan_table<E: StorageEngine>(&self, kv: &mut Mvcc<E>, table_name: String) -> (r: Result<
        Vec<Row>,
    >)
        requires
            old(kv).wf(),
        ensures
            final(kv).wf(),
            final(kv).infallible() == old(kv).infallible(),
            final(kv).contents() == old(kv).contents(),
            r matches Ok(rows) ==> rows_read(
                old(kv).contents(),
                self.state(),
                table_name@,
                crate::sql::types::rows_view(rows@),
            ) && all_rows_wf(rows@),
            old(kv).infallible() && store_wf(old(kv).contents()) && (forall|res: Seq<ScanResult>|
                #[trigger] is_mvcc_scan(old(kv).contents(), self.state(), row_prefix(table_name@), res)
                    ==> decode_rows(scan_values(res)) is Some) ==> r is Ok,
    {
        let ghost c = kv.contents();
        let prefix = KeyPrefix::Row(table_name.clone()).encode()?;
        let results = self.txn.scan_prefix(kv, prefix)?;
        let ghost vals = scan_values(results@);
        let mut rows: Vec<Row> = Vec::new();
        let mut i: usize = 0;
        while i < results.len()
            invariant
                kv.wf(),
                kv.infallible() == old(kv).infallible(),
                kv.contents() == old(kv).contents(),
                is_mvcc_scan(old(kv).contents(), self.state(), row_prefix(table_name@), results@),
                i <= results@.len(),
                vals == scan_values(results@),
                decode_rows(vals.take(i as int)) == Some(crate::sql::types::rows_view(rows@)),
                all_rows_wf(rows@),
            decreases results@.len() - i,
        {
            let data = results[i].value.as_slice();
            assert(data@.skip(0) =~= data@);
            assert(vals.take(i + 1).drop_last() =~= vals.take(i as int));
            assert(vals[i as int] == data@);
            match decode_row(data, 0) {
                Some((row, _)) => {
                    let ghost old_rows = rows@;
                    rows.push(row);
                    assert(crate::sql::types::rows_view(rows@) =~= crate::sql::types::rows_view(
                        old_rows,
                    ).push(row_view(row@)));
                },
                None => {
                    proof {
                        lemma_decode_rows_none(vals, i + 1);
                    }
                    return Err(Error::Internal(String::from_str("stored row does not decode")));
                },
            }
            i = i + 1;
        }
        assert(vals.take(i as int) =~= vals);
        assert(is_mvcc_scan(old(kv).contents(), self.state(), row_prefix(table_name@), results@)
            && decode_rows(scan_values(results@)) == Some(crate::sql::types::rows_view(rows@)));
        Ok(rows)
    }

    /// The names of all tables, in the order of their keys.
    pub fn get_table_names<E: StorageEngine>(&self, kv: &mut Mvcc<E>) -> (r: Result<Vec<String>>)
        requires
            old(kv).wf(),
        ensures
            final(kv).wf(),
            final(kv).infallible() == old(kv).infallible(),
            final(kv).contents() == old(kv).contents(),
            r matches Ok(names) ==> exists|res: Seq<ScanResult>|
                is_mvcc_scan(old(kv).contents(), self.state(), tables_prefix(), res)
                    && decode_names(scan_values(res)) == Some(
                    crate::sql::parser::ast::names_view(names@),
                ),
            old(kv).infallible() && store_wf(old(kv).contents()) && (forall|res: Seq<ScanResult>|
                #[trigger] is_mvcc_scan(old(kv).contents(), self.state(), tables_prefix(), res)
                    ==> decode_names(scan_values(res)) is Some) ==> r is Ok,
    {
        let prefix = KeyPrefix::Table.encode()?;
        let results = self.txn.scan_prefix(kv, prefix)?;
        let ghost vals = scan_values(results@);
        let mut names: Vec<String> = Vec::new();
        let mut i: usize = 0;
        while i < results.len()
            invariant
                kv.wf(),
                kv.infallible() == old(kv).infallible(),
                kv.contents() == old(kv).contents(),
                is_mvcc_scan(old(kv).contents(), self.state(), tables_prefix(), results@),
                i <= results@.len(),
                vals == scan_values(results@),
                decode_names(vals.take(i as int)) == Some(
                    crate::sql::parser::ast::names_view(names@),
                ),
            decreases results@.len() - i,
        {
            let data = results[i].value.as_slice();
            assert(vals.take(i + 1).drop_last() =~= vals.take(i as int));
            assert(vals[i as int] == data@);
            match decode_table(data) {
                Some(t) => {
                    let ghost old_names = names@;
                    names.push(t.name);
                    assert(crate::sql::parser::ast::names_view(names@) =~= crate::sql::parser::ast::names_view(
                        old_names,
                    ).push(t@.name));
                },
                None => {
                    proof {
                        lemma_decode_names_none(vals, i + 1);
                    }
                    return Err(Error::Internal(String::from_str("stored table does not decode")));
                },
            }
            i = i + 1;
        }
        assert(vals.take(i as int) =~= vals);
        assert(is_mvcc_scan(old(kv).contents(), self.state(), tables_prefix(), results@)
            && decode_names(scan_values(results@)) == Some(
            crate::sql::parser::ast::names_view(names@),
        ));
        Ok(names)
    }

    /// The row of table `table_name` whose primary key is `id`, if any.
    pub fn read_by_id<E: StorageEngine>(&self, kv: &mut Mvcc<E>, table_name: &String, id: &Value) -> (r:
        Result<Option<Row>>)
        requires
            old(kv).wf(),
        ensures
            final(kv).wf(),
            final(kv).infallible() == old(kv).infallible(),
            final(kv).contents() == old(kv).contents(),
            r matches Ok(o) ==> row_at(old(kv).contents(), self.state(), table_name@, id@) == Some(
                opt_row_view(o),
            ) && (o matches Some(row) ==> row_wf(row@)),
            old(kv).infallible() && store_wf(old(kv).contents()) ==> (r is Ok <==> row_at(
                old(kv).contents(),
                self.state(),
                table_name@,
                id@,
            ) is Some),
    {
        let key = Key::Row(table_name.clone(), id.copy()).encode()?;
        match self.txn.get(kv, key)? {
            Some(v) => {
                let data = v.as_slice();
                assert(data@.skip(0) =~= data@);
                match decode_row(data, 0) {
                    Some((row, _)) => Ok(Some(row)),
                    None => Err(Error::Internal(String::from_str("stored row does not decode"))),
                }
            },
            None => Ok(None),
        }
    }

    /// Deletes the row of `table` whose primary key is `id`.
    pub fn delete_row<E: StorageEngine>(&self, kv: &mut Mvcc<E>, table: &Table, id: &Value) -> (r:
        Result<()>)
        requires
            old(kv).wf(),
        ensures
            final(kv).wf(),
            final(kv).infallible() == old(kv).infallible(),
            r is Ok ==> final(kv).contents() == after_write(
                old(kv).contents(),
                self.state(),
                row_key(table.name@, id@),
                None,
            ),
            r matches Err(Error::WriteConflict) ==> write_conflict(
                old(kv).contents(),
                self.state(),
                row_key(table.name@, id@),
            ),
            old(kv).infallible() && store_wf(old(kv).contents()) && !write_conflict(
                old(kv).contents(),
                self.state(),
                row_key(table.name@, id@),
            ) ==> r is Ok,
            old(kv).infallible() && store_wf(old(kv).contents()) ==> wrote_own(
                old(kv).contents(),
                final(kv).contents(),
                self.state(),
            ),
    {
        let ghost c0 = kv.contents();
        let ghost st = self.state();
        proof {
            crate::storage::mvcc_laws::lemma_own_writes_refl(c0, st.version);
        }
        let key = Key::Row(table.name.clone(), id.copy()).encode()?;
        let ghost kb = key@;
        let r = self.txn.delete(kv, key);
        proof {
            if r is Ok && store_wf(c0) {
                crate::storage::mvcc_laws::law_write_keeps_store_wf(c0, st, kb, None);
                crate::storage::mvcc_laws::lemma_own_writes_after_write(c0, st, kb, None);
            }
        }
        r
    }

    /// Replaces the row of `table` whose primary key is `id` by `row`; where
    /// the new row has another primary key, the old row is deleted and the
    /// new one inserted.
    pub fn update_row<E: StorageEngine>(&self, kv: &mut Mvcc<E>, table: &Table, id: &Value, row: Row) -> (r:
        Result<()>)
        requires
            old(kv).wf(),
        ensures
            final(kv).wf(),
            final(kv).infallible() == old(kv).infallible(),
            pk_position(table@.columns) is None ==> r is Err,
            pk_position(table@.columns) matches Some(p) && p >= row@.len() ==> r is Err,
            r is Ok ==> row_updated(
                old(kv).contents(),
                final(kv).contents(),
                self.state(),
                table@,
                id@,
                row_view(row@),
            ),
            old(kv).infallible() && store_wf(old(kv).contents()) && row_updatable(
                old(kv).contents(),
                self.state(),
                table@,
                id@,
                row_view(row@),
            ) ==> r is Ok,
            r is Ok && store_wf(old(kv).contents()) ==> store_wf(final(kv).contents()),
            old(kv).infallible() && store_wf(old(kv).contents()) ==> wrote_own(
                old(kv).contents(),
                final(kv).contents(),
                self.state(),
            ),
    {
        reveal(row_updated);
        let ghost c0 = kv.contents();
        let ghost st = self.state();
        proof {
            crate::storage::mvcc_laws::lemma_own_writes_refl(c0, st.version);
        }
        let p = match table.primary_key_index() {
            Some(p) => p,
            None => {
                return Err(Error::Internal(String::from_str("No primary key found")));
            },
        };
        if p >= row.len() {
            return Err(Error::Internal(String::from_str("row has no primary key value")));
        }
        let new_pk = row[p].copy();
        if !id.equals(&new_pk) {
            self.delete_row(kv, table, id)?;
            proof {
                if store_wf(c0) {
                    crate::storage::mvcc_laws::law_write_keeps_store_wf(c0, st, row_key(table@.name, id@), None);
                }
            }
            let ghost c1 = kv.contents();
            let r2 = self.create_row(kv, table.name.clone(), row);
            proof {
                if kv.infallible() && store_wf(c0) {
                    crate::storage::mvcc_laws::lemma_own_writes_trans(c0, c1, kv.contents(), st.version);
                }
            }
            return r2;
        }
        let key = Key::Row(table.name.clone(), new_pk).encode()?;
        let mut value: Vec<u8> = Vec::new();
        encode_row(&mut value, &row);
        let ghost kb = key@;
        let ghost vb = value@;
        assert(vb.len() == value.len() && value.len() <= usize::MAX && usize::MAX <= u64::MAX);
        let r = self.txn.set(kv, key, value);
        proof {
            if r is Ok && store_wf(c0) {
                crate::storage::mvcc_laws::law_write_keeps_store_wf(c0, st, kb, Some(vb));
                crate::storage::mvcc_laws::lemma_own_writes_after_write(c0, st, kb, Some(vb));
            }
        }
        r
    }
}

/// The store after this transaction deletes each of `keys`, in order.
pub open spec fn after_deletes(
    c: Map<Seq<u8>, Seq<u8>>,
    st: TransactionState,
    keys: Seq<Seq<u8>>,
) -> Map<Seq<u8>, Seq<u8>>
    decreases keys.len(),
{
    if keys.len() == 0 {
        c
    } else {
        after_write(after_deletes(c, st, keys.drop_last()), st, keys.last(), None)
    }
}

/// The keys of scanned pairs.
pub open spec fn scan_keys(res: Seq<ScanResult>) -> Seq<Seq<u8>> {
    res.map_values(|x: ScanResult| x.key@)
}

/// Dropping table `name` took the store from `c0` to `c1`: the table
/// existed; each of its rows that the transaction reads was deleted, in key
/// order; then its schema was.
pub open spec fn table_dropped(
    c0: Map<Seq<u8>, Seq<u8>>,
    c1: Map<Seq<u8>, Seq<u8>>,
    st: TransactionState,
    name: Seq<char>,
) -> bool {
    &&& table_read(c0, st, name) matches Some(Some(_))
    &&& exists|res: Seq<ScanResult>|
        #[trigger] is_mvcc_scan(c0, st, row_prefix(name), res) && c1 == after_write(
            after_deletes(c0, st, scan_keys(res)),
            st,
            table_key(name),
            None,
        )
}

/// No write of a row or of the schema of table `name` conflicts.
pub open spec fn drop_unconflicted(
    c: Map<Seq<u8>, Seq<u8>>,
    st: TransactionState,
    name: Seq<char>,
) -> bool {
    forall|k: Seq<u8>|
        (has_prefix(k, row_prefix(name)) || k == table_key(name)) ==> !#[trigger] write_conflict(
            c,
            st,
            k,
        )
}

impl KVTransaction {
    /// Drops a table: deletes its rows, then its schema.
    #[verifier::spinoff_prover]
    #[verifier::rlimit(40)]
    pub fn drop_table<E: StorageEngine>(&self, kv: &mut Mvcc<E>, table_name: String) -> (r: Result<()>)
        requires
            old(kv).wf(),
        ensures
            final(kv).wf(),
            final(kv).infallible() == old(kv).infallible(),
            table_read(old(kv).contents(), self.state(), table_name@) == Some(None::<TableModel>)
                ==> r is Err,
            r is Ok ==> table_dropped(old(kv).contents(), final(kv).contents(), self.state(), table_name@),
            old(kv).infallible() && store_wf(old(kv).contents()) && (table_read(
                old(kv).contents(),
                self.state(),
                table_name@,
            ) matches Some(Some(_))) && drop_unconflicted(old(kv).contents(), self.state(), table_name@)
                ==> r is Ok,
    {
        let ghost c0 = kv.contents();
        let ghost st = self.state();
        let ghost name = table_name@;
        let ghost good = kv.infallible() && store_wf(c0) && (table_read(c0, st, name) matches Some(
            Some(_),
        )) && drop_unconflicted(c0, st, name);
        let _table = self.must_get_table(kv, table_name.clone())?;
        let prefix = KeyPrefix::Row(table_name.clone()).encode()?;
        let results = self.txn.scan_prefix(kv, prefix)?;
        let ghost keys = scan_keys(results@);
        proof {
            assert forall|j: int| 0 <= j < keys.len() implies has_prefix(#[trigger] keys[j], row_prefix(name)) by {
                assert(crate::storage::mvcc::scan_entry(c0, st, row_prefix(name), results@[j].key@, results@[j].value@));
            }
            assert(keys.take(0) =~= Seq::<Seq<u8>>::empty());
        }
        let mut i: usize = 0;
        while i < results.len()
            invariant
                kv.wf(),
                kv.infallible() == old(kv).infallible(),
                i <= results@.len(),
                st == self.state(),
                c0 == old(kv).contents(),
                name == table_name@,
                is_mvcc_scan(c0, st, row_prefix(name), results@),
                keys == scan_keys(results@),
                forall|j: int| 0 <= j < keys.len() ==> has_prefix(#[trigger] keys[j], row_prefix(name)),
                kv.contents() == after_deletes(c0, st, keys.take(i as int)),
                good ==> kv.infallible() && store_wf(kv.contents()) && !write_conflict(
                    kv.contents(),
                    st,
                    table_key(name),
                ) && forall|j: int| i <= j < keys.len() ==> !#[trigger] write_conflict(kv.contents(), st, keys[j]),
                good == (old(kv).infallible() && store_wf(c0) && (table_read(c0, st, name) matches Some(
                    Some(_),
                )) && drop_unconflicted(c0, st, name)),
            decreases results@.len() - i,
        {
            let ghost cur = kv.contents();
            let ghost ki = keys[i as int];
            assert(results@[i as int].key@ == ki);
            proof {
                if good {
                    assert(!write_conflict(cur, st, keys[i as int]));
                }
            }
            self.txn.delete(kv, copy_bytes(&results[i].key))?;
            proof {
                assert(keys.take(i + 1).drop_last() =~= keys.take(i as int));
                assert(keys.take(i + 1).last() == ki);
                assert(after_deletes(c0, st, keys.take(i + 1)) == after_write(
                    after_deletes(c0, st, keys.take(i as int)),
                    st,
                    ki,
                    None,
                ));
                if good {
                    crate::storage::mvcc_laws::law_write_keeps_store_wf(cur, st, ki, None);
                    assert(ki[0] == 1u8) by {
                        assert(ki.subrange(0, row_prefix(name).len() as int) == row_prefix(name));
                        assert(ki.subrange(0, row_prefix(name).len() as int)[0] == ki[0]);
                    }
                    assert(table_key(name)[0] == 0u8);
                    crate::storage::mvcc_laws::law_write_keeps_other_conflicts(cur, st, ki, None, table_key(name));
                    assert forall|j: int| i + 1 <= j < keys.len() implies !#[trigger] write_conflict(
                        kv.contents(),
                        st,
                        keys[j],
                    ) by {
                        assert(crate::storage::engine::lex_lt(results@[i as int].key@, results@[j].key@));
                        crate::storage::engine::lemma_lex_irreflexive(ki);
                        crate::storage::mvcc_laws::law_write_keeps_other_conflicts(cur, st, ki, None, keys[j]);
                    }
                }
            }
            i = i + 1;
        }
        assert(keys.take(i as int) =~= keys);
        let key = Key::Table(table_name).encode()?;
        let ghost cm = kv.contents();
        let r = self.txn.delete(kv, key);
        if r.is_ok() {
            assert(kv.contents() == after_write(cm, st, table_key(name), None));
            assert(is_mvcc_scan(c0, st, row_prefix(name), results@));
        }
        r
    }
}


/// The keys of the SQL layer: a row's key lies under its table's row
/// prefix, and a schema's under the schema prefix, which no row key does; a
/// row key names one table and one primary key, a schema key one table, and
/// a row key lies under no other table's row prefix.
#[verifier::spinoff_prover]
#[verifier::rlimit(40)]
pub proof fn law_keys(t1: Seq<char>, t2: Seq<char>, a: ValueModel, b: ValueModel)
    requires
        t1.len() <= u64::MAX,
        t2.len() <= u64::MAX,
        value_wf(a) && value_fits(a),
        value_wf(b) && value_fits(b),
    ensures
        has_prefix(row_key(t1, a), row_prefix(t1)),
        has_prefix(table_key(t1), tables_prefix()),
        !has_prefix(row_key(t1, a), tables_prefix()),
        row_key(t1, a) == row_key(t2, b) ==> t1 == t2 && a == b,
        table_key(t1) == table_key(t2) ==> t1 == t2,
        has_prefix(row_key(t1, a), row_prefix(t2)) ==> t1 == t2,
{
    let k1 = row_key(t1, a);
    assert(k1.subrange(0, row_prefix(t1).len() as int) =~= row_prefix(t1));
    assert(table_key(t1).subrange(0, 1) =~= tables_prefix());
    assert(k1.subrange(0, 1)[0] == k1[0]);
    lemma_read_chars(t1, value_bytes(a));
    lemma_read_chars(t2, value_bytes(b));
    if k1 == row_key(t2, b) {
        assert(k1.skip(1) =~= chars_bytes(t1) + value_bytes(a));
        assert(k1.skip(1) =~= chars_bytes(t2) + value_bytes(b));
        let n = chars_bytes(t1).len();
        assert((chars_bytes(t1) + value_bytes(a)).skip(n as int) =~= value_bytes(a));
        assert((chars_bytes(t2) + value_bytes(b)).skip(n as int) =~= value_bytes(b));
        lemma_read_value(a, Seq::empty());
        lemma_read_value(b, Seq::empty());
        assert(value_bytes(a) + Seq::<u8>::empty() =~= value_bytes(a));
        assert(value_bytes(b) + Seq::<u8>::empty() =~= value_bytes(b));
    }
    if table_key(t1) == table_key(t2) {
        lemma_read_chars(t1, Seq::empty());
        lemma_read_chars(t2, Seq::empty());
        assert(table_key(t1).skip(1) =~= chars_bytes(t1) + Seq::<u8>::empty());
        assert(table_key(t2).skip(1) =~= chars_bytes(t2) + Seq::<u8>::empty());
    }
    if has_prefix(k1, row_prefix(t2)) {
        let p = row_prefix(t2);
        let rest = k1.skip(p.len() as int);
        assert(k1 =~= p + rest);
        lemma_read_chars(t2, rest);
        assert(k1.skip(1) =~= chars_bytes(t2) + rest);
        assert(k1.skip(1) =~= chars_bytes(t1) + value_bytes(a));
    }
}

/// A transaction reads back a table it created: after writing the bytes of
/// schema `t` under the table's key, it reads `t` for that name.
pub proof fn law_read_created_table(
    c: Map<Seq<u8>, Seq<u8>>,
    st: TransactionState,
    t: TableModel,
)
    requires
        !st.active_versions@.contains(st.version),
        table_fits(t),
        table_bytes(t).len() <= u64::MAX,
    ensures
        table_read(after_write(c, st, table_key(t.name), Some(table_bytes(t))), st, t.name) == Some(
            Some(t),
        ),
{
    reveal(table_read);
    law_read_own_write(c, st, table_key(t.name), Some(table_bytes(t)));
    lemma_read_table(t, Seq::empty());
    assert(table_bytes(t) + Seq::<u8>::empty() =~= table_bytes(t));
}

/// A transaction reads back a row it inserted: under the row's primary key
/// it then reads the row.
#[verifier::spinoff_prover]
pub proof fn law_read_inserted_row(
    c0: Map<Seq<u8>, Seq<u8>>,
    c1: Map<Seq<u8>, Seq<u8>>,
    st: TransactionState,
    name: Seq<char>,
    row: Seq<ValueModel>,
    t: TableModel,
)
    requires
        row_inserted(c0, c1, st, name, row),
        table_read(c0, st, name) == Some(Some(t)),
        !st.active_versions@.contains(st.version),
        row_fits(row),
        row.len() <= u64::MAX,
        row_bytes(row).len() <= u64::MAX,
    ensures
        pk_position(t.columns) matches Some(p) && row_at(c1, st, name, row[p]) == Some(Some(row)),
{
    assert(pk_position(t.columns) is Some && c1 == after_write(
        c0,
        st,
        row_key(name, row[pk_position(t.columns)->0]),
        Some(row_bytes(row)),
    )) by {
        reveal(row_inserted);
    }
    let p = pk_position(t.columns)->0;
    let k = row_key(name, row[p]);
    law_read_own_write(c0, st, k, Some(row_bytes(row)));
    lemma_read_row(row, Seq::empty());
    assert(row_bytes(row) + Seq::<u8>::empty() =~= row_bytes(row));
}


proof fn lemma_row_at_written(
    c: Map<Seq<u8>, Seq<u8>>,
    st: TransactionState,
    name: Seq<char>,
    id: ValueModel,
    row: Seq<ValueModel>,
)
    requires
        !st.active_versions@.contains(st.version),
        row_fits(row),
        row.len() <= u64::MAX,
        row_bytes(row).len() <= u64::MAX,
    ensures
        row_at(after_write(c, st, row_key(name, id), Some(row_bytes(row))), st, name, id) == Some(Some(row)),
{
    law_read_own_write(c, st, row_key(name, id), Some(row_bytes(row)));
    lemma_read_row(row, Seq::empty());
    assert(row_bytes(row) + Seq::<u8>::empty() =~= row_bytes(row));
}

proof fn lemma_row_at_deleted(c: Map<Seq<u8>, Seq<u8>>, st: TransactionState, name: Seq<char>, id: ValueModel)
    requires
        !st.active_versions@.contains(st.version),
    ensures
        row_at(after_write(c, st, row_key(name, id), None), st, name, id) == Some(None::<Seq<ValueModel>>),
{
    law_read_own_write(c, st, row_key(name, id), None);
}

/// An `UPDATE` of a row is read back: under the new row's primary key the
/// transaction reads the new row; where the primary key changed (to a value
/// with another key), nothing is left under the old one.
#[verifier::spinoff_prover]
pub proof fn law_read_updated_row(
    c0: Map<Seq<u8>, Seq<u8>>,
    c1: Map<Seq<u8>, Seq<u8>>,
    st: TransactionState,
    t: TableModel,
    id: ValueModel,
    row: Seq<ValueModel>,
)
    requires
        row_updated(c0, c1, st, t, id, row),
        table_read(c0, st, t.name) == Some(Some(t)),
        !st.active_versions@.contains(st.version),
        row_fits(row),
        row.len() <= u64::MAX,
        row_bytes(row).len() <= u64::MAX,
    ensures
        pk_position(t.columns) matches Some(p) && row_at(c1, st, t.name, row[p]) == Some(Some(row)) && (
        row_key(t.name, id) != row_key(t.name, row[p]) ==> row_at(c1, st, t.name, id) == Some(
            None::<Seq<ValueModel>>,
        )),
{
    reveal(row_updated);
    let p = pk_position(t.columns)->0;
    let knew = row_key(t.name, row[p]);
    let kold = row_key(t.name, id);
    let cm = if row[p] == id { c0 } else { after_write(c0, st, kold, None) };
    if row[p] != id {
        assert(kold[0] == 1u8 && table_key(t.name)[0] == 0u8);
        crate::storage::mvcc_laws::law_write_leaves_other_keys(c0, st, kold, None, st, table_key(t.name));
        assert(table_read(cm, st, t.name) == table_read(c0, st, t.name)) by {
            reveal(table_read);
        }
    }
    assert(c1 == after_write(cm, st, knew, Some(row_bytes(row)))) by {
        reveal(row_inserted);
    }
    lemma_row_at_written(cm, st, t.name, row[p], row);
    if kold != knew {
        assert(row[p] != id);
        lemma_row_at_deleted(c0, st, t.name, id);
        crate::storage::mvcc_laws::law_write_leaves_other_keys(cm, st, knew, Some(row_bytes(row)), st, kold);
    }
}

proof fn lemma_decode_rows_at(vals: Seq<Seq<u8>>, rows: Seq<Seq<ValueModel>>, i: int)
    requires
        decode_rows(vals) == Some(rows),
        0 <= i < vals.len(),
    ensures
        rows.len() == vals.len(),
        read_row(vals[i]) matches Some((r, _)) && rows[i] == r,
    decreases vals.len(),
{
    let rs = decode_rows(vals.drop_last())->0;
    if i < vals.len() - 1 {
        lemma_decode_rows_at(vals.drop_last(), rs, i);
        assert(vals.drop_last()[i] == vals[i]);
    } else {
        lemma_decode_rows_len(vals.drop_last(), rs);
    }
}

proof fn lemma_decode_rows_len(vals: Seq<Seq<u8>>, rows: Seq<Seq<ValueModel>>)
    requires
        decode_rows(vals) == Some(rows),
    ensures
        rows.len() == vals.len(),
    decreases vals.len(),
{
    if vals.len() > 0 {
        lemma_decode_rows_len(vals.drop_last(), decode_rows(vals.drop_last())->0);
    }
}

/// A transaction's scan of a table returns the rows it inserted: after it
/// inserts `row`, the rows it reads of the table hold `row`.
#[verifier::spinoff_prover]
pub proof fn law_scan_returns_inserted_row(
    c0: Map<Seq<u8>, Seq<u8>>,
    c1: Map<Seq<u8>, Seq<u8>>,
    st: TransactionState,
    name: Seq<char>,
    row: Seq<ValueModel>,
    t: TableModel,
    rows: Seq<Seq<ValueModel>>,
)
    requires
        row_inserted(c0, c1, st, name, row),
        table_read(c0, st, name) == Some(Some(t)),
        !st.active_versions@.contains(st.version),
        row_fits(row),
        row.len() <= u64::MAX,
        row_bytes(row).len() <= u64::MAX,
        rows_read(c1, st, name, rows),
    ensures
        rows.contains(row),
{
    assert(pk_position(t.columns) is Some && c1 == after_write(
        c0,
        st,
        row_key(name, row[pk_position(t.columns)->0]),
        Some(row_bytes(row)),
    )) by {
        reveal(row_inserted);
    }
    let p = pk_position(t.columns)->0;
    let k = row_key(name, row[p]);
    let res = choose|res: Seq<ScanResult>|
        is_mvcc_scan(c1, st, row_prefix(name), res) && decode_rows(scan_values(res)) == Some(rows);
    assert(has_prefix(k, row_prefix(name))) by {
        assert(k.subrange(0, row_prefix(name).len() as int) =~= row_prefix(name));
    }
    law_scan_sees_own_write(c0, st, k, row_bytes(row), row_prefix(name), res);
    let i = choose|i: int| 0 <= i < res.len() && res[i].key@ == k && res[i].value@ == row_bytes(row);
    let vals = scan_values(res);
    assert(vals[i] == row_bytes(row));
    lemma_decode_rows_at(vals, rows, i);
    lemma_read_row(row, Seq::empty());
    assert(row_bytes(row) + Seq::<u8>::empty() =~= row_bytes(row));
    assert(rows[i] == row);
}

} // verus!
