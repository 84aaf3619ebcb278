//! Executors that write: inserts, updates and deletes.
use vstd::prelude::*;

use super::{ResultSet, ResultSetModel};
use crate::error::{Error, Result};
use crate::sql::engine::kv::{row_at, row_insertable, row_inserted, row_updatable, row_updated, table_read, KVTransaction, row_key};
use crate::sql::parser::ast::{const_value, names_view, ExprModel, Expression};
use crate::sql::plan::{exprs_view, set_view, values_view};
use crate::sql::schema::{pk_position, ColumnModel, Table, TableModel};
use crate::sql::types::{copy_row, row_view, rows_view, Row, Value, ValueModel};
use crate::storage::engine::Engine as StorageEngine;
use crate::storage::mvcc::{after_write, store_wf, write_conflict, wrote_own, Mvcc, TransactionState};

verus! {

/// A row of fewer values than columns, completed with the defaults of the
/// remaining columns; `None` where one of them has no default.
pub open spec fn pad_spec(t: TableModel, row: Seq<ValueModel>) -> Option<Seq<ValueModel>> {
    if row.len() >= t.columns.len() {
        Some(row)
    } else if forall|i: int| row.len() <= i < t.columns.len() ==> (#[trigger] t.columns[i]).default is Some {
        Some(row + t.columns.skip(row.len() as int).map_values(|c: ColumnModel| c.default->0))
    } else {
        None
    }
}

/// The last position of `name` among `names`.
pub open spec fn last_pos(names: Seq<Seq<char>>, name: Seq<char>) -> Option<int> {
    if exists|i: int| 0 <= i < names.len() && names[i] == name {
        Some(choose|i: int| 0 <= i < names.len() && names[i] == name && forall|j: int| i < j < names.len() ==> names[j] != name)
    } else {
        None
    }
}

/// The value a column gets from named values: the last one given for it,
/// else its default.
pub open spec fn column_value(c: ColumnModel, cols: Seq<Seq<char>>, vals: Seq<ValueModel>) -> Option<ValueModel> {
    match last_pos(cols, c.name) {
        Some(i) => Some(vals[i]),
        None => c.default,
    }
}

/// A row of table `t` from values given for named columns; `None` where the
/// counts differ or a column gets no value.
pub open spec fn make_spec(t: TableModel, cols: Seq<Seq<char>>, vals: Seq<ValueModel>) -> Option<Seq<ValueModel>> {
    if cols.len() != vals.len() {
        None
    } else if forall|k: int| 0 <= k < t.columns.len() ==> (#[trigger] column_value(t.columns[k], cols, vals)) is Some {
        Some(t.columns.map_values(|c: ColumnModel| column_value(c, cols, vals)->0))
    } else {
        None
    }
}

/// The values of a list of constants; `None` where one is not a constant.
pub open spec fn consts_row(exprs: Seq<ExprModel>) -> Option<Seq<ValueModel>> {
    if forall|i: int| 0 <= i < exprs.len() ==> (#[trigger] exprs[i]) is Consts {
        Some(exprs.map_values(|e: ExprModel| const_value(e->Consts_0)))
    } else {
        None
    }
}

/// The row that an `INSERT` stores for a list of values.
pub open spec fn insert_row_spec(t: TableModel, cols: Seq<Seq<char>>, exprs: Seq<ExprModel>) -> Option<Seq<ValueModel>> {
    match consts_row(exprs) {
        Some(row) => if cols.len() == 0 {
            pad_spec(t, row)
        } else {
            make_spec(t, cols, row)
        },
        None => None,
    }
}

/// The rows were inserted into table `name` one after the other, taking the
/// store from `c0` to `c1`.
pub open spec fn rows_inserted(
    c0: Map<Seq<u8>, Seq<u8>>,
    c1: Map<Seq<u8>, Seq<u8>>,
    st: TransactionState,
    name: Seq<char>,
    rows: Seq<Seq<ValueModel>>,
) -> bool
    decreases rows.len(),
{
    if rows.len() == 0 {
        c0 == c1
    } else {
        exists|cm: Map<Seq<u8>, Seq<u8>>|
            rows_inserted(c0, cm, st, name, rows.drop_last()) && row_inserted(cm, c1, st, name, rows.last())
    }
}

/// `out` is what inserting the rows of `values` into table `name` gives,
/// the store going from `c0` to `c1`: the number of rows, each built as
/// `insert_row_spec` says and inserted in turn.
pub open spec fn insert_result(
    c0: Map<Seq<u8>, Seq<u8>>,
    c1: Map<Seq<u8>, Seq<u8>>,
    st: TransactionState,
    name: Seq<char>,
    columns: Seq<Seq<char>>,
    values: Seq<Seq<ExprModel>>,
    out: ResultSetModel,
) -> bool {
    match table_read(c0, st, name) {
        Some(Some(t)) => out == (ResultSetModel::Insert { count: values.len() as usize })
            && exists|rows: Seq<Seq<ValueModel>>|
            #[trigger] rows_inserted(c0, c1, st, name, rows) && rows.len() == values.len() && (
            forall|i: int|
                0 <= i < rows.len() ==> insert_row_spec(t, columns, values[i]) == Some(
                    #[trigger] rows[i],
                )),
        _ => false,
    }
}

/// Completes a row with the defaults of the remaining columns.
pub fn pad_row(table: &Table, row: &Row) -> (r: Result<Row>)
    ensures
        match pad_spec(table@, row_view(row@)) {
            Some(p) => r matches Ok(out) && row_view(out@) == p,
            None => r is Err,
        },
        r matches Err(e) ==> (e matches Error::Internal(m) && exists|j: int|
            row@.len() <= j < table@.columns.len() && (#[trigger] table@.columns[j]).default is None && m@
                == "No default value for column "@ + table@.columns[j].name),
{
    let ghost t = table@;
    let mut results = copy_row(row);
    let mut i = row.len();
    if i >= table.columns.len() {
        return Ok(results);
    }
    while i < table.columns.len()
        invariant
            row@.len() <= i <= table.columns@.len(),
            t == table@,
            row@.len() < t.columns.len(),
            forall|j: int| row@.len() <= j < i ==> (#[trigger] t.columns[j]).default is Some,
            row_view(results@) == row_view(row@) + t.columns.subrange(row@.len() as int, i as int).map_values(|c: ColumnModel| c.default->0),
        decreases table.columns@.len() - i,
    {
        let col = &table.columns[i];
        assert(t.columns[i as int] == col@);
        match &col.default {
            Some(v) => {
                let ghost old = results@;
                let d = v.copy();
                results.push(d);
                assert(row_view(results@) =~= row_view(old).push(d@));
                assert(t.columns.subrange(row@.len() as int, i + 1).map_values(|c: ColumnModel| c.default->0) =~= t.columns.subrange(row@.len() as int, i as int).map_values(|c: ColumnModel| c.default->0).push(d@));
            },
            None => {
                return Err(
                    Error::Internal(
                        String::from_str("No default value for column ").concat(col.name.as_str()),
                    ),
                );
            },
        }
        i = i + 1;
    }
    assert(t.columns.subrange(row@.len() as int, i as int) =~= t.columns.skip(row@.len() as int));
    Ok(results)
}

/// The last position of `name` among `names`.
fn last_position(names: &Vec<String>, name: &String) -> (r: Option<usize>)
    ensures
        match r {
            Some(i) => last_pos(names_view(names@), name@) == Some(i as int) && i < names@.len(),
            None => last_pos(names_view(names@), name@) is None,
        },
{
    let ghost nv = names_view(names@);
    let mut i = names.len();
    while i > 0
        invariant
            i <= names@.len(),
            nv == names_view(names@),
            forall|j: int| i <= j < nv.len() ==> nv[j] != name@,
        decreases i,
    {
        assert(nv[i - 1] == names@[i - 1]@);
        if crate::sql::text::str_eq(names[i - 1].as_str(), name.as_str()) {
            let ghost k = (i - 1) as int;
            assert(nv[k] == name@);
            let ghost c = choose|c: int| 0 <= c < nv.len() && nv[c] == name@ && forall|j: int| c < j < nv.len() ==> nv[j] != name@;
            assert(c == k) by {
                if c < k {
                    assert(nv[k] != name@);
                } else if c > k {
                    assert(nv[c] != name@);
                }
            }
            return Some(i - 1);
        }
        i = i - 1;
    }
    None
}

/// A row of `table` from values given for named columns.
pub fn make_row(table: &Table, columns: &Vec<String>, values: &Row) -> (r: Result<Row>)
    ensures
        match make_spec(table@, names_view(columns@), row_view(values@)) {
            Some(p) => r matches Ok(out) && row_view(out@) == p,
            None => r is Err,
        },
        r matches Err(e) ==> (e matches Error::Internal(m) && if columns@.len() != values@.len() {
            m@ == "columns and values num mismatch"@
        } else {
            exists|j: int|
                0 <= j < table@.columns.len() && (#[trigger] column_value(
                    table@.columns[j],
                    names_view(columns@),
                    row_view(values@),
                )) is None && m@ == "No given value for column "@ + table@.columns[j].name
        }),
{
    if columns.len() != values.len() {
        return Err(Error::Internal(String::from_str("columns and values num mismatch")));
    }
    let ghost t = table@;
    let ghost cv = names_view(columns@);
    let ghost vv = row_view(values@);
    let mut results: Row = Vec::new();
    let mut k: usize = 0;
    while k < table.columns.len()
        invariant
            k <= table.columns@.len(),
            t == table@,
            cv == names_view(columns@),
            vv == row_view(values@),
            cv.len() == vv.len(),
            forall|j: int| 0 <= j < k ==> (#[trigger] column_value(t.columns[j], cv, vv)) is Some,
            row_view(results@) == t.columns.take(k as int).map_values(|c: ColumnModel| column_value(c, cv, vv)->0),
        decreases table.columns@.len() - k,
    {
        let column = &table.columns[k];
        assert(t.columns[k as int] == column@);
        let v = match last_position(columns, &column.name) {
            Some(i) => {
                assert(vv[i as int] == values@[i as int]@);
                let v = values[i].copy();
                assert(t.columns[k as int].name == column.name@);
                assert(last_pos(cv, column.name@) == Some(i as int));
                assert(last_pos(cv, t.columns[k as int].name) == Some(i as int));
                assert(column_value(t.columns[k as int], cv, vv) == Some(v@));
                v
            },
            None => match &column.default {
                Some(d) => {
                    let v = d.copy();
                    assert(column_value(t.columns[k as int], cv, vv) == Some(v@));
                    v
                },
                None => {
                    assert(column_value(t.columns[k as int], cv, vv) is None);
                    return Err(
                        Error::Internal(
                            String::from_str("No given value for column ").concat(column.name.as_str()),
                        ),
                    );
                },
            },
        };
        let ghost old = results@;
        results.push(v);
        assert(row_view(results@) =~= row_view(old).push(v@));
        assert(t.columns.take(k + 1).map_values(|c: ColumnModel| column_value(c, cv, vv)->0) =~= t.columns.take(k as int).map_values(|c: ColumnModel| column_value(c, cv, vv)->0).push(v@));
        k = k + 1;
    }
    assert(t.columns.take(k as int) =~= t.columns);
    Ok(results)
}

/// The values of a list of constants.
fn consts_values(exprs: &Vec<Expression>) -> (r: Result<Row>)
    ensures
        match consts_row(exprs_view(exprs@)) {
            Some(row) => r matches Ok(out) && row_view(out@) == row,
            None => r is Err,
        },
{
    let ghost ev = exprs_view(exprs@);
    let mut out: Row = Vec::new();
    let mut i: usize = 0;
    while i < exprs.len()
        invariant
            i <= exprs@.len(),
            ev == exprs_view(exprs@),
            forall|j: int| 0 <= j < i ==> (#[trigger] ev[j]) is Consts,
            row_view(out@) == ev.take(i as int).map_values(|e: ExprModel| const_value(e->Consts_0)),
        decreases exprs@.len() - i,
    {
        assert(ev[i as int] == exprs@[i as int]@);
        match Value::from_expression(&exprs[i]) {
            Some(v) => {
                let ghost old = out@;
                out.push(v);
                assert(row_view(out@) =~= row_view(old).push(v@));
                assert(ev.take(i + 1).map_values(|e: ExprModel| const_value(e->Consts_0)) =~= ev.take(i as int).map_values(|e: ExprModel| const_value(e->Consts_0)).push(v@));
            },
            None => {
                return Err(Error::Internal(String::from_str("value is not a constant")));
            },
        }
        i = i + 1;
    }
    assert(ev.take(i as int) =~= ev);
    Ok(out)
}

/// The row an `INSERT` stores for one list of values.
fn build_insert_row(table: &Table, columns: &Vec<String>, exprs: &Vec<Expression>) -> (r: Result<Row>)
    ensures
        match insert_row_spec(table@, names_view(columns@), exprs_view(exprs@)) {
            Some(row) => r matches Ok(out) && row_view(out@) == row,
            None => r is Err,
        },
{
    let row = consts_values(exprs)?;
    if columns.len() == 0 {
        pad_row(table, &row)
    } else {
        make_row(table, columns, &row)
    }
}

proof fn lemma_inserted_step(
    c0: Map<Seq<u8>, Seq<u8>>,
    cm: Map<Seq<u8>, Seq<u8>>,
    c1: Map<Seq<u8>, Seq<u8>>,
    st: TransactionState,
    name: Seq<char>,
    rows: Seq<Seq<ValueModel>>,
    row: Seq<ValueModel>,
)
    requires
        rows_inserted(c0, cm, st, name, rows),
        row_inserted(cm, c1, st, name, row),
    ensures
        rows_inserted(c0, c1, st, name, rows.push(row)),
{
    let s = rows.push(row);
    assert(s.drop_last() =~= rows);
    assert(s.last() == row);
    assert(rows_inserted(c0, cm, st, name, s.drop_last()) && row_inserted(cm, c1, st, name, s.last()));
}

/// Nothing stands in the way of inserting the rows that `values` make into
/// table `name` of schema `t`: whatever the rows inserted so far left in the
/// store, the next row can be made and inserted there.
pub open spec fn rows_insertable(
    c0: Map<Seq<u8>, Seq<u8>>,
    st: TransactionState,
    name: Seq<char>,
    t: TableModel,
    columns: Seq<Seq<char>>,
    values: Seq<Seq<ExprModel>>,
) -> bool {
    forall|cm: Map<Seq<u8>, Seq<u8>>, rows: Seq<Seq<ValueModel>>|
        #[trigger] rows_inserted(c0, cm, st, name, rows) && rows.len() < values.len() && (forall|i: int|
            0 <= i < rows.len() ==> insert_row_spec(t, columns, values[i]) == Some(#[trigger] rows[i]))
            ==> (insert_row_spec(t, columns, values[rows.len() as int]) matches Some(row)
            && row_insertable(cm, st, name, row))
}

/// The store went from `c0` to `c1` by inserting, in order, the rows that
/// the first lists of `values` make for table `name` of schema `t`: fewer
/// rows than there are lists.
pub open spec fn inserted_prefix(
    c0: Map<Seq<u8>, Seq<u8>>,
    c1: Map<Seq<u8>, Seq<u8>>,
    st: TransactionState,
    name: Seq<char>,
    t: TableModel,
    columns: Seq<Seq<char>>,
    values: Seq<Seq<ExprModel>>,
) -> bool {
    exists|rows: Seq<Seq<ValueModel>>|
        #[trigger] rows_inserted(c0, c1, st, name, rows) && rows.len() < values.len() && (forall|i: int|
            0 <= i < rows.len() ==> insert_row_spec(t, columns, values[i]) == Some(#[trigger] rows[i]))
}

/// Inserts rows of constants into a table.
pub struct Insert {
    pub table_name: String,
    pub columns: Vec<String>,
    pub values: Vec<Vec<Expression>>,
}

impl Insert {
    pub fn new(table_name: String, columns: Vec<String>, values: Vec<Vec<Expression>>) -> (i: Self)
        ensures
            i.table_name == table_name,
            i.columns == columns,
            i.values == values,
    {
        Insert { table_name, columns, values }
    }

    /// Inserts each row, completed as the table's defaults say; the number
    /// of rows inserted.
    pub fn execute<E: StorageEngine>(self, kv: &mut Mvcc<E>, txn: &KVTransaction) -> (r: Result<ResultSet>)
        requires
            old(kv).wf(),
        ensures
            final(kv).wf(),
            final(kv).infallible() == old(kv).infallible(),
            r matches Ok(o) ==> insert_result(
                old(kv).contents(),
                final(kv).contents(),
                txn.state(),
                self.table_name@,
                names_view(self.columns@),
                values_view(self.values@),
                o@,
            ),
            table_read(old(kv).contents(), txn.state(), self.table_name@) == Some(None::<TableModel>) ==> r is Err,
            old(kv).infallible() && store_wf(old(kv).contents()) && (table_read(
                old(kv).contents(),
                txn.state(),
                self.table_name@,
            ) matches Some(Some(t)) && rows_insertable(
                old(kv).contents(),
                txn.state(),
                self.table_name@,
                t,
                names_view(self.columns@),
                values_view(self.values@),
            )) ==> r is Ok && store_wf(final(kv).contents()),
            old(kv).infallible() && store_wf(old(kv).contents()) ==> wrote_own(
                old(kv).contents(),
                final(kv).contents(),
                txn.state(),
            ),
            old(kv).infallible() && store_wf(old(kv).contents()) && r is Err ==> final(kv).contents()
                == old(kv).contents() || (table_read(old(kv).contents(), txn.state(), self.table_name@) matches Some(
                Some(t),
            ) && inserted_prefix(
                old(kv).contents(),
                final(kv).contents(),
                txn.state(),
                self.table_name@,
                t,
                names_view(self.columns@),
                values_view(self.values@),
            )),
    {
        let ghost c0 = kv.contents();
        let ghost st = txn.state();
        let ghost base = kv.infallible() && store_wf(c0);
        proof {
            crate::storage::mvcc_laws::lemma_own_writes_refl(c0, st.version);
        }
        let table = txn.must_get_table(kv, self.table_name.clone())?;
        let ghost t = table@;
        let ghost cv = names_view(self.columns@);
        let ghost vv = values_view(self.values@);
        let ghost good = kv.infallible() && store_wf(c0) && rows_insertable(c0, st, self.table_name@, t, cv, vv);
        let ghost mut rows: Seq<Seq<ValueModel>> = Seq::empty();
        let mut count: usize = 0;
        while count < self.values.len()
            invariant
                kv.wf(),
                kv.infallible() == old(kv).infallible(),
                c0 == old(kv).contents(),
                good == (old(kv).infallible() && store_wf(c0) && rows_insertable(c0, st, self.table_name@, t, cv, vv)),
                good ==> kv.infallible() && store_wf(kv.contents()),
                base == (old(kv).infallible() && store_wf(c0)),
                base ==> wrote_own(c0, kv.contents(), st),
                count <= self.values@.len(),
                t == table@,
                cv == names_view(self.columns@),
                vv == values_view(self.values@),
                table_read(c0, st, self.table_name@) == Some(Some(t)),
                st == txn.state(),
                rows.len() == count,
                forall|i: int| 0 <= i < rows.len() ==> insert_row_spec(t, cv, vv[i]) == Some(#[trigger] rows[i]),
                rows_inserted(c0, kv.contents(), st, self.table_name@, rows),
            decreases self.values@.len() - count,
        {
            let exprs = &self.values[count];
            assert(vv[count as int] == exprs_view(exprs@));
            proof {
                if good {
                    assert(rows_inserted(c0, kv.contents(), st, self.table_name@, rows));
                    assert(rows.len() == count);
                }
            }
            let insert_row = build_insert_row(&table, &self.columns, exprs)?;
            let ghost cm = kv.contents();
            let ghost iv = row_view(insert_row@);
            let created = txn.create_row(kv, self.table_name.clone(), insert_row);
            proof {
                if base {
                    crate::storage::mvcc_laws::lemma_own_writes_trans(c0, cm, kv.contents(), st.version);
                }
            }
            created?;
            proof {
                lemma_inserted_step(c0, cm, kv.contents(), st, self.table_name@, rows, iv);
                let new_rows = rows.push(iv);
                assert forall|i: int| 0 <= i < new_rows.len() implies insert_row_spec(t, cv, vv[i]) == Some(#[trigger] new_rows[i]) by {
                    if i < rows.len() {
                        assert(new_rows[i] == rows[i]);
                    }
                }
                rows = new_rows;
            }
            count = count + 1;
        }
        let out = ResultSet::Insert { count };
        assert(rows_inserted(c0, kv.contents(), st, self.table_name@, rows));
        assert(insert_result(c0, kv.contents(), st, self.table_name@, cv, vv, out@));
        Ok(out)
    }
}

/// The store after deleting, one after the other, the rows of table `name`
/// with primary keys `ids`.
pub open spec fn delete_all(
    c: Map<Seq<u8>, Seq<u8>>,
    st: TransactionState,
    name: Seq<char>,
    ids: Seq<ValueModel>,
) -> Map<Seq<u8>, Seq<u8>>
    decreases ids.len(),
{
    if ids.len() == 0 {
        c
    } else {
        after_write(delete_all(c, st, name, ids.drop_last()), st, row_key(name, ids.last()), None)
    }
}

/// A `DELETE` removes what it deletes and nothing else: after deleting the
/// rows of table `name` with primary keys `ids`, the transaction reads no
/// row under any of them, and reads under every other key what it read
/// before.
pub proof fn law_delete_removes_rows(
    c: Map<Seq<u8>, Seq<u8>>,
    st: TransactionState,
    name: Seq<char>,
    ids: Seq<ValueModel>,
    id: ValueModel,
)
    requires
        !st.active_versions@.contains(st.version),
    ensures
        ids.contains(id) ==> row_at(delete_all(c, st, name, ids), st, name, id) == Some(None::<Seq<ValueModel>>),
        (forall|k: int| 0 <= k < ids.len() ==> row_key(name, #[trigger] ids[k]) != row_key(name, id)) ==> row_at(
            delete_all(c, st, name, ids),
            st,
            name,
            id,
        ) == row_at(c, st, name, id),
    decreases ids.len(),
{
    if ids.len() > 0 {
        let p = ids.drop_last();
        law_delete_removes_rows(c, st, name, p, id);
        let prev = delete_all(c, st, name, p);
        let last = ids.last();
        assert(last == ids[ids.len() - 1]);
        assert(forall|k: int| 0 <= k < p.len() ==> p[k] == ids[k]);
        if row_key(name, last) == row_key(name, id) {
            crate::storage::mvcc_laws::law_read_own_write(prev, st, row_key(name, last), None);
        } else {
            crate::storage::mvcc_laws::law_write_leaves_other_keys(prev, st, row_key(name, last), None, st, row_key(name, id));
            if ids.contains(id) {
                let k = choose|k: int| 0 <= k < ids.len() && ids[k] == id;
                assert(k < p.len());
                assert(p.contains(id));
            }
        }
    }
}

/// Every row has a value at `p`.
pub open spec fn rows_reach_pos(rows: Seq<Seq<ValueModel>>, p: int) -> bool {
    forall|i: int| 0 <= i < rows.len() ==> p < (#[trigger] rows[i]).len()
}

/// The primary key of a row of `table`, where the table has one and the row
/// a value for it.
fn row_pk(table: &Table, row: &Row) -> (r: Result<Value>)
    ensures
        match pk_position(table@.columns) {
            Some(p) => if p < row@.len() {
                r matches Ok(v) && v@ == row@[p]@
            } else {
                r is Err
            },
            None => r is Err,
        },
{
    match table.primary_key_index() {
        Some(p) => {
            if p < row.len() {
                Ok(row[p].copy())
            } else {
                Err(Error::Internal(String::from_str("row has no primary key value")))
            }
        },
        None => Err(Error::Internal(String::from_str("No primary key found"))),
    }
}

proof fn lemma_delete_step(
    c0: Map<Seq<u8>, Seq<u8>>,
    st: TransactionState,
    name: Seq<char>,
    rv: Seq<Seq<ValueModel>>,
    n: int,
    p: int,
)
    requires
        0 <= n < rv.len(),
    ensures
        delete_all(c0, st, name, rv.take(n + 1).map_values(|row: Seq<ValueModel>| row[p]))
            == after_write(
            delete_all(c0, st, name, rv.take(n).map_values(|row: Seq<ValueModel>| row[p])),
            st,
            row_key(name, rv[n][p]),
            None,
        ),
{
    let ids = rv.take(n + 1).map_values(|row: Seq<ValueModel>| row[p]);
    assert(ids.drop_last() =~= rv.take(n).map_values(|row: Seq<ValueModel>| row[p]));
    assert(ids.last() == rv[n][p]);
}

/// The rows were deleted: the table exists and has a primary key, every row
/// has a value for it, and the store went from `c0` to `c1` by deleting the
/// rows by those keys.
pub open spec fn rows_deleted(
    c0: Map<Seq<u8>, Seq<u8>>,
    c1: Map<Seq<u8>, Seq<u8>>,
    st: TransactionState,
    name: Seq<char>,
    rows: Seq<Seq<ValueModel>>,
) -> bool {
    match table_read(c0, st, name) {
        Some(Some(t)) => match pk_position(t.columns) {
            Some(p) => rows_reach_pos(rows, p) && c1 == delete_all(
                c0,
                st,
                t.name,
                rows.map_values(|row: Seq<ValueModel>| row[p]),
            ),
            None => rows.len() == 0 && c1 == c0,
        },
        _ => false,
    }
}

/// Nothing stands in the way of deleting `rows` from table `name`: the
/// table exists and has a primary key, every row has a value for it, and
/// the write of each row's key, made after those of the rows before it,
/// does not conflict.
pub open spec fn rows_deletable(
    c0: Map<Seq<u8>, Seq<u8>>,
    st: TransactionState,
    name: Seq<char>,
    rows: Seq<Seq<ValueModel>>,
) -> bool {
    match table_read(c0, st, name) {
        Some(Some(t)) => match pk_position(t.columns) {
            Some(p) => rows_reach_pos(rows, p) && forall|n: int|
                #![trigger rows[n]]
                0 <= n < rows.len() ==> !write_conflict(
                    delete_all(c0, st, t.name, rows.take(n).map_values(|row: Seq<ValueModel>| row[p])),
                    st,
                    row_key(t.name, rows[n][p]),
                ),
            None => rows.len() == 0,
        },
        _ => false,
    }
}

/// Deletes the rows of its source.
pub struct Delete {
    pub table_name: String,
}

impl Delete {
    pub fn new(table_name: String) -> (d: Self)
        ensures
            d.table_name == table_name,
    {
        Delete { table_name }
    }

    /// Deletes each row of the source by its primary key; the number of rows
    /// deleted.
    #[verifier::rlimit(30)]
    pub fn execute<E: StorageEngine>(self, kv: &mut Mvcc<E>, txn: &KVTransaction, source: ResultSet) -> (r: Result<ResultSet>)
        requires
            old(kv).wf(),
        ensures
            final(kv).wf(),
            final(kv).infallible() == old(kv).infallible(),
            r matches Ok(o) ==> (source@ matches ResultSetModel::Scan { columns, rows } && o@ == (
            ResultSetModel::Delete { count: rows.len() as usize }) && rows_deleted(
                old(kv).contents(),
                final(kv).contents(),
                txn.state(),
                self.table_name@,
                rows,
            )),
            !(source@ is Scan) ==> r is Err,
            old(kv).infallible() && store_wf(old(kv).contents()) && (source@ matches ResultSetModel::Scan {
                rows,
                ..
            } && rows_deletable(old(kv).contents(), txn.state(), self.table_name@, rows)) ==> r is Ok && store_wf(final(kv).contents()),
            old(kv).infallible() && store_wf(old(kv).contents()) ==> wrote_own(
                old(kv).contents(),
                final(kv).contents(),
                txn.state(),
            ),
    {
        proof {
            crate::storage::mvcc_laws::lemma_own_writes_refl(old(kv).contents(), txn.state().version);
        }
        let rows = match source {
            ResultSet::Scan { columns, rows } => rows,
            _ => {
                return Err(Error::Internal(String::from_str("Unexpected result set")));
            },
        };
        assert(source@ matches ResultSetModel::Scan { columns, rows: r } && r == rows_view(rows@));
        let ghost c0 = kv.contents();
        let ghost st = txn.state();
        let ghost good = kv.infallible() && store_wf(c0) && rows_deletable(c0, st, self.table_name@, rows_view(rows@));
        let table = txn.must_get_table(kv, self.table_name.clone())?;
        let ghost t = table@;
        let ghost rv = rows_view(rows@);
        let ghost p = pk_position(t.columns)->0;
        let mut count: usize = 0;
        while count < rows.len()
            invariant
                kv.wf(),
                kv.infallible() == old(kv).infallible(),
                count <= rows@.len(),
                good == (old(kv).infallible() && store_wf(c0) && rows_deletable(c0, st, self.table_name@, rv)),
                c0 == old(kv).contents(),
                source@ matches ResultSetModel::Scan { rows: r0, .. } && r0 == rv,
                good ==> store_wf(kv.contents()) && kv.infallible(),
                old(kv).infallible() && store_wf(c0) ==> wrote_own(c0, kv.contents(), st),
                t == table@,
                st == txn.state(),
                rv == rows_view(rows@),
                table_read(c0, st, self.table_name@) == Some(Some(t)),
                p == pk_position(t.columns)->0,
                count > 0 ==> pk_position(t.columns) == Some(p),
                rows_reach_pos(rv.take(count as int), p),
                kv.contents() == delete_all(c0, st, t.name, rv.take(count as int).map_values(|row: Seq<ValueModel>| row[p])),
            decreases rows@.len() - count,
        {
            let row = &rows[count];
            assert(rv[count as int] == row_view(row@));
            proof {
                if good {
                    assert(table_read(c0, st, self.table_name@) == Some(Some(t)));
                    assert(pk_position(t.columns) is Some);
                    assert(rows_reach_pos(rv, p));
                    assert(p < rv[count as int].len());
                    assert(p < row@.len());
                }
            }
            let pk = row_pk(&table, row)?;
            assert(pk_position(t.columns) == Some(p));
            proof {
                crate::sql::schema::lemma_pk_position(t.columns);
                assert(row_view(row@)[p] == row@[p]@);
            }
            assert(rv[count as int][p] == pk@);
            let ghost cur = kv.contents();
            proof {
                if good {
                    assert(rv[count as int] == rv[count as int]);
                    assert(!write_conflict(cur, st, row_key(t.name, rv[count as int][p])));
                }
            }
            let deleted = txn.delete_row(kv, &table, &pk);
            proof {
                if old(kv).infallible() && store_wf(c0) {
                    crate::storage::mvcc_laws::lemma_own_writes_trans(c0, cur, kv.contents(), st.version);
                }
            }
            deleted?;
            proof {
                if good {
                    crate::storage::mvcc_laws::law_write_keeps_store_wf(cur, st, row_key(t.name, pk@), None);
                }
                lemma_delete_step(c0, st, t.name, rv, count as int, p);
                assert forall|i: int| 0 <= i < rv.take(count + 1).len() implies p < (#[trigger] rv.take(count + 1)[i]).len() by {
                    if i < count {
                        assert(rv.take(count + 1)[i] == rv.take(count as int)[i]);
                    }
                }
            }
            count = count + 1;
        }
        assert(rv.take(count as int) =~= rv);
        proof {
            if rv.len() == 0 {
                assert(rv.map_values(|row: Seq<ValueModel>| row[p]) =~= Seq::<ValueModel>::empty());
            }
        }
        assert(rows_deleted(c0, kv.contents(), st, self.table_name@, rv));
        Ok(ResultSet::Delete { count })
    }
}

/// The position of the first `SET` clause for column `name`.
#[verifier::opaque]
pub open spec fn set_pos(sets: Seq<(Seq<char>, ExprModel)>, name: Seq<char>) -> Option<int> {
    if exists|j: int| 0 <= j < sets.len() && sets[j].0 == name {
        Some(choose|j: int| 0 <= j < sets.len() && sets[j].0 == name && forall|k: int| 0 <= k < j ==> sets[k].0 != name)
    } else {
        None
    }
}

/// The `SET` clauses give a constant to each of the columns they name.
pub open spec fn sets_constant(cols: Seq<Seq<char>>, sets: Seq<(Seq<char>, ExprModel)>) -> bool {
    forall|i: int| 0 <= i < cols.len() ==> (#[trigger] set_pos(sets, cols[i]) matches Some(j) ==> sets[j].1 is Consts)
}

/// The value at position `i` of a row after the `SET` clauses.
pub open spec fn updated_value(cols: Seq<Seq<char>>, row: Seq<ValueModel>, sets: Seq<(Seq<char>, ExprModel)>, i: int) -> ValueModel {
    if i < cols.len() {
        match set_pos(sets, cols[i]) {
            Some(j) => const_value(sets[j].1->Consts_0),
            None => row[i],
        }
    } else {
        row[i]
    }
}

/// A row after the `SET` clauses; `None` where the row has fewer values than
/// there are columns, or a clause does not give a constant.
pub open spec fn updated_row(cols: Seq<Seq<char>>, row: Seq<ValueModel>, sets: Seq<(Seq<char>, ExprModel)>) -> Option<Seq<ValueModel>> {
    if row.len() >= cols.len() && sets_constant(cols, sets) {
        Some(Seq::new(row.len(), |i: int| updated_value(cols, row, sets, i)))
    } else {
        None
    }
}

/// An `UPDATE` gives each column that a `SET` clause names the constant of
/// the first clause that names it, wherever that clause stands in the list,
/// and leaves every other value of the row as it was.
pub proof fn law_update_applies_every_clause(
    cols: Seq<Seq<char>>,
    row: Seq<ValueModel>,
    sets: Seq<(Seq<char>, ExprModel)>,
    i: int,
    k: int,
)
    requires
        updated_row(cols, row, sets) is Some,
        0 <= i < row.len(),
    ensures
        updated_row(cols, row, sets)->0.len() == row.len(),
        i < cols.len() && 0 <= k < sets.len() && sets[k].0 == cols[i] && (forall|m: int|
            0 <= m < k ==> sets[m].0 != cols[i]) ==> sets[k].1 is Consts && updated_row(cols, row, sets)->0[i]
            == const_value(sets[k].1->Consts_0),
        (i >= cols.len() || forall|m: int| 0 <= m < sets.len() ==> sets[m].0 != cols[i]) ==> updated_row(
            cols,
            row,
            sets,
        )->0[i] == row[i],
{
    reveal(set_pos);
    if i < cols.len() && 0 <= k < sets.len() && sets[k].0 == cols[i] && (forall|m: int|
        0 <= m < k ==> sets[m].0 != cols[i]) {
        let name = cols[i];
        assert(exists|j: int| 0 <= j < sets.len() && sets[j].0 == name);
        let j = choose|j: int| 0 <= j < sets.len() && sets[j].0 == name && forall|m: int| 0 <= m < j ==> sets[m].0 != name;
        assert(set_pos(sets, name) == Some(j));
        if j < k {
            assert(sets[j].0 != name);
        } else if k < j {
            assert(sets[k].0 != name);
        }
        assert(j == k);
        assert(set_pos(sets, cols[i]) matches Some(x) ==> sets[x].1 is Consts);
    }
}

/// Rows were updated one after the other: for each, the row with the
/// primary key of the first item became the second item, the store going
/// through the states `cs`.
pub open spec fn rows_updated(
    c0: Map<Seq<u8>, Seq<u8>>,
    c1: Map<Seq<u8>, Seq<u8>>,
    st: TransactionState,
    t: TableModel,
    items: Seq<(ValueModel, Seq<ValueModel>)>,
) -> bool {
    exists|cs: Seq<Map<Seq<u8>, Seq<u8>>>|
        cs.len() == items.len() + 1 && cs[0] == c0 && cs[items.len() as int] == c1 && forall|i: int|
            0 <= i < items.len() ==> #[trigger] row_updated(cs[i], cs[i + 1], st, t, items[i].0, items[i].1)
}

/// The first `SET` clause for column `name`.
fn set_position(sets: &Vec<(String, Expression)>, name: &String) -> (r: Option<usize>)
    ensures
        match r {
            Some(j) => set_pos(crate::sql::plan::set_view(sets@), name@) == Some(j as int) && j < sets@.len(),
            None => set_pos(crate::sql::plan::set_view(sets@), name@) is None,
        },
{
    reveal(set_pos);
    let ghost sv = crate::sql::plan::set_view(sets@);
    let mut j: usize = 0;
    while j < sets.len()
        invariant
            j <= sets@.len(),
            sv == crate::sql::plan::set_view(sets@),
            forall|k: int| 0 <= k < j ==> sv[k].0 != name@,
        decreases sets@.len() - j,
    {
        assert(sv[j as int].0 == sets@[j as int].0@);
        if crate::sql::text::str_eq(sets[j].0.as_str(), name.as_str()) {
            reveal(set_pos);
            let ghost c = choose|c: int| 0 <= c < sv.len() && sv[c].0 == name@ && forall|k: int| 0 <= k < c ==> sv[k].0 != name@;
            assert(c == j as int) by {
                if c < j {
                    assert(sv[c].0 != name@);
                } else if c > j {
                    assert(sv[j as int].0 != name@);
                }
            }
            return Some(j);
        }
        j = j + 1;
    }
    None
}

/// The `SET` clauses give a constant to each column they name.
fn check_sets(columns: &Vec<String>, sets: &Vec<(String, Expression)>) -> (r: bool)
    ensures
        r == sets_constant(names_view(columns@), crate::sql::plan::set_view(sets@)),
{
    let ghost cv = names_view(columns@);
    let ghost sv = crate::sql::plan::set_view(sets@);
    let mut i: usize = 0;
    while i < columns.len()
        invariant
            i <= columns@.len(),
            cv == names_view(columns@),
            sv == crate::sql::plan::set_view(sets@),
            forall|k: int| 0 <= k < i ==> (#[trigger] set_pos(sv, cv[k]) matches Some(j) ==> sv[j].1 is Consts),
        decreases columns@.len() - i,
    {
        assert(cv[i as int] == columns@[i as int]@);
        match set_position(sets, &columns[i]) {
            Some(j) => {
                assert(sv[j as int].1 == sets@[j as int].1@);
                match &sets[j].1 {
                    Expression::Consts(_) => {},
                    _ => {
                        return false;
                    },
                }
            },
            None => {},
        }
        i = i + 1;
    }
    true
}

/// The value at position `i` of a row after the `SET` clauses.
fn update_value(columns: &Vec<String>, row: &Row, sets: &Vec<(String, Expression)>, i: usize) -> (v: Value)
    requires
        i < row@.len(),
        columns@.len() <= row@.len(),
        sets_constant(names_view(columns@), crate::sql::plan::set_view(sets@)),
    ensures
        v@ == updated_value(names_view(columns@), row_view(row@), crate::sql::plan::set_view(sets@), i as int),
{
    let ghost cv = names_view(columns@);
    let ghost rv = row_view(row@);
    let ghost sv = crate::sql::plan::set_view(sets@);
    assert(rv[i as int] == row@[i as int]@);
    if i < columns.len() {
        assert(cv[i as int] == columns@[i as int]@);
        match set_position(sets, &columns[i]) {
            Some(j) => {
                assert(sv[j as int].1 == sets@[j as int].1@);
                assert(set_pos(sv, cv[i as int]) == Some(j as int));
                match &sets[j].1 {
                    Expression::Consts(c) => c.to_value(),
                    _ => {
                        assert(false);
                        Value::Null
                    },
                }
            },
            None => row[i].copy(),
        }
    } else {
        row[i].copy()
    }
}

/// A row after the `SET` clauses.
fn update_one(columns: &Vec<String>, row: &Row, sets: &Vec<(String, Expression)>) -> (r: Result<Row>)
    ensures
        match updated_row(names_view(columns@), row_view(row@), crate::sql::plan::set_view(sets@)) {
            Some(u) => r matches Ok(out) && row_view(out@) == u,
            None => r is Err,
        },
{
    let ghost cv = names_view(columns@);
    let ghost rv = row_view(row@);
    let ghost sv = crate::sql::plan::set_view(sets@);
    if row.len() < columns.len() {
        return Err(Error::Internal(String::from_str("row has fewer values than columns")));
    }
    if !check_sets(columns, sets) {
        return Err(Error::Internal(String::from_str("value is not a constant")));
    }
    let mut out: Row = Vec::new();
    let mut i: usize = 0;
    while i < row.len()
        invariant
            i <= row@.len(),
            columns@.len() <= row@.len(),
            cv == names_view(columns@),
            rv == row_view(row@),
            sv == crate::sql::plan::set_view(sets@),
            sets_constant(cv, sv),
            out@.len() == i,
            forall|k: int| 0 <= k < i ==> #[trigger] out@[k]@ == updated_value(cv, rv, sv, k),
        decreases row@.len() - i,
    {
        let ghost old = out@;
        let v = update_value(columns, row, sets, i);
        out.push(v);
        assert(forall|k: int| 0 <= k < i ==> out@[k] == old[k]);
        i = i + 1;
    }
    assert(row_view(out@) =~= Seq::new(rv.len(), |k: int| updated_value(cv, rv, sv, k)));
    Ok(out)
}

/// Sets columns of the rows of its source to constants.
pub struct Update {
    pub table_name: String,
    pub columns: Vec<(String, Expression)>,
}

/// The updates of a source's rows: each row's primary key and its new value;
/// `None` where a row has no value for the key, or cannot be updated.
pub open spec fn update_items(
    cols: Seq<Seq<char>>,
    rows: Seq<Seq<ValueModel>>,
    sets: Seq<(Seq<char>, ExprModel)>,
    p: int,
) -> Option<Seq<(ValueModel, Seq<ValueModel>)>> {
    if rows_reach_pos(rows, p) && forall|i: int| 0 <= i < rows.len() ==> (#[trigger] updated_row(cols, rows[i], sets)) is Some {
        Some(rows.map_values(|row: Seq<ValueModel>| (row[p], updated_row(cols, row, sets)->0)))
    } else {
        None
    }
}

/// The rows of the source were updated by the `SET` clauses.
pub open spec fn source_updated(
    c0: Map<Seq<u8>, Seq<u8>>,
    c1: Map<Seq<u8>, Seq<u8>>,
    st: TransactionState,
    name: Seq<char>,
    cols: Seq<Seq<char>>,
    rows: Seq<Seq<ValueModel>>,
    sets: Seq<(Seq<char>, ExprModel)>,
) -> bool {
    match table_read(c0, st, name) {
        Some(Some(t)) => match pk_position(t.columns) {
            Some(p) => match update_items(cols, rows, sets, p) {
                Some(items) => rows_updated(c0, c1, st, t, items),
                None => false,
            },
            None => rows.len() == 0 && c1 == c0,
        },
        _ => false,
    }
}

/// Nothing stands in the way of updating the rows of the source by the
/// `SET` clauses: the table exists and has a primary key; every row has a
/// value for it and can be updated; and whatever states the updates so far
/// went through, the next row can be replaced there.
pub open spec fn rows_updatable(
    c0: Map<Seq<u8>, Seq<u8>>,
    st: TransactionState,
    name: Seq<char>,
    cols: Seq<Seq<char>>,
    rows: Seq<Seq<ValueModel>>,
    sets: Seq<(Seq<char>, ExprModel)>,
) -> bool {
    match table_read(c0, st, name) {
        Some(Some(t)) => match pk_position(t.columns) {
            Some(p) => match update_items(cols, rows, sets, p) {
                Some(items) => forall|cs: Seq<Map<Seq<u8>, Seq<u8>>>, n: int|
                    0 <= n < items.len() && cs.len() == n + 1 && cs[0] == c0 && (forall|i: int|
                        0 <= i < n ==> #[trigger] row_updated(cs[i], cs[i + 1], st, t, items[i].0, items[i].1))
                        ==> #[trigger] row_updatable(cs[n], st, t, items[n].0, items[n].1),
                None => false,
            },
            None => rows.len() == 0,
        },
        _ => false,
    }
}

impl Update {
    pub fn new(table_name: String, columns: Vec<(String, Expression)>) -> (u: Self)
        ensures
            u.table_name == table_name,
            u.columns == columns,
    {
        Update { table_name, columns }
    }

    /// Updates each row of the source; the number of rows updated.
    #[verifier::spinoff_prover]
    #[verifier::rlimit(60)]
    pub fn execute<E: StorageEngine>(self, kv: &mut Mvcc<E>, txn: &KVTransaction, source: ResultSet) -> (r: Result<ResultSet>)
        requires
            old(kv).wf(),
        ensures
            final(kv).wf(),
            final(kv).infallible() == old(kv).infallible(),
            r matches Ok(o) ==> (source@ matches ResultSetModel::Scan { columns, rows } && o@ == (
            ResultSetModel::Update { count: rows.len() as usize }) && source_updated(
                old(kv).contents(),
                final(kv).contents(),
                txn.state(),
                self.table_name@,
                columns,
                rows,
                crate::sql::plan::set_view(self.columns@),
            )),
            !(source@ is Scan) ==> r is Err,
            old(kv).infallible() && store_wf(old(kv).contents()) && (source@ matches ResultSetModel::Scan {
                columns,
                rows,
            } && rows_updatable(
                old(kv).contents(),
                txn.state(),
                self.table_name@,
                columns,
                rows,
                crate::sql::plan::set_view(self.columns@),
            )) ==> r is Ok && store_wf(final(kv).contents()),
            old(kv).infallible() && store_wf(old(kv).contents()) ==> wrote_own(
                old(kv).contents(),
                final(kv).contents(),
                txn.state(),
            ),
    {
        proof {
            crate::storage::mvcc_laws::lemma_own_writes_refl(old(kv).contents(), txn.state().version);
        }
        let (columns, rows) = match source {
            ResultSet::Scan { columns, rows } => (columns, rows),
            _ => {
                return Err(Error::Internal(String::from_str("Unexpected result set")));
            },
        };
        let ghost c0 = kv.contents();
        let ghost st = txn.state();
        let ghost cv = names_view(columns@);
        let ghost sv = crate::sql::plan::set_view(self.columns@);
        let table = txn.must_get_table(kv, self.table_name.clone())?;
        let ghost t = table@;
        let ghost rv = rows_view(rows@);
        let ghost p = pk_position(t.columns)->0;
        let ghost mut items: Seq<(ValueModel, Seq<ValueModel>)> = Seq::empty();
        let ghost mut cs: Seq<Map<Seq<u8>, Seq<u8>>> = seq![c0];
        let ghost good = kv.infallible() && store_wf(c0) && rows_updatable(c0, st, self.table_name@, cv, rv, sv);
        let mut count: usize = 0;
        while count < rows.len()
            invariant
                kv.wf(),
                kv.infallible() == old(kv).infallible(),
                c0 == old(kv).contents(),
                source@ matches ResultSetModel::Scan { columns: c1, rows: r1 } && c1 == cv && r1 == rv,
                good == (old(kv).infallible() && store_wf(c0) && rows_updatable(c0, st, self.table_name@, cv, rv, sv)),
                good ==> kv.infallible() && store_wf(kv.contents()),
                old(kv).infallible() && store_wf(c0) ==> wrote_own(c0, kv.contents(), st),
                count <= rows@.len(),
                t == table@,
                st == txn.state(),
                rv == rows_view(rows@),
                cv == names_view(columns@),
                sv == crate::sql::plan::set_view(self.columns@),
                table_read(c0, st, self.table_name@) == Some(Some(t)),
                p == pk_position(t.columns)->0,
                count > 0 ==> pk_position(t.columns) == Some(p),
                items.len() == count,
                forall|i: int| 0 <= i < count ==> p < (#[trigger] rv[i]).len() && (#[trigger] updated_row(cv, rv[i], sv)) is Some && items[i] == (rv[i][p], updated_row(cv, rv[i], sv)->0),
                cs.len() == count + 1,
                cs[0] == c0,
                cs[count as int] == kv.contents(),
                forall|i: int| 0 <= i < count ==> #[trigger] row_updated(cs[i], cs[i + 1], st, t, items[i].0, items[i].1),
            decreases rows@.len() - count,
        {
            let row = &rows[count];
            assert(rv[count as int] == row_view(row@));
            let ghost gitems = update_items(cv, rv, sv, p)->0;
            proof {
                if good {
                    assert(pk_position(t.columns) is Some);
                    assert(update_items(cv, rv, sv, p) is Some);
                    assert(rows_reach_pos(rv, p));
                    assert(p < rv[count as int].len());
                    assert(updated_row(cv, rv[count as int], sv) is Some);
                }
            }
            let pk = row_pk(&table, row)?;
            let new_row = update_one(&columns, row, &self.columns)?;
            proof {
                crate::sql::schema::lemma_pk_position(t.columns);
                assert(row_view(row@)[p] == row@[p]@);
            }
            let ghost item = (pk@, row_view(new_row@));
            let ghost cm = kv.contents();
            proof {
                if good {
                    assert(gitems[count as int] == item);
                    assert forall|i: int| 0 <= i < count implies items[i] == gitems[i] by {
                        assert(rv[i] == rv[i]);
                    }
                    assert(forall|i: int| 0 <= i < count ==> #[trigger] row_updated(cs[i], cs[i + 1], st, t, gitems[i].0, gitems[i].1));
                    assert(row_updatable(cs[count as int], st, t, gitems[count as int].0, gitems[count as int].1));
                }
            }
            let updated = txn.update_row(kv, &table, &pk, new_row);
            proof {
                if old(kv).infallible() && store_wf(c0) {
                    crate::storage::mvcc_laws::lemma_own_writes_trans(c0, cm, kv.contents(), st.version);
                }
            }
            updated?;
            proof {
                let old_cs = cs;
                let old_items = items;
                cs = cs.push(kv.contents());
                items = items.push(item);
                assert forall|i: int| 0 <= i < count + 1 implies #[trigger] row_updated(cs[i], cs[i + 1], st, t, items[i].0, items[i].1) by {
                    if i < count {
                        assert(cs[i] == old_cs[i] && cs[i + 1] == old_cs[i + 1] && items[i] == old_items[i]);
                    }
                }
            }
            count = count + 1;
        }
        proof {
            if rv.len() > 0 {
                assert(rows_reach_pos(rv, p)) by {
                    assert forall|i: int| 0 <= i < rv.len() implies p < (#[trigger] rv[i]).len() by {
                        assert(p < rv[i].len() && updated_row(cv, rv[i], sv) is Some);
                    }
                }
                assert forall|i: int| 0 <= i < rv.len() implies (#[trigger] updated_row(cv, rv[i], sv)) is Some by {
                    assert(p < rv[i].len() && updated_row(cv, rv[i], sv) is Some);
                }
                assert(items =~= rv.map_values(|row: Seq<ValueModel>| (row[p], updated_row(cv, row, sv)->0)));
                assert(update_items(cv, rv, sv, p) == Some(items));
            }
            assert(rows_updated(c0, kv.contents(), st, t, items));
        }
        Ok(ResultSet::Update { count })
    }
}

} // verus!
