//! Executors that read: scans, and those that filter, cut, project or order
//! the rows of another.
use vstd::prelude::*;

use super::{ResultSet, ResultSetModel};
use crate::error::{Error, Result};
use crate::sql::engine::kv::{decode_rows, row_at, row_prefix, rows_read, scan_values, table_read, KVTransaction};
use crate::sql::parser::ast::{
    eval_spec, evaluate_expr, names_view, position, spec_position, ExprModel, Expression,
};
use crate::sql::plan::opt_expr_view;
use crate::sql::schema::TableModel;
use crate::sql::types::{copy_row, row_view, rows_view, Row, Value, ValueModel};
use crate::storage::engine::Engine as StorageEngine;
use crate::storage::mvcc::{is_mvcc_scan, store_wf, Mvcc, ScanResult};

verus! {

/// The rows for which `pred` is true, in order; `None` where `pred` cannot be
/// evaluated for a row or is not a boolean or `Null` there.
pub open spec fn filter_rows(
    cols: Seq<Seq<char>>,
    rows: Seq<Seq<ValueModel>>,
    pred: ExprModel,
) -> Option<Seq<Seq<ValueModel>>>
    decreases rows.len(),
{
    if rows.len() == 0 {
        Some(Seq::empty())
    } else {
        match filter_rows(cols, rows.drop_last(), pred) {
            Some(kept) => match eval_spec(pred, cols, rows.last(), cols, rows.last()) {
                Some(ValueModel::Boolean(true)) => Some(kept.push(rows.last())),
                Some(ValueModel::Boolean(false)) => Some(kept),
                Some(ValueModel::Null) => Some(kept),
                _ => None,
            },
            None => None,
        }
    }
}

/// A `WHERE` filter keeps exactly the rows on which its predicate is true,
/// in their order: each kept row is one where the predicate is true, and
/// no such row is left out.
pub proof fn law_filter_keeps_true_rows(cols: Seq<Seq<char>>, rows: Seq<Seq<ValueModel>>, pred: ExprModel)
    requires
        filter_rows(cols, rows, pred) is Some,
    ensures
        filter_rows(cols, rows, pred)->0 == rows.filter(
            |r: Seq<ValueModel>| eval_spec(pred, cols, r, cols, r) == Some(ValueModel::Boolean(true)),
        ),
        forall|j: int|
            0 <= j < rows.len() && eval_spec(pred, cols, #[trigger] rows[j], cols, rows[j]) == Some(
                ValueModel::Boolean(true),
            ) ==> filter_rows(cols, rows, pred)->0.contains(rows[j]),
        forall|k: int|
            0 <= k < filter_rows(cols, rows, pred)->0.len() ==> eval_spec(
                pred,
                cols,
                #[trigger] filter_rows(cols, rows, pred)->0[k],
                cols,
                filter_rows(cols, rows, pred)->0[k],
            ) == Some(ValueModel::Boolean(true)),
    decreases rows.len(),
{
    reveal_with_fuel(Seq::filter, 1);
    let f = |r: Seq<ValueModel>| eval_spec(pred, cols, r, cols, r) == Some(ValueModel::Boolean(true));
    if rows.len() > 0 {
        let p = rows.drop_last();
        law_filter_keeps_true_rows(cols, p, pred);
        let kept = filter_rows(cols, rows, pred)->0;
        let prev = filter_rows(cols, p, pred)->0;
        assert(rows.filter(f) == if f(rows.last()) {
            p.filter(f).push(rows.last())
        } else {
            p.filter(f)
        });
        assert forall|j: int|
            0 <= j < rows.len() && eval_spec(pred, cols, #[trigger] rows[j], cols, rows[j]) == Some(
                ValueModel::Boolean(true),
            ) implies kept.contains(rows[j]) by {
            if j < rows.len() - 1 {
                assert(p[j] == rows[j]);
                let k = choose|k: int| 0 <= k < prev.len() && prev[k] == rows[j];
                assert(kept[k] == rows[j]);
            } else {
                assert(kept[kept.len() - 1] == rows[j]);
            }
        }
        assert forall|k: int| 0 <= k < kept.len() implies eval_spec(
            pred,
            cols,
            #[trigger] kept[k],
            cols,
            kept[k],
        ) == Some(ValueModel::Boolean(true)) by {
            if k < prev.len() {
                assert(kept[k] == prev[k]);
            }
        }
    }
}

/// The rows under an optional filter.
pub open spec fn filter_opt(
    cols: Seq<Seq<char>>,
    rows: Seq<Seq<ValueModel>>,
    pred: Option<ExprModel>,
) -> Option<Seq<Seq<ValueModel>>> {
    match pred {
        Some(p) => filter_rows(cols, rows, p),
        None => Some(rows),
    }
}

proof fn lemma_filter_none(cols: Seq<Seq<char>>, rows: Seq<Seq<ValueModel>>, pred: ExprModel, i: int)
    requires
        0 <= i <= rows.len(),
        filter_rows(cols, rows.take(i), pred) is None,
    ensures
        filter_rows(cols, rows, pred) is None,
    decreases rows.len() - i,
{
    if i < rows.len() {
        assert(rows.take(i + 1).drop_last() =~= rows.take(i));
        lemma_filter_none(cols, rows, pred, i + 1);
    } else {
        assert(rows.take(i) =~= rows);
    }
}

/// Keeps the rows for which `pred` is true.
pub fn filter_rows_exec(cols: &Vec<String>, rows: Vec<Row>, pred: &Expression) -> (r: Result<
    Vec<Row>,
>)
    ensures
        match filter_rows(names_view(cols@), rows_view(rows@), pred@) {
            Some(kept) => r matches Ok(out) && rows_view(out@) == kept,
            None => r is Err,
        },
{
    let ghost cv = names_view(cols@);
    let ghost rv = rows_view(rows@);
    let mut out: Vec<Row> = Vec::new();
    let mut i: usize = 0;
    while i < rows.len()
        invariant
            i <= rows@.len(),
            cv == names_view(cols@),
            rv == rows_view(rows@),
            filter_rows(cv, rv.take(i as int), pred@) == Some(rows_view(out@)),
        decreases rows@.len() - i,
    {
        let row = &rows[i];
        assert(rv.take(i + 1).drop_last() =~= rv.take(i as int));
        assert(rv[i as int] == row_view(row@));
        let v = match evaluate_expr(pred, cols, row, cols, row) {
            Ok(v) => v,
            Err(e) => {
                proof {
                    lemma_filter_none(cv, rv, pred@, i + 1);
                }
                return Err(e);
            },
        };
        match v {
            Value::Boolean(true) => {
                let ghost old_out = out@;
                out.push(copy_row(row));
                assert(rows_view(out@) =~= rows_view(old_out).push(row_view(row@)));
            },
            Value::Boolean(false) => {},
            Value::Null => {},
            _ => {
                proof {
                    lemma_filter_none(cv, rv, pred@, i + 1);
                }
                return Err(Error::Internal(String::from_str("Unexpected expression")));
            },
        }
        i = i + 1;
    }
    assert(rv.take(i as int) =~= rv);
    Ok(out)
}

/// The names of a table's columns.
pub open spec fn column_names_of(t: TableModel) -> Seq<Seq<char>> {
    t.columns.map_values(|c: crate::sql::schema::ColumnModel| c.name)
}

/// `out` is what a scan of table `name` under `filter` gives: the table's
/// column names, and the rows it reads that the filter holds for.
pub open spec fn scan_result(
    c: Map<Seq<u8>, Seq<u8>>,
    st: crate::storage::mvcc::TransactionState,
    name: Seq<char>,
    filter: Option<ExprModel>,
    out: ResultSetModel,
) -> bool {
    match table_read(c, st, name) {
        Some(Some(t)) => exists|raw: Seq<Seq<ValueModel>>|
            #[trigger] rows_read(c, st, name, raw) && filter_opt(column_names_of(t), raw, filter) is Some
                && out == (ResultSetModel::Scan {
                columns: column_names_of(t),
                rows: filter_opt(column_names_of(t), raw, filter)->0,
            }),
        _ => false,
    }
}

/// `out` is what a lookup of the row of table `name` with primary key
/// `value` gives: the table's column names, and the row if there is one.
pub open spec fn pk_scan_result(
    c: Map<Seq<u8>, Seq<u8>>,
    st: crate::storage::mvcc::TransactionState,
    name: Seq<char>,
    value: ValueModel,
    out: ResultSetModel,
) -> bool {
    match (table_read(c, st, name), row_at(c, st, name, value)) {
        (Some(Some(t)), Some(found)) => out == (ResultSetModel::Scan {
            columns: column_names_of(t),
            rows: match found {
                Some(row) => seq![row],
                None => Seq::empty(),
            },
        }),
        _ => false,
    }
}

/// Reads a table, keeping the rows its filter holds for.
pub struct Scan {
    pub table_name: String,
    pub filter: Option<Expression>,
}

impl Scan {
    pub open spec fn table_name(&self) -> Seq<char> {
        self.table_name@
    }

    pub open spec fn filter(&self) -> Option<ExprModel> {
        opt_expr_view(self.filter)
    }

    pub fn new(table_name: String, filter: Option<Expression>) -> (s: Self)
        ensures
            s.table_name() == table_name@,
            s.filter() == opt_expr_view(filter),
    {
        Scan { table_name, filter }
    }

    /// The table's column names and the rows that the filter holds for.
    pub fn execute<E: StorageEngine>(self, kv: &mut Mvcc<E>, txn: &KVTransaction) -> (r: Result<
        ResultSet,
    >)
        requires
            old(kv).wf(),
        ensures
            final(kv).wf(),
            final(kv).infallible() == old(kv).infallible(),
            final(kv).contents() == old(kv).contents(),
            r matches Ok(o) ==> scan_result(
                old(kv).contents(),
                txn.state(),
                self.table_name(),
                self.filter(),
                o@,
            ),
            table_read(old(kv).contents(), txn.state(), self.table_name()) == Some(
                None::<TableModel>,
            ) ==> r is Err,
            old(kv).infallible() && store_wf(old(kv).contents()) && (table_read(
                old(kv).contents(),
                txn.state(),
                self.table_name(),
            ) matches Some(Some(t)) && forall|res: Seq<ScanResult>|
                #[trigger] is_mvcc_scan(old(kv).contents(), txn.state(), row_prefix(self.table_name()), res)
                    ==> (decode_rows(scan_values(res)) matches Some(raw) && filter_opt(
                    column_names_of(t),
                    raw,
                    self.filter(),
                ) is Some)) ==> r is Ok,
    {
        let table = txn.must_get_table(kv, self.table_name.clone())?;
        let ghost tn = self.table_name@;
        let rows = txn.scan_table(kv, self.table_name)?;
        let columns = table.names();
        let ghost raw = rows_view(rows@);
        proof {
            let res = choose|res: Seq<ScanResult>|
                is_mvcc_scan(old(kv).contents(), txn.state(), row_prefix(tn), res) && decode_rows(
                    scan_values(res),
                ) == Some(raw);
            assert(is_mvcc_scan(old(kv).contents(), txn.state(), row_prefix(tn), res));
        }
        let ghost cn = table@.columns.map_values(|c: crate::sql::schema::ColumnModel| c.name);
        assert(names_view(columns@) == cn);
        let rows = match &self.filter {
            Some(p) => filter_rows_exec(&columns, rows, p)?,
            None => rows,
        };
        let out = ResultSet::Scan { columns, rows };
        assert(rows_read(old(kv).contents(), txn.state(), self.table_name(), raw));
        assert(scan_result(old(kv).contents(), txn.state(), self.table_name(), self.filter(), out@));
        Ok(out)
    }
}

/// Reads the row of a table with a given primary key.
pub struct PrimaryKeyScan {
    pub table_name: String,
    pub value: Value,
}

impl PrimaryKeyScan {
    pub open spec fn table_name(&self) -> Seq<char> {
        self.table_name@
    }

    pub open spec fn value(&self) -> ValueModel {
        self.value@
    }

    pub fn new(table_name: String, value: Value) -> (s: Self)
        ensures
            s.table_name() == table_name@,
            s.value() == value@,
    {
        PrimaryKeyScan { table_name, value }
    }

    /// The table's column names and the row with the primary key, if any.
    pub fn execute<E: StorageEngine>(self, kv: &mut Mvcc<E>, txn: &KVTransaction) -> (r: Result<
        ResultSet,
    >)
        requires
            old(kv).wf(),
        ensures
            final(kv).wf(),
            final(kv).infallible() == old(kv).infallible(),
            final(kv).contents() == old(kv).contents(),
            r matches Ok(o) ==> pk_scan_result(
                old(kv).contents(),
                txn.state(),
                self.table_name(),
                self.value(),
                o@,
            ),
            table_read(old(kv).contents(), txn.state(), self.table_name()) == Some(
                None::<TableModel>,
            ) ==> r is Err,
            old(kv).infallible() && store_wf(old(kv).contents()) ==> (r is Ok <==> (table_read(
                old(kv).contents(),
                txn.state(),
                self.table_name(),
            ) matches Some(Some(_)) && row_at(
                old(kv).contents(),
                txn.state(),
                self.table_name(),
                self.value(),
            ) is Some)),
    {
        let table = txn.must_get_table(kv, self.table_name.clone())?;
        let found = txn.read_by_id(kv, &self.table_name, &self.value)?;
        let columns = table.names();
        let mut rows: Vec<Row> = Vec::new();
        match found {
            Some(row) => {
                rows.push(row);
            },
            None => {},
        }
        assert(rows_view(rows@) =~= match found {
            Some(row) => seq![row_view(row@)],
            None => Seq::<Seq<ValueModel>>::empty(),
        });
        Ok(ResultSet::Scan { columns, rows })
    }
}

pub open spec fn min_len(n: usize, len: nat) -> int {
    if n < len {
        n as int
    } else {
        len as int
    }
}

/// An error for a source that did not give rows.
fn unexpected_result() -> (e: Error)
    ensures
        e matches Error::Internal(m) && m@ == "Unexpected result set"@,
{
    Error::Internal(String::from_str("Unexpected result set"))
}

/// Keeps the first rows.
pub struct Limit {
    pub limit: usize,
}

impl Limit {
    pub fn new(limit: usize) -> (l: Self)
        ensures
            l.limit == limit,
    {
        Limit { limit }
    }

    /// The first `limit` rows of the source, or all of them where there are
    /// fewer.
    pub fn execute(self, source: ResultSet) -> (r: Result<ResultSet>)
        ensures
            match source@ {
                ResultSetModel::Scan { columns, rows } => r matches Ok(o) && o@ == (
                ResultSetModel::Scan { columns, rows: rows.take(min_len(self.limit, rows.len())) }),
                _ => r is Err,
            },
    {
        match source {
            ResultSet::Scan { columns, mut rows } => {
                let ghost rv = rows_view(rows@);
                if self.limit < rows.len() {
                    rows.truncate(self.limit);
                }
                assert(rows_view(rows@) =~= rv.take(min_len(self.limit, rv.len())));
                Ok(ResultSet::Scan { columns, rows })
            },
            _ => Err(unexpected_result()),
        }
    }
}

/// Skips the first rows.
pub struct Offset {
    pub offset: usize,
}

impl Offset {
    pub fn new(offset: usize) -> (o: Self)
        ensures
            o.offset == offset,
    {
        Offset { offset }
    }

    /// The rows of the source after the first `offset`.
    pub fn execute(self, source: ResultSet) -> (r: Result<ResultSet>)
        ensures
            match source@ {
                ResultSetModel::Scan { columns, rows } => r matches Ok(o) && o@ == (
                ResultSetModel::Scan { columns, rows: rows.skip(min_len(self.offset, rows.len())) }),
                _ => r is Err,
            },
    {
        match source {
            ResultSet::Scan { columns, rows } => {
                let ghost rv = rows_view(rows@);
                let start = if self.offset < rows.len() {
                    self.offset
                } else {
                    rows.len()
                };
                let mut out: Vec<Row> = Vec::new();
                let mut i = start;
                while i < rows.len()
                    invariant
                        start <= i <= rows@.len(),
                        rv == rows_view(rows@),
                        rows_view(out@) == rv.subrange(start as int, i as int),
                    decreases rows@.len() - i,
                {
                    let ghost old_out = out@;
                    let c = copy_row(&rows[i]);
                    out.push(c);
                    assert(rv[i as int] == row_view(rows@[i as int]@));
                    assert(rows_view(out@) =~= rows_view(old_out).push(row_view(c@)));
                    assert(rows_view(out@) =~= rv.subrange(start as int, i + 1));
                    i = i + 1;
                }
                assert(rows_view(out@) =~= rv.skip(min_len(self.offset, rv.len())));
                Ok(ResultSet::Scan { columns, rows: out })
            },
            _ => Err(unexpected_result()),
        }
    }
}

/// Keeps the rows that a predicate holds for.
pub struct Filter {
    pub predicate: Option<Expression>,
}

impl Filter {
    pub fn new(predicate: Option<Expression>) -> (f: Self)
        ensures
            f.predicate == predicate,
    {
        Filter { predicate }
    }

    /// The rows of the source for which the predicate is true.
    pub fn execute(self, source: ResultSet) -> (r: Result<ResultSet>)
        ensures
            match source@ {
                ResultSetModel::Scan { columns, rows } => match filter_opt(
                    columns,
                    rows,
                    opt_expr_view(self.predicate),
                ) {
                    Some(kept) => r matches Ok(o) && o@ == (ResultSetModel::Scan {
                        columns,
                        rows: kept,
                    }),
                    None => r is Err,
                },
                _ => r is Err,
            },
    {
        match source {
            ResultSet::Scan { columns, rows } => {
                let rows = match &self.predicate {
                    Some(p) => filter_rows_exec(&columns, rows, p)?,
                    None => rows,
                };
                Ok(ResultSet::Scan { columns, rows })
            },
            _ => Err(unexpected_result()),
        }
    }
}

/// The columns that a select list picks: for each column it names, its
/// position and the name it is shown under; `None` where a name is not a
/// column. Other expressions are passed over.
pub open spec fn proj_targets(
    cols: Seq<Seq<char>>,
    select: Seq<(ExprModel, Option<Seq<char>>)>,
) -> Option<Seq<(int, Seq<char>)>>
    decreases select.len(),
{
    if select.len() == 0 {
        Some(Seq::empty())
    } else {
        match proj_targets(cols, select.drop_last()) {
            Some(ts) => match select.last().0 {
                ExprModel::Filed(name) => match spec_position(cols, name) {
                    Some(p) => Some(
                        ts.push(
                            (
                                p,
                                match select.last().1 {
                                    Some(a) => a,
                                    None => name,
                                },
                            ),
                        ),
                    ),
                    None => None,
                },
                _ => Some(ts),
            },
            None => None,
        }
    }
}

/// Every row has a value at each picked position.
pub open spec fn rows_reach(rows: Seq<Seq<ValueModel>>, ts: Seq<(int, Seq<char>)>) -> bool {
    forall|i: int, j: int| 0 <= i < rows.len() && 0 <= j < ts.len() ==> #[trigger] ts[j].0 < (
    #[trigger] rows[i]).len()
}

/// A row cut down to the picked positions.
pub open spec fn project_row(row: Seq<ValueModel>, ts: Seq<(int, Seq<char>)>) -> Seq<ValueModel> {
    ts.map_values(|t: (int, Seq<char>)| row[t.0])
}

/// Picks columns, under their aliases.
pub struct Projection {
    pub select: Vec<(Expression, Option<String>)>,
}

impl Projection {
    pub fn new(select: Vec<(Expression, Option<String>)>) -> (p: Self)
        ensures
            p.select == select,
    {
        Projection { select }
    }

    /// The source's rows, cut down to the columns named in the select list.
    pub fn execute(self, source: ResultSet) -> (r: Result<ResultSet>)
        ensures
            match source@ {
                ResultSetModel::Scan { columns, rows } => match proj_targets(
                    columns,
                    crate::sql::plan::select_view(self.select@),
                ) {
                    Some(ts) => if rows_reach(rows, ts) {
                        r matches Ok(o) && o@ == (ResultSetModel::Scan {
                            columns: ts.map_values(|t: (int, Seq<char>)| t.1),
                            rows: rows.map_values(|row: Seq<ValueModel>| project_row(row, ts)),
                        })
                    } else {
                        r is Err
                    },
                    None => r is Err,
                },
                _ => r is Err,
            },
    {
        match source {
            ResultSet::Scan { columns, rows } => {
                let (selected, new_columns) = projection_targets(&columns, &self.select)?;
                let ghost ts = proj_targets(
                    names_view(columns@),
                    crate::sql::plan::select_view(self.select@),
                )->0;
                let new_rows = project_rows_exec(&rows, &selected, Ghost(ts))?;
                assert forall|j: int| 0 <= j < ts.len() implies names_view(new_columns@)[j]
                    == ts.map_values(|t: (int, Seq<char>)| t.1)[j] by {
                    assert(ts[j].0 == selected@[j] as int);
                    assert(ts[j].1 == new_columns@[j]@);
                }
                assert(names_view(new_columns@) =~= ts.map_values(|t: (int, Seq<char>)| t.1));
                Ok(ResultSet::Scan { columns: new_columns, rows: new_rows })
            },
            _ => Err(unexpected_result()),
        }
    }
}

/// The positions and output names of the columns a select list picks.
fn projection_targets(columns: &Vec<String>, select: &Vec<(Expression, Option<String>)>) -> (r:
    Result<(Vec<usize>, Vec<String>)>)
    ensures
        match proj_targets(names_view(columns@), crate::sql::plan::select_view(select@)) {
            Some(ts) => r matches Ok((sel, names)) && sel@.len() == ts.len() && names@.len()
                == ts.len() && (forall|j: int|
                0 <= j < ts.len() ==> #[trigger] ts[j].0 == sel@[j] as int && ts[j].1
                    == names@[j]@),
            None => r is Err,
        },
{
    let ghost cv = names_view(columns@);
    let ghost sv = crate::sql::plan::select_view(select@);
    let ghost mut ts: Seq<(int, Seq<char>)> = Seq::empty();
    let mut selected: Vec<usize> = Vec::new();
    let mut new_columns: Vec<String> = Vec::new();
    let mut i: usize = 0;
    while i < select.len()
        invariant
            i <= select@.len(),
            cv == names_view(columns@),
            sv == crate::sql::plan::select_view(select@),
            proj_targets(cv, sv.take(i as int)) == Some(ts),
            ts.len() == selected@.len(),
            ts.len() == new_columns@.len(),
            forall|j: int|
                0 <= j < ts.len() ==> #[trigger] ts[j].0 == selected@[j] as int && ts[j].1
                    == new_columns@[j]@,
        decreases select@.len() - i,
    {
        proof {
            lemma_targets_step(cv, sv, i as int);
        }
        assert(sv[i as int] == (
            select@[i as int].0@,
            crate::sql::plan::opt_str_view(select@[i as int].1),
        ));
        let (expr, alias) = &select[i];
        if let Expression::Filed(name) = expr {
            match position(columns, name) {
                Some(p) => {
                    let shown = match alias {
                        Some(a) => a.clone(),
                        None => name.clone(),
                    };
                    let ghost old_ts = ts;
                    let ghost old_sel = selected@;
                    let ghost old_names = new_columns@;
                    proof {
                        ts = ts.push((p as int, shown@));
                    }
                    selected.push(p);
                    new_columns.push(shown);
                    assert forall|j: int| 0 <= j < ts.len() implies #[trigger] ts[j].0
                        == selected@[j] as int && ts[j].1 == new_columns@[j]@ by {
                        if j < old_ts.len() {
                            assert(ts[j] == old_ts[j]);
                            assert(selected@[j] == old_sel[j]);
                            assert(new_columns@[j] == old_names[j]);
                            assert(old_ts[j].0 == old_sel[j] as int);
                        }
                    }
                },
                None => {
                    proof {
                        lemma_targets_none(cv, sv, i as int + 1);
                    }
                    return Err(
                        Error::Internal(
                            String::from_str("Column ").concat(name.as_str()).concat(" not exists"),
                        ),
                    );
                },
            }
        }
        assert(forall|j: int|
            0 <= j < ts.len() ==> #[trigger] ts[j].0 == selected@[j] as int && ts[j].1
                == new_columns@[j]@);
        i = i + 1;
    }
    assert(sv.take(i as int) =~= sv);
    Ok((selected, new_columns))
}

/// The rows cut down to the picked positions.
fn project_rows_exec(rows: &Vec<Row>, selected: &Vec<usize>, Ghost(ts): Ghost<Seq<(int, Seq<char>)>>) -> (r: Result<Vec<Row>>)
    requires
        ts.len() == selected@.len(),
        forall|j: int| 0 <= j < ts.len() ==> #[trigger] ts[j].0 == selected@[j] as int,
    ensures
        if rows_reach(rows_view(rows@), ts) {
            r matches Ok(out) && rows_view(out@) == rows_view(rows@).map_values(
                |row: Seq<ValueModel>| project_row(row, ts),
            )
        } else {
            r is Err
        },
{
    let ghost rv = rows_view(rows@);
    let mut new_rows: Vec<Row> = Vec::new();
    let mut k: usize = 0;
    while k < rows.len()
        invariant
            k <= rows@.len(),
            rv == rows_view(rows@),
            ts.len() == selected@.len(),
            forall|j: int| 0 <= j < ts.len() ==> #[trigger] ts[j].0 == selected@[j] as int,
            rows_reach(rv.take(k as int), ts),
            rows_view(new_rows@) == rv.take(k as int).map_values(
                |row: Seq<ValueModel>| project_row(row, ts),
            ),
        decreases rows@.len() - k,
    {
        let row = &rows[k];
        assert(rv[k as int] == row_view(row@));
        let mut new_row: Row = Vec::new();
        let mut j: usize = 0;
        while j < selected.len()
            invariant
                j <= selected@.len(),
                k < rows@.len(),
                rv == rows_view(rows@),
                rv[k as int] == row_view(row@),
                ts.len() == selected@.len(),
                forall|q: int| 0 <= q < ts.len() ==> #[trigger] ts[q].0 == selected@[q] as int,
                forall|q: int| 0 <= q < j ==> #[trigger] ts[q].0 < row@.len(),
                row_view(new_row@) == project_row(row_view(row@), ts.take(j as int)),
            decreases selected@.len() - j,
        {
            let p = selected[j];
            if p >= row.len() {
                proof {
                    assert(ts[j as int].0 == p);
                    assert(!(ts[j as int].0 < rv[k as int].len()));
                }
                return Err(Error::Internal(String::from_str("row has fewer values than columns")));
            }
            let v = row[p].copy();
            let ghost old_new = new_row@;
            new_row.push(v);
            assert(row_view(new_row@) =~= row_view(old_new).push(v@));
            assert(row_view(new_row@) =~= project_row(row_view(row@), ts.take(j + 1)));
            j = j + 1;
        }
        assert(ts.take(j as int) =~= ts);
        let ghost old_rows = new_rows@;
        let ghost nr = row_view(new_row@);
        new_rows.push(new_row);
        proof {
            assert(rows_view(new_rows@) =~= rows_view(old_rows).push(nr));
            assert(rv.take(k + 1).map_values(|row: Seq<ValueModel>| project_row(row, ts))
                =~= rv.take(k as int).map_values(|row: Seq<ValueModel>| project_row(row, ts)).push(
                project_row(rv[k as int], ts),
            ));
            assert forall|a: int, b: int|
                0 <= a < rv.take(k + 1).len() && 0 <= b < ts.len() implies #[trigger] ts[b].0 < (
            #[trigger] rv.take(k + 1)[a]).len() by {
                if a < k {
                    assert(rv.take(k + 1)[a] == rv.take(k as int)[a]);
                } else {
                    assert(ts[b].0 < row@.len());
                }
            }
        }
        k = k + 1;
    }
    assert(rv.take(k as int) =~= rv);
    Ok(new_rows)
}

proof fn lemma_targets_step(
    cols: Seq<Seq<char>>,
    select: Seq<(ExprModel, Option<Seq<char>>)>,
    i: int,
)
    requires
        0 <= i < select.len(),
    ensures
        proj_targets(cols, select.take(i + 1)) == match proj_targets(cols, select.take(i)) {
            Some(ts) => match select[i].0 {
                ExprModel::Filed(name) => match spec_position(cols, name) {
                    Some(p) => Some(
                        ts.push(
                            (
                                p,
                                match select[i].1 {
                                    Some(a) => a,
                                    None => name,
                                },
                            ),
                        ),
                    ),
                    None => None,
                },
                _ => Some(ts),
            },
            None => None,
        },
{
    assert(select.take(i + 1).drop_last() =~= select.take(i));
    assert(select.take(i + 1).last() == select[i]);
}

proof fn lemma_targets_none(
    cols: Seq<Seq<char>>,
    select: Seq<(ExprModel, Option<Seq<char>>)>,
    i: int,
)
    requires
        0 <= i <= select.len(),
        proj_targets(cols, select.take(i)) is None,
    ensures
        proj_targets(cols, select) is None,
    decreases select.len() - i,
{
    if i < select.len() {
        assert(select.take(i + 1).drop_last() =~= select.take(i));
        lemma_targets_none(cols, select, i + 1);
    } else {
        assert(select.take(i) =~= select);
    }
}

} // verus!
