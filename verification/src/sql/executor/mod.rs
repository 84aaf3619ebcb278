//! Executors: they run the nodes of a plan against a transaction.
use vstd::prelude::*;

use super::engine::kv::KVTransaction;
use super::number::{nat_digits, u64_digits};
use super::parser::ast::{ExprModel, OrderDirection};
use super::plan::{Node, NodeModel};
use crate::error::Result;
use crate::storage::engine::Engine as StorageEngine;
use crate::storage::mvcc::{is_mvcc_scan, store_wf, write_conflict, wrote_own, Mvcc, ScanResult, TransactionState};
use super::engine::kv::{decode_rows, row_at, row_prefix, scan_values, table_key, table_read};
use super::schema::{table_valid, TableModel};
use query::column_names_of;
use super::parser::ast::names_view;
use super::text::string_of;
use super::types::{row_view, rows_view, value_text, Row, ValueModel};

pub mod agg;
pub mod join;
pub mod mutation;
pub mod order;
pub mod query;
pub mod schema;

verus! {

/// What a statement returns.
#[derive(Debug, PartialEq)]
pub enum ResultSet {
    CreateTable { table_name: String },
    DropTable { table_name: String },
    Insert { count: usize },
    Scan { columns: Vec<String>, rows: Vec<Row> },
    Update { count: usize },
    Delete { count: usize },
    Begin { version: u64 },
    Commit { version: u64 },
    Rollback { version: u64 },
    Explain { plan: String },
}

/// The mathematical form of a result.
pub enum ResultSetModel {
    CreateTable { table_name: Seq<char> },
    DropTable { table_name: Seq<char> },
    Insert { count: usize },
    Scan { columns: Seq<Seq<char>>, rows: Seq<Seq<ValueModel>> },
    Update { count: usize },
    Delete { count: usize },
    Begin { version: u64 },
    Commit { version: u64 },
    Rollback { version: u64 },
    Explain { plan: Seq<char> },
}

impl View for ResultSet {
    type V = ResultSetModel;

    open spec fn view(&self) -> ResultSetModel {
        match self {
            ResultSet::CreateTable { table_name } => ResultSetModel::CreateTable {
                table_name: table_name@,
            },
            ResultSet::DropTable { table_name } => ResultSetModel::DropTable {
                table_name: table_name@,
            },
            ResultSet::Insert { count } => ResultSetModel::Insert { count: *count },
            ResultSet::Scan { columns, rows } => ResultSetModel::Scan {
                columns: names_view(columns@),
                rows: rows_view(rows@),
            },
            ResultSet::Update { count } => ResultSetModel::Update { count: *count },
            ResultSet::Delete { count } => ResultSetModel::Delete { count: *count },
            ResultSet::Begin { version } => ResultSetModel::Begin { version: *version },
            ResultSet::Commit { version } => ResultSetModel::Commit { version: *version },
            ResultSet::Rollback { version } => ResultSetModel::Rollback { version: *version },
            ResultSet::Explain { plan } => ResultSetModel::Explain { plan: plan@ },
        }
    }
}

/// The texts joined, with `sep` between each two.
pub open spec fn join_text(parts: Seq<Seq<char>>, sep: Seq<char>) -> Seq<char>
    decreases parts.len(),
{
    if parts.len() == 0 {
        Seq::empty()
    } else if parts.len() == 1 {
        parts[0]
    } else {
        join_text(parts.drop_last(), sep) + sep + parts.last()
    }
}

/// The text of a row: its values, separated by ` | `.
pub open spec fn row_text(r: Seq<ValueModel>) -> Seq<char> {
    join_text(r.map_values(|v: ValueModel| value_text(v)), " | "@)
}

/// The text of a result, as a client is shown it.
pub open spec fn result_text(r: ResultSetModel) -> Seq<char> {
    match r {
        ResultSetModel::CreateTable { table_name } => "CREATE TABLE "@ + table_name,
        ResultSetModel::DropTable { table_name } => "DROP TABLE "@ + table_name,
        ResultSetModel::Insert { count } => "INSERT "@ + nat_digits(count as nat) + " row"@,
        ResultSetModel::Scan { columns, rows } => join_text(columns, " | "@) + "\n"@ + join_text(
            rows.map_values(|r: Seq<ValueModel>| row_text(r)),
            "\n"@,
        ),
        ResultSetModel::Update { count } => "UPDATE "@ + nat_digits(count as nat) + " rows"@,
        ResultSetModel::Delete { count } => "DELETE "@ + nat_digits(count as nat) + " rows"@,
        ResultSetModel::Begin { version } => "TRANSACTION "@ + nat_digits(version as nat)
            + " BEGIN"@,
        ResultSetModel::Commit { version } => "TRANSACTION "@ + nat_digits(version as nat)
            + " COMMIT"@,
        ResultSetModel::Rollback { version } => "TRANSACTION "@ + nat_digits(version as nat)
            + " ROLLBACK"@,
        ResultSetModel::Explain { plan } => plan,
    }
}

/// Joins texts with `sep` between each two.
pub fn join_strings(parts: &Vec<String>, sep: &str) -> (s: String)
    ensures
        s@ == join_text(names_view(parts@), sep@),
{
    let ghost pv = names_view(parts@);
    let mut s = String::new();
    let mut i: usize = 0;
    while i < parts.len()
        invariant
            i <= parts@.len(),
            pv == names_view(parts@),
            s@ == join_text(pv.take(i as int), sep@),
        decreases parts@.len() - i,
    {
        assert(pv.take(i + 1).drop_last() =~= pv.take(i as int));
        assert(pv[i as int] == parts@[i as int]@);
        if i == 0 {
            s = parts[i].clone();
            assert(pv.take(1) =~= seq![pv[0]]);
        } else {
            s = s.concat(sep).concat(parts[i].as_str());
        }
        i = i + 1;
    }
    assert(pv.take(i as int) =~= pv);
    s
}

fn count_text(n: u64) -> (s: String)
    ensures
        s@ == nat_digits(n as nat),
{
    string_of(&u64_digits(n))
}

/// The text of a row.
pub fn row_to_string(row: &Row) -> (s: String)
    ensures
        s@ == row_text(row_view(row@)),
{
    let mut parts: Vec<String> = Vec::new();
    let mut i: usize = 0;
    while i < row.len()
        invariant
            i <= row@.len(),
            names_view(parts@) == row_view(row@).take(i as int).map_values(
                |v: ValueModel| value_text(v),
            ),
        decreases row@.len() - i,
    {
        let ghost old_parts = parts@;
        parts.push(row[i].to_string());
        proof {
            assert(names_view(parts@) =~= names_view(old_parts).push(value_text(row@[i as int]@)));
            assert(row_view(row@).take(i + 1).map_values(|v: ValueModel| value_text(v))
                =~= row_view(row@).take(i as int).map_values(|v: ValueModel| value_text(v)).push(
                value_text(row@[i as int]@),
            ));
        }
        i = i + 1;
    }
    assert(row_view(row@).take(i as int) =~= row_view(row@));
    join_strings(&parts, " | ")
}

impl ResultSet {
    /// The text of the result, as a client is shown it.
    pub fn to_string(&self) -> (s: String)
        ensures
            s@ == result_text(self@),
    {
        match self {
            ResultSet::CreateTable { table_name } => String::from_str("CREATE TABLE ").concat(
                table_name.as_str(),
            ),
            ResultSet::DropTable { table_name } => String::from_str("DROP TABLE ").concat(
                table_name.as_str(),
            ),
            ResultSet::Insert { count } => String::from_str("INSERT ").concat(
                count_text(*count as u64).as_str(),
            ).concat(" row"),
            ResultSet::Scan { columns, rows } => {
                let head = join_strings(columns, " | ");
                let mut lines: Vec<String> = Vec::new();
                let mut i: usize = 0;
                while i < rows.len()
                    invariant
                        i <= rows@.len(),
                        names_view(lines@) == rows_view(rows@).take(i as int).map_values(
                            |r: Seq<ValueModel>| row_text(r),
                        ),
                    decreases rows@.len() - i,
                {
                    let ghost old_lines = lines@;
                    lines.push(row_to_string(&rows[i]));
                    proof {
                        assert(names_view(lines@) =~= names_view(old_lines).push(
                            row_text(row_view(rows@[i as int]@)),
                        ));
                        assert(rows_view(rows@).take(i + 1).map_values(
                            |r: Seq<ValueModel>| row_text(r),
                        ) =~= rows_view(rows@).take(i as int).map_values(
                            |r: Seq<ValueModel>| row_text(r),
                        ).push(row_text(row_view(rows@[i as int]@))));
                    }
                    i = i + 1;
                }
                assert(rows_view(rows@).take(i as int) =~= rows_view(rows@));
                let body = join_strings(&lines, "\n");
                head.concat("\n").concat(body.as_str())
            },
            ResultSet::Update { count } => String::from_str("UPDATE ").concat(
                count_text(*count as u64).as_str(),
            ).concat(" rows"),
            ResultSet::Delete { count } => String::from_str("DELETE ").concat(
                count_text(*count as u64).as_str(),
            ).concat(" rows"),
            ResultSet::Begin { version } => String::from_str("TRANSACTION ").concat(
                count_text(*version).as_str(),
            ).concat(" BEGIN"),
            ResultSet::Commit { version } => String::from_str("TRANSACTION ").concat(
                count_text(*version).as_str(),
            ).concat(" COMMIT"),
            ResultSet::Rollback { version } => String::from_str("TRANSACTION ").concat(
                count_text(*version).as_str(),
            ).concat(" ROLLBACK"),
            ResultSet::Explain { plan } => plan.clone(),
        }
    }
}

/// The rows of a `LIMIT`.
pub open spec fn limit_out(input: ResultSetModel, limit: usize) -> Option<ResultSetModel> {
    match input {
        ResultSetModel::Scan { columns, rows } => Some(
            ResultSetModel::Scan { columns, rows: rows.take(query::min_len(limit, rows.len())) },
        ),
        _ => None,
    }
}

/// The rows of an `OFFSET`.
pub open spec fn offset_out(input: ResultSetModel, offset: usize) -> Option<ResultSetModel> {
    match input {
        ResultSetModel::Scan { columns, rows } => Some(
            ResultSetModel::Scan { columns, rows: rows.skip(query::min_len(offset, rows.len())) },
        ),
        _ => None,
    }
}

/// The rows of a filter.
pub open spec fn filter_out(input: ResultSetModel, pred: Option<ExprModel>) -> Option<ResultSetModel> {
    match input {
        ResultSetModel::Scan { columns, rows } => match query::filter_opt(columns, rows, pred) {
            Some(kept) => Some(ResultSetModel::Scan { columns, rows: kept }),
            None => None,
        },
        _ => None,
    }
}

/// The result of a projection.
pub open spec fn projection_out(
    input: ResultSetModel,
    select: Seq<(ExprModel, Option<Seq<char>>)>,
) -> Option<ResultSetModel> {
    match input {
        ResultSetModel::Scan { columns, rows } => match query::proj_targets(columns, select) {
            Some(ts) => if query::rows_reach(rows, ts) {
                Some(
                    ResultSetModel::Scan {
                        columns: ts.map_values(|t: (int, Seq<char>)| t.1),
                        rows: rows.map_values(|row: Seq<ValueModel>| query::project_row(row, ts)),
                    },
                )
            } else {
                None
            },
            None => None,
        },
        _ => None,
    }
}

/// The result of an aggregation.
pub open spec fn aggregate_out(
    input: ResultSetModel,
    exprs: Seq<(ExprModel, Option<Seq<char>>)>,
    group_by: Option<ExprModel>,
) -> Option<ResultSetModel> {
    match input {
        ResultSetModel::Scan { columns, rows } => match agg::agg_spec(exprs, group_by, columns, rows) {
            Some((c2, r2)) => Some(ResultSetModel::Scan { columns: c2, rows: r2 }),
            None => None,
        },
        _ => None,
    }
}

/// `out` is `input` sorted by the `ORDER BY` columns.
pub open spec fn order_out(
    input: ResultSetModel,
    order_by: Seq<(Seq<char>, OrderDirection)>,
    out: ResultSetModel,
) -> bool {
    match input {
        ResultSetModel::Scan { columns, rows } => match order::order_keys(columns, order_by) {
            Some(ks) => order::rows_cover(rows, ks) && (out matches ResultSetModel::Scan {
                columns: c2,
                rows: out_rows,
            } && c2 == columns && out_rows.to_multiset() == rows.to_multiset() && order::sorted_by(
                ks,
                out_rows,
            )),
            None => false,
        },
        _ => false,
    }
}

/// The result of a nested-loop join.
pub open spec fn nested_loop_out(
    left: ResultSetModel,
    right: ResultSetModel,
    pred: Option<ExprModel>,
    outer: bool,
) -> Option<ResultSetModel> {
    match (left, right) {
        (
            ResultSetModel::Scan { columns: lcols, rows: lrows },
            ResultSetModel::Scan { columns: rcols, rows: rrows },
        ) => match join::nested_loop_rows(lcols, lrows, rcols, rrows, pred, outer) {
            Some(rows) => Some(ResultSetModel::Scan { columns: lcols + rcols, rows }),
            None => None,
        },
        _ => None,
    }
}

/// The result of an equality join.
pub open spec fn hash_join_out(
    left: ResultSetModel,
    right: ResultSetModel,
    pred: Option<ExprModel>,
    outer: bool,
) -> Option<ResultSetModel> {
    match (left, right) {
        (
            ResultSetModel::Scan { columns: lcols, rows: lrows },
            ResultSetModel::Scan { columns: rcols, rows: rrows },
        ) => match join::hash_join_spec(lcols, lrows, rcols, rrows, pred, outer) {
            Some(rows) => Some(ResultSetModel::Scan { columns: lcols + rcols, rows }),
            None => None,
        },
        (ResultSetModel::Scan { columns: lcols, .. }, _) => Some(
            ResultSetModel::Scan { columns: lcols, rows: Seq::empty() },
        ),
        _ => None,
    }
}

/// `out` is what updating the rows of `input` gives, the store going from
/// `c0` to `c1`.
pub open spec fn update_out(
    c0: Map<Seq<u8>, Seq<u8>>,
    c1: Map<Seq<u8>, Seq<u8>>,
    st: TransactionState,
    table_name: Seq<char>,
    input: ResultSetModel,
    sets: Seq<(Seq<char>, ExprModel)>,
    out: ResultSetModel,
) -> bool {
    match input {
        ResultSetModel::Scan { columns, rows } => out == (ResultSetModel::Update {
            count: rows.len() as usize,
        }) && mutation::source_updated(c0, c1, st, table_name, columns, rows, sets),
        _ => false,
    }
}

/// `out` is what deleting the rows of `input` gives, the store going from
/// `c0` to `c1`.
pub open spec fn delete_out(
    c0: Map<Seq<u8>, Seq<u8>>,
    c1: Map<Seq<u8>, Seq<u8>>,
    st: TransactionState,
    table_name: Seq<char>,
    input: ResultSetModel,
    out: ResultSetModel,
) -> bool {
    match input {
        ResultSetModel::Scan { columns, rows } => out == (ResultSetModel::Delete {
            count: rows.len() as usize,
        }) && mutation::rows_deleted(c0, c1, st, table_name, rows),
        _ => false,
    }
}

/// How a plan ran: for each node with sources, what its sources gave and
/// the store between them.
pub enum Trace {
    Leaf,
    One { source: Box<Trace>, mid: ResultSetModel, store: Map<Seq<u8>, Seq<u8>> },
    Two {
        left: Box<Trace>,
        right: Box<Trace>,
        lo: ResultSetModel,
        ro: ResultSetModel,
        store: Map<Seq<u8>, Seq<u8>>,
    },
}

/// Running plan node `n` took the store from `c0` to `c1` and gave `out`,
/// its sources running as trace `t` says: each node's result is what its
/// executor makes of its sources' results, the left source of a join running
/// before the right one.
pub open spec fn exec_traced(
    c0: Map<Seq<u8>, Seq<u8>>,
    c1: Map<Seq<u8>, Seq<u8>>,
    st: TransactionState,
    n: NodeModel,
    out: ResultSetModel,
    t: Trace,
) -> bool
    decreases n,
{
    match n {
        NodeModel::CreateTable { schema } => schema::table_created(c0, c1, st, schema) && out == (
        ResultSetModel::CreateTable { table_name: schema.name }),
        NodeModel::Insert { table_name, columns, values } => mutation::insert_result(
            c0,
            c1,
            st,
            table_name,
            columns,
            values,
            out,
        ),
        NodeModel::Scan { table_name, filter } => c1 == c0 && query::scan_result(
            c0,
            st,
            table_name,
            filter,
            out,
        ),
        NodeModel::PrimaryKeyScan { table_name, value } => c1 == c0 && query::pk_scan_result(
            c0,
            st,
            table_name,
            value,
            out,
        ),
        NodeModel::Update { table_name, source, columns } => match t {
            Trace::One { source: ts, mid, store } => exec_traced(c0, store, st, *source, mid, *ts)
                && update_out(store, c1, st, table_name, mid, columns, out),
            _ => false,
        },
        NodeModel::Delete { table_name, source } => match t {
            Trace::One { source: ts, mid, store } => exec_traced(c0, store, st, *source, mid, *ts)
                && delete_out(store, c1, st, table_name, mid, out),
            _ => false,
        },
        NodeModel::Order { source, order_by } => match t {
            Trace::One { source: ts, mid, store } => exec_traced(c0, c1, st, *source, mid, *ts)
                && order_out(mid, order_by, out),
            _ => false,
        },
        NodeModel::Limit { source, limit } => match t {
            Trace::One { source: ts, mid, store } => exec_traced(c0, c1, st, *source, mid, *ts)
                && limit_out(mid, limit) == Some(out),
            _ => false,
        },
        NodeModel::Offset { source, offset } => match t {
            Trace::One { source: ts, mid, store } => exec_traced(c0, c1, st, *source, mid, *ts)
                && offset_out(mid, offset) == Some(out),
            _ => false,
        },
        NodeModel::Projection { source, select } => match t {
            Trace::One { source: ts, mid, store } => exec_traced(c0, c1, st, *source, mid, *ts)
                && projection_out(mid, select) == Some(out),
            _ => false,
        },
        NodeModel::Filter { source, predicate } => match t {
            Trace::One { source: ts, mid, store } => exec_traced(c0, c1, st, *source, mid, *ts)
                && filter_out(mid, predicate) == Some(out),
            _ => false,
        },
        NodeModel::Aggregate { source, exprs, group_by } => match t {
            Trace::One { source: ts, mid, store } => exec_traced(c0, c1, st, *source, mid, *ts)
                && aggregate_out(mid, exprs, group_by) == Some(out),
            _ => false,
        },
        NodeModel::NestedLoopJoin { left, right, predicate, outer } => match t {
            Trace::Two { left: tl, right: tr, lo, ro, store } => exec_traced(
                c0,
                store,
                st,
                *left,
                lo,
                *tl,
            ) && exec_traced(store, c1, st, *right, ro, *tr) && nested_loop_out(
                lo,
                ro,
                predicate,
                outer,
            ) == Some(out),
            _ => false,
        },
        NodeModel::HashJoin { left, right, predicate, outer } => match t {
            Trace::Two { left: tl, right: tr, lo, ro, store } => exec_traced(
                c0,
                store,
                st,
                *left,
                lo,
                *tl,
            ) && exec_traced(store, c1, st, *right, ro, *tr) && hash_join_out(
                lo,
                ro,
                predicate,
                outer,
            ) == Some(out),
            _ => false,
        },
    }
}

/// Running plan node `n` took the store from `c0` to `c1` and gave `out`.
pub open spec fn exec_rel(
    c0: Map<Seq<u8>, Seq<u8>>,
    c1: Map<Seq<u8>, Seq<u8>>,
    st: TransactionState,
    n: NodeModel,
    out: ResultSetModel,
) -> bool {
    exists|t: Trace| #[trigger] exec_traced(c0, c1, st, n, out, t)
}

/// Scanning table `name` with `filter` succeeds on store `c`: the table
/// exists, and whatever the scan reads decodes to rows on each of which the
/// filter gives a value.
pub open spec fn scan_runs(
    c: Map<Seq<u8>, Seq<u8>>,
    st: TransactionState,
    name: Seq<char>,
    filter: Option<ExprModel>,
) -> bool {
    table_read(c, st, name) matches Some(Some(t)) && forall|res: Seq<ScanResult>|
        #[trigger] is_mvcc_scan(c, st, row_prefix(name), res) ==> (decode_rows(scan_values(res)) matches Some(
            raw,
        ) && query::filter_opt(column_names_of(t), raw, filter) is Some)
}

/// Running plan node `n` on store `c0` succeeds: each node's executor
/// accepts what its sources give, on the store that they leave.
pub open spec fn node_runs(c0: Map<Seq<u8>, Seq<u8>>, st: TransactionState, n: NodeModel) -> bool
    decreases n,
{
    match n {
        NodeModel::CreateTable { schema } => table_read(c0, st, schema.name) == Some(None::<TableModel>)
            && table_valid(schema) && !write_conflict(c0, st, table_key(schema.name)),
        NodeModel::Insert { table_name, columns, values } => table_read(c0, st, table_name) matches Some(
            Some(t),
        ) && mutation::rows_insertable(c0, st, table_name, t, columns, values),
        NodeModel::Scan { table_name, filter } => scan_runs(c0, st, table_name, filter),
        NodeModel::PrimaryKeyScan { table_name, value } => (table_read(c0, st, table_name) matches Some(
            Some(_),
        )) && row_at(c0, st, table_name, value) is Some,
        NodeModel::Update { table_name, source, columns } => node_runs(c0, st, *source) && forall|
            c1: Map<Seq<u8>, Seq<u8>>,
            mid: ResultSetModel,
        |
            #[trigger] exec_rel(c0, c1, st, *source, mid) && store_wf(c1) ==> (mid matches ResultSetModel::Scan {
                columns: cs,
                rows,
            } && mutation::rows_updatable(c1, st, table_name, cs, rows, columns)),
        NodeModel::Delete { table_name, source } => node_runs(c0, st, *source) && forall|
            c1: Map<Seq<u8>, Seq<u8>>,
            mid: ResultSetModel,
        |
            #[trigger] exec_rel(c0, c1, st, *source, mid) && store_wf(c1) ==> (mid matches ResultSetModel::Scan {
                rows,
                ..
            } && mutation::rows_deletable(c1, st, table_name, rows)),
        NodeModel::Order { source, order_by } => node_runs(c0, st, *source) && forall|
            c1: Map<Seq<u8>, Seq<u8>>,
            mid: ResultSetModel,
        |
            #[trigger] exec_rel(c0, c1, st, *source, mid) ==> (mid matches ResultSetModel::Scan {
                columns,
                rows,
            } && order::order_keys(columns, order_by) matches Some(ks) && order::rows_cover(rows, ks)),
        NodeModel::Limit { source, limit } => node_runs(c0, st, *source) && forall|
            c1: Map<Seq<u8>, Seq<u8>>,
            mid: ResultSetModel,
        | #[trigger] exec_rel(c0, c1, st, *source, mid) ==> limit_out(mid, limit) is Some,
        NodeModel::Offset { source, offset } => node_runs(c0, st, *source) && forall|
            c1: Map<Seq<u8>, Seq<u8>>,
            mid: ResultSetModel,
        | #[trigger] exec_rel(c0, c1, st, *source, mid) ==> offset_out(mid, offset) is Some,
        NodeModel::Projection { source, select } => node_runs(c0, st, *source) && forall|
            c1: Map<Seq<u8>, Seq<u8>>,
            mid: ResultSetModel,
        | #[trigger] exec_rel(c0, c1, st, *source, mid) ==> projection_out(mid, select) is Some,
        NodeModel::Filter { source, predicate } => node_runs(c0, st, *source) && forall|
            c1: Map<Seq<u8>, Seq<u8>>,
            mid: ResultSetModel,
        | #[trigger] exec_rel(c0, c1, st, *source, mid) ==> filter_out(mid, predicate) is Some,
        NodeModel::Aggregate { source, exprs, group_by } => node_runs(c0, st, *source) && forall|
            c1: Map<Seq<u8>, Seq<u8>>,
            mid: ResultSetModel,
        | #[trigger] exec_rel(c0, c1, st, *source, mid) ==> aggregate_out(mid, exprs, group_by) is Some,
        NodeModel::NestedLoopJoin { left, right, predicate, outer } => node_runs(c0, st, *left) && forall|
            c1: Map<Seq<u8>, Seq<u8>>,
            lo: ResultSetModel,
        |
            #[trigger] exec_rel(c0, c1, st, *left, lo) && store_wf(c1) ==> node_runs(c1, st, *right) && forall|
                c2: Map<Seq<u8>, Seq<u8>>,
                ro: ResultSetModel,
            | #[trigger] exec_rel(c1, c2, st, *right, ro) ==> nested_loop_out(lo, ro, predicate, outer) is Some,
        NodeModel::HashJoin { left, right, predicate, outer } => node_runs(c0, st, *left) && forall|
            c1: Map<Seq<u8>, Seq<u8>>,
            lo: ResultSetModel,
        |
            #[trigger] exec_rel(c0, c1, st, *left, lo) && store_wf(c1) ==> node_runs(c1, st, *right) && forall|
                c2: Map<Seq<u8>, Seq<u8>>,
                ro: ResultSetModel,
            | #[trigger] exec_rel(c1, c2, st, *right, ro) ==> hash_join_out(lo, ro, predicate, outer) is Some,
    }
}

/// Runs a plan node: builds the executor for it and runs it, running its
/// sources first.
pub fn execute_node<E: StorageEngine>(node: Node, kv: &mut Mvcc<E>, txn: &KVTransaction) -> (r: Result<ResultSet>)
    requires
        old(kv).wf(),
    ensures
        final(kv).wf(),
        final(kv).infallible() == old(kv).infallible(),
        r matches Ok(o) ==> exec_rel(old(kv).contents(), final(kv).contents(), txn.state(), node@, o@),
        old(kv).infallible() && store_wf(old(kv).contents()) && node_runs(old(kv).contents(), txn.state(), node@)
            ==> r is Ok && store_wf(final(kv).contents()),
        old(kv).infallible() && store_wf(old(kv).contents()) ==> wrote_own(
            old(kv).contents(),
            final(kv).contents(),
            txn.state(),
        ),
{
    let ghost c0 = kv.contents();
    let ghost nv = node@;
    let (r, Ghost(t)) = run_node(node, kv, txn);
    proof {
        if r is Ok {
            assert(exec_traced(c0, kv.contents(), txn.state(), nv, r->Ok_0@, t));
        }
    }
    r
}

/// Runs a plan node, and how it ran.
#[verifier::spinoff_prover]
#[verifier::rlimit(60)]
fn run_node<E: StorageEngine>(node: Node, kv: &mut Mvcc<E>, txn: &KVTransaction) -> (r: (Result<ResultSet>, Ghost<Trace>))
    requires
        old(kv).wf(),
    ensures
        final(kv).wf(),
        final(kv).infallible() == old(kv).infallible(),
        r.0 matches Ok(o) ==> exec_traced(old(kv).contents(), final(kv).contents(), txn.state(), node@, o@, r.1@),
        old(kv).infallible() && store_wf(old(kv).contents()) && node_runs(old(kv).contents(), txn.state(), node@)
            ==> r.0 is Ok && store_wf(final(kv).contents()),
        old(kv).infallible() && store_wf(old(kv).contents()) ==> wrote_own(
            old(kv).contents(),
            final(kv).contents(),
            txn.state(),
        ),
    decreases node,
{
    let ghost c0 = kv.contents();
    let ghost st = txn.state();
    proof {
        crate::storage::mvcc_laws::lemma_own_writes_refl(c0, st.version);
    }
    match node {
        Node::CreateTable { schema } => (schema::CreateTable::new(schema).execute(kv, txn), Ghost(Trace::Leaf)),
        Node::Insert { table_name, columns, values } => (mutation::Insert::new(table_name, columns, values).execute(kv, txn), Ghost(Trace::Leaf)),
        Node::Scan { table_name, filter } => (query::Scan::new(table_name, filter).execute(kv, txn), Ghost(Trace::Leaf)),
        Node::PrimaryKeyScan { table_name, value } => (query::PrimaryKeyScan::new(table_name, value).execute(kv, txn), Ghost(Trace::Leaf)),
        Node::Update { table_name, source, columns } => {
            let ghost sm = (*source)@;
            let (src, Ghost(ts)) = run_node(*source, kv, txn);
            let src = match src {
                Ok(s) => s,
                Err(e) => {
                    return (Err(e), Ghost(Trace::Leaf));
                },
            };
            let ghost cm = kv.contents();
            let ghost mid = src@;
            proof {
                assert(exec_traced(c0, kv.contents(), st, sm, mid, ts));
                assert(exec_rel(c0, kv.contents(), st, sm, mid));
            }
            let out = mutation::Update::new(table_name, columns).execute(kv, txn, src);
            proof {
                if old(kv).infallible() && store_wf(c0) {
                    crate::storage::mvcc_laws::lemma_own_writes_trans(c0, cm, kv.contents(), st.version);
                }
            }
            (out, Ghost(Trace::One { source: Box::new(ts), mid, store: cm }))
        },
        Node::Delete { table_name, source } => {
            let ghost sm = (*source)@;
            let (src, Ghost(ts)) = run_node(*source, kv, txn);
            let src = match src {
                Ok(s) => s,
                Err(e) => {
                    return (Err(e), Ghost(Trace::Leaf));
                },
            };
            let ghost cm = kv.contents();
            let ghost mid = src@;
            proof {
                assert(exec_traced(c0, kv.contents(), st, sm, mid, ts));
                assert(exec_rel(c0, kv.contents(), st, sm, mid));
            }
            let out = mutation::Delete::new(table_name).execute(kv, txn, src);
            proof {
                if old(kv).infallible() && store_wf(c0) {
                    crate::storage::mvcc_laws::lemma_own_writes_trans(c0, cm, kv.contents(), st.version);
                }
            }
            (out, Ghost(Trace::One { source: Box::new(ts), mid, store: cm }))
        },
        Node::Order { source, order_by } => {
            let ghost sm = (*source)@;
            let (src, Ghost(ts)) = run_node(*source, kv, txn);
            let src = match src {
                Ok(s) => s,
                Err(e) => {
                    return (Err(e), Ghost(Trace::Leaf));
                },
            };
            let ghost mid = src@;
            proof {
                assert(exec_traced(c0, kv.contents(), st, sm, mid, ts));
                assert(exec_rel(c0, kv.contents(), st, sm, mid));
            }
            (order::Order::new(order_by).execute(src), Ghost(Trace::One { source: Box::new(ts), mid, store: c0 }))
        },
        Node::Limit { source, limit } => {
            let ghost sm = (*source)@;
            let (src, Ghost(ts)) = run_node(*source, kv, txn);
            let src = match src {
                Ok(s) => s,
                Err(e) => {
                    return (Err(e), Ghost(Trace::Leaf));
                },
            };
            let ghost mid = src@;
            proof {
                assert(exec_traced(c0, kv.contents(), st, sm, mid, ts));
                assert(exec_rel(c0, kv.contents(), st, sm, mid));
            }
            (query::Limit::new(limit).execute(src), Ghost(Trace::One { source: Box::new(ts), mid, store: c0 }))
        },
        Node::Offset { source, offset } => {
            let ghost sm = (*source)@;
            let (src, Ghost(ts)) = run_node(*source, kv, txn);
            let src = match src {
                Ok(s) => s,
                Err(e) => {
                    return (Err(e), Ghost(Trace::Leaf));
                },
            };
            let ghost mid = src@;
            proof {
                assert(exec_traced(c0, kv.contents(), st, sm, mid, ts));
                assert(exec_rel(c0, kv.contents(), st, sm, mid));
            }
            (query::Offset::new(offset).execute(src), Ghost(Trace::One { source: Box::new(ts), mid, store: c0 }))
        },
        Node::Projection { source, select } => {
            let ghost sm = (*source)@;
            let (src, Ghost(ts)) = run_node(*source, kv, txn);
            let src = match src {
                Ok(s) => s,
                Err(e) => {
                    return (Err(e), Ghost(Trace::Leaf));
                },
            };
            let ghost mid = src@;
            proof {
                assert(exec_traced(c0, kv.contents(), st, sm, mid, ts));
                assert(exec_rel(c0, kv.contents(), st, sm, mid));
            }
            (query::Projection::new(select).execute(src), Ghost(Trace::One { source: Box::new(ts), mid, store: c0 }))
        },
        Node::Filter { source, predicate } => {
            let ghost sm = (*source)@;
            let (src, Ghost(ts)) = run_node(*source, kv, txn);
            let src = match src {
                Ok(s) => s,
                Err(e) => {
                    return (Err(e), Ghost(Trace::Leaf));
                },
            };
            let ghost mid = src@;
            proof {
                assert(exec_traced(c0, kv.contents(), st, sm, mid, ts));
                assert(exec_rel(c0, kv.contents(), st, sm, mid));
            }
            (query::Filter::new(predicate).execute(src), Ghost(Trace::One { source: Box::new(ts), mid, store: c0 }))
        },
        Node::Aggregate { source, exprs, group_by } => {
            let ghost sm = (*source)@;
            let (src, Ghost(ts)) = run_node(*source, kv, txn);
            let src = match src {
                Ok(s) => s,
                Err(e) => {
                    return (Err(e), Ghost(Trace::Leaf));
                },
            };
            let ghost mid = src@;
            proof {
                assert(exec_traced(c0, kv.contents(), st, sm, mid, ts));
                assert(exec_rel(c0, kv.contents(), st, sm, mid));
            }
            (agg::Aggregate::new(exprs, group_by).execute(src), Ghost(Trace::One { source: Box::new(ts), mid, store: c0 }))
        },
        Node::NestedLoopJoin { left, right, predicate, outer } => {
            let ghost lm = (*left)@;
            let (l, Ghost(tl)) = run_node(*left, kv, txn);
            let l = match l {
                Ok(s) => s,
                Err(e) => {
                    return (Err(e), Ghost(Trace::Leaf));
                },
            };
            let ghost cm = kv.contents();
            let ghost rm = (*right)@;
            proof {
                assert(exec_traced(c0, cm, st, lm, l@, tl));
                assert(exec_rel(c0, cm, st, lm, l@));
            }
            let (rr, Ghost(tr)) = run_node(*right, kv, txn);
            proof {
                if old(kv).infallible() && store_wf(c0) {
                    crate::storage::mvcc_laws::lemma_own_writes_trans(c0, cm, kv.contents(), st.version);
                }
            }
            let rr = match rr {
                Ok(s) => s,
                Err(e) => {
                    return (Err(e), Ghost(Trace::Leaf));
                },
            };
            let ghost lo = l@;
            let ghost ro = rr@;
            proof {
                assert(exec_traced(cm, kv.contents(), st, rm, ro, tr));
                assert(exec_rel(cm, kv.contents(), st, rm, ro));
            }
            (join::NestedLoopJoin::new(predicate, outer).execute(l, rr), Ghost(Trace::Two { left: Box::new(tl), right: Box::new(tr), lo, ro, store: cm }))
        },
        Node::HashJoin { left, right, predicate, outer } => {
            let ghost lm = (*left)@;
            let (l, Ghost(tl)) = run_node(*left, kv, txn);
            let l = match l {
                Ok(s) => s,
                Err(e) => {
                    return (Err(e), Ghost(Trace::Leaf));
                },
            };
            let ghost cm = kv.contents();
            let ghost rm = (*right)@;
            proof {
                assert(exec_traced(c0, cm, st, lm, l@, tl));
                assert(exec_rel(c0, cm, st, lm, l@));
            }
            let (rr, Ghost(tr)) = run_node(*right, kv, txn);
            proof {
                if old(kv).infallible() && store_wf(c0) {
                    crate::storage::mvcc_laws::lemma_own_writes_trans(c0, cm, kv.contents(), st.version);
                }
            }
            let rr = match rr {
                Ok(s) => s,
                Err(e) => {
                    return (Err(e), Ghost(Trace::Leaf));
                },
            };
            let ghost lo = l@;
            let ghost ro = rr@;
            proof {
                assert(exec_traced(cm, kv.contents(), st, rm, ro, tr));
                assert(exec_rel(cm, kv.contents(), st, rm, ro));
            }
            (join::HashJoin::new(predicate, outer).execute(l, rr), Ghost(Trace::Two { left: Box::new(tl), right: Box::new(tr), lo, ro, store: cm }))
        },
    }
}

} // verus!
