//! Joins: nested loops for cross joins, and equality joins on a column.
use vstd::prelude::*;

use super::{ResultSet, ResultSetModel};
use crate::error::{Error, Result};
use crate::sql::parser::ast::{
    eval_spec, evaluate_expr, names_view, position, spec_position, ExprModel, Expression,
    Operation,
};
use crate::sql::plan::opt_expr_view;
use crate::sql::types::{copy_row, row_view, rows_view, Row, Value, ValueModel};

verus! {

/// `n` nulls.
pub open spec fn nulls(n: nat) -> Seq<ValueModel> {
    Seq::new(n, |i: int| ValueModel::Null)
}

/// The joined rows of `lrow` with the rows of `rrows` that the predicate
/// holds for (all of them without one), and whether the predicate held for
/// any; `None` where it cannot be evaluated or is not a boolean or `Null`.
pub open spec fn join_row_with(
    lcols: Seq<Seq<char>>,
    lrow: Seq<ValueModel>,
    rcols: Seq<Seq<char>>,
    rrows: Seq<Seq<ValueModel>>,
    pred: Option<ExprModel>,
) -> Option<(Seq<Seq<ValueModel>>, bool)>
    decreases rrows.len(),
{
    if rrows.len() == 0 {
        Some((Seq::empty(), false))
    } else {
        match join_row_with(lcols, lrow, rcols, rrows.drop_last(), pred) {
            Some((out, m)) => match pred {
                None => Some((out.push(lrow + rrows.last()), m)),
                Some(p) => match eval_spec(p, lcols, lrow, rcols, rrows.last()) {
                    Some(ValueModel::Boolean(true)) => Some((out.push(lrow + rrows.last()), true)),
                    Some(ValueModel::Boolean(false)) => Some((out, m)),
                    Some(ValueModel::Null) => Some((out, m)),
                    _ => None,
                },
            },
            None => None,
        }
    }
}

/// The rows of a nested-loop join: for each left row, its joined rows, and
/// for an outer join a row padded with nulls where the predicate held for
/// none.
pub open spec fn nested_loop_rows(
    lcols: Seq<Seq<char>>,
    lrows: Seq<Seq<ValueModel>>,
    rcols: Seq<Seq<char>>,
    rrows: Seq<Seq<ValueModel>>,
    pred: Option<ExprModel>,
    outer: bool,
) -> Option<Seq<Seq<ValueModel>>>
    decreases lrows.len(),
{
    if lrows.len() == 0 {
        Some(Seq::empty())
    } else {
        match (
            nested_loop_rows(lcols, lrows.drop_last(), rcols, rrows, pred, outer),
            join_row_with(lcols, lrows.last(), rcols, rrows, pred),
        ) {
            (Some(acc), Some((out, m))) => Some(
                acc + out + if outer && !m {
                    seq![lrows.last() + nulls(rcols.len())]
                } else {
                    Seq::empty()
                },
            ),
            _ => None,
        }
    }
}

fn null_row(n: usize) -> (r: Row)
    ensures
        row_view(r@) == nulls(n as nat),
{
    let mut r: Row = Vec::new();
    let mut i: usize = 0;
    while i < n
        invariant
            i <= n,
            row_view(r@) == nulls(i as nat),
        decreases n - i,
    {
        let ghost old = r@;
        r.push(Value::Null);
        assert(row_view(r@) =~= row_view(old).push(ValueModel::Null));
        assert(row_view(r@) =~= nulls((i + 1) as nat));
        i = i + 1;
    }
    r
}

fn concat_rows(a: &Row, b: &Row) -> (r: Row)
    ensures
        row_view(r@) == row_view(a@) + row_view(b@),
{
    let mut r = copy_row(a);
    let mut i: usize = 0;
    while i < b.len()
        invariant
            i <= b@.len(),
            row_view(r@) == row_view(a@) + row_view(b@).take(i as int),
        decreases b@.len() - i,
    {
        let ghost old = r@;
        let v = b[i].copy();
        r.push(v);
        assert(row_view(r@) =~= row_view(old).push(v@));
        assert(row_view(a@) + row_view(b@).take(i + 1) =~= (row_view(a@) + row_view(b@).take(
            i as int,
        )).push(row_view(b@)[i as int]));
        i = i + 1;
    }
    assert(row_view(b@).take(i as int) =~= row_view(b@));
    r
}

proof fn lemma_join_row_none(
    lcols: Seq<Seq<char>>,
    lrow: Seq<ValueModel>,
    rcols: Seq<Seq<char>>,
    rrows: Seq<Seq<ValueModel>>,
    pred: Option<ExprModel>,
    i: int,
)
    requires
        0 <= i <= rrows.len(),
        join_row_with(lcols, lrow, rcols, rrows.take(i), pred) is None,
    ensures
        join_row_with(lcols, lrow, rcols, rrows, pred) is None,
    decreases rrows.len() - i,
{
    if i < rrows.len() {
        assert(rrows.take(i + 1).drop_last() =~= rrows.take(i));
        lemma_join_row_none(lcols, lrow, rcols, rrows, pred, i + 1);
    } else {
        assert(rrows.take(i) =~= rrows);
    }
}

/// The joined rows of one left row.
fn join_one(
    lcols: &Vec<String>,
    lrow: &Row,
    rcols: &Vec<String>,
    rrows: &Vec<Row>,
    pred: &Option<Expression>,
) -> (r: Result<(Vec<Row>, bool)>)
    ensures
        match join_row_with(
            names_view(lcols@),
            row_view(lrow@),
            names_view(rcols@),
            rows_view(rrows@),
            opt_expr_view(*pred),
        ) {
            Some((out, m)) => r matches Ok((rows, found)) && rows_view(rows@) == out && found == m,
            None => r is Err,
        },
{
    let ghost lc = names_view(lcols@);
    let ghost lv = row_view(lrow@);
    let ghost rc = names_view(rcols@);
    let ghost rv = rows_view(rrows@);
    let ghost pv = opt_expr_view(*pred);
    let mut out: Vec<Row> = Vec::new();
    let mut matched = false;
    let mut i: usize = 0;
    while i < rrows.len()
        invariant
            i <= rrows@.len(),
            lc == names_view(lcols@),
            lv == row_view(lrow@),
            rc == names_view(rcols@),
            rv == rows_view(rrows@),
            pv == opt_expr_view(*pred),
            join_row_with(lc, lv, rc, rv.take(i as int), pv) == Some((rows_view(out@), matched)),
        decreases rrows@.len() - i,
    {
        let rrow = &rrows[i];
        assert(rv.take(i + 1).drop_last() =~= rv.take(i as int));
        assert(rv.take(i + 1).last() == row_view(rrow@));
        let take = match pred {
            Some(expr) => match evaluate_expr(expr, lcols, lrow, rcols, rrow) {
                Ok(Value::Boolean(true)) => {
                    matched = true;
                    true
                },
                Ok(Value::Boolean(false)) => false,
                Ok(Value::Null) => false,
                _ => {
                    proof {
                        lemma_join_row_none(lc, lv, rc, rv, pv, i + 1);
                    }
                    return Err(Error::Internal(String::from_str("Unexpected expression")));
                },
            },
            None => true,
        };
        if take {
            let ghost old = out@;
            let row = concat_rows(lrow, rrow);
            out.push(row);
            assert(rows_view(out@) =~= rows_view(old).push(lv + row_view(rrow@)));
        }
        i = i + 1;
    }
    assert(rv.take(i as int) =~= rv);
    Ok((out, matched))
}

proof fn lemma_nested_none(
    lcols: Seq<Seq<char>>,
    lrows: Seq<Seq<ValueModel>>,
    rcols: Seq<Seq<char>>,
    rrows: Seq<Seq<ValueModel>>,
    pred: Option<ExprModel>,
    outer: bool,
    i: int,
)
    requires
        0 <= i <= lrows.len(),
        nested_loop_rows(lcols, lrows.take(i), rcols, rrows, pred, outer) is None,
    ensures
        nested_loop_rows(lcols, lrows, rcols, rrows, pred, outer) is None,
    decreases lrows.len() - i,
{
    if i < lrows.len() {
        assert(lrows.take(i + 1).drop_last() =~= lrows.take(i));
        lemma_nested_none(lcols, lrows, rcols, rrows, pred, outer, i + 1);
    } else {
        assert(lrows.take(i) =~= lrows);
    }
}

/// Joins every left row with every right row that the predicate holds for.
pub struct NestedLoopJoin {
    pub predicate: Option<Expression>,
    pub outer: bool,
}

impl NestedLoopJoin {
    pub fn new(predicate: Option<Expression>, outer: bool) -> (j: Self)
        ensures
            j.predicate == predicate,
            j.outer == outer,
    {
        NestedLoopJoin { predicate, outer }
    }

    /// The columns of both sides, and the joined rows.
    pub fn execute(self, left: ResultSet, right: ResultSet) -> (r: Result<ResultSet>)
        ensures
            match (left@, right@) {
                (
                    ResultSetModel::Scan { columns: lcols, rows: lrows },
                    ResultSetModel::Scan { columns: rcols, rows: rrows },
                ) => match nested_loop_rows(
                    lcols,
                    lrows,
                    rcols,
                    rrows,
                    opt_expr_view(self.predicate),
                    self.outer,
                ) {
                    Some(rows) => r matches Ok(o) && o@ == (ResultSetModel::Scan {
                        columns: lcols + rcols,
                        rows,
                    }),
                    None => r is Err,
                },
                _ => r is Err,
            },
    {
        let (lcols, lrows) = match left {
            ResultSet::Scan { columns, rows } => (columns, rows),
            _ => {
                return Err(Error::Internal(String::from_str("Unexpected result set")));
            },
        };
        let (rcols, rrows) = match right {
            ResultSet::Scan { columns, rows } => (columns, rows),
            _ => {
                return Err(Error::Internal(String::from_str("Unexpected result set")));
            },
        };
        let rows = nested_loop(&lcols, &lrows, &rcols, &rrows, &self.predicate, self.outer)?;
        let mut columns = lcols;
        let mut extra = rcols;
        let ghost lc = names_view(columns@);
        let ghost rc = names_view(extra@);
        columns.append(&mut extra);
        assert(names_view(columns@) =~= lc + rc);
        Ok(ResultSet::Scan { columns, rows })
    }
}

fn nested_loop(
    lcols: &Vec<String>,
    lrows: &Vec<Row>,
    rcols: &Vec<String>,
    rrows: &Vec<Row>,
    pred: &Option<Expression>,
    outer: bool,
) -> (r: Result<Vec<Row>>)
    ensures
        match nested_loop_rows(
            names_view(lcols@),
            rows_view(lrows@),
            names_view(rcols@),
            rows_view(rrows@),
            opt_expr_view(*pred),
            outer,
        ) {
            Some(rows) => r matches Ok(out) && rows_view(out@) == rows,
            None => r is Err,
        },
{
    let ghost lc = names_view(lcols@);
    let ghost lv = rows_view(lrows@);
    let ghost rc = names_view(rcols@);
    let ghost rv = rows_view(rrows@);
    let ghost pv = opt_expr_view(*pred);
    let mut out: Vec<Row> = Vec::new();
    let mut i: usize = 0;
    while i < lrows.len()
        invariant
            i <= lrows@.len(),
            lc == names_view(lcols@),
            lv == rows_view(lrows@),
            rc == names_view(rcols@),
            rv == rows_view(rrows@),
            pv == opt_expr_view(*pred),
            nested_loop_rows(lc, lv.take(i as int), rc, rv, pv, outer) == Some(rows_view(out@)),
        decreases lrows@.len() - i,
    {
        let lrow = &lrows[i];
        assert(lv.take(i + 1).drop_last() =~= lv.take(i as int));
        assert(lv.take(i + 1).last() == row_view(lrow@));
        let (mut joined, matched) = match join_one(lcols, lrow, rcols, rrows, pred) {
            Ok(x) => x,
            Err(e) => {
                proof {
                    lemma_nested_none(lc, lv, rc, rv, pv, outer, i + 1);
                }
                return Err(e);
            },
        };
        let ghost acc = rows_view(out@);
        let ghost jv = rows_view(joined@);
        out.append(&mut joined);
        assert(rows_view(out@) =~= acc + jv);
        if outer && !matched {
            let ghost before = rows_view(out@);
            let padded = concat_rows(lrow, &null_row(rcols.len()));
            out.push(padded);
            assert(rows_view(out@) =~= before.push(row_view(lrow@) + nulls(rc.len())));
            assert(rows_view(out@) =~= acc + jv + seq![row_view(lrow@) + nulls(rc.len())]);
        } else {
            assert(rows_view(out@) =~= acc + jv + Seq::<Seq<ValueModel>>::empty());
        }
        i = i + 1;
    }
    assert(lv.take(i as int) =~= lv);
    Ok(out)
}

/// The columns an equality join compares: the left one and the right one.
pub open spec fn join_target(e: ExprModel) -> Option<(Seq<char>, Seq<char>)>
    decreases e,
{
    match e {
        ExprModel::Filed(f) => Some((f, Seq::empty())),
        ExprModel::Equal(l, r) => match (join_target(*l), join_target(*r)) {
            (Some(a), Some(b)) => Some((a.0, b.0)),
            _ => None,
        },
        _ => None,
    }
}

pub open spec fn join_columns(pred: Option<ExprModel>) -> Option<(Seq<char>, Seq<char>)> {
    match pred {
        Some(e) => join_target(e),
        None => None,
    }
}

/// The rows of `rrows` whose value at `rpos` is `v`, in order.
pub open spec fn matching_rows(v: ValueModel, rrows: Seq<Seq<ValueModel>>, rpos: int) -> Seq<
    Seq<ValueModel>,
>
    decreases rrows.len(),
{
    if rrows.len() == 0 {
        Seq::empty()
    } else {
        let rest = matching_rows(v, rrows.drop_last(), rpos);
        if rrows.last()[rpos] == v {
            rest.push(rrows.last())
        } else {
            rest
        }
    }
}

/// Without a predicate a row is joined with every right row, in order.
proof fn lemma_join_row_all(lcols: Seq<Seq<char>>, lrow: Seq<ValueModel>, rcols: Seq<Seq<char>>, rrows: Seq<Seq<ValueModel>>)
    ensures
        join_row_with(lcols, lrow, rcols, rrows, None) == Some(
            (rrows.map_values(|r: Seq<ValueModel>| lrow + r), false),
        ),
    decreases rrows.len(),
{
    if rrows.len() > 0 {
        lemma_join_row_all(lcols, lrow, rcols, rrows.drop_last());
        assert(rrows.map_values(|r: Seq<ValueModel>| lrow + r) =~= rrows.drop_last().map_values(
            |r: Seq<ValueModel>| lrow + r,
        ).push(lrow + rrows.last()));
    }
}

/// A cross join (no predicate, not outer) pairs every left row with every
/// right row: it has as many rows as the product of the two counts, and
/// each pair's joined row is among them.
pub proof fn law_cross_join_pairs_all(
    lcols: Seq<Seq<char>>,
    lrows: Seq<Seq<ValueModel>>,
    rcols: Seq<Seq<char>>,
    rrows: Seq<Seq<ValueModel>>,
)
    ensures
        nested_loop_rows(lcols, lrows, rcols, rrows, None, false) matches Some(out) && out.len() == lrows.len()
            * rrows.len() && forall|i: int, j: int|
            0 <= i < lrows.len() && 0 <= j < rrows.len() ==> out.contains(#[trigger] lrows[i] + #[trigger] rrows[j]),
    decreases lrows.len(),
{
    if lrows.len() > 0 {
        let p = lrows.drop_last();
        law_cross_join_pairs_all(lcols, p, rcols, rrows);
        lemma_join_row_all(lcols, lrows.last(), rcols, rrows);
        let acc = nested_loop_rows(lcols, p, rcols, rrows, None, false)->0;
        let part = rrows.map_values(|r: Seq<ValueModel>| lrows.last() + r);
        let out = nested_loop_rows(lcols, lrows, rcols, rrows, None, false)->0;
        assert(out =~= acc + part);
        let n = lrows.len();
        let m = rrows.len();
        assert(n * m == (n - 1) * m + m) by (nonlinear_arith);
        assert forall|i: int, j: int| 0 <= i < lrows.len() && 0 <= j < rrows.len() implies out.contains(
            #[trigger] lrows[i] + #[trigger] rrows[j],
        ) by {
            if i < n - 1 {
                assert(p[i] == lrows[i]);
                let k = choose|k: int| 0 <= k < acc.len() && acc[k] == p[i] + rrows[j];
                assert(out[k] == acc[k]);
            } else {
                assert(lrows[i] == lrows.last());
                assert(out[acc.len() + j] == part[j]);
            }
        }
    }
}

/// The right rows that match a value are exactly the right rows whose value
/// at `rpos` is `v`, each kept, in their order: none is left out, and none
/// that differs is taken.
pub proof fn law_matching_rows_are_all_matches(v: ValueModel, rrows: Seq<Seq<ValueModel>>, rpos: int)
    ensures
        matching_rows(v, rrows, rpos) == rrows.filter(|r: Seq<ValueModel>| r[rpos] == v),
        forall|j: int| 0 <= j < rrows.len() && (#[trigger] rrows[j])[rpos] == v ==> matching_rows(v, rrows, rpos).contains(
            rrows[j],
        ),
        forall|k: int| 0 <= k < matching_rows(v, rrows, rpos).len() ==> (#[trigger] matching_rows(v, rrows, rpos)[k])[rpos] == v,
    decreases rrows.len(),
{
    reveal_with_fuel(Seq::filter, 1);
    let f = |r: Seq<ValueModel>| r[rpos] == v;
    if rrows.len() > 0 {
        law_matching_rows_are_all_matches(v, rrows.drop_last(), rpos);
        let ms = matching_rows(v, rrows, rpos);
        let prev = matching_rows(v, rrows.drop_last(), rpos);
        assert(rrows.filter(f) == if f(rrows.last()) {
            rrows.drop_last().filter(f).push(rrows.last())
        } else {
            rrows.drop_last().filter(f)
        });
        assert forall|j: int| 0 <= j < rrows.len() && (#[trigger] rrows[j])[rpos] == v implies ms.contains(rrows[j]) by {
            if j < rrows.len() - 1 {
                assert(rrows.drop_last()[j] == rrows[j]);
                let k = choose|k: int| 0 <= k < prev.len() && prev[k] == rrows[j];
                assert(ms[k] == rrows[j]);
            } else {
                assert(ms[ms.len() - 1] == rrows[j]);
            }
        }
        assert forall|k: int| 0 <= k < ms.len() implies (#[trigger] ms[k])[rpos] == v by {
            if k < prev.len() {
                assert(ms[k] == prev[k]);
            }
        }
    }
}

/// An equality join pairs each left row with every right row that has its
/// value: where right row `rr` has at `rpos` what left row `l` has at
/// `lpos`, the joined row `l + rr` is among the rows of the join.
pub proof fn law_equi_join_pairs_all_matches(
    lrows: Seq<Seq<ValueModel>>,
    lpos: int,
    rrows: Seq<Seq<ValueModel>>,
    rpos: int,
    nr: nat,
    outer: bool,
    i: int,
    j: int,
)
    requires
        0 <= i < lrows.len(),
        0 <= j < rrows.len(),
        rrows[j][rpos] == lrows[i][lpos],
    ensures
        equi_join_rows(lrows, lpos, rrows, rpos, nr, outer).contains(lrows[i] + rrows[j]),
    decreases lrows.len(),
{
    let acc = equi_join_rows(lrows.drop_last(), lpos, rrows, rpos, nr, outer);
    let out = equi_join_rows(lrows, lpos, rrows, rpos, nr, outer);
    if i < lrows.len() - 1 {
        assert(lrows.drop_last()[i] == lrows[i]);
        law_equi_join_pairs_all_matches(lrows.drop_last(), lpos, rrows, rpos, nr, outer, i, j);
        let k = choose|k: int| 0 <= k < acc.len() && acc[k] == lrows[i] + rrows[j];
        assert(out[k] == acc[k]);
    } else {
        let l = lrows.last();
        let ms = matching_rows(l[lpos], rrows, rpos);
        law_matching_rows_are_all_matches(l[lpos], rrows, rpos);
        assert(ms.contains(rrows[j]));
        let k = choose|k: int| 0 <= k < ms.len() && ms[k] == rrows[j];
        let part = ms.map_values(|rr: Seq<ValueModel>| l + rr);
        assert(part[k] == l + rrows[j]);
        assert(out[acc.len() + k] == part[k]);
    }
}

proof fn lemma_no_matching_rows(v: ValueModel, rrows: Seq<Seq<ValueModel>>, rpos: int)
    requires
        forall|j: int| 0 <= j < rrows.len() ==> (#[trigger] rrows[j])[rpos] != v,
    ensures
        matching_rows(v, rrows, rpos).len() == 0,
    decreases rrows.len(),
{
    if rrows.len() > 0 {
        let p = rrows.drop_last();
        assert forall|j: int| 0 <= j < p.len() implies (#[trigger] p[j])[rpos] != v by {
            assert(p[j] == rrows[j]);
        }
        lemma_no_matching_rows(v, p, rpos);
        assert(rrows.last() == rrows[rrows.len() - 1]);
    }
}

/// An outer equality join keeps a left row that no right row matches,
/// padded with `nr` nulls; an inner one drops it.
pub proof fn law_outer_join_pads_unmatched(
    lrows: Seq<Seq<ValueModel>>,
    lpos: int,
    rrows: Seq<Seq<ValueModel>>,
    rpos: int,
    nr: nat,
    i: int,
)
    requires
        0 <= i < lrows.len(),
        forall|j: int| 0 <= j < rrows.len() ==> (#[trigger] rrows[j])[rpos] != lrows[i][lpos],
    ensures
        equi_join_rows(lrows, lpos, rrows, rpos, nr, true).contains(lrows[i] + nulls(nr)),
    decreases lrows.len(),
{
    let acc = equi_join_rows(lrows.drop_last(), lpos, rrows, rpos, nr, true);
    let out = equi_join_rows(lrows, lpos, rrows, rpos, nr, true);
    if i < lrows.len() - 1 {
        assert(lrows.drop_last()[i] == lrows[i]);
        law_outer_join_pads_unmatched(lrows.drop_last(), lpos, rrows, rpos, nr, i);
        let k = choose|k: int| 0 <= k < acc.len() && acc[k] == lrows[i] + nulls(nr);
        assert(out[k] == acc[k]);
    } else {
        lemma_no_matching_rows(lrows[i][lpos], rrows, rpos);
        assert(lrows.last() == lrows[i]);
        assert(out[acc.len() as int] == lrows[i] + nulls(nr));
    }
}

/// The rows of an equality join: each left row joined with the right rows
/// that have its value, or, for an outer join, padded with nulls where none
/// has.
pub open spec fn equi_join_rows(
    lrows: Seq<Seq<ValueModel>>,
    lpos: int,
    rrows: Seq<Seq<ValueModel>>,
    rpos: int,
    nr: nat,
    outer: bool,
) -> Seq<Seq<ValueModel>>
    decreases lrows.len(),
{
    if lrows.len() == 0 {
        Seq::empty()
    } else {
        let acc = equi_join_rows(lrows.drop_last(), lpos, rrows, rpos, nr, outer);
        let l = lrows.last();
        let ms = matching_rows(l[lpos], rrows, rpos);
        acc + if ms.len() > 0 {
            ms.map_values(|rr: Seq<ValueModel>| l + rr)
        } else if outer {
            seq![l + nulls(nr)]
        } else {
            Seq::empty()
        }
    }
}

/// Every row has a value at `pos`.
pub open spec fn rows_have(rows: Seq<Seq<ValueModel>>, pos: int) -> bool {
    forall|i: int| 0 <= i < rows.len() ==> pos < (#[trigger] rows[i]).len()
}

fn parse_join(e: &Expression) -> (r: Option<(String, String)>)
    ensures
        match join_target(e@) {
            Some((a, b)) => r matches Some((x, y)) && x@ == a && y@ == b,
            None => r is None,
        },
    decreases e,
{
    match e {
        Expression::Filed(f) => Some((f.clone(), String::new())),
        Expression::Operation(Operation::Equal(l, r)) => match (parse_join(l), parse_join(r)) {
            (Some((a, _)), Some((b, _))) => Some((a, b)),
            _ => None,
        },
        _ => None,
    }
}

fn check_have(rows: &Vec<Row>, pos: usize) -> (r: bool)
    ensures
        r == rows_have(rows_view(rows@), pos as int),
{
    let ghost rv = rows_view(rows@);
    let mut i: usize = 0;
    while i < rows.len()
        invariant
            i <= rows@.len(),
            rv == rows_view(rows@),
            forall|j: int| 0 <= j < i ==> pos < (#[trigger] rv[j]).len(),
        decreases rows@.len() - i,
    {
        assert(rv[i as int] == row_view(rows@[i as int]@));
        if pos >= rows[i].len() {
            return false;
        }
        i = i + 1;
    }
    true
}

/// The right rows that match one left row, joined to it.
fn match_one(lrow: &Row, lpos: usize, rrows: &Vec<Row>, rpos: usize) -> (r: Vec<Row>)
    requires
        lpos < lrow@.len(),
        rows_have(rows_view(rrows@), rpos as int),
    ensures
        rows_view(r@) == matching_rows(row_view(lrow@)[lpos as int], rows_view(rrows@), rpos as int).map_values(
            |rr: Seq<ValueModel>| row_view(lrow@) + rr,
        ),
{
    let ghost lv = row_view(lrow@);
    let ghost rv = rows_view(rrows@);
    let ghost key = lv[lpos as int];
    let mut out: Vec<Row> = Vec::new();
    let mut i: usize = 0;
    while i < rrows.len()
        invariant
            i <= rrows@.len(),
            lpos < lrow@.len(),
            lv == row_view(lrow@),
            rv == rows_view(rrows@),
            key == lv[lpos as int],
            rows_have(rv, rpos as int),
            rows_view(out@) == matching_rows(key, rv.take(i as int), rpos as int).map_values(
                |rr: Seq<ValueModel>| lv + rr,
            ),
        decreases rrows@.len() - i,
    {
        let rrow = &rrows[i];
        assert(rv.take(i + 1).drop_last() =~= rv.take(i as int));
        assert(rv.take(i + 1).last() == row_view(rrow@));
        assert(rpos < rv[i as int].len());
        assert(row_view(rrow@)[rpos as int] == rrow@[rpos as int]@);
        assert(lv[lpos as int] == lrow@[lpos as int]@);
        if rrow[rpos].equals(&lrow[lpos]) {
            let ghost old = out@;
            out.push(concat_rows(lrow, rrow));
            assert(rows_view(out@) =~= rows_view(old).push(lv + row_view(rrow@)));
            assert(matching_rows(key, rv.take(i + 1), rpos as int) == matching_rows(
                key,
                rv.take(i as int),
                rpos as int,
            ).push(row_view(rrow@)));
            assert(rows_view(out@) =~= matching_rows(key, rv.take(i + 1), rpos as int).map_values(
                |rr: Seq<ValueModel>| lv + rr,
            ));
        }
        i = i + 1;
    }
    assert(rv.take(i as int) =~= rv);
    out
}

fn equi_join(lrows: &Vec<Row>, lpos: usize, rrows: &Vec<Row>, rpos: usize, nr: usize, outer: bool) -> (r: Vec<Row>)
    requires
        rows_have(rows_view(lrows@), lpos as int),
        rows_have(rows_view(rrows@), rpos as int),
    ensures
        rows_view(r@) == equi_join_rows(
            rows_view(lrows@),
            lpos as int,
            rows_view(rrows@),
            rpos as int,
            nr as nat,
            outer,
        ),
{
    let ghost lv = rows_view(lrows@);
    let ghost rv = rows_view(rrows@);
    let mut out: Vec<Row> = Vec::new();
    let mut i: usize = 0;
    while i < lrows.len()
        invariant
            i <= lrows@.len(),
            lv == rows_view(lrows@),
            rv == rows_view(rrows@),
            rows_have(lv, lpos as int),
            rows_have(rv, rpos as int),
            rows_view(out@) == equi_join_rows(lv.take(i as int), lpos as int, rv, rpos as int, nr as nat, outer),
        decreases lrows@.len() - i,
    {
        let lrow = &lrows[i];
        assert(lv.take(i + 1).drop_last() =~= lv.take(i as int));
        assert(lv.take(i + 1).last() == row_view(lrow@));
        assert(lpos < lv[i as int].len());
        let mut joined = match_one(lrow, lpos, rrows, rpos);
        let ghost acc = rows_view(out@);
        let ghost jv = rows_view(joined@);
        let ghost ms = matching_rows(row_view(lrow@)[lpos as int], rv, rpos as int);
        let found = joined.len() > 0;
        assert(jv.len() == ms.len());
        out.append(&mut joined);
        assert(rows_view(out@) =~= acc + jv);
        if !found && outer {
            let ghost before = rows_view(out@);
            out.push(concat_rows(lrow, &null_row(nr)));
            assert(rows_view(out@) =~= before.push(row_view(lrow@) + nulls(nr as nat)));
            assert(rows_view(out@) =~= acc + seq![row_view(lrow@) + nulls(nr as nat)]);
        } else if !found {
            assert(rows_view(out@) =~= acc + Seq::<Seq<ValueModel>>::empty());
        }
        i = i + 1;
    }
    assert(lv.take(i as int) =~= lv);
    out
}

/// The rows of an equality join of two results under `pred`; `None` where
/// the predicate does not name a column of each side, or a row lacks it.
#[verifier::opaque]
pub open spec fn hash_join_spec(
    lcols: Seq<Seq<char>>,
    lrows: Seq<Seq<ValueModel>>,
    rcols: Seq<Seq<char>>,
    rrows: Seq<Seq<ValueModel>>,
    pred: Option<ExprModel>,
    outer: bool,
) -> Option<Seq<Seq<ValueModel>>> {
    match join_columns(pred) {
        Some((ln, rn)) => match (spec_position(lcols, ln), spec_position(rcols, rn)) {
            (Some(lp), Some(rp)) => if rows_have(lrows, lp) && rows_have(rrows, rp) {
                Some(equi_join_rows(lrows, lp, rrows, rp, rcols.len(), outer))
            } else {
                None
            },
            _ => None,
        },
        None => None,
    }
}

/// The rows of an equality join, as `equi_join_rows` says.
#[verifier::rlimit(30)]
fn hash_join_rows(
    lcols: &Vec<String>,
    lrows: &Vec<Row>,
    rcols: &Vec<String>,
    rrows: &Vec<Row>,
    predicate: &Option<Expression>,
    outer: bool,
) -> (r: Result<Vec<Row>>)
    ensures
        match hash_join_spec(
            names_view(lcols@),
            rows_view(lrows@),
            names_view(rcols@),
            rows_view(rrows@),
            opt_expr_view(*predicate),
            outer,
        ) {
            Some(rows) => r matches Ok(out) && rows_view(out@) == rows,
            None => r is Err,
        },
{
    reveal(hash_join_spec);
    let names = match predicate {
            Some(e) => parse_join(e),
            None => None,
        };
        let (lname, rname) = match names {
            Some(x) => x,
            None => {
                return Err(Error::Internal(String::from_str("unexpected expression")));
            },
        };
        let rpos = match position(rcols, &rname) {
            Some(p) => p,
            None => {
                return Err(
                    Error::Internal(
                        String::from_str("Column ").concat(rname.as_str()).concat(" is not in table"),
                    ),
                );
            },
        };
        let lpos = match position(lcols, &lname) {
            Some(p) => p,
            None => {
                return Err(
                    Error::Internal(
                        String::from_str("Column ").concat(lname.as_str()).concat(" is not in table"),
                    ),
                );
            },
        };
        if !check_have(lrows, lpos) || !check_have(rrows, rpos) {
            return Err(Error::Internal(String::from_str("row has fewer values than columns")));
        }
    Ok(equi_join(lrows, lpos, rrows, rpos, rcols.len(), outer))
}

/// Joins the rows whose values in two columns are equal.
pub struct HashJoin {
    pub predicate: Option<Expression>,
    pub outer: bool,
}

impl HashJoin {
    pub fn new(predicate: Option<Expression>, outer: bool) -> (j: Self)
        ensures
            j.predicate == predicate,
            j.outer == outer,
    {
        HashJoin { predicate, outer }
    }

    /// The columns of both sides, and the rows joined on equal values of the
    /// predicate's two columns.
    pub fn execute(self, left: ResultSet, right: ResultSet) -> (r: Result<ResultSet>)
        ensures
            match (left@, right@) {
                (
                    ResultSetModel::Scan { columns: lcols, rows: lrows },
                    ResultSetModel::Scan { columns: rcols, rows: rrows },
                ) => match hash_join_spec(
                    lcols,
                    lrows,
                    rcols,
                    rrows,
                    opt_expr_view(self.predicate),
                    self.outer,
                ) {
                    Some(rows) => r matches Ok(o) && o@ == (ResultSetModel::Scan {
                        columns: lcols + rcols,
                        rows,
                    }),
                    None => r is Err,
                },
                (ResultSetModel::Scan { columns: lcols, .. }, _) => r matches Ok(o) && o@ == (
                ResultSetModel::Scan { columns: lcols, rows: Seq::empty() }),
                _ => r is Err,
            },
    {
        let (lcols, lrows) = match left {
            ResultSet::Scan { columns, rows } => (columns, rows),
            _ => {
                return Err(Error::Internal(String::from_str("Unexpected result set")));
            },
        };
        let (rcols, rrows) = match right {
            ResultSet::Scan { columns, rows } => (columns, rows),
            _ => {
                let empty: Vec<Row> = Vec::new();
                assert(rows_view(empty@) =~= Seq::<Seq<ValueModel>>::empty());
                return Ok(ResultSet::Scan { columns: lcols, rows: empty });
            },
        };
        let rows = hash_join_rows(&lcols, &lrows, &rcols, &rrows, &self.predicate, self.outer)?;
        let mut columns = lcols;
        let mut extra = rcols;
        let ghost lc = names_view(columns@);
        let ghost rc = names_view(extra@);
        columns.append(&mut extra);
        assert(names_view(columns@) =~= lc + rc);
        Ok(ResultSet::Scan { columns, rows })
    }
}

} // verus!
