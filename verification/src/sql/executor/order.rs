//! Sorting rows for `ORDER BY`.
use vstd::prelude::*;

use super::{ResultSet, ResultSetModel};
use crate::error::{Error, Result};
use crate::sql::number::decimal_lt;
use crate::sql::parser::ast::{names_view, position, spec_position, OrderDirection};
use crate::sql::plan::order_view;
use crate::sql::text::{
    chars_lt, lemma_chars_lt_irreflexive, lemma_chars_lt_total, Order3,
};
use crate::sql::types::{flip, row_view, rows_view, value_order, Row, ValueModel};

verus! {

/// An outcome, reversed for a descending key.
pub open spec fn directed(o: Order3, dir: OrderDirection) -> Order3 {
    if dir == OrderDirection::Asc {
        o
    } else {
        flip(o)
    }
}

/// How two rows compare under sort keys (a position and a direction each):
/// by the first key on which they compare as less or greater; values that
/// cannot be compared count as equal.
pub open spec fn rows_order(
    keys: Seq<(int, OrderDirection)>,
    a: Seq<ValueModel>,
    b: Seq<ValueModel>,
) -> Order3
    decreases keys.len(),
{
    if keys.len() == 0 {
        Order3::Equal
    } else {
        match value_order(a[keys[0].0], b[keys[0].0]) {
            Some(Order3::Less) => directed(Order3::Less, keys[0].1),
            Some(Order3::Greater) => directed(Order3::Greater, keys[0].1),
            _ => rows_order(keys.drop_first(), a, b),
        }
    }
}

/// The positions of the `ORDER BY` columns; `None` where one is not a column.
pub open spec fn order_keys(
    cols: Seq<Seq<char>>,
    order_by: Seq<(Seq<char>, OrderDirection)>,
) -> Option<Seq<(int, OrderDirection)>> {
    if forall|i: int| 0 <= i < order_by.len() ==> (#[trigger] spec_position(cols, order_by[i].0)) is Some {
        Some(order_by.map_values(|o: (Seq<char>, OrderDirection)| (spec_position(cols, o.0)->0, o.1)))
    } else {
        None
    }
}

/// Every row has a value at each key position.
pub open spec fn rows_cover(rows: Seq<Seq<ValueModel>>, keys: Seq<(int, OrderDirection)>) -> bool {
    forall|i: int, k: int|
        0 <= i < rows.len() && 0 <= k < keys.len() ==> 0 <= #[trigger] keys[k].0 < (
        #[trigger] rows[i]).len()
}

/// No row sorts before the one ahead of it.
pub open spec fn sorted_by(keys: Seq<(int, OrderDirection)>, rows: Seq<Seq<ValueModel>>) -> bool {
    forall|i: int| 0 <= i < rows.len() - 1 ==> rows_order(keys, #[trigger] rows[i + 1], rows[i]) != Order3::Less
}

/// `out` is `rows` reordered, `idx` giving for each row of `out` the
/// position in `rows` it came from, each position once; rows that tie on
/// every key keep the order they had.
pub open spec fn stable_from(
    keys: Seq<(int, OrderDirection)>,
    rows: Seq<Seq<ValueModel>>,
    out: Seq<Seq<ValueModel>>,
    idx: Seq<int>,
) -> bool {
    &&& idx.len() == out.len()
    &&& out.len() == rows.len()
    &&& forall|m: int| 0 <= m < idx.len() ==> 0 <= #[trigger] idx[m] < rows.len() && out[m] == rows[idx[m]]
    &&& forall|m1: int, m2: int| 0 <= m1 < m2 < idx.len() ==> #[trigger] idx[m1] != #[trigger] idx[m2]
    &&& forall|m1: int, m2: int|
        0 <= m1 < m2 < idx.len() && rows_order(keys, #[trigger] out[m1], #[trigger] out[m2]) == Order3::Equal
            ==> idx[m1] < idx[m2]
}

/// `out` is `rows` reordered so that rows that tie on every key keep the
/// order they had: the sort is stable.
pub open spec fn stable_order(
    keys: Seq<(int, OrderDirection)>,
    rows: Seq<Seq<ValueModel>>,
    out: Seq<Seq<ValueModel>>,
) -> bool {
    exists|idx: Seq<int>| #[trigger] stable_from(keys, rows, out, idx)
}

proof fn lemma_decimal_order_flip(d: (Seq<char>, Seq<char>), e: (Seq<char>, Seq<char>))
    ensures
        d == e || decimal_lt(d, e) || decimal_lt(e, d),
        !(decimal_lt(d, e) && decimal_lt(e, d)),
        !decimal_lt(d, d),
{
    lemma_chars_lt_total(d.0, e.0);
    lemma_chars_lt_total(d.1, e.1);
    lemma_chars_lt_irreflexive(d.0);
    lemma_chars_lt_irreflexive(d.1);
    if d.0 == e.0 && d.1 == e.1 {
        assert(d == e);
    }
}

/// Comparing the other way round gives the opposite outcome.
pub proof fn lemma_value_order_flip(a: ValueModel, b: ValueModel)
    ensures
        value_order(b, a) == match value_order(a, b) {
            Some(o) => Some(flip(o)),
            None => None,
        },
{
    match (a, b) {
        (ValueModel::Float(d), ValueModel::Float(e)) => {
            lemma_decimal_order_flip(d, e);
        },
        (ValueModel::String(s), ValueModel::String(t)) => {
            lemma_chars_lt_total(s, t);
            lemma_chars_lt_irreflexive(s);
        },
        (ValueModel::Integer(x), ValueModel::Float(d)) => {
            assert(flip(flip(crate::sql::types::int_decimal_order(x, d))) == crate::sql::types::int_decimal_order(x, d));
        },
        _ => {},
    }
}

/// A row that sorts before another does not sort after it.
pub proof fn lemma_rows_order_asymmetric(
    keys: Seq<(int, OrderDirection)>,
    a: Seq<ValueModel>,
    b: Seq<ValueModel>,
)
    ensures
        rows_order(keys, a, b) == Order3::Less ==> rows_order(keys, b, a) != Order3::Less,
    decreases keys.len(),
{
    if keys.len() > 0 {
        lemma_value_order_flip(a[keys[0].0], b[keys[0].0]);
        lemma_rows_order_asymmetric(keys.drop_first(), a, b);
    }
}

/// Compares two rows under sort keys.
fn compare_rows(
    keys: &Vec<(usize, OrderDirection)>,
    a: &Row,
    b: &Row,
    Ghost(ks): Ghost<Seq<(int, OrderDirection)>>,
) -> (c: Order3)
    requires
        ks.len() == keys@.len(),
        forall|k: int| 0 <= k < ks.len() ==> #[trigger] ks[k] == (keys@[k].0 as int, keys@[k].1),
        forall|k: int| 0 <= k < ks.len() ==> #[trigger] ks[k].0 < a@.len() && ks[k].0 < b@.len(),
    ensures
        c == rows_order(ks, row_view(a@), row_view(b@)),
{
    let ghost av = row_view(a@);
    let ghost bv = row_view(b@);
    let mut i: usize = 0;
    assert(ks.skip(0) =~= ks);
    while i < keys.len()
        invariant
            i <= keys@.len(),
            ks.len() == keys@.len(),
            forall|k: int| 0 <= k < ks.len() ==> #[trigger] ks[k] == (keys@[k].0 as int, keys@[k].1),
            forall|k: int| 0 <= k < ks.len() ==> #[trigger] ks[k].0 < a@.len() && ks[k].0 < b@.len(),
            av == row_view(a@),
            bv == row_view(b@),
            rows_order(ks, av, bv) == rows_order(ks.skip(i as int), av, bv),
        decreases keys@.len() - i,
    {
        let (p, dir) = keys[i];
        assert(ks[i as int] == (p as int, dir));
        assert(ks.skip(i as int)[0] == ks[i as int]);
        assert(ks.skip(i as int).drop_first() =~= ks.skip(i + 1));
        assert(av[p as int] == a@[p as int]@);
        assert(bv[p as int] == b@[p as int]@);
        match a[p].partial_compare(&b[p]) {
            Some(Order3::Less) => {
                return if dir == OrderDirection::Asc {
                    Order3::Less
                } else {
                    Order3::Greater
                };
            },
            Some(Order3::Greater) => {
                return if dir == OrderDirection::Asc {
                    Order3::Greater
                } else {
                    Order3::Less
                };
            },
            _ => {},
        }
        i = i + 1;
    }
    Order3::Equal
}

/// Inserting row `i` of `rv` at `j`, before only rows it sorts before,
/// keeps the rows that tie in the order they had.
proof fn lemma_stable_insert(
    ks: Seq<(int, OrderDirection)>,
    rv: Seq<Seq<ValueModel>>,
    out: Seq<Seq<ValueModel>>,
    idx: Seq<int>,
    j: int,
    i: int,
    xv: Seq<ValueModel>,
)
    requires
        0 <= j <= out.len(),
        idx.len() == out.len(),
        out.len() == i,
        i < rv.len(),
        xv == rv[i],
        forall|m: int| 0 <= m < idx.len() ==> 0 <= #[trigger] idx[m] < i && out[m] == rv[idx[m]],
        forall|m1: int, m2: int| 0 <= m1 < m2 < idx.len() ==> #[trigger] idx[m1] != #[trigger] idx[m2],
        forall|m1: int, m2: int|
            0 <= m1 < m2 < idx.len() && rows_order(ks, #[trigger] out[m1], #[trigger] out[m2]) == Order3::Equal
                ==> idx[m1] < idx[m2],
        forall|m: int| j <= m < out.len() ==> rows_order(ks, xv, #[trigger] out[m]) == Order3::Less,
    ensures
        ({
            let nv = out.insert(j, xv);
            let nidx = idx.insert(j, i);
            &&& nidx.len() == nv.len()
            &&& forall|m: int| 0 <= m < nidx.len() ==> 0 <= #[trigger] nidx[m] < i + 1 && nv[m] == rv[nidx[m]]
            &&& forall|m1: int, m2: int| 0 <= m1 < m2 < nidx.len() ==> #[trigger] nidx[m1] != #[trigger] nidx[m2]
            &&& forall|m1: int, m2: int|
                0 <= m1 < m2 < nidx.len() && rows_order(ks, #[trigger] nv[m1], #[trigger] nv[m2]) == Order3::Equal
                    ==> nidx[m1] < nidx[m2]
        }),
{
    let nv = out.insert(j, xv);
    let nidx = idx.insert(j, i);
    assert forall|m: int| 0 <= m < nidx.len() implies 0 <= #[trigger] nidx[m] < i + 1 && nv[m] == rv[nidx[m]] by {
        if m < j {
            assert(nidx[m] == idx[m] && nv[m] == out[m]);
        } else if m > j {
            assert(nidx[m] == idx[m - 1] && nv[m] == out[m - 1]);
        }
    }
    assert forall|m1: int, m2: int| 0 <= m1 < m2 < nidx.len() implies #[trigger] nidx[m1] != #[trigger] nidx[m2] by {
        if m1 != j && m2 != j {
            let a = if m1 < j { m1 } else { m1 - 1 };
            let b = if m2 < j { m2 } else { m2 - 1 };
            assert(nidx[m1] == idx[a] && nidx[m2] == idx[b]);
            assert(idx[a] != idx[b]);
        } else if m1 == j {
            assert(nidx[m2] == idx[m2 - 1]);
        } else {
            assert(nidx[m1] == idx[m1]);
        }
    }
    assert forall|m1: int, m2: int|
        0 <= m1 < m2 < nidx.len() && rows_order(ks, #[trigger] nv[m1], #[trigger] nv[m2]) == Order3::Equal
            implies nidx[m1] < nidx[m2] by {
        if m1 != j && m2 != j {
            let a = if m1 < j { m1 } else { m1 - 1 };
            let b = if m2 < j { m2 } else { m2 - 1 };
            assert(nidx[m1] == idx[a] && nidx[m2] == idx[b]);
            assert(nv[m1] == out[a] && nv[m2] == out[b]);
        } else if m1 == j {
            assert(nv[m1] == xv && nv[m2] == out[m2 - 1]);
            assert(rows_order(ks, xv, out[m2 - 1]) == Order3::Less);
        } else {
            assert(nidx[m1] == idx[m1]);
        }
    }
}

/// Sorts rows by insertion: each row goes after the rows it does not sort
/// before.
#[verifier::spinoff_prover]
#[verifier::rlimit(100)]
fn sort_rows(
    rows: &Vec<Row>,
    keys: &Vec<(usize, OrderDirection)>,
    Ghost(ks): Ghost<Seq<(int, OrderDirection)>>,
) -> (out: Vec<Row>)
    requires
        ks.len() == keys@.len(),
        forall|k: int| 0 <= k < ks.len() ==> #[trigger] ks[k] == (keys@[k].0 as int, keys@[k].1),
        rows_cover(rows_view(rows@), ks),
    ensures
        rows_view(out@).to_multiset() == rows_view(rows@).to_multiset(),
        sorted_by(ks, rows_view(out@)),
        stable_order(ks, rows_view(rows@), rows_view(out@)),
{
    broadcast use vstd::seq_lib::group_to_multiset_ensures;

    let ghost rv = rows_view(rows@);
    let mut out: Vec<Row> = Vec::new();
    let ghost mut idx: Seq<int> = Seq::empty();
    let mut i: usize = 0;
    while i < rows.len()
        invariant
            i <= rows@.len(),
            rv == rows_view(rows@),
            idx.len() == out@.len(),
            out@.len() == i,
            forall|m: int| 0 <= m < idx.len() ==> 0 <= #[trigger] idx[m] < i && rows_view(out@)[m] == rv[idx[m]],
            forall|m1: int, m2: int| 0 <= m1 < m2 < idx.len() ==> #[trigger] idx[m1] != #[trigger] idx[m2],
            forall|m1: int, m2: int|
                0 <= m1 < m2 < idx.len() && rows_order(ks, #[trigger] rows_view(out@)[m1], #[trigger] rows_view(out@)[m2])
                    == Order3::Equal ==> idx[m1] < idx[m2],
            ks.len() == keys@.len(),
            forall|k: int| 0 <= k < ks.len() ==> #[trigger] ks[k] == (keys@[k].0 as int, keys@[k].1),
            rows_cover(rv, ks),
            rows_cover(rows_view(out@), ks),
            rows_view(out@).to_multiset() == rv.take(i as int).to_multiset(),
            sorted_by(ks, rows_view(out@)),
        decreases rows@.len() - i,
    {
        let x = crate::sql::types::copy_row(&rows[i]);
        let ghost xv = row_view(x@);
        assert(rv[i as int] == row_view(rows@[i as int]@));
        assert(xv == rv[i as int]);
        assert forall|k: int| 0 <= k < ks.len() implies #[trigger] ks[k].0 < x@.len() by {
            assert(0 <= ks[k].0 < rv[i as int].len());
        }
        let ghost ov = rows_view(out@);
        let mut j: usize = out.len();
        while j > 0
            invariant
                j <= out@.len(),
                ov == rows_view(out@),
                xv == row_view(x@),
                ks.len() == keys@.len(),
                forall|k: int| 0 <= k < ks.len() ==> #[trigger] ks[k] == (keys@[k].0 as int, keys@[k].1),
                forall|k: int| 0 <= k < ks.len() ==> #[trigger] ks[k].0 < x@.len(),
                rows_cover(ov, ks),
                forall|m: int| j <= m < ov.len() ==> rows_order(ks, xv, #[trigger] ov[m]) == Order3::Less,
            ensures
                j <= out@.len(),
                forall|m: int| j <= m < ov.len() ==> rows_order(ks, xv, #[trigger] ov[m]) == Order3::Less,
                j > 0 ==> rows_order(ks, xv, ov[j - 1]) != Order3::Less,
            decreases j,
        {
            assert(ov[j - 1] == row_view(out@[j - 1]@));
            assert forall|k: int| 0 <= k < ks.len() implies #[trigger] ks[k].0 < out@[j - 1]@.len() by {
                assert(0 <= ks[k].0 < ov[j - 1].len());
            }
            if compare_rows(keys, &x, &out[j - 1], Ghost(ks)) == Order3::Less {
                j = j - 1;
            } else {
                break;
            }
        }
        let ghost old_out = rows_view(out@);
        assert(old_out == ov);
        out.insert(j, x);
        proof {
            let nv = rows_view(out@);
            assert(nv =~= old_out.insert(j as int, xv));
            assert(rv.take(i + 1) =~= rv.take(i as int).push(xv));
            vstd::seq_lib::to_multiset_insert(old_out, j as int, xv);
            vstd::seq_lib::to_multiset_build(rv.take(i as int), xv);
            assert(old_out.insert(j as int, xv).to_multiset() == old_out.to_multiset().insert(xv));
            assert(rv.take(i as int).push(xv).to_multiset() == rv.take(i as int).to_multiset().insert(
                xv,
            ));
            assert forall|m: int| 0 <= m < nv.len() - 1 implies rows_order(ks, #[trigger] nv[m + 1], nv[m]) != Order3::Less by {
                if m + 1 < j {
                    assert(nv[m + 1] == old_out[m + 1] && nv[m] == old_out[m]);
                    assert(rows_order(ks, old_out[m + 1], old_out[m]) != Order3::Less);
                } else if m + 1 == j {
                    assert(nv[m + 1] == xv && nv[m] == old_out[m]);
                    assert(rows_order(ks, xv, ov[j - 1]) != Order3::Less);
                } else if m == j {
                    assert(nv[m] == xv && nv[m + 1] == old_out[m]);
                    assert(rows_order(ks, xv, ov[m]) == Order3::Less);
                    lemma_rows_order_asymmetric(ks, xv, old_out[m]);
                } else {
                    assert(nv[m] == old_out[m - 1] && nv[m + 1] == old_out[m]);
                    assert(rows_order(ks, old_out[(m - 1) + 1], old_out[m - 1]) != Order3::Less);
                }
            }
            let nidx = idx.insert(j as int, i as int);
            lemma_stable_insert(ks, rv, old_out, idx, j as int, i as int, xv);
            assert(nv =~= old_out.insert(j as int, xv));
            idx = nidx;
            assert forall|a: int, k: int| 0 <= a < nv.len() && 0 <= k < ks.len() implies 0 <= #[trigger] ks[k].0 < (#[trigger] nv[a]).len() by {
                if a < j {
                    assert(nv[a] == old_out[a]);
                } else if a == j {
                    assert(nv[a] == xv);
                } else {
                    assert(nv[a] == old_out[a - 1]);
                }
            }
        }
        i = i + 1;
    }
    assert(rv.take(i as int) =~= rv);
    assert(stable_from(ks, rv, rows_view(out@), idx));
    out
}

/// The positions of the `ORDER BY` columns.
fn order_keys_exec(columns: &Vec<String>, order_by: &Vec<(String, OrderDirection)>) -> (r: Result<
    Vec<(usize, OrderDirection)>,
>)
    ensures
        match order_keys(names_view(columns@), order_view(order_by@)) {
            Some(ks) => r matches Ok(keys) && ks.len() == keys@.len() && forall|k: int|
                0 <= k < ks.len() ==> #[trigger] ks[k] == (keys@[k].0 as int, keys@[k].1),
            None => r is Err,
        },
{
    let ghost cv = names_view(columns@);
    let ghost ov = order_view(order_by@);
    let mut keys: Vec<(usize, OrderDirection)> = Vec::new();
    let mut i: usize = 0;
    while i < order_by.len()
        invariant
            i <= order_by@.len(),
            cv == names_view(columns@),
            ov == order_view(order_by@),
            keys@.len() == i,
            forall|k: int|
                0 <= k < i ==> #[trigger] spec_position(cv, ov[k].0) == Some(keys@[k].0 as int)
                    && keys@[k].1 == ov[k].1,
        decreases order_by@.len() - i,
    {
        let (name, dir) = &order_by[i];
        assert(ov[i as int] == (name@, *dir));
        match position(columns, name) {
            Some(p) => {
                let ghost old_keys = keys@;
                keys.push((p, *dir));
                assert forall|k: int| 0 <= k < i + 1 implies #[trigger] spec_position(cv, ov[k].0)
                    == Some(keys@[k].0 as int) && keys@[k].1 == ov[k].1 by {
                    if k < i {
                        assert(keys@[k] == old_keys[k]);
                    }
                }
            },
            None => {
                assert(spec_position(cv, ov[i as int].0) is None);
                return Err(
                    Error::Internal(
                        String::from_str("column ").concat(name.as_str()).concat(
                            " not exist in table",
                        ),
                    ),
                );
            },
        }
        i = i + 1;
    }
    let ghost ks = ov.map_values(|o: (Seq<char>, OrderDirection)| (spec_position(cv, o.0)->0, o.1));
    assert(forall|k: int| 0 <= k < ov.len() ==> (#[trigger] spec_position(cv, ov[k].0)) is Some);
    assert(order_keys(cv, ov) == Some(ks));
    assert forall|k: int| 0 <= k < ks.len() implies #[trigger] ks[k] == (keys@[k].0 as int, keys@[k].1) by {
        assert(spec_position(cv, ov[k].0) == Some(keys@[k].0 as int));
    }
    Ok(keys)
}

/// Every row has a value at each key position.
fn check_cover(rows: &Vec<Row>, keys: &Vec<(usize, OrderDirection)>, Ghost(ks): Ghost<Seq<(int, OrderDirection)>>) -> (r: bool)
    requires
        ks.len() == keys@.len(),
        forall|k: int| 0 <= k < ks.len() ==> #[trigger] ks[k] == (keys@[k].0 as int, keys@[k].1),
    ensures
        r == rows_cover(rows_view(rows@), ks),
{
    let ghost rv = rows_view(rows@);
    let mut k: usize = 0;
    while k < rows.len()
        invariant
            k <= rows@.len(),
            rv == rows_view(rows@),
            ks.len() == keys@.len(),
            forall|q: int| 0 <= q < ks.len() ==> #[trigger] ks[q] == (keys@[q].0 as int, keys@[q].1),
            rows_cover(rv.take(k as int), ks),
        decreases rows@.len() - k,
    {
        assert(rv[k as int] == row_view(rows@[k as int]@));
        let mut q: usize = 0;
        while q < keys.len()
            invariant
                q <= keys@.len(),
                k < rows@.len(),
                rv == rows_view(rows@),
                rv[k as int] == row_view(rows@[k as int]@),
                ks.len() == keys@.len(),
                forall|q2: int| 0 <= q2 < ks.len() ==> #[trigger] ks[q2] == (keys@[q2].0 as int, keys@[q2].1),
                forall|q2: int| 0 <= q2 < q ==> #[trigger] ks[q2].0 < rows@[k as int]@.len(),
            decreases keys@.len() - q,
        {
            if keys[q].0 >= rows[k].len() {
                proof {
                    assert(ks[q as int].0 == keys@[q as int].0 as int);
                    assert(!(ks[q as int].0 < rv[k as int].len()));
                }
                return false;
            }
            q = q + 1;
        }
        proof {
            assert forall|a: int, b: int| 0 <= a < rv.take(k + 1).len() && 0 <= b < ks.len() implies 0 <= #[trigger] ks[b].0 < (#[trigger] rv.take(k + 1)[a]).len() by {
                if a < k {
                    assert(rv.take(k + 1)[a] == rv.take(k as int)[a]);
                } else {
                    assert(ks[b].0 < rows@[k as int]@.len());
                }
            }
        }
        k = k + 1;
    }
    assert(rv.take(k as int) =~= rv);
    true
}

/// Sorts the rows of its source by the `ORDER BY` columns.
pub struct Order {
    pub order_by: Vec<(String, OrderDirection)>,
}

impl Order {
    pub fn new(order_by: Vec<(String, OrderDirection)>) -> (o: Self)
        ensures
            o.order_by == order_by,
    {
        Order { order_by }
    }

    /// The source's rows, sorted: the same rows, none sorting before the one
    /// ahead of it.
    pub fn execute(self, source: ResultSet) -> (r: Result<ResultSet>)
        ensures
            match source@ {
                ResultSetModel::Scan { columns, rows } => match order_keys(
                    columns,
                    order_view(self.order_by@),
                ) {
                    Some(ks) => if rows_cover(rows, ks) {
                        r matches Ok(o) && o@ matches ResultSetModel::Scan { columns: c2, rows: out }
                            && c2 == columns && out.to_multiset() == rows.to_multiset() && sorted_by(
                            ks,
                            out,
                        ) && stable_order(ks, rows, out)
                    } else {
                        r is Err
                    },
                    None => r is Err,
                },
                _ => r is Err,
            },
    {
        match source {
            ResultSet::Scan { columns, rows } => {
                let keys = order_keys_exec(&columns, &self.order_by)?;
                let ghost ks = order_keys(names_view(columns@), order_view(self.order_by@))->0;
                if !check_cover(&rows, &keys, Ghost(ks)) {
                    return Err(Error::Internal(String::from_str("row has fewer values than columns")));
                }
                let sorted = sort_rows(&rows, &keys, Ghost(ks));
                Ok(ResultSet::Scan { columns, rows: sorted })
            },
            _ => Err(Error::Internal(String::from_str("Unexpected result set"))),
        }
    }
}

} // verus!
