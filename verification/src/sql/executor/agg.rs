//! Aggregation: `COUNT`, `MIN`, `MAX`, `SUM` and `AVG`, over all rows or
//! per group of a `GROUP BY` column.
use vstd::prelude::*;

use super::{ResultSet, ResultSetModel};
use crate::error::{Error, Result};
use crate::sql::parser::ast::{names_view, position, spec_position, ExprModel, Expression};
use crate::sql::plan::{opt_expr_view, select_view};
use crate::sql::text::Order3;
use crate::sql::types::{row_view, rows_view, value_order, Row, Value, ValueModel};
use crate::sql::arith::{add_digits, decimal_of_digits, decimal_of_scaled, divide_digits, pow10, scaled_digits, scaled_nat_digits, scaled_value, shift_digits};
use crate::sql::number::{all_digits, decimal_wf, digits_value};

verus! {

/// The text in upper case, as `str::to_uppercase` gives it.
pub uninterp spec fn upper_case(s: Seq<char>) -> Seq<char>;

/// `str::to_uppercase`.
#[verifier::external_body]
fn to_upper(s: &str) -> (r: String)
    ensures
        r@ == upper_case(s@),
{
    s.to_uppercase()
}

/// The values of a column.
pub open spec fn column_of(rows: Seq<Seq<ValueModel>>, pos: int) -> Seq<ValueModel> {
    rows.map_values(|r: Seq<ValueModel>| r[pos])
}

/// Every row has a value at `pos`.
pub open spec fn rows_have_pos(rows: Seq<Seq<ValueModel>>, pos: int) -> bool {
    forall|i: int| 0 <= i < rows.len() ==> pos < (#[trigger] rows[i]).len()
}

/// The number of values that are not `Null`.
pub open spec fn count_non_null(vals: Seq<ValueModel>) -> nat
    decreases vals.len(),
{
    if vals.len() == 0 {
        0
    } else {
        count_non_null(vals.drop_last()) + if vals.last() is Null {
            0nat
        } else {
            1nat
        }
    }
}

proof fn lemma_count_non_null_bound(vals: Seq<ValueModel>)
    ensures
        count_non_null(vals) <= vals.len(),
    decreases vals.len(),
{
    if vals.len() > 0 {
        lemma_count_non_null_bound(vals.drop_last());
    }
}

/// The first value that no later value beats in the direction `want`
/// (`Less` for the smallest, `Greater` for the largest), passing over
/// `Null`s: none where all are `Null`; `None` where two values met cannot be
/// compared.
pub open spec fn extreme(vals: Seq<ValueModel>, want: Order3) -> Option<Option<ValueModel>>
    decreases vals.len(),
{
    if vals.len() == 0 {
        Some(None)
    } else {
        let v = vals.last();
        match extreme(vals.drop_last(), want) {
            Some(None) => if v is Null {
                Some(None)
            } else {
                Some(Some(v))
            },
            Some(Some(b)) => if v is Null {
                Some(Some(b))
            } else {
                match value_order(v, b) {
                    Some(o) => if o == want {
                        Some(Some(v))
                    } else {
                        Some(Some(b))
                    },
                    None => None,
                }
            },
            None => None,
        }
    }
}

/// The values of a column, where the column exists and every row has a value
/// for it.
pub open spec fn column_values(
    col: Seq<char>,
    cols: Seq<Seq<char>>,
    rows: Seq<Seq<ValueModel>>,
) -> Option<Seq<ValueModel>> {
    match spec_position(cols, col) {
        Some(p) => if rows_have_pos(rows, p) {
            Some(column_of(rows, p))
        } else {
            None
        },
        None => None,
    }
}

/// An aggregate function over the values of a column.
pub trait Calculator {
    /// What the function gives for column `col` of `rows`; `None` where it
    /// fails.
    spec fn result(&self, col: Seq<char>, cols: Seq<Seq<char>>, rows: Seq<Seq<ValueModel>>) -> Option<
        ValueModel,
    >;

    fn calc(&self, col_name: &String, cols: &Vec<String>, rows: &Vec<Row>) -> (r: Result<Value>)
        ensures
            match self.result(col_name@, names_view(cols@), rows_view(rows@)) {
                Some(v) => r matches Ok(x) && x@ == v,
                None => r is Err,
            },
            r matches Err(e) ==> e is Internal,
            spec_position(names_view(cols@), col_name@) is None ==> (r matches Err(Error::Internal(m))
                && m@ == "column "@ + col_name@ + " is not in table"@),
    ;
}

/// The values of a column of the rows.
fn values_of(col_name: &String, cols: &Vec<String>, rows: &Vec<Row>) -> (r: Result<Vec<Value>>)
    ensures
        match column_values(col_name@, names_view(cols@), rows_view(rows@)) {
            Some(vals) => r matches Ok(out) && row_view(out@) == vals,
            None => r is Err,
        },
        r matches Err(e) ==> e is Internal,
        spec_position(names_view(cols@), col_name@) is None ==> (r matches Err(Error::Internal(m)) && m@
            == "column "@ + col_name@ + " is not in table"@),
{
    let pos = match position(cols, col_name) {
        Some(p) => p,
        None => {
            return Err(
                Error::Internal(
                    String::from_str("column ").concat(col_name.as_str()).concat(" is not in table"),
                ),
            );
        },
    };
    let ghost rv = rows_view(rows@);
    let mut out: Vec<Value> = Vec::new();
    let mut i: usize = 0;
    while i < rows.len()
        invariant
            i <= rows@.len(),
            rv == rows_view(rows@),
            spec_position(names_view(cols@), col_name@) == Some(pos as int),
            rows_have_pos(rv.take(i as int), pos as int),
            row_view(out@) == column_of(rv.take(i as int), pos as int),
        decreases rows@.len() - i,
    {
        assert(rv[i as int] == row_view(rows@[i as int]@));
        if pos >= rows[i].len() {
            assert(!rows_have_pos(rv, pos as int)) by {
                assert(!(pos < rv[i as int].len()));
            }
            return Err(Error::Internal(String::from_str("row has fewer values than columns")));
        }
        let ghost old = out@;
        let v = rows[i][pos].copy();
        out.push(v);
        proof {
            assert(row_view(out@) =~= row_view(old).push(v@));
            assert(column_of(rv.take(i + 1), pos as int) =~= column_of(rv.take(i as int), pos as int).push(rv[i as int][pos as int]));
            assert forall|k: int| 0 <= k < rv.take(i + 1).len() implies pos < (#[trigger] rv.take(i + 1)[k]).len() by {
                if k < i {
                    assert(rv.take(i + 1)[k] == rv.take(i as int)[k]);
                }
            }
        }
        i = i + 1;
    }
    assert(rv.take(i as int) =~= rv);
    Ok(out)
}

/// Counts the values that are not `Null`.
pub struct Count;

impl Count {
    pub fn new() -> (c: Self) {
        Count
    }
}

impl Calculator for Count {
    open spec fn result(&self, col: Seq<char>, cols: Seq<Seq<char>>, rows: Seq<Seq<ValueModel>>) -> Option<
        ValueModel,
    > {
        match column_values(col, cols, rows) {
            Some(vals) => Some(ValueModel::Integer(count_non_null(vals) as i64)),
            None => None,
        }
    }

    fn calc(&self, col_name: &String, cols: &Vec<String>, rows: &Vec<Row>) -> (r: Result<Value>) {
        let vals = values_of(col_name, cols, rows)?;
        let count = non_null_count(&vals);
        Ok(Value::Integer(count as i64))
    }
}

/// The first value of the direction `want` in `vals`, as `extreme` says.
fn extreme_of(vals: &Vec<Value>, want: Order3) -> (r: Result<Value>)
    ensures
        match extreme(row_view(vals@), want) {
            Some(Some(v)) => r matches Ok(x) && x@ == v,
            Some(None) => r matches Ok(x) && x is Null,
            None => r is Err,
        },
        r matches Err(e) ==> e is Internal,
{
    let ghost vv = row_view(vals@);
    let mut best: Option<Value> = None;
    let mut i: usize = 0;
    while i < vals.len()
        invariant
            i <= vals@.len(),
            vv == row_view(vals@),
            extreme(vv.take(i as int), want) == Some(
                match best {
                    Some(b) => Some(b@),
                    None => None::<ValueModel>,
                },
            ),
        decreases vals@.len() - i,
    {
        assert(vv.take(i + 1).drop_last() =~= vv.take(i as int));
        assert(vv[i as int] == vals@[i as int]@);
        let v = &vals[i];
        if let Value::Null = v {
        } else {
            match &best {
                None => {
                    best = Some(v.copy());
                },
                Some(b) => match v.partial_compare(b) {
                    Some(o) => {
                        if o == want {
                            best = Some(v.copy());
                        }
                    },
                    None => {
                        proof {
                            lemma_extreme_none(vv, want, i as int + 1);
                        }
                        return Err(Error::Internal(String::from_str("values cannot be compared")));
                    },
                },
            }
        }
        i = i + 1;
    }
    assert(vv.take(i as int) =~= vv);
    match best {
        Some(b) => Ok(b),
        None => Ok(Value::Null),
    }
}

proof fn lemma_extreme_none(vals: Seq<ValueModel>, want: Order3, i: int)
    requires
        0 <= i <= vals.len(),
        extreme(vals.take(i), want) is None,
    ensures
        extreme(vals, want) is None,
    decreases vals.len() - i,
{
    if i < vals.len() {
        assert(vals.take(i + 1).drop_last() =~= vals.take(i));
        lemma_extreme_none(vals, want, i + 1);
    } else {
        assert(vals.take(i) =~= vals);
    }
}

/// `COUNT` counts the values of its column that are not `Null`: over no
/// rows it is 0; each row added raises it by one where its value is not
/// `Null`, and leaves it where the value is `Null`; it never exceeds the
/// number of rows.
pub proof fn law_count_counts_non_null(
    col: Seq<char>,
    cols: Seq<Seq<char>>,
    rows: Seq<Seq<ValueModel>>,
    row: Seq<ValueModel>,
)
    requires
        spec_position(cols, col) matches Some(p) && p < row.len(),
        column_values(col, cols, rows) is Some,
        rows.len() + 1 < i64::MAX,
    ensures
        Count.result(col, cols, Seq::empty()) == Some(ValueModel::Integer(0)),
        Count.result(col, cols, rows) matches Some(ValueModel::Integer(n)) && 0 <= n <= rows.len()
            && Count.result(col, cols, rows.push(row)) == Some(
            ValueModel::Integer(
                if row[spec_position(cols, col)->0] is Null {
                    n
                } else {
                    (n + 1) as i64
                },
            ),
        ),
{
    let p = spec_position(cols, col)->0;
    let rs = rows.push(row);
    assert(column_of(Seq::<Seq<ValueModel>>::empty(), p) =~= Seq::<ValueModel>::empty());
    let vals = column_of(rows, p);
    assert(rows_have_pos(rs, p)) by {
        assert forall|i: int| 0 <= i < rs.len() implies p < (#[trigger] rs[i]).len() by {
            if i < rows.len() {
                assert(rs[i] == rows[i]);
            }
        }
    }
    assert(column_of(rs, p) =~= vals.push(row[p]));
    assert(vals.push(row[p]).drop_last() =~= vals);
    lemma_count_non_null_bound(vals);
}

/// The smallest value that is not `Null`.
pub struct Min;

impl Min {
    pub fn new() -> (m: Self) {
        Min
    }
}

impl Calculator for Min {
    open spec fn result(&self, col: Seq<char>, cols: Seq<Seq<char>>, rows: Seq<Seq<ValueModel>>) -> Option<
        ValueModel,
    > {
        match column_values(col, cols, rows) {
            Some(vals) => match extreme(vals, Order3::Less) {
                Some(Some(v)) => Some(v),
                Some(None) => Some(ValueModel::Null),
                None => None,
            },
            None => None,
        }
    }

    fn calc(&self, col_name: &String, cols: &Vec<String>, rows: &Vec<Row>) -> (r: Result<Value>) {
        let vals = values_of(col_name, cols, rows)?;
        extreme_of(&vals, Order3::Less)
    }
}

/// Over integers (and `Null`s), the value that `extreme` picks in
/// direction `Less` is the least and in direction `Greater` the largest.
proof fn lemma_extreme_integers(vals: Seq<ValueModel>, want: Order3)
    requires
        want == Order3::Less || want == Order3::Greater,
        forall|i: int| 0 <= i < vals.len() ==> (#[trigger] vals[i]) is Null || vals[i] is Integer,
    ensures
        extreme(vals, want) matches Some(r) && (r is None <==> forall|i: int| 0 <= i < vals.len() ==> (#[trigger] vals[i]) is Null)
            && (r matches Some(m) ==> m is Integer && vals.contains(m) && forall|i: int|
            0 <= i < vals.len() ==> ((#[trigger] vals[i]) matches ValueModel::Integer(x) ==> if want == Order3::Less {
                m->Integer_0 <= x
            } else {
                m->Integer_0 >= x
            })),
    decreases vals.len(),
{
    if vals.len() > 0 {
        let p = vals.drop_last();
        assert forall|i: int| 0 <= i < p.len() implies (#[trigger] p[i]) is Null || p[i] is Integer by {
            assert(p[i] == vals[i]);
        }
        lemma_extreme_integers(p, want);
        assert(forall|i: int| 0 <= i < p.len() ==> p[i] == vals[i]);
        let v = vals.last();
        assert(v == vals[vals.len() - 1]);
        match extreme(p, want) {
            Some(Some(b)) => {
                let j = choose|j: int| 0 <= j < p.len() && p[j] == b;
                assert(vals[j] == b);
            },
            _ => {},
        }
    }
}

/// `MIN` and `MAX` over a column of integers (and `Null`s): `Null` exactly
/// where every value is `Null`; else a value of the column, no larger
/// (for `MIN`) or no smaller (for `MAX`) than any integer in it.
pub proof fn law_min_max_of_integers(col: Seq<char>, cols: Seq<Seq<char>>, rows: Seq<Seq<ValueModel>>)
    requires
        column_values(col, cols, rows) is Some,
        forall|i: int|
            0 <= i < column_values(col, cols, rows)->0.len() ==> (#[trigger] column_values(col, cols, rows)->0[i]) is Null
                || column_values(col, cols, rows)->0[i] is Integer,
    ensures
        ({
            let vals = column_values(col, cols, rows)->0;
            &&& Min.result(col, cols, rows) matches Some(m) && (m is Null <==> forall|i: int|
                0 <= i < vals.len() ==> (#[trigger] vals[i]) is Null) && (!(m is Null) ==> vals.contains(m)
                && forall|i: int| 0 <= i < vals.len() ==> ((#[trigger] vals[i]) matches ValueModel::Integer(x) ==> m->Integer_0 <= x))
            &&& Max.result(col, cols, rows) matches Some(m) && (m is Null <==> forall|i: int|
                0 <= i < vals.len() ==> (#[trigger] vals[i]) is Null) && (!(m is Null) ==> vals.contains(m)
                && forall|i: int| 0 <= i < vals.len() ==> ((#[trigger] vals[i]) matches ValueModel::Integer(x) ==> m->Integer_0 >= x))
        }),
{
    let vals = column_values(col, cols, rows)->0;
    lemma_extreme_integers(vals, Order3::Less);
    lemma_extreme_integers(vals, Order3::Greater);
}

/// The largest value that is not `Null`.
pub struct Max;

impl Max {
    pub fn new() -> (m: Self) {
        Max
    }
}

impl Calculator for Max {
    open spec fn result(&self, col: Seq<char>, cols: Seq<Seq<char>>, rows: Seq<Seq<ValueModel>>) -> Option<
        ValueModel,
    > {
        match column_values(col, cols, rows) {
            Some(vals) => match extreme(vals, Order3::Greater) {
                Some(Some(v)) => Some(v),
                Some(None) => Some(ValueModel::Null),
                None => None,
            },
            None => None,
        }
    }

    fn calc(&self, col_name: &String, cols: &Vec<String>, rows: &Vec<Row>) -> (r: Result<Value>) {
        let vals = values_of(col_name, cols, rows)?;
        extreme_of(&vals, Order3::Greater)
    }
}

/// What the aggregate function whose upper-case name is `u` gives for
/// column `c` of `rows`; `None` for an unknown function, or where the
/// function fails.
pub open spec fn calc_upper(
    u: Seq<char>,
    c: Seq<char>,
    cols: Seq<Seq<char>>,
    rows: Seq<Seq<ValueModel>>,
) -> Option<ValueModel> {
    if u == "COUNT"@ {
        Count.result(c, cols, rows)
    } else if u == "MIN"@ {
        Min.result(c, cols, rows)
    } else if u == "MAX"@ {
        Max.result(c, cols, rows)
    } else if u == "SUM"@ {
        Sum.result(c, cols, rows)
    } else if u == "AVG"@ {
        Avg.result(c, cols, rows)
    } else {
        None
    }
}

/// What aggregate function `f` gives for column `c` of `rows`; `None` for an
/// unknown function, or where the function fails.
pub open spec fn calc_result(
    f: Seq<char>,
    c: Seq<char>,
    cols: Seq<Seq<char>>,
    rows: Seq<Seq<ValueModel>>,
) -> Option<ValueModel> {
    calc_upper(upper_case(f), c, cols, rows)
}

/// Runs the aggregate function whose name, in upper case, is `upper`.
pub fn calculate_upper(upper: &String, col_name: &String, cols: &Vec<String>, rows: &Vec<Row>) -> (r: Result<Value>)
    ensures
        r matches Err(e) ==> e is Internal,
        match calc_upper(upper@, col_name@, names_view(cols@), rows_view(rows@)) {
            Some(v) => r matches Ok(x) && x@ == v,
            None => r is Err,
        },
{
    if crate::sql::text::str_eq(upper.as_str(), "COUNT") {
        Count.calc(col_name, cols, rows)
    } else if crate::sql::text::str_eq(upper.as_str(), "MIN") {
        Min.calc(col_name, cols, rows)
    } else if crate::sql::text::str_eq(upper.as_str(), "MAX") {
        Max.calc(col_name, cols, rows)
    } else if crate::sql::text::str_eq(upper.as_str(), "SUM") {
        Sum.calc(col_name, cols, rows)
    } else if crate::sql::text::str_eq(upper.as_str(), "AVG") {
        Avg.calc(col_name, cols, rows)
    } else {
        Err(Error::Internal(String::from_str("unknown aggregate function")))
    }
}

/// Runs the aggregate function named `func_name`.
pub fn calculate(func_name: &String, col_name: &String, cols: &Vec<String>, rows: &Vec<Row>) -> (r: Result<Value>)
    ensures
        r matches Err(e) ==> e is Internal,
        match calc_result(func_name@, col_name@, names_view(cols@), rows_view(rows@)) {
            Some(v) => r matches Ok(x) && x@ == v,
            None => r is Err,
        },
{
    let u = to_upper(func_name.as_str());
    calculate_upper(&u, col_name, cols, rows)
}

/// The name a select item is shown under: its alias, else the function's
/// or the column's name.
pub open spec fn item_name(e: (ExprModel, Option<Seq<char>>)) -> Seq<char> {
    match e.1 {
        Some(a) => a,
        None => match e.0 {
            ExprModel::Function(f, _) => f,
            ExprModel::Filed(c) => c,
            _ => Seq::empty(),
        },
    }
}

/// The value of one select item for a group with key `key` (none without
/// `GROUP BY`): a function's result, or the key for the grouped column.
pub open spec fn item_value(
    e: ExprModel,
    group_col: Option<Seq<char>>,
    cols: Seq<Seq<char>>,
    rows: Seq<Seq<ValueModel>>,
    key: Option<ValueModel>,
) -> Option<ValueModel> {
    match e {
        ExprModel::Function(f, c) => calc_result(f, c, cols, rows),
        ExprModel::Filed(c) => match group_col {
            Some(g) => if c == g {
                key
            } else {
                None
            },
            None => key,
        },
        _ => None,
    }
}

/// The output row for one group; `None` where an item fails.
pub open spec fn agg_row(
    items: Seq<(ExprModel, Option<Seq<char>>)>,
    group_col: Option<Seq<char>>,
    cols: Seq<Seq<char>>,
    rows: Seq<Seq<ValueModel>>,
    key: Option<ValueModel>,
) -> Option<Seq<ValueModel>>
    decreases items.len(),
{
    if items.len() == 0 {
        Some(Seq::empty())
    } else {
        match (
            agg_row(items.drop_last(), group_col, cols, rows, key),
            item_value(items.last().0, group_col, cols, rows, key),
        ) {
            (Some(acc), Some(v)) => Some(acc.push(v)),
            _ => None,
        }
    }
}

/// The distinct values at `pos`, in the order they first appear.
pub open spec fn distinct_keys(rows: Seq<Seq<ValueModel>>, pos: int) -> Seq<ValueModel>
    decreases rows.len(),
{
    if rows.len() == 0 {
        Seq::empty()
    } else {
        let ks = distinct_keys(rows.drop_last(), pos);
        if ks.contains(rows.last()[pos]) {
            ks
        } else {
            ks.push(rows.last()[pos])
        }
    }
}

/// The rows whose value at `pos` is `k`, in order.
pub open spec fn rows_with(rows: Seq<Seq<ValueModel>>, pos: int, k: ValueModel) -> Seq<Seq<ValueModel>>
    decreases rows.len(),
{
    if rows.len() == 0 {
        Seq::empty()
    } else {
        let rs = rows_with(rows.drop_last(), pos, k);
        if rows.last()[pos] == k {
            rs.push(rows.last())
        } else {
            rs
        }
    }
}

/// The groups of a `GROUP BY`: each value of the column names one group,
/// once, and every group is a value some row has; a group holds exactly the
/// rows with its value, in their order.
pub proof fn law_groups(rows: Seq<Seq<ValueModel>>, pos: int, k: ValueModel)
    ensures
        distinct_keys(rows, pos).no_duplicates(),
        forall|i: int| 0 <= i < rows.len() ==> distinct_keys(rows, pos).contains((#[trigger] rows[i])[pos]),
        forall|j: int|
            0 <= j < distinct_keys(rows, pos).len() ==> exists|i: int|
                0 <= i < rows.len() && (#[trigger] rows[i])[pos] == #[trigger] distinct_keys(rows, pos)[j],
        rows_with(rows, pos, k) == rows.filter(|r: Seq<ValueModel>| r[pos] == k),
    decreases rows.len(),
{
    reveal_with_fuel(Seq::filter, 1);
    if rows.len() > 0 {
        let p = rows.drop_last();
        law_groups(p, pos, k);
        let ks = distinct_keys(rows, pos);
        let prev = distinct_keys(p, pos);
        let f = |r: Seq<ValueModel>| r[pos] == k;
        assert(rows.filter(f) == if f(rows.last()) {
            p.filter(f).push(rows.last())
        } else {
            p.filter(f)
        });
        assert(forall|i: int| 0 <= i < p.len() ==> p[i] == rows[i]);
        let last = rows.last()[pos];
        assert(rows.last() == rows[rows.len() - 1]);
        if !prev.contains(last) {
            assert forall|a: int, b: int| 0 <= a < ks.len() && 0 <= b < ks.len() && a != b implies ks[a] != ks[b] by {
                if a < prev.len() && b < prev.len() {
                } else if a < prev.len() {
                    assert(ks[b] == last);
                    assert(prev[a] == ks[a]);
                } else {
                    assert(ks[a] == last);
                    assert(prev[b] == ks[b]);
                }
            }
            assert(ks[ks.len() - 1] == last);
        }
        assert forall|i: int| 0 <= i < rows.len() implies ks.contains((#[trigger] rows[i])[pos]) by {
            if i < p.len() {
                assert(p[i] == rows[i]);
                let j = choose|j: int| 0 <= j < prev.len() && prev[j] == p[i][pos];
                assert(ks[j] == prev[j]);
            }
        }
        assert forall|j: int| 0 <= j < ks.len() implies exists|i: int|
            0 <= i < rows.len() && (#[trigger] rows[i])[pos] == #[trigger] ks[j] by {
            if j < prev.len() {
                assert(ks[j] == prev[j]);
                let i = choose|i: int| 0 <= i < p.len() && (#[trigger] p[i])[pos] == prev[j];
                assert(rows[i] == p[i]);
            } else {
                assert(rows[rows.len() - 1][pos] == ks[j]);
            }
        }
    }
}

/// The result of an aggregation: its column names and rows. With `GROUP BY`
/// a column, one row per distinct value of it, in the order the values first
/// appear (no columns where there are no rows); else one row for all rows.
pub open spec fn agg_spec(
    items: Seq<(ExprModel, Option<Seq<char>>)>,
    group_by: Option<ExprModel>,
    cols: Seq<Seq<char>>,
    rows: Seq<Seq<ValueModel>>,
) -> Option<(Seq<Seq<char>>, Seq<Seq<ValueModel>>)> {
    let names = items.map_values(|e: (ExprModel, Option<Seq<char>>)| item_name(e));
    match group_by {
        Some(ExprModel::Filed(g)) => match spec_position(cols, g) {
            Some(p) => if rows_have_pos(rows, p) {
                let keys = distinct_keys(rows, p);
                if forall|i: int| 0 <= i < keys.len() ==> (#[trigger] agg_row(items, Some(g), cols, rows_with(rows, p, keys[i]), Some(keys[i]))) is Some {
                    Some((
                        if keys.len() > 0 { names } else { Seq::empty() },
                        keys.map_values(|k: ValueModel| agg_row(items, Some(g), cols, rows_with(rows, p, k), Some(k))->0),
                    ))
                } else {
                    None
                }
            } else {
                None
            },
            None => None,
        },
        _ => match agg_row(items, None, cols, rows, None) {
            Some(r) => Some((names, seq![r])),
            None => None,
        },
    }
}

/// The number of digits after the point that `SUM` and `AVG` work at: the
/// most that any `Float` value has.
pub open spec fn sum_scale(vals: Seq<ValueModel>) -> nat
    decreases vals.len(),
{
    if vals.len() == 0 {
        0
    } else {
        let f = sum_scale(vals.drop_last());
        match vals.last() {
            ValueModel::Float(d) => if d.1.len() > f {
                d.1.len()
            } else {
                f
            },
            _ => f,
        }
    }
}

/// `x` added to the sum so far, if there is one.
pub open spec fn add_to(acc: Option<nat>, x: nat) -> nat {
    match acc {
        Some(a) => a + x,
        None => x,
    }
}

/// What the values add up to, times `10^f`: none where all are `Null`;
/// `None` where a value is not a number, is a negative integer, or is a
/// decimal that is not well-formed.
pub open spec fn scaled_sum(vals: Seq<ValueModel>, f: nat) -> Option<Option<nat>>
    decreases vals.len(),
{
    if vals.len() == 0 {
        Some(None)
    } else {
        match scaled_sum(vals.drop_last(), f) {
            None => None,
            Some(acc) => match vals.last() {
                ValueModel::Null => Some(acc),
                ValueModel::Integer(i) => if i >= 0 {
                    Some(Some(add_to(acc, (i * pow10(f)) as nat)))
                } else {
                    None
                },
                ValueModel::Float(d) => if decimal_wf(d) {
                    Some(Some(add_to(acc, scaled_value(d, f) as nat)))
                } else {
                    None
                },
                _ => None,
            },
        }
    }
}

/// The digits after the point that `AVG` adds to the scale of the sum: its
/// quotient is rounded down there.
pub const AVG_PLACES: usize = 15;

proof fn lemma_sum_scale_bounds(vals: Seq<ValueModel>)
    ensures
        forall|i: int|
            0 <= i < vals.len() ==> (#[trigger] vals[i] matches ValueModel::Float(d) ==> d.1.len()
                <= sum_scale(vals)),
    decreases vals.len(),
{
    if vals.len() > 0 {
        let t = vals.drop_last();
        lemma_sum_scale_bounds(t);
        assert forall|i: int| 0 <= i < vals.len() implies (#[trigger] vals[i] matches ValueModel::Float(
            d,
        ) ==> d.1.len() <= sum_scale(vals)) by {
            if i < t.len() {
                assert(vals[i] == t[i]);
            }
        }
    }
}

proof fn lemma_scaled_sum_none(vals: Seq<ValueModel>, f: nat, i: int)
    requires
        0 <= i <= vals.len(),
        scaled_sum(vals.take(i), f) is None,
    ensures
        scaled_sum(vals, f) is None,
    decreases vals.len() - i,
{
    if i < vals.len() {
        assert(vals.take(i + 1).drop_last() =~= vals.take(i));
        lemma_scaled_sum_none(vals, f, i + 1);
    } else {
        assert(vals.take(i) =~= vals);
    }
}

proof fn lemma_sum_counts(vals: Seq<ValueModel>, f: nat)
    ensures
        scaled_sum(vals, f) matches Some(Some(_)) ==> count_non_null(vals) > 0,
    decreases vals.len(),
{
    if vals.len() > 0 {
        lemma_sum_counts(vals.drop_last(), f);
    }
}

/// `sum_scale` of the values.
fn sum_scale_of(vals: &Vec<Value>) -> (f: usize)
    ensures
        f == sum_scale(row_view(vals@)),
{
    let ghost vv = row_view(vals@);
    let mut f: usize = 0;
    let mut i: usize = 0;
    while i < vals.len()
        invariant
            i <= vals@.len(),
            vv == row_view(vals@),
            f == sum_scale(vv.take(i as int)),
        decreases vals@.len() - i,
    {
        assert(vv.take(i + 1).drop_last() =~= vv.take(i as int));
        assert(vv[i as int] == vals@[i as int]@);
        match &vals[i] {
            Value::Float(d) => {
                if d.frac_digits().len() > f {
                    f = d.frac_digits().len();
                }
            },
            _ => {},
        }
        i = i + 1;
    }
    assert(vv.take(i as int) =~= vv);
    f
}

/// The digits of the values' sum times `10^f`, as `scaled_sum` says.
fn sum_digits(vals: &Vec<Value>, f: usize) -> (r: Result<Option<Vec<char>>>)
    requires
        f == sum_scale(row_view(vals@)),
    ensures
        r matches Err(e) ==> e is Internal,
        match scaled_sum(row_view(vals@), f as nat) {
            Some(None) => r matches Ok(None),
            Some(Some(s)) => r matches Ok(Some(x)) && all_digits(x@) && digits_value(x@) == s,
            None => r is Err,
        },
{
    let ghost vv = row_view(vals@);
    proof {
        lemma_sum_scale_bounds(vv);
    }
    let mut acc: Option<Vec<char>> = None;
    let mut i: usize = 0;
    while i < vals.len()
        invariant
            i <= vals@.len(),
            vv == row_view(vals@),
            forall|j: int|
                0 <= j < vv.len() ==> (#[trigger] vv[j] matches ValueModel::Float(d) ==> d.1.len() <= f),
            scaled_sum(vv.take(i as int), f as nat) == Some(
                match acc {
                    Some(x) => Some(digits_value(x@) as nat),
                    None => None::<nat>,
                },
            ),
            acc matches Some(x) ==> all_digits(x@) && digits_value(x@) >= 0,
        decreases vals@.len() - i,
    {
        assert(vv.take(i + 1).drop_last() =~= vv.take(i as int));
        assert(vv[i as int] == vals@[i as int]@);
        assert(vv.take(i + 1).last() == vv[i as int]);
        let term: Vec<char> = match &vals[i] {
            Value::Null => {
                i = i + 1;
                continue;
            },
            Value::Integer(v) => {
                if *v < 0 {
                    proof {
                        lemma_scaled_sum_none(vv, f as nat, i + 1);
                    }
                    return Err(Error::Internal(String::from_str("cannot calc column")));
                }
                scaled_nat_digits(*v as u64, f)
            },
            Value::Float(d) => {
                if !d.check_wf() {
                    proof {
                        d.lemma_wf();
                        lemma_scaled_sum_none(vv, f as nat, i + 1);
                    }
                    return Err(Error::Internal(String::from_str("cannot calc column")));
                }
                proof {
                    d.lemma_wf();
                }
                scaled_digits(d, f)
            },
            _ => {
                proof {
                    lemma_scaled_sum_none(vv, f as nat, i + 1);
                }
                return Err(Error::Internal(String::from_str("cannot calc column")));
            },
        };
        proof {
            crate::sql::number::lemma_digits_value_nonneg(term@);
        }
        acc = match acc {
            None => Some(term),
            Some(x) => Some(add_digits(&x, &term)),
        };
        i = i + 1;
    }
    assert(vv.take(i as int) =~= vv);
    Ok(acc)
}

/// The number of values that are not `Null`.
fn non_null_count(vals: &Vec<Value>) -> (n: u64)
    ensures
        n == count_non_null(row_view(vals@)),
{
    let ghost vv = row_view(vals@);
    let mut count: u64 = 0;
    let mut i: usize = 0;
    while i < vals.len()
        invariant
            i <= vals@.len(),
            vv == row_view(vals@),
            count == count_non_null(vv.take(i as int)),
            count <= i,
        decreases vals@.len() - i,
    {
        assert(vv.take(i + 1).drop_last() =~= vv.take(i as int));
        assert(vv[i as int] == vals@[i as int]@);
        match vals[i] {
            Value::Null => {},
            _ => {
                count = count + 1;
            },
        }
        i = i + 1;
    }
    assert(vv.take(i as int) =~= vv);
    count
}

proof fn lemma_sum_scale_integers(vals: Seq<ValueModel>)
    requires
        forall|i: int| 0 <= i < vals.len() ==> !((#[trigger] vals[i]) is Float),
    ensures
        sum_scale(vals) == 0,
    decreases vals.len(),
{
    if vals.len() > 0 {
        let p = vals.drop_last();
        assert forall|i: int| 0 <= i < p.len() implies !((#[trigger] p[i]) is Float) by {
            assert(p[i] == vals[i]);
        }
        lemma_sum_scale_integers(p);
        assert(vals.last() == vals[vals.len() - 1]);
    }
}

/// `Null`, or an integer that is not negative.
pub open spec fn null_or_natural(v: ValueModel) -> bool {
    match v {
        ValueModel::Null => true,
        ValueModel::Integer(k) => k >= 0,
        _ => false,
    }
}

/// The number that a `SUM` result stands for: its decimal's value, or 0
/// for `Null`.
pub open spec fn sum_number(r: Option<ValueModel>) -> int {
    match r {
        Some(ValueModel::Float(d)) => scaled_value(d, 0),
        _ => 0,
    }
}

/// `SUM` over a column of integers that are not negative (and `Null`s) adds
/// them up: adding a row with `Null` leaves the sum as it is, and adding a
/// row with integer `k` makes it `k` more; the sum is `Null` exactly where
/// every value is.
pub proof fn law_sum_adds_integers(
    col: Seq<char>,
    cols: Seq<Seq<char>>,
    rows: Seq<Seq<ValueModel>>,
    row: Seq<ValueModel>,
)
    requires
        column_values(col, cols, rows) is Some,
        spec_position(cols, col) matches Some(p) && p < row.len() && null_or_natural(row[p]),
        forall|i: int|
            0 <= i < column_values(col, cols, rows)->0.len() ==> null_or_natural(#[trigger] column_values(col, cols, rows)->0[i]),
    ensures
        Sum.result(col, cols, rows) matches Some(r) && (r is Null <==> forall|i: int|
            0 <= i < column_values(col, cols, rows)->0.len() ==> (#[trigger] column_values(col, cols, rows)->0[i]) is Null)
            && (r is Null || r is Float),
        row[spec_position(cols, col)->0] is Null ==> Sum.result(col, cols, rows.push(row)) == Sum.result(col, cols, rows),
        row[spec_position(cols, col)->0] matches ValueModel::Integer(k) ==> Sum.result(col, cols, rows.push(row)) matches Some(
            ValueModel::Float(_),
        ) && sum_number(Sum.result(col, cols, rows.push(row))) == sum_number(Sum.result(col, cols, rows)) + k,
    decreases rows.len(),
{
    let p = spec_position(cols, col)->0;
    let vals = column_of(rows, p);
    let rs = rows.push(row);
    assert(rows_have_pos(rs, p)) by {
        assert forall|i: int| 0 <= i < rs.len() implies p < (#[trigger] rs[i]).len() by {
            if i < rows.len() {
                assert(rs[i] == rows[i]);
            }
        }
    }
    let vals2 = column_of(rs, p);
    assert(vals2 =~= vals.push(row[p]));
    assert(vals2.drop_last() =~= vals);
    lemma_sum_scale_integers(vals);
    assert forall|i: int| 0 <= i < vals2.len() implies !((#[trigger] vals2[i]) is Float) by {
        if i < vals.len() {
            assert(vals2[i] == vals[i]);
        }
    }
    lemma_sum_scale_integers(vals2);
    lemma_integer_sum(vals);
    lemma_integer_sum(vals2);
    assert(pow10(0) == 1);
    match scaled_sum(vals, 0) {
        Some(Some(s)) => {
            crate::sql::arith::law_decimal_of_scaled(s, 0);
        },
        _ => {},
    }
    match scaled_sum(vals2, 0) {
        Some(Some(s)) => {
            crate::sql::arith::law_decimal_of_scaled(s, 0);
        },
        _ => {},
    }
}

/// Over integers that are not negative (and `Null`s), the scaled sum is
/// there, and is `None` exactly where every value is `Null`.
proof fn lemma_integer_sum(vals: Seq<ValueModel>)
    requires
        forall|i: int| 0 <= i < vals.len() ==> null_or_natural(#[trigger] vals[i]),
    ensures
        scaled_sum(vals, 0) matches Some(a) && (a is None <==> forall|i: int| 0 <= i < vals.len() ==> (#[trigger] vals[i]) is Null),
    decreases vals.len(),
{
    if vals.len() > 0 {
        let p = vals.drop_last();
        assert forall|i: int| 0 <= i < p.len() implies null_or_natural(#[trigger] p[i]) by {
            assert(p[i] == vals[i]);
        }
        lemma_integer_sum(p);
        assert(vals.last() == vals[vals.len() - 1]);
        assert(forall|i: int| 0 <= i < p.len() ==> p[i] == vals[i]);
    }
}

/// Sums the numbers of a column exactly: a `Float` where there is a number,
/// `Null` where all values are `Null`.
pub struct Sum;

impl Sum {
    pub fn new() -> (s: Self) {
        Sum
    }
}

impl Calculator for Sum {
    open spec fn result(&self, col: Seq<char>, cols: Seq<Seq<char>>, rows: Seq<Seq<ValueModel>>) -> Option<
        ValueModel,
    > {
        match column_values(col, cols, rows) {
            Some(vals) => match scaled_sum(vals, sum_scale(vals)) {
                Some(Some(s)) => Some(ValueModel::Float(decimal_of_scaled(s, sum_scale(vals)))),
                Some(None) => Some(ValueModel::Null),
                None => None,
            },
            None => None,
        }
    }

    fn calc(&self, col_name: &String, cols: &Vec<String>, rows: &Vec<Row>) -> (r: Result<Value>)
        ensures
            (column_values(col_name@, names_view(cols@), rows_view(rows@)) matches Some(vals) && scaled_sum(
                vals,
                sum_scale(vals),
            ) is None) ==> (r matches Err(Error::Internal(m)) && m@ == "cannot calc column "@ + col_name@),
    {
        let vals = values_of(col_name, cols, rows)?;
        let f = sum_scale_of(&vals);
        let digits = match sum_digits(&vals, f) {
            Ok(d) => d,
            Err(_) => {
                return Err(Error::Internal(String::from_str("cannot calc column ").concat(col_name.as_str())));
            },
        };
        match digits {
            Some(x) => Ok(Value::Float(decimal_of_digits(&x, f))),
            None => Ok(Value::Null),
        }
    }
}

/// The mean of the numbers of a column: their exact sum divided by the
/// number of values that are not `Null`, rounded down at `AVG_PLACES`
/// digits after the point of the sum; `Null` where all values are `Null`.
pub struct Avg;

impl Avg {
    pub fn new() -> (a: Self) {
        Avg
    }
}

impl Calculator for Avg {
    open spec fn result(&self, col: Seq<char>, cols: Seq<Seq<char>>, rows: Seq<Seq<ValueModel>>) -> Option<
        ValueModel,
    > {
        match column_values(col, cols, rows) {
            Some(vals) => {
                let f = sum_scale(vals);
                match scaled_sum(vals, f) {
                    Some(Some(s)) => if f + AVG_PLACES <= usize::MAX {
                        Some(
                            ValueModel::Float(
                                decimal_of_scaled(
                                    (s * pow10(AVG_PLACES as nat) / count_non_null(vals)) as nat,
                                    f + AVG_PLACES as nat,
                                ),
                            ),
                        )
                    } else {
                        None
                    },
                    Some(None) => Some(ValueModel::Null),
                    None => None,
                }
            },
            None => None,
        }
    }

    fn calc(&self, col_name: &String, cols: &Vec<String>, rows: &Vec<Row>) -> (r: Result<Value>)
        ensures
            (column_values(col_name@, names_view(cols@), rows_view(rows@)) matches Some(vals) && scaled_sum(
                vals,
                sum_scale(vals),
            ) is None) ==> (r matches Err(Error::Internal(m)) && m@ == "cannot calc column "@ + col_name@),
    {
        let vals = values_of(col_name, cols, rows)?;
        let f = sum_scale_of(&vals);
        let digits = match sum_digits(&vals, f) {
            Ok(d) => d,
            Err(_) => {
                return Err(Error::Internal(String::from_str("cannot calc column ").concat(col_name.as_str())));
            },
        };
        match digits {
            Some(x) => {
                let count = non_null_count(&vals);
                proof {
                    lemma_sum_counts(row_view(vals@), f as nat);
                }
                let g = match f.checked_add(AVG_PLACES) {
                    Some(g) => g,
                    None => {
                        return Err(Error::Internal(String::from_str("cannot calc column ").concat(col_name.as_str())));
                    },
                };
                let shifted = shift_digits(&x, AVG_PLACES);
                let q = divide_digits(&shifted, count);
                Ok(Value::Float(decimal_of_digits(&q, g)))
            },
            None => Ok(Value::Null),
        }
    }
}

/// The output row for one group.
fn agg_row_exec(
    items: &Vec<(Expression, Option<String>)>,
    group_col: &Option<String>,
    cols: &Vec<String>,
    rows: &Vec<Row>,
    key: &Option<Value>,
) -> (r: Result<Vec<Value>>)
    ensures
        r matches Err(e) ==> e is Internal,
        match agg_row(
            select_view(items@),
            crate::sql::plan::opt_str_view(*group_col),
            names_view(cols@),
            rows_view(rows@),
            match key {
                Some(k) => Some(k@),
                None => None::<ValueModel>,
            },
        ) {
            Some(vals) => r matches Ok(out) && row_view(out@) == vals,
            None => r is Err,
        },
{
    let ghost iv = select_view(items@);
    let ghost gv = crate::sql::plan::opt_str_view(*group_col);
    let ghost cv = names_view(cols@);
    let ghost rv = rows_view(rows@);
    let ghost kv = match key {
        Some(k) => Some(k@),
        None => None::<ValueModel>,
    };
    let mut out: Vec<Value> = Vec::new();
    let mut i: usize = 0;
    while i < items.len()
        invariant
            i <= items@.len(),
            iv == select_view(items@),
            gv == crate::sql::plan::opt_str_view(*group_col),
            cv == names_view(cols@),
            rv == rows_view(rows@),
            kv == match key {
                Some(k) => Some(k@),
                None => None::<ValueModel>,
            },
            agg_row(iv.take(i as int), gv, cv, rv, kv) == Some(row_view(out@)),
        decreases items@.len() - i,
    {
        assert(iv.take(i + 1).drop_last() =~= iv.take(i as int));
        assert(iv.take(i + 1).last() == iv[i as int]);
        assert(iv[i as int].0 == items@[i as int].0@);
        let v: Result<Value> = match &items[i].0 {
            Expression::Function(f, c) => calculate(f, c, cols, rows),
            Expression::Filed(c) => {
                let fits = match group_col {
                    Some(g) => crate::sql::text::str_eq(c.as_str(), g.as_str()),
                    None => true,
                };
                if !fits {
                    Err(
                        Error::Internal(
                            String::from_str(c.as_str()).concat(
                                " must appear in the Group By clause or aggregate function",
                            ),
                        ),
                    )
                } else {
                    match key {
                        Some(k) => Ok(k.copy()),
                        None => Err(Error::Internal(String::from_str("no group for column"))),
                    }
                }
            },
            _ => Err(Error::Internal(String::from_str("unexpeted expression"))),
        };
        match v {
            Ok(x) => {
                let ghost old = out@;
                out.push(x);
                assert(row_view(out@) =~= row_view(old).push(x@));
            },
            Err(e) => {
                proof {
                    lemma_agg_row_none(iv, gv, cv, rv, kv, i as int + 1);
                }
                return Err(e);
            },
        }
        i = i + 1;
    }
    assert(iv.take(i as int) =~= iv);
    Ok(out)
}

proof fn lemma_agg_row_none(
    items: Seq<(ExprModel, Option<Seq<char>>)>,
    group_col: Option<Seq<char>>,
    cols: Seq<Seq<char>>,
    rows: Seq<Seq<ValueModel>>,
    key: Option<ValueModel>,
    i: int,
)
    requires
        0 <= i <= items.len(),
        agg_row(items.take(i), group_col, cols, rows, key) is None,
    ensures
        agg_row(items, group_col, cols, rows, key) is None,
    decreases items.len() - i,
{
    if i < items.len() {
        assert(items.take(i + 1).drop_last() =~= items.take(i));
        lemma_agg_row_none(items, group_col, cols, rows, key, i + 1);
    } else {
        assert(items.take(i) =~= items);
    }
}

/// The distinct values at `pos`, in the order they first appear.
fn distinct_keys_exec(rows: &Vec<Row>, pos: usize) -> (r: Vec<Value>)
    requires
        rows_have_pos(rows_view(rows@), pos as int),
    ensures
        row_view(r@) == distinct_keys(rows_view(rows@), pos as int),
{
    let ghost rv = rows_view(rows@);
    let mut keys: Vec<Value> = Vec::new();
    let mut i: usize = 0;
    while i < rows.len()
        invariant
            i <= rows@.len(),
            rv == rows_view(rows@),
            rows_have_pos(rv, pos as int),
            row_view(keys@) == distinct_keys(rv.take(i as int), pos as int),
        decreases rows@.len() - i,
    {
        assert(rv.take(i + 1).drop_last() =~= rv.take(i as int));
        assert(rv.take(i + 1).last() == rv[i as int]);
        assert(rv[i as int] == row_view(rows@[i as int]@));
        assert(pos < rv[i as int].len());
        let k = &rows[i][pos];
        assert(rv[i as int][pos as int] == k@);
        let ghost kv = row_view(keys@);
        let mut j: usize = 0;
        let mut found = false;
        while j < keys.len()
            invariant
                j <= keys@.len(),
                kv == row_view(keys@),
                found ==> kv.contains(k@),
                !found ==> forall|q: int| 0 <= q < j ==> kv[q] != k@,
            decreases keys@.len() - j,
        {
            assert(kv[j as int] == keys@[j as int]@);
            if keys[j].equals(k) {
                found = true;
            }
            j = j + 1;
        }
        if !found {
            let ghost old = keys@;
            keys.push(k.copy());
            assert(row_view(keys@) =~= row_view(old).push(k@));
        }
        i = i + 1;
    }
    assert(rv.take(i as int) =~= rv);
    keys
}

/// The rows whose value at `pos` is `key`, in order.
fn rows_with_exec(rows: &Vec<Row>, pos: usize, key: &Value) -> (r: Vec<Row>)
    requires
        rows_have_pos(rows_view(rows@), pos as int),
    ensures
        rows_view(r@) == rows_with(rows_view(rows@), pos as int, key@),
{
    let ghost rv = rows_view(rows@);
    let mut out: Vec<Row> = Vec::new();
    let mut i: usize = 0;
    while i < rows.len()
        invariant
            i <= rows@.len(),
            rv == rows_view(rows@),
            rows_have_pos(rv, pos as int),
            rows_view(out@) == rows_with(rv.take(i as int), pos as int, key@),
        decreases rows@.len() - i,
    {
        assert(rv.take(i + 1).drop_last() =~= rv.take(i as int));
        assert(rv.take(i + 1).last() == rv[i as int]);
        assert(rv[i as int] == row_view(rows@[i as int]@));
        assert(pos < rv[i as int].len());
        assert(rv[i as int][pos as int] == rows@[i as int]@[pos as int]@);
        if rows[i][pos].equals(key) {
            let ghost old = out@;
            let c = crate::sql::types::copy_row(&rows[i]);
            out.push(c);
            assert(rows_view(out@) =~= rows_view(old).push(rv[i as int]));
        }
        i = i + 1;
    }
    assert(rv.take(i as int) =~= rv);
    out
}

fn rows_have_exec(rows: &Vec<Row>, pos: usize) -> (r: bool)
    ensures
        r == rows_have_pos(rows_view(rows@), pos as int),
{
    let ghost rv = rows_view(rows@);
    let mut i: usize = 0;
    while i < rows.len()
        invariant
            i <= rows@.len(),
            rv == rows_view(rows@),
            forall|j: int| 0 <= j < i ==> pos < (#[trigger] rv[j]).len(),
        decreases rows@.len() - i,
    {
        assert(rv[i as int] == row_view(rows@[i as int]@));
        if pos >= rows[i].len() {
            return false;
        }
        i = i + 1;
    }
    true
}

/// Computes aggregate functions over its source's rows, per group where
/// there is a `GROUP BY` column.
pub struct Aggregate {
    pub exprs: Vec<(Expression, Option<String>)>,
    pub group_by: Option<Expression>,
}

impl Aggregate {
    pub fn new(exprs: Vec<(Expression, Option<String>)>, group_by: Option<Expression>) -> (a: Self)
        ensures
            a.exprs == exprs,
            a.group_by == group_by,
    {
        Aggregate { exprs, group_by }
    }

    /// The aggregated result, as `agg_spec` says.
    pub fn execute(self, source: ResultSet) -> (r: Result<ResultSet>)
        ensures
            r matches Err(e) ==> e is Internal,
            match source@ {
                ResultSetModel::Scan { columns, rows } => match agg_spec(
                    select_view(self.exprs@),
                    opt_expr_view(self.group_by),
                    columns,
                    rows,
                ) {
                    Some((c2, r2)) => r matches Ok(o) && o@ == (ResultSetModel::Scan {
                        columns: c2,
                        rows: r2,
                    }),
                    None => r is Err,
                },
                _ => r is Err,
            },
    {
        match source {
            ResultSet::Scan { columns, rows } => {
                let (c2, r2) = aggregate_rows(&self.exprs, &self.group_by, &columns, &rows)?;
                Ok(ResultSet::Scan { columns: c2, rows: r2 })
            },
            _ => Err(Error::Internal(String::from_str("Unexpected result set"))),
        }
    }
}

/// The names the select items are shown under.
fn item_names(items: &Vec<(Expression, Option<String>)>) -> (r: Vec<String>)
    ensures
        names_view(r@) == select_view(items@).map_values(|e: (ExprModel, Option<Seq<char>>)| item_name(e)),
{
    let ghost iv = select_view(items@);
    let mut out: Vec<String> = Vec::new();
    let mut i: usize = 0;
    while i < items.len()
        invariant
            i <= items@.len(),
            iv == select_view(items@),
            names_view(out@) == iv.take(i as int).map_values(|e: (ExprModel, Option<Seq<char>>)| item_name(e)),
        decreases items@.len() - i,
    {
        assert(iv[i as int] == (items@[i as int].0@, crate::sql::plan::opt_str_view(items@[i as int].1)));
        let name = match &items[i].1 {
            Some(a) => a.clone(),
            None => match &items[i].0 {
                Expression::Function(f, _) => f.clone(),
                Expression::Filed(c) => c.clone(),
                _ => String::new(),
            },
        };
        assert(name@ == item_name(iv[i as int]));
        let ghost old = out@;
        out.push(name);
        assert(names_view(out@) =~= names_view(old).push(name@));
        assert(iv.take(i + 1).map_values(|e: (ExprModel, Option<Seq<char>>)| item_name(e)) =~= iv.take(i as int).map_values(|e: (ExprModel, Option<Seq<char>>)| item_name(e)).push(item_name(iv[i as int])));
        i = i + 1;
    }
    assert(iv.take(i as int) =~= iv);
    out
}

/// The aggregated columns and rows.
fn aggregate_rows(
    items: &Vec<(Expression, Option<String>)>,
    group_by: &Option<Expression>,
    cols: &Vec<String>,
    rows: &Vec<Row>,
) -> (r: Result<(Vec<String>, Vec<Row>)>)
    ensures
        r matches Err(e) ==> e is Internal,
        match agg_spec(select_view(items@), opt_expr_view(*group_by), names_view(cols@), rows_view(rows@)) {
            Some((c2, r2)) => r matches Ok((oc, orows)) && names_view(oc@) == c2 && rows_view(orows@) == r2,
            None => r is Err,
        },
{
    let ghost iv = select_view(items@);
    let ghost cv = names_view(cols@);
    let ghost rv = rows_view(rows@);
    let names = item_names(items);
    match group_by {
        Some(Expression::Filed(g)) => {
            let p = match position(cols, g) {
                Some(p) => p,
                None => {
                    return Err(
                        Error::Internal(
                            String::from_str("column ").concat(g.as_str()).concat(" is not in table"),
                        ),
                    );
                },
            };
            if !rows_have_exec(rows, p) {
                return Err(Error::Internal(String::from_str("row has fewer values than columns")));
            }
            let keys = distinct_keys_exec(rows, p);
            let ghost kv = row_view(keys@);
            let gc = Some(g.clone());
            let mut out: Vec<Row> = Vec::new();
            let mut i: usize = 0;
            while i < keys.len()
                invariant
                    i <= keys@.len(),
                    kv == row_view(keys@),
                    iv == select_view(items@),
                    cv == names_view(cols@),
                    rv == rows_view(rows@),
                    crate::sql::plan::opt_str_view(gc) == Some(g@),
                    opt_expr_view(*group_by) == Some(ExprModel::Filed(g@)),
                    spec_position(cv, g@) == Some(p as int),
                    kv == distinct_keys(rv, p as int),
                    rows_have_pos(rv, p as int),
                    out@.len() == i,
                    forall|q: int| 0 <= q < i ==> (#[trigger] agg_row(iv, Some(g@), cv, rows_with(rv, p as int, kv[q]), Some(kv[q]))) == Some(row_view(out@[q]@)),
                decreases keys@.len() - i,
            {
                assert(kv[i as int] == keys@[i as int]@);
                let group = rows_with_exec(rows, p, &keys[i]);
                let key = Some(keys[i].copy());
                match agg_row_exec(items, &gc, cols, &group, &key) {
                    Ok(row) => {
                        out.push(row);
                    },
                    Err(e) => {
                        assert(agg_row(iv, Some(g@), cv, rows_with(rv, p as int, kv[i as int]), Some(kv[i as int])) is None);
                        assert(!(forall|q: int| 0 <= q < kv.len() ==> (#[trigger] agg_row(iv, Some(g@), cv, rows_with(rv, p as int, kv[q]), Some(kv[q]))) is Some));
                        return Err(e);
                    },
                }
                i = i + 1;
            }
            let ghost keys_rows = kv.map_values(|k: ValueModel| agg_row(iv, Some(g@), cv, rows_with(rv, p as int, k), Some(k))->0);
            assert(rows_view(out@) =~= keys_rows);
            if keys.len() > 0 {
                Ok((names, out))
            } else {
                let empty: Vec<String> = Vec::new();
                assert(names_view(empty@) =~= Seq::<Seq<char>>::empty());
                Ok((empty, out))
            }
        },
        _ => {
            let none: Option<String> = None;
            let no_key: Option<Value> = None;
            let row = agg_row_exec(items, &none, cols, rows, &no_key)?;
            let mut out: Vec<Row> = Vec::new();
            let ghost r0 = row_view(row@);
            out.push(row);
            assert(rows_view(out@) =~= seq![r0]);
            Ok((names, out))
        },
    }
}

} // verus!
