//! The abstract syntax of the SQL statements, and the evaluation of
//! expressions against rows.
use vstd::prelude::*;

use crate::error::{Error, Result};
use crate::sql::number::Decimal;
use crate::sql::text::Order3;
use crate::sql::types::{row_wf, value_order, DataType, Value, ValueModel};

verus! {

/// A constant of the language.
#[derive(Debug, Clone, PartialEq)]
pub enum Consts {
    Null,
    Boolean(bool),
    Integer(i64),
    Float(Decimal),
    String(String),
}

/// An expression.
#[derive(Debug, PartialEq)]
pub enum Expression {
    /// A column, by name.
    Filed(String),
    Consts(Consts),
    Operation(Operation),
    /// An aggregate function applied to a column: the function's name, the
    /// column's name.
    Function(String, String),
}

/// A comparison of two expressions.
#[derive(Debug, PartialEq)]
pub enum Operation {
    Equal(Box<Expression>, Box<Expression>),
    GreaterThan(Box<Expression>, Box<Expression>),
    LessThan(Box<Expression>, Box<Expression>),
}

#[derive(Debug, Clone, Copy, PartialEq, Eq, Structural)]
pub enum OrderDirection {
    Asc,
    Desc,
}

#[derive(Debug, Clone, Copy, PartialEq, Eq, Structural)]
pub enum JoinType {
    Cross,
    Inner,
    Left,
    Right,
}

/// What a `SELECT` reads from: a table, or a join of two.
#[derive(Debug, PartialEq)]
pub enum FromItem {
    Table { name: String },
    Join {
        left: Box<FromItem>,
        right: Box<FromItem>,
        join_type: JoinType,
        predicate: Option<Expression>,
    },
}

/// A column as `CREATE TABLE` declares it.
#[derive(Debug, PartialEq)]
pub struct Column {
    pub name: String,
    pub datatype: DataType,
    pub nullable: Option<bool>,
    pub default: Option<Expression>,
    pub primary_key: bool,
}

/// A statement.
#[derive(Debug, PartialEq)]
pub enum Statement {
    CreateTable { name: String, columns: Vec<Column> },
    Insert {
        table_name: String,
        columns: Option<Vec<String>>,
        values: Vec<Vec<Expression>>,
    },
    Select {
        select: Vec<(Expression, Option<String>)>,
        from: FromItem,
        where_clause: Option<Expression>,
        group_by: Option<Expression>,
        having: Option<Expression>,
        order_by: Vec<(String, OrderDirection)>,
        limit: Option<Expression>,
        offset: Option<Expression>,
    },
    /// The columns to set, each once, in the order of their names.
    Update {
        table_name: String,
        columns: Vec<(String, Expression)>,
        where_clause: Option<Expression>,
    },
    Delete { table_name: String, where_clause: Option<Expression> },
    Begin,
    Commit,
    Rollback,
    Explain { stmt: Box<Statement> },
}

/// The mathematical form of a constant.
pub enum ConstsModel {
    Null,
    Boolean(bool),
    Integer(i64),
    Float((Seq<char>, Seq<char>)),
    String(Seq<char>),
}

/// The mathematical form of an expression.
pub enum ExprModel {
    Filed(Seq<char>),
    Consts(ConstsModel),
    Equal(Box<ExprModel>, Box<ExprModel>),
    GreaterThan(Box<ExprModel>, Box<ExprModel>),
    LessThan(Box<ExprModel>, Box<ExprModel>),
    Function(Seq<char>, Seq<char>),
}

impl View for Consts {
    type V = ConstsModel;

    open spec fn view(&self) -> ConstsModel {
        match self {
            Consts::Null => ConstsModel::Null,
            Consts::Boolean(b) => ConstsModel::Boolean(*b),
            Consts::Integer(i) => ConstsModel::Integer(*i),
            Consts::Float(d) => ConstsModel::Float(d@),
            Consts::String(s) => ConstsModel::String(s@),
        }
    }
}

pub open spec fn expr_view(e: Expression) -> ExprModel
    decreases e,
{
    match e {
        Expression::Filed(s) => ExprModel::Filed(s@),
        Expression::Consts(c) => ExprModel::Consts(c@),
        Expression::Operation(op) => match op {
            Operation::Equal(l, r) => ExprModel::Equal(
                Box::new(expr_view(*l)),
                Box::new(expr_view(*r)),
            ),
            Operation::GreaterThan(l, r) => ExprModel::GreaterThan(
                Box::new(expr_view(*l)),
                Box::new(expr_view(*r)),
            ),
            Operation::LessThan(l, r) => ExprModel::LessThan(
                Box::new(expr_view(*l)),
                Box::new(expr_view(*r)),
            ),
        },
        Expression::Function(f, c) => ExprModel::Function(f@, c@),
    }
}

impl View for Expression {
    type V = ExprModel;

    open spec fn view(&self) -> ExprModel {
        expr_view(*self)
    }
}

/// The value of a constant.
pub open spec fn const_value(c: ConstsModel) -> ValueModel {
    match c {
        ConstsModel::Null => ValueModel::Null,
        ConstsModel::Boolean(b) => ValueModel::Boolean(b),
        ConstsModel::Integer(i) => ValueModel::Integer(i),
        ConstsModel::Float(d) => ValueModel::Float(d),
        ConstsModel::String(s) => ValueModel::String(s),
    }
}

impl Consts {
    pub open spec fn wf(&self) -> bool {
        match self {
            Consts::Float(d) => d.wf(),
            _ => true,
        }
    }

    /// The value of the constant.
    pub fn to_value(&self) -> (v: Value)
        ensures
            v@ == const_value(self@),
            v.wf() == self.wf(),
    {
        match self {
            Consts::Null => Value::Null,
            Consts::Boolean(b) => Value::Boolean(*b),
            Consts::Integer(i) => Value::Integer(*i),
            Consts::Float(d) => Value::Float(d.copy()),
            Consts::String(s) => Value::String(s.clone()),
        }
    }
}

/// Its decimals are canonical.
pub open spec fn expr_wf(e: Expression) -> bool
    decreases e,
{
    match e {
        Expression::Consts(c) => c.wf(),
        Expression::Operation(op) => match op {
            Operation::Equal(l, r) => expr_wf(*l) && expr_wf(*r),
            Operation::GreaterThan(l, r) => expr_wf(*l) && expr_wf(*r),
            Operation::LessThan(l, r) => expr_wf(*l) && expr_wf(*r),
        },
        _ => true,
    }
}

impl Value {
    /// The value of a constant expression; other expressions have none.
    pub fn from_expression(expr: &Expression) -> (r: Option<Value>)
        ensures
            match expr@ {
                ExprModel::Consts(c) => r matches Some(v) && v@ == const_value(c) && (expr_wf(*expr)
                    ==> v.wf()),
                _ => r is None,
            },
    {
        match expr {
            Expression::Consts(c) => Some(c.to_value()),
            _ => None,
        }
    }
}

/// The position of the first name equal to `name`.
pub open spec fn spec_position(names: Seq<Seq<char>>, name: Seq<char>) -> Option<int> {
    if exists|i: int| 0 <= i < names.len() && names[i] == name {
        Some(choose|i: int| 0 <= i < names.len() && names[i] == name && forall|j: int| 0 <= j < i ==> names[j] != name)
    } else {
        None
    }
}

/// The first position of a name is where it first stands.
pub proof fn lemma_spec_position_first(names: Seq<Seq<char>>, name: Seq<char>, i: int)
    requires
        0 <= i < names.len(),
        names[i] == name,
        forall|k: int| 0 <= k < i ==> names[k] != name,
    ensures
        spec_position(names, name) == Some(i),
{
    assert(exists|j: int| 0 <= j < names.len() && names[j] == name);
    let j = choose|j: int| 0 <= j < names.len() && names[j] == name && forall|k: int| 0 <= k < j ==> names[k] != name;
    if j < i {
        assert(names[j] != name);
    } else if i < j {
        assert(names[i] != name);
    }
}

pub open spec fn names_view(names: Seq<String>) -> Seq<Seq<char>> {
    names.map_values(|s: String| s@)
}

/// Finds the first position of `name` among `names`.
pub fn position(names: &Vec<String>, name: &String) -> (r: Option<usize>)
    ensures
        match r {
            Some(i) => i < names@.len() && names@[i as int]@ == name@ && forall|j: int|
                0 <= j < i ==> names@[j]@ != name@,
            None => forall|j: int| 0 <= j < names@.len() ==> names@[j]@ != name@,
        },
        r matches Some(i) ==> spec_position(names_view(names@), name@) == Some(i as int),
        r is None ==> spec_position(names_view(names@), name@) is None,
{
    let mut i: usize = 0;
    while i < names.len()
        invariant
            i <= names@.len(),
            forall|j: int| 0 <= j < i ==> names@[j]@ != name@,
        decreases names@.len() - i,
    {
        if super::super::text::str_eq(names[i].as_str(), name.as_str()) {
            proof {
                let nv = names_view(names@);
                assert(nv[i as int] == name@);
                let k = choose|k: int| 0 <= k < nv.len() && nv[k] == name@ && forall|j: int| 0 <= j < k ==> nv[j] != name@;
                if k < i {
                    assert(names@[k]@ == nv[k]);
                }
                if k > i {
                    assert(nv[i as int] != name@);
                }
            }
            return Some(i);
        }
        i = i + 1;
    }
    proof {
        let nv = names_view(names@);
        assert forall|k: int| 0 <= k < nv.len() implies nv[k] != name@ by {
            assert(names@[k]@ == nv[k]);
        }
    }
    None
}

/// The outcome of comparing two values with an operator: `Null` where
/// either is `Null`, a boolean where they compare, nothing where they do not.
pub open spec fn compare_with(op: int, a: ValueModel, b: ValueModel) -> Option<ValueModel> {
    if a is Null || b is Null {
        Some(ValueModel::Null)
    } else {
        match value_order(a, b) {
            Some(o) => Some(
                ValueModel::Boolean(
                    if op == 0 {
                        o == Order3::Equal
                    } else if op == 1 {
                        o == Order3::Greater
                    } else {
                        o == Order3::Less
                    },
                ),
            ),
            None => None,
        }
    }
}

/// The comparisons `=`, `>` and `<` (operators 0, 1 and 2) on two values
/// that are not `Null` and that compare: exactly one of them holds; `a > b`
/// holds exactly when `b < a` does; and no value is greater or less than
/// itself, while each equals itself.
pub proof fn law_comparisons(a: ValueModel, b: ValueModel)
    requires
        !(a is Null),
        !(b is Null),
        value_order(a, b) is Some,
    ensures
        compare_with(1, a, b) == compare_with(2, b, a),
        compare_with(2, a, b) == compare_with(1, b, a),
        compare_with(0, a, b) == compare_with(0, b, a),
        ({
            let t = |op: int| compare_with(op, a, b) == Some(ValueModel::Boolean(true));
            let f = |op: int| compare_with(op, a, b) == Some(ValueModel::Boolean(false));
            &&& t(0) || t(1) || t(2)
            &&& t(0) ==> f(1) && f(2)
            &&& t(1) ==> f(0) && f(2)
            &&& t(2) ==> f(0) && f(1)
        }),
        value_order(a, a) is Some ==> compare_with(1, a, a) == Some(ValueModel::Boolean(false))
            && compare_with(2, a, a) == Some(ValueModel::Boolean(false)) && compare_with(0, a, a)
            == Some(ValueModel::Boolean(true)),
{
    crate::sql::executor::order::lemma_value_order_flip(a, b);
}

/// The value of an expression for a pair of rows, or `None` where it has
/// none: a column is looked up in the first row; an operation evaluates its
/// left side in (`lcols`, `lrow`) and its right side with the rows swapped.
pub open spec fn eval_spec(
    e: ExprModel,
    lcols: Seq<Seq<char>>,
    lrow: Seq<ValueModel>,
    rcols: Seq<Seq<char>>,
    rrow: Seq<ValueModel>,
) -> Option<ValueModel>
    decreases e,
{
    match e {
        ExprModel::Filed(name) => match spec_position(lcols, name) {
            Some(i) => if i < lrow.len() {
                Some(lrow[i])
            } else {
                None
            },
            None => None,
        },
        ExprModel::Consts(c) => Some(const_value(c)),
        ExprModel::Equal(l, r) => match (
            eval_spec(*l, lcols, lrow, rcols, rrow),
            eval_spec(*r, rcols, rrow, lcols, lrow),
        ) {
            (Some(a), Some(b)) => compare_with(0, a, b),
            _ => None,
        },
        ExprModel::GreaterThan(l, r) => match (
            eval_spec(*l, lcols, lrow, rcols, rrow),
            eval_spec(*r, rcols, rrow, lcols, lrow),
        ) {
            (Some(a), Some(b)) => compare_with(1, a, b),
            _ => None,
        },
        ExprModel::LessThan(l, r) => match (
            eval_spec(*l, lcols, lrow, rcols, rrow),
            eval_spec(*r, rcols, rrow, lcols, lrow),
        ) {
            (Some(a), Some(b)) => compare_with(2, a, b),
            _ => None,
        },
        ExprModel::Function(_, _) => None,
    }
}

/// Within one row (as a `WHERE` filter evaluates): `l > r` means what
/// `r < l` does, `l = r` what `r = l` does; and a column stands for the
/// row's value in it, found at the first column of that name.
pub proof fn law_row_comparisons(l: ExprModel, r: ExprModel, cols: Seq<Seq<char>>, row: Seq<ValueModel>, i: int)
    ensures
        eval_spec(ExprModel::GreaterThan(Box::new(l), Box::new(r)), cols, row, cols, row) == eval_spec(
            ExprModel::LessThan(Box::new(r), Box::new(l)),
            cols,
            row,
            cols,
            row,
        ),
        eval_spec(ExprModel::Equal(Box::new(l), Box::new(r)), cols, row, cols, row) == eval_spec(
            ExprModel::Equal(Box::new(r), Box::new(l)),
            cols,
            row,
            cols,
            row,
        ),
        0 <= i < cols.len() && i < row.len() && (forall|k: int| 0 <= k < i ==> cols[k] != cols[i])
            ==> eval_spec(ExprModel::Filed(cols[i]), cols, row, cols, row) == Some(row[i]),
{
    if let (Some(a), Some(b)) = (eval_spec(l, cols, row, cols, row), eval_spec(r, cols, row, cols, row)) {
        crate::sql::executor::order::lemma_value_order_flip(a, b);
    }
    if 0 <= i < cols.len() && i < row.len() && (forall|k: int| 0 <= k < i ==> cols[k] != cols[i]) {
        lemma_spec_position_first(cols, cols[i], i);
    }
}

fn compare_values(op: u8, a: Value, b: Value) -> (r: Result<Value>)
    requires
        op < 3,
    ensures
        match compare_with(op as int, a@, b@) {
            Some(v) => r matches Ok(w) && w@ == v,
            None => r is Err,
        },
{
    if let Value::Null = a {
        return Ok(Value::Null);
    }
    if let Value::Null = b {
        return Ok(Value::Null);
    }
    match a.partial_compare(&b) {
        Some(o) => {
            let res = if op == 0 {
                o == Order3::Equal
            } else if op == 1 {
                o == Order3::Greater
            } else {
                o == Order3::Less
            };
            Ok(Value::Boolean(res))
        },
        None => {
            let msg = String::from_str("can not compare exression ").concat(a.to_string().as_str()).concat(" and ").concat(b.to_string().as_str());
            Err(Error::Internal(msg))
        },
    }
}

/// Evaluates an expression for a pair of rows (a single row is passed as
/// both): its value as `eval_spec` says, or an error where it has none.
pub fn evaluate_expr(
    expr: &Expression,
    lcols: &Vec<String>,
    lrow: &Vec<Value>,
    rcols: &Vec<String>,
    rrow: &Vec<Value>,
) -> (r: Result<Value>)
    ensures
        match eval_spec(
            expr@,
            names_view(lcols@),
            crate::sql::types::row_view(lrow@),
            names_view(rcols@),
            crate::sql::types::row_view(rrow@),
        ) {
            Some(v) => r matches Ok(w) && w@ == v,
            None => r is Err,
        },
    decreases expr,
{
    match expr {
        Expression::Filed(col_name) => {
            match position(lcols, col_name) {
                Some(pos) => {
                    if pos < lrow.len() {
                        Ok(lrow[pos].copy())
                    } else {
                        Err(Error::Internal(String::from_str("row has fewer values than columns")))
                    }
                },
                None => Err(
                    Error::Internal(
                        String::from_str("column ").concat(col_name.as_str()).concat(
                            " is not in table",
                        ),
                    ),
                ),
            }
        },
        Expression::Consts(c) => Ok(c.to_value()),
        Expression::Operation(operation) => {
            let (op, l, rr) = match operation {
                Operation::Equal(l, rr) => (0u8, l, rr),
                Operation::GreaterThan(l, rr) => (1u8, l, rr),
                Operation::LessThan(l, rr) => (2u8, l, rr),
            };
            let lv = evaluate_expr(l, lcols, lrow, rcols, rrow)?;
            let rv = evaluate_expr(rr, rcols, rrow, lcols, lrow)?;
            compare_values(op, lv, rv)
        },
        Expression::Function(_, _) => Err(Error::Internal(String::from_str("unexpected expression"))),
    }
}


impl Expression {
    /// A copy of the expression.
    pub fn copy(&self) -> (r: Expression)
        ensures
            r@ == self@,
            expr_wf(r) == expr_wf(*self),
        decreases self,
    {
        match self {
            Expression::Filed(s) => Expression::Filed(s.clone()),
            Expression::Consts(c) => Expression::Consts(
                match c {
                    Consts::Null => Consts::Null,
                    Consts::Boolean(b) => Consts::Boolean(*b),
                    Consts::Integer(i) => Consts::Integer(*i),
                    Consts::Float(d) => Consts::Float(d.copy()),
                    Consts::String(s) => Consts::String(s.clone()),
                },
            ),
            Expression::Operation(op) => Expression::Operation(
                match op {
                    Operation::Equal(l, r) => Operation::Equal(Box::new(l.copy()), Box::new(r.copy())),
                    Operation::GreaterThan(l, r) => Operation::GreaterThan(
                        Box::new(l.copy()),
                        Box::new(r.copy()),
                    ),
                    Operation::LessThan(l, r) => Operation::LessThan(
                        Box::new(l.copy()),
                        Box::new(r.copy()),
                    ),
                },
            ),
            Expression::Function(f, c) => Expression::Function(f.clone(), c.clone()),
        }
    }
}

/// A copy of an optional expression.
pub fn copy_opt_expr(e: &Option<Expression>) -> (r: Option<Expression>)
    ensures
        match (r, *e) {
            (Some(a), Some(b)) => a@ == b@ && (expr_wf(a) == expr_wf(b)),
            (None, None) => true,
            _ => false,
        },
{
    match e {
        Some(x) => Some(x.copy()),
        None => None,
    }
}

} // verus!
