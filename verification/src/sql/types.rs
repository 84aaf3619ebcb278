//! The values that the database stores, and their types.
use vstd::prelude::*;

use super::number::{decimal_lt, decimal_text, int_text, nat_digits, Decimal};
use super::text::{chars_lt, Order3};

verus! {

/// The type of a column.
#[derive(PartialEq, Eq, Structural, Clone, Copy, Debug)]
pub enum DataType {
    Boolean,
    Integer,
    Float,
    String,
}

/// A value of a row. Floating-point values are kept as canonical decimals.
#[derive(Debug, Clone, PartialEq)]
pub enum Value {
    Null,
    Boolean(bool),
    Integer(i64),
    Float(Decimal),
    String(String),
}

/// The mathematical form of a `Value`.
pub enum ValueModel {
    Null,
    Boolean(bool),
    Integer(i64),
    Float((Seq<char>, Seq<char>)),
    String(Seq<char>),
}

impl View for Value {
    type V = ValueModel;

    open spec fn view(&self) -> ValueModel {
        match self {
            Value::Null => ValueModel::Null,
            Value::Boolean(b) => ValueModel::Boolean(*b),
            Value::Integer(i) => ValueModel::Integer(*i),
            Value::Float(d) => ValueModel::Float(d@),
            Value::String(s) => ValueModel::String(s@),
        }
    }
}

/// A row: one value per column.
pub type Row = Vec<Value>;

pub open spec fn row_view(r: Seq<Value>) -> Seq<ValueModel> {
    r.map_values(|v: Value| v@)
}

pub open spec fn rows_view(rs: Seq<Row>) -> Seq<Seq<ValueModel>> {
    rs.map_values(|r: Row| row_view(r@))
}

/// The type of a value; none for `Null`.
pub open spec fn datatype_of(v: ValueModel) -> Option<DataType> {
    match v {
        ValueModel::Null => None,
        ValueModel::Boolean(_) => Some(DataType::Boolean),
        ValueModel::Integer(_) => Some(DataType::Integer),
        ValueModel::Float(_) => Some(DataType::Float),
        ValueModel::String(_) => Some(DataType::String),
    }
}

/// The text a value is shown as.
pub open spec fn value_text(v: ValueModel) -> Seq<char> {
    match v {
        ValueModel::Null => "NULL"@,
        ValueModel::Boolean(b) => if b {
            "TRUE"@
        } else {
            "FALSE"@
        },
        ValueModel::Integer(i) => int_text(i as int),
        ValueModel::Float(d) => decimal_text(d),
        ValueModel::String(s) => s,
    }
}

pub open spec fn flip(o: Order3) -> Order3 {
    match o {
        Order3::Less => Order3::Greater,
        Order3::Equal => Order3::Equal,
        Order3::Greater => Order3::Less,
    }
}

pub open spec fn order_of(lt: bool, eq: bool) -> Order3 {
    if eq {
        Order3::Equal
    } else if lt {
        Order3::Less
    } else {
        Order3::Greater
    }
}

/// How an integer compares with a (non-negative) decimal, by their numbers.
pub open spec fn int_decimal_order(i: i64, d: (Seq<char>, Seq<char>)) -> Order3 {
    if i < 0 {
        Order3::Less
    } else {
        let di = (nat_digits(i as nat), Seq::<char>::empty());
        order_of(decimal_lt(di, d), di == d)
    }
}

/// How two values compare, where they can be compared: `Null` first, then
/// booleans, numbers by their values, strings by their characters; values
/// of other kinds cannot be compared.
pub open spec fn value_order(a: ValueModel, b: ValueModel) -> Option<Order3> {
    match (a, b) {
        (ValueModel::Null, ValueModel::Null) => Some(Order3::Equal),
        (ValueModel::Null, _) => Some(Order3::Less),
        (_, ValueModel::Null) => Some(Order3::Greater),
        (ValueModel::Boolean(x), ValueModel::Boolean(y)) => Some(order_of(!x && y, x == y)),
        (ValueModel::Integer(x), ValueModel::Integer(y)) => Some(order_of(x < y, x == y)),
        (ValueModel::Integer(x), ValueModel::Float(d)) => Some(int_decimal_order(x, d)),
        (ValueModel::Float(d), ValueModel::Integer(x)) => Some(flip(int_decimal_order(x, d))),
        (ValueModel::Float(d), ValueModel::Float(e)) => Some(order_of(decimal_lt(d, e), d == e)),
        (ValueModel::String(s), ValueModel::String(t)) => Some(order_of(chars_lt(s, t), s == t)),
        _ => None,
    }
}

impl Value {
    /// Its decimals are canonical.
    pub open spec fn wf(&self) -> bool {
        match self {
            Value::Float(d) => d.wf(),
            _ => true,
        }
    }

    pub fn datatype(&self) -> (t: Option<DataType>)
        ensures
            t == datatype_of(self@),
    {
        match self {
            Value::Null => None,
            Value::Boolean(_) => Some(DataType::Boolean),
            Value::Integer(_) => Some(DataType::Integer),
            Value::Float(_) => Some(DataType::Float),
            Value::String(_) => Some(DataType::String),
        }
    }

    /// A copy of the value.
    pub fn copy(&self) -> (r: Value)
        ensures
            r@ == self@,
            r.wf() == self.wf(),
    {
        match self {
            Value::Null => Value::Null,
            Value::Boolean(b) => Value::Boolean(*b),
            Value::Integer(i) => Value::Integer(*i),
            Value::Float(d) => Value::Float(d.copy()),
            Value::String(s) => Value::String(s.clone()),
        }
    }

    /// The two values are the same.
    pub fn equals(&self, other: &Value) -> (r: bool)
        ensures
            r == (self@ == other@),
    {
        match (self, other) {
            (Value::Null, Value::Null) => true,
            (Value::Boolean(a), Value::Boolean(b)) => *a == *b,
            (Value::Integer(a), Value::Integer(b)) => *a == *b,
            (Value::Float(a), Value::Float(b)) => a.compare(b) == Order3::Equal,
            (Value::String(a), Value::String(b)) => super::text::str_eq(a.as_str(), b.as_str()),
            _ => false,
        }
    }

    /// The text the value is shown as.
    pub fn to_string(&self) -> (s: String)
        ensures
            s@ == value_text(self@),
    {
        match self {
            Value::Null => String::from_str("NULL"),
            Value::Boolean(b) => if *b {
                String::from_str("TRUE")
            } else {
                String::from_str("FALSE")
            },
            Value::Integer(i) => super::number::i64_to_string(*i),
            Value::Float(d) => d.to_string(),
            Value::String(s) => s.clone(),
        }
    }

    /// Compares two values, where they can be compared.
    pub fn partial_compare(&self, other: &Value) -> (r: Option<Order3>)
        ensures
            r == value_order(self@, other@),
    {
        match (self, other) {
            (Value::Null, Value::Null) => Some(Order3::Equal),
            (Value::Null, _) => Some(Order3::Less),
            (_, Value::Null) => Some(Order3::Greater),
            (Value::Boolean(x), Value::Boolean(y)) => Some(
                if *x == *y {
                    Order3::Equal
                } else if !*x {
                    Order3::Less
                } else {
                    Order3::Greater
                },
            ),
            (Value::Integer(x), Value::Integer(y)) => Some(
                if *x == *y {
                    Order3::Equal
                } else if *x < *y {
                    Order3::Less
                } else {
                    Order3::Greater
                },
            ),
            (Value::Integer(x), Value::Float(d)) => Some(int_decimal_compare(*x, d)),
            (Value::Float(d), Value::Integer(x)) => Some(
                match int_decimal_compare(*x, d) {
                    Order3::Less => Order3::Greater,
                    Order3::Equal => Order3::Equal,
                    Order3::Greater => Order3::Less,
                },
            ),
            (Value::Float(d), Value::Float(e)) => Some(d.compare(e)),
            (Value::String(s), Value::String(t)) => Some(
                super::text::compare_str(s.as_str(), t.as_str()),
            ),
            _ => None,
        }
    }
}

fn int_decimal_compare(i: i64, d: &Decimal) -> (r: Order3)
    ensures
        r == int_decimal_order(i, d@),
{
    if i < 0 {
        Order3::Less
    } else {
        let di = Decimal::from_u64(i as u64);
        di.compare(d)
    }
}

/// A copy of a row.
pub fn copy_row(r: &Row) -> (c: Row)
    ensures
        row_view(c@) == row_view(r@),
        (forall|i: int| 0 <= i < r@.len() ==> (#[trigger] r@[i]).wf()) ==> forall|i: int|
            0 <= i < c@.len() ==> (#[trigger] c@[i]).wf(),
{
    let mut c: Row = Vec::new();
    let mut i: usize = 0;
    while i < r.len()
        invariant
            i <= r@.len(),
            row_view(c@) == row_view(r@.take(i as int)),
            (forall|j: int| 0 <= j < r@.len() ==> (#[trigger] r@[j]).wf()) ==> forall|j: int|
                0 <= j < c@.len() ==> (#[trigger] c@[j]).wf(),
        decreases r@.len() - i,
    {
        let ghost old_c = c@;
        c.push(r[i].copy());
        proof {
            let t = r@.take(i + 1);
            assert(row_view(old_c).len() == i);
            assert forall|j: int| 0 <= j < i + 1 implies row_view(c@)[j] == row_view(t)[j] by {
                if j < i {
                    assert(row_view(old_c)[j] == row_view(r@.take(i as int))[j]);
                }
            }
        }
        i = i + 1;
        assert(row_view(c@) =~= row_view(r@.take(i as int)));
    }
    assert(r@.take(i as int) =~= r@);
    c
}

/// All values of the row are well-formed.
pub open spec fn row_wf(r: Seq<Value>) -> bool {
    forall|i: int| 0 <= i < r.len() ==> (#[trigger] r[i]).wf()
}

} // verus!
