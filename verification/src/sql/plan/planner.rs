//! Turns statements into plans.
use vstd::prelude::*;

use super::{
    opt_expr_view, order_view, select_view, set_view, values_view, Node, NodeModel, Plan,
};
use crate::error::{Error, Result};
use crate::sql::engine::kv::{table_read, KVTransaction};
use crate::sql::parser::ast;
use crate::sql::parser::grammar::{column_def_view, columns_view, from_view, ColumnDefModel, FromModel, StatementModel};
use crate::sql::parser::ast::{
    const_value, names_view, ConstsModel, ExprModel, Expression, FromItem, JoinType, Operation,
};
use crate::sql::schema::{Column, ColumnModel, Table, TableModel};
use crate::sql::types::{Value, ValueModel};
use crate::storage::engine::Engine as StorageEngine;
use crate::storage::mvcc::{store_wf, Mvcc, TransactionState};

verus! {

/// Where a filter compares a column with a value: the column's name and the
/// value. A column alone is compared with `Null`, a constant alone has the
/// empty name.
pub open spec fn filter_target(e: ExprModel) -> Option<(Seq<char>, ValueModel)>
    decreases e,
{
    match e {
        ExprModel::Filed(f) => Some((f, ValueModel::Null)),
        ExprModel::Consts(c) => Some((Seq::empty(), const_value(c))),
        ExprModel::Equal(l, r) => match (filter_target(*l), filter_target(*r)) {
            (Some(a), Some(b)) => Some((a.0, b.1)),
            _ => None,
        },
        _ => None,
    }
}

/// Table `t` has a primary-key column named `name`.
pub open spec fn is_pk_column(t: TableModel, name: Seq<char>) -> bool {
    exists|i: int| 0 <= i < t.columns.len() && t.columns[i].name == name && t.columns[i].primary_key
}

/// The plan for reading table `table_name` under `filter`: a lookup by
/// primary key where the filter compares the primary-key column, else a scan.
pub open spec fn scan_plan(
    c: Map<Seq<u8>, Seq<u8>>,
    st: TransactionState,
    table_name: Seq<char>,
    filter: Option<ExprModel>,
) -> Option<NodeModel> {
    match filter {
        Some(e) => match filter_target(e) {
            Some((field, value)) => match table_read(c, st, table_name) {
                Some(Some(t)) => if is_pk_column(t, field) {
                    Some(NodeModel::PrimaryKeyScan { table_name, value })
                } else {
                    Some(NodeModel::Scan { table_name, filter })
                },
                _ => None,
            },
            None => Some(NodeModel::Scan { table_name, filter }),
        },
        None => Some(NodeModel::Scan { table_name, filter }),
    }
}

/// The plan for reading `item`: scans of its tables, joined; a right join is
/// turned into a left join of the swapped sides.
pub open spec fn from_plan(
    c: Map<Seq<u8>, Seq<u8>>,
    st: TransactionState,
    item: FromItem,
    filter: Option<ExprModel>,
) -> Option<NodeModel>
    decreases item,
{
    match item {
        FromItem::Table { name } => scan_plan(c, st, name@, filter),
        FromItem::Join { left, right, join_type, predicate } => {
            let outer = !(join_type == JoinType::Cross || join_type == JoinType::Inner);
            let sides = if join_type == JoinType::Right {
                (from_plan(c, st, *right, filter), from_plan(c, st, *left, filter))
            } else {
                (from_plan(c, st, *left, filter), from_plan(c, st, *right, filter))
            };
            match sides {
                (Some(l), Some(r)) => Some(
                    if join_type == JoinType::Cross {
                        NodeModel::NestedLoopJoin {
                            left: Box::new(l),
                            right: Box::new(r),
                            predicate: opt_expr_view(predicate),
                            outer,
                        }
                    } else {
                        NodeModel::HashJoin {
                            left: Box::new(l),
                            right: Box::new(r),
                            predicate: opt_expr_view(predicate),
                            outer,
                        }
                    },
                ),
                _ => None,
            }
        },
    }
}

/// A column may be null: as declared, else unless it is the primary key.
pub open spec fn column_nullable(c: ast::Column) -> bool {
    match c.nullable {
        Some(b) => b,
        None => !c.primary_key,
    }
}

/// The default of a column: its constant, else `Null` where the column may
/// be null; `None` where the default is not a constant.
pub open spec fn column_default(c: ast::Column) -> Option<Option<ValueModel>> {
    match c.default {
        Some(e) => match e@ {
            ExprModel::Consts(k) => Some(Some(const_value(k))),
            _ => None,
        },
        None => if column_nullable(c) {
            Some(Some(ValueModel::Null))
        } else {
            Some(None)
        },
    }
}

/// The schema column for a declared column.
pub open spec fn column_plan(c: ast::Column) -> Option<ColumnModel> {
    match column_default(c) {
        Some(d) => Some(
            ColumnModel {
                name: c.name@,
                datatype: c.datatype,
                nullable: column_nullable(c),
                default: d,
                primary_key: c.primary_key,
            },
        ),
        None => None,
    }
}

/// A select list with an aggregate function in it.
pub open spec fn has_aggregate(select: Seq<(ExprModel, Option<Seq<char>>)>) -> bool {
    exists|i: int| 0 <= i < select.len() && select[i].0 is Function
}

/// The count of a `LIMIT` or `OFFSET`: none where there is no clause, and
/// `None` where the clause is not an integer constant.
pub open spec fn count_of(e: Option<ExprModel>) -> Option<Option<usize>> {
    match e {
        None => Some(None),
        Some(ExprModel::Consts(ConstsModel::Integer(i))) => Some(Some(i as usize)),
        Some(_) => None,
    }
}

/// The plan of a `SELECT` over the plan `from` of its tables: aggregation,
/// `HAVING`, `ORDER BY`, `OFFSET`, `LIMIT` and projection, in this order,
/// each where the statement asks for it.
pub open spec fn select_plan(
    from: NodeModel,
    select: Seq<(ExprModel, Option<Seq<char>>)>,
    group_by: Option<ExprModel>,
    having: Option<ExprModel>,
    order_by: Seq<(Seq<char>, ast::OrderDirection)>,
    limit: Option<ExprModel>,
    offset: Option<ExprModel>,
) -> Option<NodeModel> {
    let agg = select.len() > 0 && has_aggregate(select);
    let n1 = if agg {
        NodeModel::Aggregate { source: Box::new(from), exprs: select, group_by }
    } else {
        from
    };
    let n2 = if having is Some {
        NodeModel::Filter { source: Box::new(n1), predicate: having }
    } else {
        n1
    };
    let n3 = if order_by.len() > 0 {
        NodeModel::Order { source: Box::new(n2), order_by }
    } else {
        n2
    };
    match (count_of(offset), count_of(limit)) {
        (Some(o), Some(l)) => {
            let n4 = match o {
                Some(k) => NodeModel::Offset { source: Box::new(n3), offset: k },
                None => n3,
            };
            let n5 = match l {
                Some(k) => NodeModel::Limit { source: Box::new(n4), limit: k },
                None => n4,
            };
            Some(
                if select.len() > 0 && !agg {
                    NodeModel::Projection { source: Box::new(n5), select }
                } else {
                    n5
                },
            )
        },
        _ => None,
    }
}

/// The plan of a statement, as the planner builds it; `None` where it
/// refuses the statement.
pub open spec fn plan_spec(
    c: Map<Seq<u8>, Seq<u8>>,
    st: TransactionState,
    stmt: ast::Statement,
) -> Option<NodeModel> {
    match stmt {
        ast::Statement::CreateTable { name, columns } => if forall|i: int|
            0 <= i < columns@.len() ==> (#[trigger] column_plan(columns@[i])) is Some {
            Some(
                NodeModel::CreateTable {
                    schema: TableModel {
                        name: name@,
                        columns: columns@.map_values(|col: ast::Column| column_plan(col)->0),
                    },
                },
            )
        } else {
            None
        },
        ast::Statement::Insert { table_name, columns, values } => Some(
            NodeModel::Insert {
                table_name: table_name@,
                columns: match columns {
                    Some(cs) => names_view(cs@),
                    None => Seq::empty(),
                },
                values: values_view(values@),
            },
        ),
        ast::Statement::Select {
            select,
            from,
            where_clause,
            group_by,
            having,
            order_by,
            limit,
            offset,
        } => match from_plan(c, st, from, opt_expr_view(where_clause)) {
            Some(n) => select_plan(
                n,
                select_view(select@),
                opt_expr_view(group_by),
                opt_expr_view(having),
                order_view(order_by@),
                opt_expr_view(limit),
                opt_expr_view(offset),
            ),
            None => None,
        },
        ast::Statement::Update { table_name, columns, where_clause } => match scan_plan(
            c,
            st,
            table_name@,
            opt_expr_view(where_clause),
        ) {
            Some(n) => Some(
                NodeModel::Update {
                    table_name: table_name@,
                    source: Box::new(n),
                    columns: set_view(columns@),
                },
            ),
            None => None,
        },
        ast::Statement::Delete { table_name, where_clause } => match scan_plan(
            c,
            st,
            table_name@,
            opt_expr_view(where_clause),
        ) {
            Some(n) => Some(NodeModel::Delete { table_name: table_name@, source: Box::new(n) }),
            None => None,
        },
        _ => None,
    }
}

/// `from_plan`, over the mathematical form of the `FROM` item.
pub open spec fn from_plan_model(
    c: Map<Seq<u8>, Seq<u8>>,
    st: TransactionState,
    item: FromModel,
    filter: Option<ExprModel>,
) -> Option<NodeModel>
    decreases item,
{
    match item {
        FromModel::Table { name } => scan_plan(c, st, name, filter),
        FromModel::Join { left, right, join_type, predicate } => {
            let outer = !(join_type == JoinType::Cross || join_type == JoinType::Inner);
            let sides = if join_type == JoinType::Right {
                (from_plan_model(c, st, *right, filter), from_plan_model(c, st, *left, filter))
            } else {
                (from_plan_model(c, st, *left, filter), from_plan_model(c, st, *right, filter))
            };
            match sides {
                (Some(l), Some(r)) => Some(
                    if join_type == JoinType::Cross {
                        NodeModel::NestedLoopJoin { left: Box::new(l), right: Box::new(r), predicate, outer }
                    } else {
                        NodeModel::HashJoin { left: Box::new(l), right: Box::new(r), predicate, outer }
                    },
                ),
                _ => None,
            }
        },
    }
}

/// `column_plan`, over the mathematical form of the declared column.
pub open spec fn column_plan_model(c: ColumnDefModel) -> Option<ColumnModel> {
    let nullable = match c.nullable {
        Some(b) => b,
        None => !c.primary_key,
    };
    let default = match c.default {
        Some(e) => match e {
            ExprModel::Consts(k) => Some(Some(const_value(k))),
            _ => None,
        },
        None => if nullable {
            Some(Some(ValueModel::Null))
        } else {
            Some(None)
        },
    };
    match default {
        Some(d) => Some(
            ColumnModel {
                name: c.name,
                datatype: c.datatype,
                nullable,
                default: d,
                primary_key: c.primary_key,
            },
        ),
        None => None,
    }
}

/// The plan of a statement, over its mathematical form.
pub open spec fn plan_model(
    c: Map<Seq<u8>, Seq<u8>>,
    st: TransactionState,
    m: StatementModel,
) -> Option<NodeModel> {
    match m {
        StatementModel::CreateTable { name, columns } => if forall|i: int|
            0 <= i < columns.len() ==> (#[trigger] column_plan_model(columns[i])) is Some {
            Some(
                NodeModel::CreateTable {
                    schema: TableModel {
                        name,
                        columns: columns.map_values(|col: ColumnDefModel| column_plan_model(col)->0),
                    },
                },
            )
        } else {
            None
        },
        StatementModel::Insert { table_name, columns, values } => Some(
            NodeModel::Insert {
                table_name,
                columns: match columns {
                    Some(cs) => cs,
                    None => Seq::empty(),
                },
                values,
            },
        ),
        StatementModel::Select {
            select,
            from,
            where_clause,
            group_by,
            having,
            order_by,
            limit,
            offset,
        } => match from_plan_model(c, st, from, where_clause) {
            Some(n) => select_plan(n, select, group_by, having, order_by, limit, offset),
            None => None,
        },
        StatementModel::Update { table_name, columns, where_clause } => match scan_plan(
            c,
            st,
            table_name,
            where_clause,
        ) {
            Some(n) => Some(NodeModel::Update { table_name, source: Box::new(n), columns }),
            None => None,
        },
        StatementModel::Delete { table_name, where_clause } => match scan_plan(
            c,
            st,
            table_name,
            where_clause,
        ) {
            Some(n) => Some(NodeModel::Delete { table_name, source: Box::new(n) }),
            None => None,
        },
        _ => None,
    }
}

proof fn lemma_from_plan_model(
    c: Map<Seq<u8>, Seq<u8>>,
    st: TransactionState,
    item: FromItem,
    filter: Option<ExprModel>,
)
    ensures
        from_plan(c, st, item, filter) == from_plan_model(c, st, from_view(item), filter),
    decreases item,
{
    match item {
        FromItem::Table { .. } => {},
        FromItem::Join { left, right, .. } => {
            lemma_from_plan_model(c, st, *left, filter);
            lemma_from_plan_model(c, st, *right, filter);
        },
    }
}

/// The plan of a statement depends on its mathematical form alone.
pub proof fn lemma_plan_model(c: Map<Seq<u8>, Seq<u8>>, st: TransactionState, stmt: ast::Statement)
    ensures
        plan_spec(c, st, stmt) == plan_model(c, st, stmt@),
{
    match stmt {
        ast::Statement::CreateTable { name, columns } => {
            let cv = columns_view(columns@);
            assert forall|i: int| 0 <= i < columns@.len() implies column_plan(columns@[i]) == column_plan_model(
                #[trigger] cv[i],
            ) by {
                assert(cv[i] == column_def_view(columns@[i]));
            }
            if forall|i: int| 0 <= i < columns@.len() ==> (#[trigger] column_plan(columns@[i])) is Some {
                assert forall|i: int| 0 <= i < cv.len() implies (#[trigger] column_plan_model(cv[i])) is Some by {
                    assert(column_plan(columns@[i]) is Some);
                }
                assert(columns@.map_values(|col: ast::Column| column_plan(col)->0) =~= cv.map_values(
                    |col: ColumnDefModel| column_plan_model(col)->0,
                ));
            } else {
                let i = choose|i: int| 0 <= i < columns@.len() && !(#[trigger] column_plan(columns@[i]) is Some);
                assert(!(column_plan_model(cv[i]) is Some));
            }
        },
        ast::Statement::Select { from, where_clause, .. } => {
            lemma_from_plan_model(c, st, from, opt_expr_view(where_clause));
        },
        _ => {},
    }
}

/// Builds plans for the statements of a transaction.
pub struct Planner<'a> {
    txn: &'a KVTransaction,
}

impl<'a> Planner<'a> {
    pub closed spec fn state(&self) -> TransactionState {
        self.txn.state()
    }

    pub fn new(txn: &'a KVTransaction) -> (p: Self)
        ensures
            p.state() == txn.state(),
    {
        Planner { txn }
    }

    /// The plan of a statement.
    pub fn build<E: StorageEngine>(&self, kv: &mut Mvcc<E>, stmt: ast::Statement) -> (r: Result<
        Plan,
    >)
        requires
            old(kv).wf(),
        ensures
            final(kv).wf(),
            final(kv).infallible() == old(kv).infallible(),
            final(kv).contents() == old(kv).contents(),
            r matches Ok(p) ==> plan_spec(old(kv).contents(), self.state(), stmt) == Some(p.0@),
            old(kv).infallible() && store_wf(old(kv).contents()) ==> (r is Ok <==> plan_spec(
                old(kv).contents(),
                self.state(),
                stmt,
            ) is Some),
    {
        Ok(Plan(self.build_statement(kv, stmt)?))
    }

    /// Where a filter compares a column with a value: its name and the value.
    fn parse_scan_filter(e: &Expression) -> (r: Option<(String, Value)>)
        ensures
            match filter_target(e@) {
                Some((f, v)) => r matches Some((s, x)) && s@ == f && x@ == v,
                None => r is None,
            },
        decreases e,
    {
        match e {
            Expression::Filed(f) => Some((f.clone(), Value::Null)),
            Expression::Consts(c) => Some((String::new(), c.to_value())),
            Expression::Operation(op) => match op {
                Operation::Equal(l, r) => {
                    let lv = Self::parse_scan_filter(l);
                    let rv = Self::parse_scan_filter(r);
                    match (lv, rv) {
                        (Some((f, _)), Some((_, v))) => Some((f, v)),
                        _ => None,
                    }
                },
                _ => None,
            },
            Expression::Function(_, _) => None,
        }
    }

    /// The plan for reading table `table_name` under `filter`.
    fn build_scan<E: StorageEngine>(
        &self,
        kv: &mut Mvcc<E>,
        table_name: String,
        filter: Option<Expression>,
    ) -> (r: Result<Node>)
        requires
            old(kv).wf(),
        ensures
            final(kv).wf(),
            final(kv).infallible() == old(kv).infallible(),
            final(kv).contents() == old(kv).contents(),
            r matches Ok(n) ==> scan_plan(
                old(kv).contents(),
                self.state(),
                table_name@,
                opt_expr_view(filter),
            ) == Some(n@),
            old(kv).infallible() && store_wf(old(kv).contents()) ==> (r is Ok <==> scan_plan(
                old(kv).contents(),
                self.state(),
                table_name@,
                opt_expr_view(filter),
            ) is Some),
    {
        let target = match &filter {
            Some(e) => Self::parse_scan_filter(e),
            None => None,
        };
        match target {
            Some((field, value)) => {
                let table = self.txn.must_get_table(kv, table_name.clone())?;
                if pk_named(&table, &field) {
                    return Ok(Node::PrimaryKeyScan { table_name, value });
                }
                Ok(Node::Scan { table_name, filter })
            },
            None => Ok(Node::Scan { table_name, filter }),
        }
    }

    /// The plan for reading `item`.
    fn build_from_item<E: StorageEngine>(
        &self,
        kv: &mut Mvcc<E>,
        item: FromItem,
        filter: Option<Expression>,
    ) -> (r: Result<Node>)
        requires
            old(kv).wf(),
        ensures
            final(kv).wf(),
            final(kv).infallible() == old(kv).infallible(),
            final(kv).contents() == old(kv).contents(),
            r matches Ok(n) ==> from_plan(
                old(kv).contents(),
                self.state(),
                item,
                opt_expr_view(filter),
            ) == Some(n@),
            old(kv).infallible() && store_wf(old(kv).contents()) ==> (r is Ok <==> from_plan(
                old(kv).contents(),
                self.state(),
                item,
                opt_expr_view(filter),
            ) is Some),
        decreases item,
    {
        match item {
            FromItem::Table { name } => self.build_scan(kv, name, filter),
            FromItem::Join { left, right, join_type, predicate } => {
                let outer = match join_type {
                    JoinType::Cross | JoinType::Inner => false,
                    _ => true,
                };
                let (first, second) = match join_type {
                    JoinType::Right => (right, left),
                    _ => (left, right),
                };
                let f2 = crate::sql::parser::ast::copy_opt_expr(&filter);
                let l = self.build_from_item(kv, *first, f2)?;
                let r = self.build_from_item(kv, *second, filter)?;
                if join_type == JoinType::Cross {
                    Ok(
                        Node::NestedLoopJoin {
                            left: Box::new(l),
                            right: Box::new(r),
                            predicate,
                            outer,
                        },
                    )
                } else {
                    Ok(Node::HashJoin { left: Box::new(l), right: Box::new(r), predicate, outer })
                }
            },
        }
    }
}

/// Table `table` has a primary-key column named `field`.
fn pk_named(table: &Table, field: &String) -> (r: bool)
    ensures
        r == is_pk_column(table@, field@),
{
    let ghost t = table@;
    let mut i: usize = 0;
    while i < table.columns.len()
        invariant
            i <= table.columns@.len(),
            t == table@,
            forall|j: int| 0 <= j < i ==> !(t.columns[j].name == field@ && t.columns[j].primary_key),
        decreases table.columns@.len() - i,
    {
        assert(t.columns[i as int] == table.columns@[i as int]@);
        if table.columns[i].primary_key && crate::sql::text::str_eq(
            table.columns[i].name.as_str(),
            field.as_str(),
        ) {
            return true;
        }
        i = i + 1;
    }
    false
}

fn has_function(select: &Vec<(Expression, Option<String>)>) -> (r: bool)
    ensures
        r == has_aggregate(select_view(select@)),
{
    let ghost sv = select_view(select@);
    let mut i: usize = 0;
    while i < select.len()
        invariant
            i <= select@.len(),
            sv == select_view(select@),
            forall|j: int| 0 <= j < i ==> !(sv[j].0 is Function),
        decreases select@.len() - i,
    {
        assert(sv[i as int].0 == select@[i as int].0@);
        if let Expression::Function(_, _) = &select[i].0 {
            return true;
        }
        i = i + 1;
    }
    false
}

/// The count of a `LIMIT` or `OFFSET` clause.
fn count_from(e: Option<Expression>) -> (r: Option<Option<usize>>)
    ensures
        r == count_of(opt_expr_view(e)),
{
    match e {
        None => Some(None),
        Some(x) => match Value::from_expression(&x) {
            Some(Value::Integer(i)) => Some(Some(i as usize)),
            _ => None,
        },
    }
}

/// The schema columns for declared columns.
fn plan_columns(columns: &Vec<ast::Column>) -> (r: Result<Vec<Column>>)
    ensures
        r matches Ok(cs) ==> (forall|i: int|
            0 <= i < columns@.len() ==> (#[trigger] column_plan(columns@[i])) is Some) && cs@.map_values(
            |c: Column| c@,
        ) == columns@.map_values(|col: ast::Column| column_plan(col)->0),
        r is Err ==> !(forall|i: int|
            0 <= i < columns@.len() ==> (#[trigger] column_plan(columns@[i])) is Some),
{
    let mut cols: Vec<Column> = Vec::new();
    let mut i: usize = 0;
    while i < columns.len()
        invariant
            i <= columns@.len(),
            cols@.len() == i,
            forall|j: int| 0 <= j < i ==> #[trigger] column_plan(columns@[j]) == Some(cols@[j]@),
        decreases columns@.len() - i,
    {
        let c = &columns[i];
        let nullable = match c.nullable {
            Some(b) => b,
            None => !c.primary_key,
        };
        let default = match &c.default {
            Some(e) => match Value::from_expression(e) {
                Some(v) => Some(v),
                None => {
                    assert(column_plan(columns@[i as int]) is None);
                    return Err(
                        Error::Internal(
                            String::from_str("default of column ").concat(c.name.as_str()).concat(
                                " is not a constant",
                            ),
                        ),
                    );
                },
            },
            None => if nullable {
                Some(Value::Null)
            } else {
                None
            },
        };
        let col = Column {
            name: c.name.clone(),
            datatype: c.datatype,
            nullable,
            default,
            primary_key: c.primary_key,
        };
        assert(column_plan(columns@[i as int]) == Some(col@));
        cols.push(col);
        i = i + 1;
    }
    assert(cols@.map_values(|c: Column| c@) =~= columns@.map_values(
        |col: ast::Column| column_plan(col)->0,
    ));
    Ok(cols)
}

impl<'a> Planner<'a> {
    /// The plan of a statement, as `plan_spec` says.
    fn build_statement<E: StorageEngine>(&self, kv: &mut Mvcc<E>, stmt: ast::Statement) -> (r:
        Result<Node>)
        requires
            old(kv).wf(),
        ensures
            final(kv).wf(),
            final(kv).infallible() == old(kv).infallible(),
            final(kv).contents() == old(kv).contents(),
            r matches Ok(n) ==> plan_spec(old(kv).contents(), self.state(), stmt) == Some(n@),
            old(kv).infallible() && store_wf(old(kv).contents()) ==> (r is Ok <==> plan_spec(
                old(kv).contents(),
                self.state(),
                stmt,
            ) is Some),
    {
        let ghost s0 = stmt;
        match stmt {
            ast::Statement::CreateTable { name, columns } => {
                let cols = plan_columns(&columns)?;
                let schema = Table { name, columns: cols };
                assert(schema@.columns == cols@.map_values(|c: Column| c@));
                Ok(Node::CreateTable { schema })
            },
            ast::Statement::Insert { table_name, columns, values } => {
                let columns = match columns {
                    Some(cs) => cs,
                    None => {
                        let e: Vec<String> = Vec::new();
                        assert(names_view(e@) =~= Seq::<Seq<char>>::empty());
                        e
                    },
                };
                Ok(Node::Insert { table_name, columns, values })
            },
            ast::Statement::Select {
                select,
                from,
                where_clause,
                group_by,
                having,
                order_by,
                limit,
                offset,
            } => self.build_select(
                kv,
                select,
                from,
                where_clause,
                group_by,
                having,
                order_by,
                limit,
                offset,
            ),
            ast::Statement::Update { table_name, columns, where_clause } => {
                let source = self.build_scan(kv, table_name.clone(), where_clause)?;
                Ok(Node::Update { table_name, source: Box::new(source), columns })
            },
            ast::Statement::Delete { table_name, where_clause } => {
                let source = self.build_scan(kv, table_name.clone(), where_clause)?;
                Ok(Node::Delete { table_name, source: Box::new(source) })
            },
            ast::Statement::Begin | ast::Statement::Commit | ast::Statement::Rollback => {
                Err(Error::Internal(String::from_str("unexpected transaction command")))
            },
            ast::Statement::Explain { .. } => {
                Err(Error::Internal(String::from_str("unexpected explain command")))
            },
        }
    }
}

impl<'a> Planner<'a> {
    /// The plan of a `SELECT`, as `select_plan` says over the plan of its
    /// tables.
    fn build_select<E: StorageEngine>(
        &self,
        kv: &mut Mvcc<E>,
        select: Vec<(Expression, Option<String>)>,
        from: FromItem,
        where_clause: Option<Expression>,
        group_by: Option<Expression>,
        having: Option<Expression>,
        order_by: Vec<(String, ast::OrderDirection)>,
        limit: Option<Expression>,
        offset: Option<Expression>,
    ) -> (r: Result<Node>)
        requires
            old(kv).wf(),
        ensures
            final(kv).wf(),
            final(kv).infallible() == old(kv).infallible(),
            final(kv).contents() == old(kv).contents(),
            r matches Ok(n) ==> match from_plan(
                old(kv).contents(),
                self.state(),
                from,
                opt_expr_view(where_clause),
            ) {
                Some(n0) => select_plan(
                    n0,
                    select_view(select@),
                    opt_expr_view(group_by),
                    opt_expr_view(having),
                    order_view(order_by@),
                    opt_expr_view(limit),
                    opt_expr_view(offset),
                ) == Some(n@),
                None => false,
            },
            old(kv).infallible() && store_wf(old(kv).contents()) ==> (r is Ok <==> match from_plan(
                old(kv).contents(),
                self.state(),
                from,
                opt_expr_view(where_clause),
            ) {
                Some(n0) => select_plan(
                    n0,
                    select_view(select@),
                    opt_expr_view(group_by),
                    opt_expr_view(having),
                    order_view(order_by@),
                    opt_expr_view(limit),
                    opt_expr_view(offset),
                ) is Some,
                None => false,
            }),
    {
        let ghost sv = select_view(select@);
        let ghost gv = opt_expr_view(group_by);
        let ghost hv = opt_expr_view(having);
        let ghost ov = order_view(order_by@);
        let ghost lv = opt_expr_view(limit);
        let ghost fv = opt_expr_view(offset);
        let mut node = self.build_from_item(kv, from, where_clause)?;
        let ghost n0 = node@;
        let agg = select.len() > 0 && has_function(&select);
        assert(agg == (sv.len() > 0 && has_aggregate(sv)));
        let (agg_select, proj_select) = if agg {
            (Some(select), None)
        } else {
            (None, Some(select))
        };
        if let Some(exprs) = agg_select {
            node = Node::Aggregate { source: Box::new(node), exprs, group_by };
        }
        let ghost n1 = if agg {
            NodeModel::Aggregate { source: Box::new(n0), exprs: sv, group_by: gv }
        } else {
            n0
        };
        assert(node@ == n1);
        if having.is_some() {
            node = Node::Filter { source: Box::new(node), predicate: having };
        }
        let ghost n2 = if hv is Some {
            NodeModel::Filter { source: Box::new(n1), predicate: hv }
        } else {
            n1
        };
        assert(node@ == n2);
        let ghost n3 = if ov.len() > 0 {
            NodeModel::Order { source: Box::new(n2), order_by: ov }
        } else {
            n2
        };
        if order_by.len() > 0 {
            node = Node::Order { source: Box::new(node), order_by };
        }
        assert(node@ == n3);
        let off = match count_from(offset) {
            Some(o) => o,
            None => {
                return Err(Error::Internal(String::from_str("invalid offset")));
            },
        };
        let lim = match count_from(limit) {
            Some(l) => l,
            None => {
                return Err(Error::Internal(String::from_str("invalid limit")));
            },
        };
        if let Some(k) = off {
            node = Node::Offset { source: Box::new(node), offset: k };
        }
        let ghost n4 = match off {
            Some(k) => NodeModel::Offset { source: Box::new(n3), offset: k },
            None => n3,
        };
        assert(node@ == n4);
        if let Some(k) = lim {
            node = Node::Limit { source: Box::new(node), limit: k };
        }
        let ghost n5 = match lim {
            Some(k) => NodeModel::Limit { source: Box::new(n4), limit: k },
            None => n4,
        };
        assert(node@ == n5);
        assert(sv.len() == select@.len());
        if let Some(sel) = proj_select {
            if sel.len() > 0 {
                assert(select_view(sel@) == sv);
                node = Node::Projection { source: Box::new(node), select: sel };
            }
        }
        assert(select_plan(n0, sv, gv, hv, ov, lv, fv) == Some(node@));
        Ok(node)
    }
}

} // verus!
