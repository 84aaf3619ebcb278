//! Query plans: trees of nodes that the executors run.
use vstd::prelude::*;

use super::parser::ast::{ExprModel, Expression, OrderDirection};
use super::schema::{Table, TableModel};
use super::types::{Value, ValueModel};

pub mod planner;

verus! {

/// A node of a plan.
pub enum Node {
    CreateTable { schema: Table },
    Insert { table_name: String, columns: Vec<String>, values: Vec<Vec<Expression>> },
    Scan { table_name: String, filter: Option<Expression> },
    PrimaryKeyScan { table_name: String, value: Value },
    Update { table_name: String, source: Box<Node>, columns: Vec<(String, Expression)> },
    Delete { table_name: String, source: Box<Node> },
    Order { source: Box<Node>, order_by: Vec<(String, OrderDirection)> },
    Limit { source: Box<Node>, limit: usize },
    Offset { source: Box<Node>, offset: usize },
    Projection { source: Box<Node>, select: Vec<(Expression, Option<String>)> },
    NestedLoopJoin {
        left: Box<Node>,
        right: Box<Node>,
        predicate: Option<Expression>,
        outer: bool,
    },
    HashJoin { left: Box<Node>, right: Box<Node>, predicate: Option<Expression>, outer: bool },
    Aggregate {
        source: Box<Node>,
        exprs: Vec<(Expression, Option<String>)>,
        group_by: Option<Expression>,
    },
    Filter { source: Box<Node>, predicate: Option<Expression> },
}

/// The mathematical form of a node.
pub enum NodeModel {
    CreateTable { schema: TableModel },
    Insert { table_name: Seq<char>, columns: Seq<Seq<char>>, values: Seq<Seq<ExprModel>> },
    Scan { table_name: Seq<char>, filter: Option<ExprModel> },
    PrimaryKeyScan { table_name: Seq<char>, value: ValueModel },
    Update {
        table_name: Seq<char>,
        source: Box<NodeModel>,
        columns: Seq<(Seq<char>, ExprModel)>,
    },
    Delete { table_name: Seq<char>, source: Box<NodeModel> },
    Order { source: Box<NodeModel>, order_by: Seq<(Seq<char>, OrderDirection)> },
    Limit { source: Box<NodeModel>, limit: usize },
    Offset { source: Box<NodeModel>, offset: usize },
    Projection { source: Box<NodeModel>, select: Seq<(ExprModel, Option<Seq<char>>)> },
    NestedLoopJoin {
        left: Box<NodeModel>,
        right: Box<NodeModel>,
        predicate: Option<ExprModel>,
        outer: bool,
    },
    HashJoin {
        left: Box<NodeModel>,
        right: Box<NodeModel>,
        predicate: Option<ExprModel>,
        outer: bool,
    },
    Aggregate {
        source: Box<NodeModel>,
        exprs: Seq<(ExprModel, Option<Seq<char>>)>,
        group_by: Option<ExprModel>,
    },
    Filter { source: Box<NodeModel>, predicate: Option<ExprModel> },
}

pub open spec fn opt_expr_view(e: Option<Expression>) -> Option<ExprModel> {
    match e {
        Some(x) => Some(x@),
        None => None,
    }
}

pub open spec fn opt_str_view(s: Option<String>) -> Option<Seq<char>> {
    match s {
        Some(x) => Some(x@),
        None => None,
    }
}

/// The select list: each expression with its alias.
pub open spec fn select_view(s: Seq<(Expression, Option<String>)>) -> Seq<
    (ExprModel, Option<Seq<char>>),
> {
    s.map_values(|p: (Expression, Option<String>)| (p.0@, opt_str_view(p.1)))
}

pub open spec fn order_view(o: Seq<(String, OrderDirection)>) -> Seq<(Seq<char>, OrderDirection)> {
    o.map_values(|p: (String, OrderDirection)| (p.0@, p.1))
}

pub open spec fn set_view(s: Seq<(String, Expression)>) -> Seq<(Seq<char>, ExprModel)> {
    s.map_values(|p: (String, Expression)| (p.0@, p.1@))
}

pub open spec fn exprs_view(s: Seq<Expression>) -> Seq<ExprModel> {
    s.map_values(|e: Expression| e@)
}

pub open spec fn values_view(s: Seq<Vec<Expression>>) -> Seq<Seq<ExprModel>> {
    s.map_values(|v: Vec<Expression>| exprs_view(v@))
}

pub open spec fn node_view(n: Node) -> NodeModel
    decreases n,
{
    match n {
        Node::CreateTable { schema } => NodeModel::CreateTable { schema: schema@ },
        Node::Insert { table_name, columns, values } => NodeModel::Insert {
            table_name: table_name@,
            columns: super::parser::ast::names_view(columns@),
            values: values_view(values@),
        },
        Node::Scan { table_name, filter } => NodeModel::Scan {
            table_name: table_name@,
            filter: opt_expr_view(filter),
        },
        Node::PrimaryKeyScan { table_name, value } => NodeModel::PrimaryKeyScan {
            table_name: table_name@,
            value: value@,
        },
        Node::Update { table_name, source, columns } => NodeModel::Update {
            table_name: table_name@,
            source: Box::new(node_view(*source)),
            columns: set_view(columns@),
        },
        Node::Delete { table_name, source } => NodeModel::Delete {
            table_name: table_name@,
            source: Box::new(node_view(*source)),
        },
        Node::Order { source, order_by } => NodeModel::Order {
            source: Box::new(node_view(*source)),
            order_by: order_view(order_by@),
        },
        Node::Limit { source, limit } => NodeModel::Limit {
            source: Box::new(node_view(*source)),
            limit,
        },
        Node::Offset { source, offset } => NodeModel::Offset {
            source: Box::new(node_view(*source)),
            offset,
        },
        Node::Projection { source, select } => NodeModel::Projection {
            source: Box::new(node_view(*source)),
            select: select_view(select@),
        },
        Node::NestedLoopJoin { left, right, predicate, outer } => NodeModel::NestedLoopJoin {
            left: Box::new(node_view(*left)),
            right: Box::new(node_view(*right)),
            predicate: opt_expr_view(predicate),
            outer,
        },
        Node::HashJoin { left, right, predicate, outer } => NodeModel::HashJoin {
            left: Box::new(node_view(*left)),
            right: Box::new(node_view(*right)),
            predicate: opt_expr_view(predicate),
            outer,
        },
        Node::Aggregate { source, exprs, group_by } => NodeModel::Aggregate {
            source: Box::new(node_view(*source)),
            exprs: select_view(exprs@),
            group_by: opt_expr_view(group_by),
        },
        Node::Filter { source, predicate } => NodeModel::Filter {
            source: Box::new(node_view(*source)),
            predicate: opt_expr_view(predicate),
        },
    }
}

impl View for Node {
    type V = NodeModel;

    open spec fn view(&self) -> NodeModel {
        node_view(*self)
    }
}

/// A plan: the root of a tree of nodes.
pub struct Plan(pub Node);

} // verus!
