//! The grammar of the language, over tokens: what each part of a statement
//! reads, and where it stops.
use vstd::prelude::*;

use super::ast::{
    Column, ConstsModel, ExprModel, Expression, FromItem, JoinType, OrderDirection, Statement,
};
use super::lexer::{Keyword, TokenModel};
use crate::sql::number::{all_digits, digits_value, literal_parts, strip_leading_zeros, strip_trailing_zeros};
use crate::sql::types::DataType;
use crate::sql::text::chars_lt;

verus! {

/// The mathematical form of a `FROM` item.
pub enum FromModel {
    Table { name: Seq<char> },
    Join {
        left: Box<FromModel>,
        right: Box<FromModel>,
        join_type: JoinType,
        predicate: Option<ExprModel>,
    },
}

/// The mathematical form of a declared column.
pub struct ColumnDefModel {
    pub name: Seq<char>,
    pub datatype: DataType,
    pub nullable: Option<bool>,
    pub default: Option<ExprModel>,
    pub primary_key: bool,
}

/// The mathematical form of a statement.
pub enum StatementModel {
    CreateTable { name: Seq<char>, columns: Seq<ColumnDefModel> },
    Insert {
        table_name: Seq<char>,
        columns: Option<Seq<Seq<char>>>,
        values: Seq<Seq<ExprModel>>,
    },
    Select {
        select: Seq<(ExprModel, Option<Seq<char>>)>,
        from: FromModel,
        where_clause: Option<ExprModel>,
        group_by: Option<ExprModel>,
        having: Option<ExprModel>,
        order_by: Seq<(Seq<char>, OrderDirection)>,
        limit: Option<ExprModel>,
        offset: Option<ExprModel>,
    },
    Update {
        table_name: Seq<char>,
        columns: Seq<(Seq<char>, ExprModel)>,
        where_clause: Option<ExprModel>,
    },
    Delete { table_name: Seq<char>, where_clause: Option<ExprModel> },
    Begin,
    Commit,
    Rollback,
    Explain { stmt: Box<StatementModel> },
}

pub open spec fn from_view(f: FromItem) -> FromModel
    decreases f,
{
    match f {
        FromItem::Table { name } => FromModel::Table { name: name@ },
        FromItem::Join { left, right, join_type, predicate } => FromModel::Join {
            left: Box::new(from_view(*left)),
            right: Box::new(from_view(*right)),
            join_type,
            predicate: crate::sql::plan::opt_expr_view(predicate),
        },
    }
}

pub open spec fn column_def_view(c: Column) -> ColumnDefModel {
    ColumnDefModel {
        name: c.name@,
        datatype: c.datatype,
        nullable: c.nullable,
        default: crate::sql::plan::opt_expr_view(c.default),
        primary_key: c.primary_key,
    }
}

pub open spec fn columns_view(cs: Seq<Column>) -> Seq<ColumnDefModel> {
    cs.map_values(|c: Column| column_def_view(c))
}

pub open spec fn statement_view(s: Statement) -> StatementModel
    decreases s,
{
    match s {
        Statement::CreateTable { name, columns } => StatementModel::CreateTable {
            name: name@,
            columns: columns_view(columns@),
        },
        Statement::Insert { table_name, columns, values } => StatementModel::Insert {
            table_name: table_name@,
            columns: match columns {
                Some(cs) => Some(super::ast::names_view(cs@)),
                None => None,
            },
            values: crate::sql::plan::values_view(values@),
        },
        Statement::Select {
            select,
            from,
            where_clause,
            group_by,
            having,
            order_by,
            limit,
            offset,
        } => StatementModel::Select {
            select: crate::sql::plan::select_view(select@),
            from: from_view(from),
            where_clause: crate::sql::plan::opt_expr_view(where_clause),
            group_by: crate::sql::plan::opt_expr_view(group_by),
            having: crate::sql::plan::opt_expr_view(having),
            order_by: crate::sql::plan::order_view(order_by@),
            limit: crate::sql::plan::opt_expr_view(limit),
            offset: crate::sql::plan::opt_expr_view(offset),
        },
        Statement::Update { table_name, columns, where_clause } => StatementModel::Update {
            table_name: table_name@,
            columns: crate::sql::plan::set_view(columns@),
            where_clause: crate::sql::plan::opt_expr_view(where_clause),
        },
        Statement::Delete { table_name, where_clause } => StatementModel::Delete {
            table_name: table_name@,
            where_clause: crate::sql::plan::opt_expr_view(where_clause),
        },
        Statement::Begin => StatementModel::Begin,
        Statement::Commit => StatementModel::Commit,
        Statement::Rollback => StatementModel::Rollback,
        Statement::Explain { stmt } => StatementModel::Explain {
            stmt: Box::new(statement_view(*stmt)),
        },
    }
}

impl View for Statement {
    type V = StatementModel;

    open spec fn view(&self) -> StatementModel {
        statement_view(*self)
    }
}

/// Token `p` is `t`.
pub open spec fn is_tok(ts: Seq<TokenModel>, p: int, t: TokenModel) -> bool {
    0 <= p < ts.len() && ts[p] == t
}

pub open spec fn is_kw(ts: Seq<TokenModel>, p: int, k: Keyword) -> bool {
    is_tok(ts, p, TokenModel::Keyword(k))
}

/// The identifier at `p`.
pub open spec fn ident_at(ts: Seq<TokenModel>, p: int) -> Option<Seq<char>> {
    if 0 <= p < ts.len() {
        match ts[p] {
            TokenModel::Ident(i) => Some(i),
            _ => None,
        }
    } else {
        None
    }
}

/// The constant a number token writes: an integer where it is all digits
/// (none where it does not fit an `i64`), else a decimal.
pub open spec fn number_const(n: Seq<char>) -> Option<ConstsModel> {
    if all_digits(n) {
        if digits_value(n) <= i64::MAX {
            Some(ConstsModel::Integer(digits_value(n) as i64))
        } else {
            None
        }
    } else {
        match literal_parts(n) {
            Some((ip, fp)) => Some(ConstsModel::Float((strip_leading_zeros(ip), strip_trailing_zeros(fp)))),
            None => None,
        }
    }
}

/// An expression at `p`: a column, a function of a column, or a constant.
pub open spec fn expr_at(ts: Seq<TokenModel>, p: int) -> Option<(ExprModel, int)> {
    if 0 <= p < ts.len() {
        match ts[p] {
            TokenModel::Ident(i) => if is_tok(ts, p + 1, TokenModel::OpenParen) {
                match ident_at(ts, p + 2) {
                    Some(c) => if is_tok(ts, p + 3, TokenModel::CloseParen) {
                        Some((ExprModel::Function(i, c), p + 4))
                    } else {
                        None
                    },
                    None => None,
                }
            } else {
                Some((ExprModel::Filed(i), p + 1))
            },
            TokenModel::Number(n) => match number_const(n) {
                Some(c) => Some((ExprModel::Consts(c), p + 1)),
                None => None,
            },
            TokenModel::String(s) => Some((ExprModel::Consts(ConstsModel::String(s)), p + 1)),
            TokenModel::Keyword(Keyword::True) => Some((ExprModel::Consts(ConstsModel::Boolean(true)), p + 1)),
            TokenModel::Keyword(Keyword::False) => Some((ExprModel::Consts(ConstsModel::Boolean(false)), p + 1)),
            TokenModel::Keyword(Keyword::Null) => Some((ExprModel::Consts(ConstsModel::Null), p + 1)),
            _ => None,
        }
    } else {
        None
    }
}

/// A comparison at `p`: an expression, `=`, `>` or `<`, and another.
pub open spec fn op_expr_at(ts: Seq<TokenModel>, p: int) -> Option<(ExprModel, int)> {
    match expr_at(ts, p) {
        Some((l, q)) => match expr_at(ts, q + 1) {
            Some((r, q2)) => if is_tok(ts, q, TokenModel::Equal) {
                Some((ExprModel::Equal(Box::new(l), Box::new(r)), q2))
            } else if is_tok(ts, q, TokenModel::GreaterThan) {
                Some((ExprModel::GreaterThan(Box::new(l), Box::new(r)), q2))
            } else if is_tok(ts, q, TokenModel::LessThan) {
                Some((ExprModel::LessThan(Box::new(l), Box::new(r)), q2))
            } else {
                None
            },
            None => None,
        },
        None => None,
    }
}

/// An optional clause that starts with keyword `k` and holds a comparison.
pub open spec fn cond_clause_at(ts: Seq<TokenModel>, p: int, k: Keyword) -> Option<(Option<ExprModel>, int)> {
    if is_kw(ts, p, k) {
        match op_expr_at(ts, p + 1) {
            Some((e, q)) => Some((Some(e), q)),
            None => None,
        }
    } else {
        Some((None, p))
    }
}

/// An optional clause that starts with keyword `k` and holds an expression.
pub open spec fn expr_clause_at(ts: Seq<TokenModel>, p: int, k: Keyword) -> Option<(Option<ExprModel>, int)> {
    if is_kw(ts, p, k) {
        match expr_at(ts, p + 1) {
            Some((e, q)) => Some((Some(e), q)),
            None => None,
        }
    } else {
        Some((None, p))
    }
}

/// An optional `GROUP BY` clause.
pub open spec fn group_at(ts: Seq<TokenModel>, p: int) -> Option<(Option<ExprModel>, int)> {
    if is_kw(ts, p, Keyword::Group) {
        if is_kw(ts, p + 1, Keyword::By) {
            match expr_at(ts, p + 2) {
                Some((e, q)) => Some((Some(e), q)),
                None => None,
            }
        } else {
            None
        }
    } else {
        Some((None, p))
    }
}

/// The direction after an `ORDER BY` column: `ASC` or `DESC`, else ascending.
pub open spec fn direction_at(ts: Seq<TokenModel>, p: int) -> (OrderDirection, int) {
    if is_kw(ts, p, Keyword::Asc) {
        (OrderDirection::Asc, p + 1)
    } else if is_kw(ts, p, Keyword::Desc) {
        (OrderDirection::Desc, p + 1)
    } else {
        (OrderDirection::Asc, p)
    }
}

/// `ORDER BY` items: a column and its direction, separated by commas.
pub open spec fn order_items_at(ts: Seq<TokenModel>, p: int) -> Option<(Seq<(Seq<char>, OrderDirection)>, int)>
    decreases ts.len() - p,
{
    match ident_at(ts, p) {
        Some(c) => {
            let (d, q) = direction_at(ts, p + 1);
            if is_tok(ts, q, TokenModel::Comma) && q + 1 > p {
                match order_items_at(ts, q + 1) {
                    Some((rest, q2)) => Some((seq![(c, d)] + rest, q2)),
                    None => None,
                }
            } else {
                Some((seq![(c, d)], q))
            }
        },
        None => None,
    }
}

/// An optional `ORDER BY` clause.
pub open spec fn order_at(ts: Seq<TokenModel>, p: int) -> Option<(Seq<(Seq<char>, OrderDirection)>, int)> {
    if is_kw(ts, p, Keyword::Order) {
        if is_kw(ts, p + 1, Keyword::By) {
            order_items_at(ts, p + 2)
        } else {
            None
        }
    } else {
        Some((Seq::empty(), p))
    }
}

/// Select items: an expression with an optional alias, separated by commas.
pub open spec fn select_items_at(ts: Seq<TokenModel>, p: int) -> Option<(Seq<(ExprModel, Option<Seq<char>>)>, int)>
    decreases ts.len() - p,
{
    match expr_at(ts, p) {
        Some((e, q)) => {
            let alias = if is_kw(ts, q, Keyword::As) {
                match ident_at(ts, q + 1) {
                    Some(a) => Some((Some(a), q + 2)),
                    None => None,
                }
            } else {
                Some((None::<Seq<char>>, q))
            };
            match alias {
                Some((a, q2)) => if is_tok(ts, q2, TokenModel::Comma) && q2 + 1 > p {
                    match select_items_at(ts, q2 + 1) {
                        Some((rest, q3)) => Some((seq![(e, a)] + rest, q3)),
                        None => None,
                    }
                } else {
                    Some((seq![(e, a)], q2))
                },
                None => None,
            }
        },
        None => None,
    }
}

/// The select list: `*` (nothing) or items.
pub open spec fn select_clause_at(ts: Seq<TokenModel>, p: int) -> Option<(Seq<(ExprModel, Option<Seq<char>>)>, int)> {
    if is_kw(ts, p, Keyword::Select) {
        if is_tok(ts, p + 1, TokenModel::Asterisk) {
            Some((Seq::empty(), p + 2))
        } else {
            select_items_at(ts, p + 1)
        }
    } else {
        None
    }
}

/// The join keyword at `p`: its type and where the joined table is; none
/// where there is no join; `None` where a `JOIN` is missing.
pub open spec fn join_at(ts: Seq<TokenModel>, p: int) -> Option<Option<(JoinType, int)>> {
    if is_kw(ts, p, Keyword::Cross) {
        if is_kw(ts, p + 1, Keyword::Join) { Some(Some((JoinType::Cross, p + 2))) } else { None }
    } else if is_kw(ts, p, Keyword::Join) {
        Some(Some((JoinType::Inner, p + 1)))
    } else if is_kw(ts, p, Keyword::Left) {
        if is_kw(ts, p + 1, Keyword::Join) { Some(Some((JoinType::Left, p + 2))) } else { None }
    } else if is_kw(ts, p, Keyword::Right) {
        if is_kw(ts, p + 1, Keyword::Join) { Some(Some((JoinType::Right, p + 2))) } else { None }
    } else {
        Some(None)
    }
}

/// The condition of a join of type `jt` at `p`: none for a cross join, else
/// `ON`, an expression, `=` and another, compared the other way round for a
/// right join.
pub open spec fn join_cond_at(ts: Seq<TokenModel>, p: int, jt: JoinType) -> Option<(Option<ExprModel>, int)> {
    if jt == JoinType::Cross {
        Some((None, p))
    } else if is_kw(ts, p, Keyword::On) {
        match expr_at(ts, p + 1) {
            Some((l, q)) => if is_tok(ts, q, TokenModel::Equal) {
                match expr_at(ts, q + 1) {
                    Some((r, q2)) => Some((
                        Some(if jt == JoinType::Right {
                            ExprModel::Equal(Box::new(r), Box::new(l))
                        } else {
                            ExprModel::Equal(Box::new(l), Box::new(r))
                        }),
                        q2,
                    )),
                    None => None,
                }
            } else {
                None
            },
            None => None,
        }
    } else {
        None
    }
}

/// The joins after `item`, each joining the item so far with a table.
pub open spec fn joins_at(ts: Seq<TokenModel>, p: int, item: FromModel) -> Option<(FromModel, int)>
    decreases ts.len() - p,
{
    match join_at(ts, p) {
        Some(Some((jt, q))) => match ident_at(ts, q) {
            Some(name) => match join_cond_at(ts, q + 1, jt) {
                Some((pred, q2)) => if q2 > p {
                    joins_at(ts, q2, FromModel::Join {
                        left: Box::new(item),
                        right: Box::new(FromModel::Table { name }),
                        join_type: jt,
                        predicate: pred,
                    })
                } else {
                    None
                },
                None => None,
            },
            None => None,
        },
        Some(None) => Some((item, p)),
        None => None,
    }
}

/// The `FROM` clause.
pub open spec fn from_at(ts: Seq<TokenModel>, p: int) -> Option<(FromModel, int)> {
    if is_kw(ts, p, Keyword::From) {
        match ident_at(ts, p + 1) {
            Some(name) => joins_at(ts, p + 2, FromModel::Table { name }),
            None => None,
        }
    } else {
        None
    }
}

/// A `SELECT` statement.
pub open spec fn select_at(ts: Seq<TokenModel>, p: int) -> Option<(StatementModel, int)> {
    match select_clause_at(ts, p) {
        Some((select, p1)) => match from_at(ts, p1) {
            Some((from, p2)) => match cond_clause_at(ts, p2, Keyword::Where) {
                Some((where_clause, p3)) => match group_at(ts, p3) {
                    Some((group_by, p4)) => match cond_clause_at(ts, p4, Keyword::Having) {
                        Some((having, p5)) => match order_at(ts, p5) {
                            Some((order_by, p6)) => match expr_clause_at(ts, p6, Keyword::Limit) {
                                Some((limit, p7)) => match expr_clause_at(ts, p7, Keyword::Offset) {
                                    Some((offset, p8)) => Some((StatementModel::Select {
                                        select,
                                        from,
                                        where_clause,
                                        group_by,
                                        having,
                                        order_by,
                                        limit,
                                        offset,
                                    }, p8)),
                                    None => None,
                                },
                                None => None,
                            },
                            None => None,
                        },
                        None => None,
                    },
                    None => None,
                },
                None => None,
            },
            None => None,
        },
        None => None,
    }
}

/// Identifiers separated by commas, up to a closing parenthesis.
pub open spec fn ident_list_at(ts: Seq<TokenModel>, p: int) -> Option<(Seq<Seq<char>>, int)>
    decreases ts.len() - p,
{
    match ident_at(ts, p) {
        Some(c) => if is_tok(ts, p + 1, TokenModel::CloseParen) {
            Some((seq![c], p + 2))
        } else if is_tok(ts, p + 1, TokenModel::Comma) {
            match ident_list_at(ts, p + 2) {
                Some((rest, q)) => Some((seq![c] + rest, q)),
                None => None,
            }
        } else {
            None
        },
        None => None,
    }
}

/// Expressions separated by commas, up to a closing parenthesis.
pub open spec fn expr_list_at(ts: Seq<TokenModel>, p: int) -> Option<(Seq<ExprModel>, int)>
    decreases ts.len() - p,
{
    match expr_at(ts, p) {
        Some((e, q)) => if is_tok(ts, q, TokenModel::CloseParen) {
            Some((seq![e], q + 1))
        } else if is_tok(ts, q, TokenModel::Comma) && q + 1 > p {
            match expr_list_at(ts, q + 1) {
                Some((rest, q2)) => Some((seq![e] + rest, q2)),
                None => None,
            }
        } else {
            None
        },
        None => None,
    }
}

/// Rows of values: parenthesized lists separated by commas.
pub open spec fn value_rows_at(ts: Seq<TokenModel>, p: int) -> Option<(Seq<Seq<ExprModel>>, int)>
    decreases ts.len() - p,
{
    if is_tok(ts, p, TokenModel::OpenParen) {
        match expr_list_at(ts, p + 1) {
            Some((row, q)) => if is_tok(ts, q, TokenModel::Comma) && q + 1 > p {
                match value_rows_at(ts, q + 1) {
                    Some((rest, q2)) => Some((seq![row] + rest, q2)),
                    None => None,
                }
            } else {
                Some((seq![row], q))
            },
            None => None,
        }
    } else {
        None
    }
}

/// An `INSERT` statement.
pub open spec fn insert_at(ts: Seq<TokenModel>, p: int) -> Option<(StatementModel, int)> {
    if is_kw(ts, p, Keyword::Insert) && is_kw(ts, p + 1, Keyword::Into) {
        match ident_at(ts, p + 2) {
            Some(table_name) => {
                let cols = if is_tok(ts, p + 3, TokenModel::OpenParen) {
                    match ident_list_at(ts, p + 4) {
                        Some((cs, q)) => Some((Some(cs), q)),
                        None => None,
                    }
                } else {
                    Some((None::<Seq<Seq<char>>>, p + 3))
                };
                match cols {
                    Some((columns, q)) => if is_kw(ts, q, Keyword::Values) {
                        match value_rows_at(ts, q + 1) {
                            Some((values, q2)) => Some((StatementModel::Insert { table_name, columns, values }, q2)),
                            None => None,
                        }
                    } else {
                        None
                    },
                    None => None,
                }
            },
            None => None,
        }
    } else {
        None
    }
}

/// `set` with `(name, e)` put in its place by name, where no entry has the
/// name already.
pub open spec fn insert_by_name(set: Seq<(Seq<char>, ExprModel)>, name: Seq<char>, e: ExprModel) -> Seq<(Seq<char>, ExprModel)>
    decreases set.len(),
{
    if set.len() == 0 {
        seq![(name, e)]
    } else if crate::sql::text::chars_lt(name, set[0].0) {
        seq![(name, e)] + set
    } else {
        seq![set[0]] + insert_by_name(set.drop_first(), name, e)
    }
}

pub open spec fn has_name(set: Seq<(Seq<char>, ExprModel)>, name: Seq<char>) -> bool {
    exists|i: int| 0 <= i < set.len() && set[i].0 == name
}

/// `SET` clauses from `p`, added to `acc`: a column, `=` and an
/// expression, separated by commas; `None` where a column is set twice.
pub open spec fn set_items_at(ts: Seq<TokenModel>, p: int, acc: Seq<(Seq<char>, ExprModel)>) -> Option<(Seq<(Seq<char>, ExprModel)>, int)>
    decreases ts.len() - p,
{
    match ident_at(ts, p) {
        Some(c) => if has_name(acc, c) {
            None
        } else if is_tok(ts, p + 1, TokenModel::Equal) {
            match expr_at(ts, p + 2) {
                Some((e, q)) => {
                    let acc2 = insert_by_name(acc, c, e);
                    if is_tok(ts, q, TokenModel::Comma) && q + 1 > p {
                        set_items_at(ts, q + 1, acc2)
                    } else {
                        Some((acc2, q))
                    }
                },
                None => None,
            }
        } else {
            None
        },
        None => None,
    }
}

/// The column that `SET` items from `p` on repeat, the items read so far
/// being `acc`: the first one named a second time, where reading gets that
/// far.
pub open spec fn set_repeat_at(ts: Seq<TokenModel>, p: int, acc: Seq<(Seq<char>, ExprModel)>) -> Option<Seq<char>>
    decreases ts.len() - p,
{
    match ident_at(ts, p) {
        Some(c) => if has_name(acc, c) {
            Some(c)
        } else if is_tok(ts, p + 1, TokenModel::Equal) {
            match expr_at(ts, p + 2) {
                Some((e, q)) => if is_tok(ts, q, TokenModel::Comma) && q + 1 > p {
                    set_repeat_at(ts, q + 1, insert_by_name(acc, c, e))
                } else {
                    None
                },
                None => None,
            }
        } else {
            None
        },
        None => None,
    }
}

/// An `UPDATE` statement.
pub open spec fn update_at(ts: Seq<TokenModel>, p: int) -> Option<(StatementModel, int)> {
    if is_kw(ts, p, Keyword::Update) {
        match ident_at(ts, p + 1) {
            Some(table_name) => if is_kw(ts, p + 2, Keyword::SetClause) {
                match set_items_at(ts, p + 3, Seq::empty()) {
                    Some((columns, q)) => match cond_clause_at(ts, q, Keyword::Where) {
                        Some((where_clause, q2)) => Some((StatementModel::Update { table_name, columns, where_clause }, q2)),
                        None => None,
                    },
                    None => None,
                }
            } else {
                None
            },
            None => None,
        }
    } else {
        None
    }
}

/// A `DELETE` statement.
pub open spec fn delete_at(ts: Seq<TokenModel>, p: int) -> Option<(StatementModel, int)> {
    if is_kw(ts, p, Keyword::Delete) && is_kw(ts, p + 1, Keyword::From) {
        match ident_at(ts, p + 2) {
            Some(table_name) => match cond_clause_at(ts, p + 3, Keyword::Where) {
                Some((where_clause, q)) => Some((StatementModel::Delete { table_name, where_clause }, q)),
                None => None,
            },
            None => None,
        }
    } else {
        None
    }
}

/// The type a type keyword names.
pub open spec fn datatype_of_token(t: TokenModel) -> Option<DataType> {
    match t {
        TokenModel::Keyword(Keyword::Bool) => Some(DataType::Boolean),
        TokenModel::Keyword(Keyword::Boolean) => Some(DataType::Boolean),
        TokenModel::Keyword(Keyword::Int) => Some(DataType::Integer),
        TokenModel::Keyword(Keyword::Integer) => Some(DataType::Integer),
        TokenModel::Keyword(Keyword::Float) => Some(DataType::Float),
        TokenModel::Keyword(Keyword::Double) => Some(DataType::Float),
        TokenModel::Keyword(Keyword::String) => Some(DataType::String),
        TokenModel::Keyword(Keyword::Text) => Some(DataType::String),
        TokenModel::Keyword(Keyword::Varchar) => Some(DataType::String),
        _ => None,
    }
}

/// The options of a column from `p`, applied to `c`: `NULL`, `NOT NULL`,
/// `DEFAULT` and an expression, `PRIMARY KEY`; they end at the first token
/// that is not a keyword, and another keyword is refused.
pub open spec fn col_opts_at(ts: Seq<TokenModel>, p: int, c: ColumnDefModel) -> Option<(ColumnDefModel, int)>
    decreases ts.len() - p,
{
    if 0 <= p < ts.len() {
        match ts[p] {
            TokenModel::Keyword(Keyword::Null) => col_opts_at(ts, p + 1, ColumnDefModel { nullable: Some(true), ..c }),
            TokenModel::Keyword(Keyword::Not) => if is_kw(ts, p + 1, Keyword::Null) {
                col_opts_at(ts, p + 2, ColumnDefModel { nullable: Some(false), ..c })
            } else {
                None
            },
            TokenModel::Keyword(Keyword::Default) => match expr_at(ts, p + 1) {
                Some((e, q)) => if q > p {
                    col_opts_at(ts, q, ColumnDefModel { default: Some(e), ..c })
                } else {
                    None
                },
                None => None,
            },
            TokenModel::Keyword(Keyword::Primary) => if is_kw(ts, p + 1, Keyword::Key) {
                col_opts_at(ts, p + 2, ColumnDefModel { primary_key: true, ..c })
            } else {
                None
            },
            TokenModel::Keyword(_) => None,
            _ => Some((c, p)),
        }
    } else {
        Some((c, p))
    }
}

/// A column declaration: a name, a type and options.
pub open spec fn column_at(ts: Seq<TokenModel>, p: int) -> Option<(ColumnDefModel, int)> {
    match ident_at(ts, p) {
        Some(name) => if 0 <= p + 1 < ts.len() {
            match datatype_of_token(ts[p + 1]) {
                Some(dt) => col_opts_at(ts, p + 2, ColumnDefModel { name, datatype: dt, nullable: None, default: None, primary_key: false }),
                None => None,
            }
        } else {
            None
        },
        None => None,
    }
}

/// Column declarations separated by commas.
pub open spec fn columns_at(ts: Seq<TokenModel>, p: int) -> Option<(Seq<ColumnDefModel>, int)>
    decreases ts.len() - p,
{
    match column_at(ts, p) {
        Some((c, q)) => if is_tok(ts, q, TokenModel::Comma) && q + 1 > p {
            match columns_at(ts, q + 1) {
                Some((rest, q2)) => Some((seq![c] + rest, q2)),
                None => None,
            }
        } else {
            Some((seq![c], q))
        },
        None => None,
    }
}

/// The rest of a `CREATE TABLE` statement: the table's name and its
/// columns in parentheses.
pub open spec fn create_table_at(ts: Seq<TokenModel>, p: int) -> Option<(StatementModel, int)> {
    match ident_at(ts, p) {
        Some(name) => if is_tok(ts, p + 1, TokenModel::OpenParen) {
            match columns_at(ts, p + 2) {
                Some((columns, q)) => if is_tok(ts, q, TokenModel::CloseParen) {
                    Some((StatementModel::CreateTable { name, columns }, q + 1))
                } else {
                    None
                },
                None => None,
            }
        } else {
            None
        },
        None => None,
    }
}

/// A `CREATE TABLE` statement.
pub open spec fn create_at(ts: Seq<TokenModel>, p: int) -> Option<(StatementModel, int)> {
    if is_kw(ts, p, Keyword::Create) && is_kw(ts, p + 1, Keyword::Table) {
        create_table_at(ts, p + 2)
    } else {
        None
    }
}

/// A statement, by its first keyword.
pub open spec fn statement_at(ts: Seq<TokenModel>, p: int) -> Option<(StatementModel, int)> {
    if is_kw(ts, p, Keyword::Create) {
        create_at(ts, p)
    } else if is_kw(ts, p, Keyword::Select) {
        select_at(ts, p)
    } else if is_kw(ts, p, Keyword::Insert) {
        insert_at(ts, p)
    } else if is_kw(ts, p, Keyword::Update) {
        update_at(ts, p)
    } else if is_kw(ts, p, Keyword::Delete) {
        delete_at(ts, p)
    } else {
        None
    }
}

/// The column that an `UPDATE` from `p` on names twice in its `SET` items,
/// where reading gets that far.
pub open spec fn update_repeat_at(ts: Seq<TokenModel>, p: int) -> Option<Seq<char>> {
    if is_kw(ts, p, Keyword::Update) && ident_at(ts, p + 1) is Some && is_kw(ts, p + 2, Keyword::SetClause) {
        set_repeat_at(ts, p + 3, Seq::empty())
    } else {
        None
    }
}

/// The column that the statement from `p` on, an `UPDATE`, names twice in
/// its `SET` items, where reading gets that far.
pub open spec fn statement_repeat_at(ts: Seq<TokenModel>, p: int) -> Option<Seq<char>> {
    if is_kw(ts, p, Keyword::Update) {
        update_repeat_at(ts, p)
    } else {
        None
    }
}

/// The statement that the tokens from `p` on make: one statement, a
/// semicolon, and nothing after.
pub open spec fn parse_tokens_from(ts: Seq<TokenModel>, p: int) -> Option<StatementModel> {
    match statement_at(ts, p) {
        Some((s, q)) => if is_tok(ts, q, TokenModel::Semicolon) && q + 1 == ts.len() {
            Some(s)
        } else {
            None
        },
        None => None,
    }
}

/// The statement that the tokens make.
pub open spec fn parse_tokens(ts: Seq<TokenModel>) -> Option<StatementModel> {
    parse_tokens_from(ts, 0)
}

/// The statement that a text writes.
pub open spec fn parse_spec(text: Seq<char>) -> Option<StatementModel> {
    match super::lexer::lex_from(text, 0) {
        Some(ts) => parse_tokens(ts),
        None => None,
    }
}


/// What a statement of the language is: a text only ever writes a table's
/// creation, a query, an insert, an update or a delete.
pub open spec fn is_data_statement(m: StatementModel) -> bool {
    m is CreateTable || m is Select || m is Insert || m is Update || m is Delete
}

pub proof fn lemma_parse_kinds(text: Seq<char>)
    ensures
        parse_spec(text) matches Some(m) ==> is_data_statement(m),
{
}


/// The names come in strictly increasing order.
pub open spec fn names_ascending(set: Seq<(Seq<char>, ExprModel)>) -> bool {
    forall|i: int, j: int| 0 <= i < j < set.len() ==> chars_lt(#[trigger] set[i].0, #[trigger] set[j].0)
}

proof fn lemma_insert_bound(s: Seq<(Seq<char>, ExprModel)>, n: Seq<char>, e: ExprModel, b: Seq<char>)
    requires
        chars_lt(b, n),
        forall|j: int| 0 <= j < s.len() ==> chars_lt(b, #[trigger] s[j].0),
    ensures
        forall|k: int|
            0 <= k < insert_by_name(s, n, e).len() ==> chars_lt(b, #[trigger] insert_by_name(s, n, e)[k].0),
        insert_by_name(s, n, e).len() == s.len() + 1,
    decreases s.len(),
{
    let r = insert_by_name(s, n, e);
    if s.len() == 0 {
    } else if chars_lt(n, s[0].0) {
        assert forall|k: int| 0 <= k < r.len() implies chars_lt(b, #[trigger] r[k].0) by {
            if k > 0 {
                assert(r[k] == s[k - 1]);
            }
        }
    } else {
        let t = s.drop_first();
        assert forall|j: int| 0 <= j < t.len() implies chars_lt(b, #[trigger] t[j].0) by {
            assert(t[j] == s[j + 1]);
        }
        lemma_insert_bound(t, n, e, b);
        let rt = insert_by_name(t, n, e);
        assert(r == seq![s[0]] + rt);
        assert forall|k: int| 0 <= k < r.len() implies chars_lt(b, #[trigger] r[k].0) by {
            if k > 0 {
                assert(r[k] == rt[k - 1]);
            }
        }
    }
}

proof fn lemma_insert_ascending(s: Seq<(Seq<char>, ExprModel)>, n: Seq<char>, e: ExprModel)
    requires
        names_ascending(s),
        !has_name(s, n),
    ensures
        names_ascending(insert_by_name(s, n, e)),
    decreases s.len(),
{
    let r = insert_by_name(s, n, e);
    if s.len() == 0 {
    } else if chars_lt(n, s[0].0) {
        assert(r == seq![(n, e)] + s);
        assert forall|i: int, j: int| 0 <= i < j < r.len() implies chars_lt(#[trigger] r[i].0, #[trigger] r[j].0) by {
            if i == 0 {
                if j > 1 {
                    assert(chars_lt(s[0].0, s[j - 1].0));
                    crate::sql::text::lemma_chars_lt_transitive(n, s[0].0, s[j - 1].0);
                }
            } else {
                assert(r[i] == s[i - 1]);
                assert(r[j] == s[j - 1]);
            }
        }
    } else {
        let t = s.drop_first();
        let b = s[0].0;
        assert(names_ascending(t)) by {
            assert forall|i: int, j: int| 0 <= i < j < t.len() implies chars_lt(#[trigger] t[i].0, #[trigger] t[j].0) by {
                assert(t[i] == s[i + 1]);
                assert(t[j] == s[j + 1]);
            }
        }
        assert(!has_name(t, n)) by {
            if has_name(t, n) {
                let k = choose|k: int| 0 <= k < t.len() && t[k].0 == n;
                assert(s[k + 1].0 == n);
            }
        }
        lemma_insert_ascending(t, n, e);
        assert(b != n) by {
            assert(s[0].0 == b);
        }
        crate::sql::text::lemma_chars_lt_total(b, n);
        assert forall|j: int| 0 <= j < t.len() implies chars_lt(b, #[trigger] t[j].0) by {
            assert(t[j] == s[j + 1]);
            assert(chars_lt(s[0].0, s[j + 1].0));
        }
        lemma_insert_bound(t, n, e, b);
        let rt = insert_by_name(t, n, e);
        assert(r == seq![s[0]] + rt);
        assert forall|i: int, j: int| 0 <= i < j < r.len() implies chars_lt(#[trigger] r[i].0, #[trigger] r[j].0) by {
            assert(r[j] == rt[j - 1]);
            if i > 0 {
                assert(r[i] == rt[i - 1]);
            }
        }
    }
}

proof fn lemma_set_items_ascending(ts: Seq<TokenModel>, p: int, acc: Seq<(Seq<char>, ExprModel)>)
    requires
        names_ascending(acc),
    ensures
        set_items_at(ts, p, acc) matches Some((r, _)) ==> names_ascending(r),
    decreases ts.len() - p,
{
    match ident_at(ts, p) {
        Some(c) => if !has_name(acc, c) && is_tok(ts, p + 1, TokenModel::Equal) {
            match expr_at(ts, p + 2) {
                Some((e, q)) => {
                    lemma_insert_ascending(acc, c, e);
                    if is_tok(ts, q, TokenModel::Comma) && q + 1 > p {
                        lemma_set_items_ascending(ts, q + 1, insert_by_name(acc, c, e));
                    }
                },
                None => {},
            }
        },
        None => {},
    }
}

/// The columns that an `UPDATE` sets come each once, in the order of their
/// names.
pub proof fn law_update_columns_ascending(text: Seq<char>)
    ensures
        parse_spec(text) matches Some(StatementModel::Update { columns, .. }) ==> names_ascending(columns),
{
    match super::lexer::lex_from(text, 0) {
        Some(ts) => {
            lemma_set_items_ascending(ts, 3, Seq::empty());
        },
        None => {},
    }
}

} // verus!
