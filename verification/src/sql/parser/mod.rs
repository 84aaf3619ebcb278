//! The parser: SQL text to a statement, exactly as the grammar says.
use vstd::prelude::*;

use crate::error::{Error, Result};
use crate::sql::number::{digits_only, parse_digits_i64, Decimal};
use crate::sql::plan::{exprs_view, opt_expr_view, opt_str_view, order_view, select_view, set_view, values_view};
use crate::sql::text::{chars_lt, chars_of, compare_str, copy_string, str_eq, Order3};
use crate::sql::types::DataType;
use ast::{names_view, Column, Consts, Expression, FromItem, JoinType, Operation, OrderDirection, Statement};
use grammar::{
    col_opts_at, column_at, column_def_view, columns_at, columns_view, cond_clause_at, create_at,
    create_table_at, datatype_of_token, delete_at, expr_at, expr_clause_at, expr_list_at, from_at,
    from_view, group_at, has_name, ident_at, ident_list_at, insert_at, insert_by_name, is_tok,
    join_at, join_cond_at, joins_at, op_expr_at, order_at, order_items_at, parse_tokens_from,
    select_at, select_clause_at, select_items_at, set_items_at, set_repeat_at, statement_at, statement_repeat_at, update_at, update_repeat_at,
    value_rows_at, FromModel,
};
use ast::ExprModel;
use lexer::{lex, lex_from, tokens_view, Keyword, Token, TokenModel};

pub mod ast;
pub mod grammar;
pub mod lexer;

verus! {

/// A token that carries no text.
pub open spec fn bare_token(t: TokenModel) -> bool {
    !(t is Ident || t is String || t is Number)
}

/// Whether token `a` is token `b`, which carries no text.
fn same_token(a: &Token, b: &Token) -> (r: bool)
    requires
        bare_token(b@),
    ensures
        r == (a@ == b@),
{
    match a {
        Token::Keyword(x) => match b {
            Token::Keyword(y) => *x == *y,
            _ => false,
        },
        Token::OpenParen => matches!(b, Token::OpenParen),
        Token::CloseParen => matches!(b, Token::CloseParen),
        Token::Comma => matches!(b, Token::Comma),
        Token::Semicolon => matches!(b, Token::Semicolon),
        Token::Asterisk => matches!(b, Token::Asterisk),
        Token::Plus => matches!(b, Token::Plus),
        Token::Minus => matches!(b, Token::Minus),
        Token::Slash => matches!(b, Token::Slash),
        Token::Equal => matches!(b, Token::Equal),
        Token::GreaterThan => matches!(b, Token::GreaterThan),
        Token::LessThan => matches!(b, Token::LessThan),
        _ => false,
    }
}

/// What a failed parse reports: a parse error, or, where a comparison has
/// no `=`, `>` or `<` after its left side, the internal error
/// "unexpected token".
pub open spec fn parse_failure(e: Error) -> bool {
    e is Parse || (e matches Error::Internal(m) && m@ == "unexpected token"@)
}

fn parse_error(msg: &str) -> (e: Error)
    ensures
        e matches Error::Parse(m) && m@ == msg@,
{
    Error::Parse(String::from_str(msg))
}

/// Reads one statement from SQL text.
pub struct Parser {
    tokens: Vec<Token>,
    pos: usize,
    lex_error: Option<String>,
    text: Ghost<Seq<char>>,
}

impl Parser {
    /// The text the parser reads.
    pub closed spec fn source(&self) -> Seq<char> {
        self.text@
    }

    /// The tokens of the text; `None` where it does not lex.
    pub closed spec fn tokens(&self) -> Option<Seq<TokenModel>> {
        match self.lex_error {
            Some(_) => None,
            None => Some(tokens_view(self.tokens@)),
        }
    }

    /// How many tokens have been read.
    pub closed spec fn position(&self) -> int {
        self.pos as int
    }

    pub closed spec fn wf(&self) -> bool {
        &&& self.pos <= self.tokens@.len()
        &&& self.tokens() == lex_from(self.text@, 0)
    }

    spec fn ts(&self) -> Seq<TokenModel> {
        tokens_view(self.tokens@)
    }

    spec fn at(&self) -> int {
        self.pos as int
    }

    /// The parser read on from `old`: same tokens, later position.
    spec fn moved(&self, old: Parser) -> bool {
        &&& self.wf()
        &&& self.tokens@ == old.tokens@
        &&& self.lex_error == old.lex_error
        &&& self.text == old.text
        &&& self.pos >= old.pos
    }

    /// A parser of `input`, which it lexes.
    pub fn new(input: &str) -> (p: Parser)
        ensures
            p.wf(),
            p.source() == input@,
            p.tokens() == lex_from(input@, 0),
            p.position() == 0,
    {
        match lex(input) {
            Ok(tokens) => Parser { tokens, pos: 0, lex_error: None, text: Ghost(input@) },
            Err(e) => {
                let msg = match e {
                    Error::Parse(m) => m,
                    Error::Internal(m) => m,
                    Error::WriteConflict => String::new(),
                };
                Parser { tokens: Vec::new(), pos: 0, lex_error: Some(msg), text: Ghost(input@) }
            },
        }
    }

    /// Moves past the next token if it is `t`.
    fn next_if_token(&mut self, t: &Token) -> (r: bool)
        requires
            old(self).wf(),
            bare_token(t@),
        ensures
            final(self).moved(*old(self)),
            r == is_tok(old(self).ts(), old(self).at(), t@),
            final(self).pos == if r { old(self).pos + 1 } else { old(self).pos as int },
    {
        if self.pos < self.tokens.len() && same_token(&self.tokens[self.pos], t) {
            self.pos = self.pos + 1;
            true
        } else {
            false
        }
    }

    /// Moves past the next token, which must be `t`.
    fn next_expect(&mut self, t: &Token) -> (r: Result<()>)
        requires
            old(self).wf(),
            bare_token(t@),
        ensures
            r matches Err(e) ==> e is Parse,
            final(self).moved(*old(self)),
            r is Ok == is_tok(old(self).ts(), old(self).at(), t@),
            r is Ok ==> final(self).pos == old(self).pos + 1,
    {
        if self.next_if_token(t) {
            Ok(())
        } else {
            Err(parse_error("[Parser] Unexpected token"))
        }
    }

    /// Reads an identifier.
    fn next_ident(&mut self) -> (r: Result<String>)
        requires
            old(self).wf(),
        ensures
            r matches Err(e) ==> e is Parse,
            final(self).moved(*old(self)),
            match ident_at(old(self).ts(), old(self).at()) {
                Some(i) => r matches Ok(s) && s@ == i && final(self).pos == old(self).pos + 1,
                None => r is Err,
            },
    {
        if self.pos < self.tokens.len() {
            let p = self.pos;
            match &self.tokens[p] {
                Token::Ident(s) => {
                    let s = copy_string(s);
                    self.pos = p + 1;
                    return Ok(s);
                },
                _ => {},
            }
        }
        Err(parse_error("[Parser] Expected ident"))
    }

    /// Reads a type name.
    fn next_datatype(&mut self) -> (r: Result<DataType>)
        requires
            old(self).wf(),
        ensures
            r matches Err(e) ==> e is Parse,
            final(self).moved(*old(self)),
            match (if old(self).pos < old(self).tokens@.len() {
                datatype_of_token(old(self).ts()[old(self).at()])
            } else {
                None
            }) {
                Some(d) => r matches Ok(x) && x == d && final(self).pos == old(self).pos + 1,
                None => r is Err,
            },
    {
        if self.pos < self.tokens.len() {
            let p = self.pos;
            let d = match &self.tokens[p] {
                Token::Keyword(Keyword::Bool) => DataType::Boolean,
                Token::Keyword(Keyword::Boolean) => DataType::Boolean,
                Token::Keyword(Keyword::Int) => DataType::Integer,
                Token::Keyword(Keyword::Integer) => DataType::Integer,
                Token::Keyword(Keyword::Float) => DataType::Float,
                Token::Keyword(Keyword::Double) => DataType::Float,
                Token::Keyword(Keyword::String) => DataType::String,
                Token::Keyword(Keyword::Text) => DataType::String,
                Token::Keyword(Keyword::Varchar) => DataType::String,
                _ => {
                    return Err(parse_error("[Parser] Expected datatype"));
                },
            };
            self.pos = p + 1;
            Ok(d)
        } else {
            Err(parse_error("[Parser] Unexpected end of input"))
        }
    }

    /// Reads an expression: a column, a function of a column, or a constant.
    fn parse_expression(&mut self) -> (r: Result<Expression>)
        requires
            old(self).wf(),
        ensures
            r matches Err(e) ==> e is Parse,
            final(self).moved(*old(self)),
            match expr_at(old(self).ts(), old(self).at()) {
                Some((m, q)) => r matches Ok(e) && e@ == m && final(self).pos == q,
                None => r is Err,
            },
            r is Ok ==> final(self).pos > old(self).pos,
    {
        if self.pos >= self.tokens.len() {
            return Err(parse_error("[Parser] Unexpected end of input"));
        }
        let p = self.pos;
        match &self.tokens[p] {
            Token::Ident(i) => {
                let ident = copy_string(i);
                self.pos = p + 1;
                if self.next_if_token(&Token::OpenParen) {
                    let col = self.next_ident()?;
                    self.next_expect(&Token::CloseParen)?;
                    Ok(Expression::Function(ident, col))
                } else {
                    Ok(Expression::Filed(ident))
                }
            },
            Token::Number(n) => {
                let chars = chars_of(n.as_str());
                let c = if digits_only(&chars) {
                    match parse_digits_i64(&chars) {
                        Some(v) => Consts::Integer(v),
                        None => {
                            return Err(parse_error("number too large to fit in target type"));
                        },
                    }
                } else {
                    match Decimal::parse(n.as_str()) {
                        Some(d) => Consts::Float(d),
                        None => {
                            return Err(parse_error("invalid float literal"));
                        },
                    }
                };
                self.pos = p + 1;
                Ok(Expression::Consts(c))
            },
            Token::String(s) => {
                let s = copy_string(s);
                self.pos = p + 1;
                Ok(Expression::Consts(Consts::String(s)))
            },
            Token::Keyword(Keyword::True) => {
                self.pos = p + 1;
                Ok(Expression::Consts(Consts::Boolean(true)))
            },
            Token::Keyword(Keyword::False) => {
                self.pos = p + 1;
                Ok(Expression::Consts(Consts::Boolean(false)))
            },
            Token::Keyword(Keyword::Null) => {
                self.pos = p + 1;
                Ok(Expression::Consts(Consts::Null))
            },
            _ => Err(parse_error("[Parser] Unexpected expression token")),
        }
    }

    /// Reads a comparison: an expression, `=`, `>` or `<`, and another.
    fn parse_operation_expr(&mut self) -> (r: Result<Expression>)
        requires
            old(self).wf(),
        ensures
            r matches Err(e) ==> parse_failure(e),
            final(self).moved(*old(self)),
            match op_expr_at(old(self).ts(), old(self).at()) {
                Some((m, q)) => r matches Ok(e) && e@ == m && final(self).pos == q,
                None => r is Err,
            },
    {
        let left = self.parse_expression()?;
        if self.pos >= self.tokens.len() {
            return Err(parse_error("[Parser] Unexpected end of input"));
        }
        let p = self.pos;
        let op: u8 = if same_token(&self.tokens[p], &Token::Equal) {
            0
        } else if same_token(&self.tokens[p], &Token::GreaterThan) {
            1
        } else if same_token(&self.tokens[p], &Token::LessThan) {
            2
        } else {
            return Err(Error::Internal(String::from_str("unexpected token")));
        };
        self.pos = p + 1;
        let right = self.parse_expression()?;
        if op == 0 {
            Ok(Expression::Operation(Operation::Equal(Box::new(left), Box::new(right))))
        } else if op == 1 {
            Ok(Expression::Operation(Operation::GreaterThan(Box::new(left), Box::new(right))))
        } else {
            Ok(Expression::Operation(Operation::LessThan(Box::new(left), Box::new(right))))
        }
    }

    /// An optional clause: keyword `k` and a comparison.
    fn parse_condition_clause(&mut self, k: Keyword) -> (r: Result<Option<Expression>>)
        requires
            old(self).wf(),
        ensures
            r matches Err(e) ==> parse_failure(e),
            final(self).moved(*old(self)),
            match cond_clause_at(old(self).ts(), old(self).at(), k) {
                Some((m, q)) => r matches Ok(o) && opt_expr_view(o) == m && final(self).pos == q,
                None => r is Err,
            },
    {
        if !self.next_if_token(&Token::Keyword(k)) {
            return Ok(None);
        }
        Ok(Some(self.parse_operation_expr()?))
    }

    /// An optional `WHERE` clause.
    fn parse_where_clause(&mut self) -> (r: Result<Option<Expression>>)
        requires
            old(self).wf(),
        ensures
            r matches Err(e) ==> parse_failure(e),
            final(self).moved(*old(self)),
            match cond_clause_at(old(self).ts(), old(self).at(), Keyword::Where) {
                Some((m, q)) => r matches Ok(o) && opt_expr_view(o) == m && final(self).pos == q,
                None => r is Err,
            },
    {
        self.parse_condition_clause(Keyword::Where)
    }

    /// An optional `HAVING` clause.
    fn parse_having_clause(&mut self) -> (r: Result<Option<Expression>>)
        requires
            old(self).wf(),
        ensures
            r matches Err(e) ==> parse_failure(e),
            final(self).moved(*old(self)),
            match cond_clause_at(old(self).ts(), old(self).at(), Keyword::Having) {
                Some((m, q)) => r matches Ok(o) && opt_expr_view(o) == m && final(self).pos == q,
                None => r is Err,
            },
    {
        self.parse_condition_clause(Keyword::Having)
    }

    /// An optional clause: keyword `k` and an expression.
    fn parse_expression_clause(&mut self, k: Keyword) -> (r: Result<Option<Expression>>)
        requires
            old(self).wf(),
        ensures
            r matches Err(e) ==> e is Parse,
            final(self).moved(*old(self)),
            match expr_clause_at(old(self).ts(), old(self).at(), k) {
                Some((m, q)) => r matches Ok(o) && opt_expr_view(o) == m && final(self).pos == q,
                None => r is Err,
            },
    {
        if !self.next_if_token(&Token::Keyword(k)) {
            return Ok(None);
        }
        Ok(Some(self.parse_expression()?))
    }

    /// An optional `GROUP BY` clause.
    fn parse_group_clause(&mut self) -> (r: Result<Option<Expression>>)
        requires
            old(self).wf(),
        ensures
            r matches Err(e) ==> e is Parse,
            final(self).moved(*old(self)),
            match group_at(old(self).ts(), old(self).at()) {
                Some((m, q)) => r matches Ok(o) && opt_expr_view(o) == m && final(self).pos == q,
                None => r is Err,
            },
    {
        if !self.next_if_token(&Token::Keyword(Keyword::Group)) {
            return Ok(None);
        }
        self.next_expect(&Token::Keyword(Keyword::By))?;
        Ok(Some(self.parse_expression()?))
    }

    /// `ORDER BY` items: a column and a direction, separated by commas.
    fn parse_order_items(&mut self) -> (r: Result<Vec<(String, OrderDirection)>>)
        requires
            old(self).wf(),
        ensures
            r matches Err(e) ==> e is Parse,
            final(self).moved(*old(self)),
            match order_items_at(old(self).ts(), old(self).at()) {
                Some((m, q)) => r matches Ok(v) && order_view(v@) == m && final(self).pos == q,
                None => r is Err,
            },
        decreases old(self).tokens@.len() - old(self).pos,
    {
        let col = self.next_ident()?;
        let dir = if self.next_if_token(&Token::Keyword(Keyword::Asc)) {
            OrderDirection::Asc
        } else if self.next_if_token(&Token::Keyword(Keyword::Desc)) {
            OrderDirection::Desc
        } else {
            OrderDirection::Asc
        };
        let ghost item = (col@, dir);
        if self.next_if_token(&Token::Comma) {
            let mut rest = self.parse_order_items()?;
            let ghost tail = rest@;
            rest.insert(0, (col, dir));
            assert(order_view(rest@) =~= seq![item] + order_view(tail));
            Ok(rest)
        } else {
            let v = vec![(col, dir)];
            assert(order_view(v@) =~= seq![item]);
            Ok(v)
        }
    }

    /// An optional `ORDER BY` clause.
    fn parse_order_clause(&mut self) -> (r: Result<Vec<(String, OrderDirection)>>)
        requires
            old(self).wf(),
        ensures
            r matches Err(e) ==> e is Parse,
            final(self).moved(*old(self)),
            match order_at(old(self).ts(), old(self).at()) {
                Some((m, q)) => r matches Ok(v) && order_view(v@) == m && final(self).pos == q,
                None => r is Err,
            },
    {
        if !self.next_if_token(&Token::Keyword(Keyword::Order)) {
            let v = Vec::new();
            assert(order_view(v@) =~= Seq::empty());
            return Ok(v);
        }
        self.next_expect(&Token::Keyword(Keyword::By))?;
        self.parse_order_items()
    }

    /// Select items: an expression and an optional alias, separated by
    /// commas.
    fn parse_select_items(&mut self) -> (r: Result<Vec<(Expression, Option<String>)>>)
        requires
            old(self).wf(),
        ensures
            r matches Err(e) ==> e is Parse,
            final(self).moved(*old(self)),
            match select_items_at(old(self).ts(), old(self).at()) {
                Some((m, q)) => r matches Ok(v) && select_view(v@) == m && final(self).pos == q,
                None => r is Err,
            },
        decreases old(self).tokens@.len() - old(self).pos,
    {
        let expr = self.parse_expression()?;
        let alias = if self.next_if_token(&Token::Keyword(Keyword::As)) {
            Some(self.next_ident()?)
        } else {
            None
        };
        let ghost item = (expr@, opt_str_view(alias));
        if self.next_if_token(&Token::Comma) {
            let mut rest = self.parse_select_items()?;
            let ghost tail = rest@;
            rest.insert(0, (expr, alias));
            assert(select_view(rest@) =~= seq![item] + select_view(tail));
            Ok(rest)
        } else {
            let v = vec![(expr, alias)];
            assert(select_view(v@) =~= seq![item]);
            Ok(v)
        }
    }

    /// `SELECT` and its list: `*` (nothing) or items.
    fn parse_select_clause(&mut self) -> (r: Result<Vec<(Expression, Option<String>)>>)
        requires
            old(self).wf(),
        ensures
            r matches Err(e) ==> e is Parse,
            final(self).moved(*old(self)),
            match select_clause_at(old(self).ts(), old(self).at()) {
                Some((m, q)) => r matches Ok(v) && select_view(v@) == m && final(self).pos == q,
                None => r is Err,
            },
    {
        self.next_expect(&Token::Keyword(Keyword::Select))?;
        if self.next_if_token(&Token::Asterisk) {
            let v = Vec::new();
            assert(select_view(v@) =~= Seq::empty());
            return Ok(v);
        }
        self.parse_select_items()
    }

    /// The join keyword, if there is one.
    fn parse_from_clause_join(&mut self) -> (r: Result<Option<JoinType>>)
        requires
            old(self).wf(),
        ensures
            r matches Err(e) ==> e is Parse,
            final(self).moved(*old(self)),
            match join_at(old(self).ts(), old(self).at()) {
                Some(Some((jt, q))) => r matches Ok(Some(j)) && j == jt && final(self).pos == q,
                Some(None) => r matches Ok(None) && final(self).pos == old(self).pos,
                None => r is Err,
            },
    {
        if self.next_if_token(&Token::Keyword(Keyword::Cross)) {
            self.next_expect(&Token::Keyword(Keyword::Join))?;
            Ok(Some(JoinType::Cross))
        } else if self.next_if_token(&Token::Keyword(Keyword::Join)) {
            Ok(Some(JoinType::Inner))
        } else if self.next_if_token(&Token::Keyword(Keyword::Left)) {
            self.next_expect(&Token::Keyword(Keyword::Join))?;
            Ok(Some(JoinType::Left))
        } else if self.next_if_token(&Token::Keyword(Keyword::Right)) {
            self.next_expect(&Token::Keyword(Keyword::Join))?;
            Ok(Some(JoinType::Right))
        } else {
            Ok(None)
        }
    }

    /// A table name.
    fn parse_from_table_clause(&mut self) -> (r: Result<FromItem>)
        requires
            old(self).wf(),
        ensures
            r matches Err(e) ==> e is Parse,
            final(self).moved(*old(self)),
            match ident_at(old(self).ts(), old(self).at()) {
                Some(name) => r matches Ok(f) && from_view(f) == (FromModel::Table { name })
                    && final(self).pos == old(self).pos + 1,
                None => r is Err,
            },
    {
        Ok(FromItem::Table { name: self.next_ident()? })
    }

    /// The condition of a join of type `jt`: `ON`, an expression, `=` and
    /// another; a right join compares them the other way round.
    fn parse_join_predicate(&mut self, jt: JoinType) -> (r: Result<Option<Expression>>)
        requires
            old(self).wf(),
        ensures
            r matches Err(e) ==> e is Parse,
            final(self).moved(*old(self)),
            match join_cond_at(old(self).ts(), old(self).at(), jt) {
                Some((m, q)) => r matches Ok(o) && opt_expr_view(o) == m && final(self).pos == q,
                None => r is Err,
            },
    {
        if jt == JoinType::Cross {
            return Ok(None);
        }
        self.next_expect(&Token::Keyword(Keyword::On))?;
        let l = self.parse_expression()?;
        self.next_expect(&Token::Equal)?;
        let r = self.parse_expression()?;
        if jt == JoinType::Right {
            Ok(Some(Expression::Operation(Operation::Equal(Box::new(r), Box::new(l)))))
        } else {
            Ok(Some(Expression::Operation(Operation::Equal(Box::new(l), Box::new(r)))))
        }
    }

    /// The `FROM` clause: a table, then joins, each with the item so far on
    /// its left.
    fn parse_from_clause(&mut self) -> (r: Result<FromItem>)
        requires
            old(self).wf(),
        ensures
            r matches Err(e) ==> e is Parse,
            final(self).moved(*old(self)),
            match from_at(old(self).ts(), old(self).at()) {
                Some((m, q)) => r matches Ok(f) && from_view(f) == m && final(self).pos == q,
                None => r is Err,
            },
    {
        self.next_expect(&Token::Keyword(Keyword::From))?;
        let mut item = self.parse_from_table_clause()?;
        loop
            invariant
                self.moved(*old(self)),
                from_at(old(self).ts(), old(self).at()) == joins_at(self.ts(), self.at(), from_view(item)),
            decreases self.tokens@.len() - self.pos,
        {
            let join_type = match self.parse_from_clause_join()? {
                Some(jt) => jt,
                None => {
                    return Ok(item);
                },
            };
            let right = self.parse_from_table_clause()?;
            let predicate = self.parse_join_predicate(join_type)?;
            item = FromItem::Join { left: Box::new(item), right: Box::new(right), join_type, predicate };
        }
    }

    /// A `SELECT` statement.
    fn parse_select(&mut self) -> (r: Result<Statement>)
        requires
            old(self).wf(),
        ensures
            r matches Err(e) ==> parse_failure(e),
            final(self).moved(*old(self)),
            match select_at(old(self).ts(), old(self).at()) {
                Some((m, q)) => r matches Ok(s) && s@ == m && final(self).pos == q,
                None => r is Err,
            },
    {
        let select = self.parse_select_clause()?;
        let from = self.parse_from_clause()?;
        let where_clause = self.parse_where_clause()?;
        let group_by = self.parse_group_clause()?;
        let having = self.parse_having_clause()?;
        let order_by = self.parse_order_clause()?;
        let limit = self.parse_expression_clause(Keyword::Limit)?;
        let offset = self.parse_expression_clause(Keyword::Offset)?;
        Ok(Statement::Select { select, from, where_clause, group_by, having, order_by, limit, offset })
    }

    /// Identifiers separated by commas, up to a closing parenthesis.
    fn parse_ident_list(&mut self) -> (r: Result<Vec<String>>)
        requires
            old(self).wf(),
        ensures
            r matches Err(e) ==> e is Parse,
            final(self).moved(*old(self)),
            match ident_list_at(old(self).ts(), old(self).at()) {
                Some((m, q)) => r matches Ok(v) && names_view(v@) == m && final(self).pos == q,
                None => r is Err,
            },
        decreases old(self).tokens@.len() - old(self).pos,
    {
        let c = self.next_ident()?;
        let ghost cv = c@;
        if self.next_if_token(&Token::CloseParen) {
            let v = vec![c];
            assert(names_view(v@) =~= seq![cv]);
            Ok(v)
        } else if self.next_if_token(&Token::Comma) {
            let mut rest = self.parse_ident_list()?;
            let ghost tail = rest@;
            rest.insert(0, c);
            assert(names_view(rest@) =~= seq![cv] + names_view(tail));
            Ok(rest)
        } else {
            Err(parse_error("[Parser] Unexpected token"))
        }
    }

    /// Expressions separated by commas, up to a closing parenthesis.
    fn parse_expr_list(&mut self) -> (r: Result<Vec<Expression>>)
        requires
            old(self).wf(),
        ensures
            r matches Err(e) ==> e is Parse,
            final(self).moved(*old(self)),
            match expr_list_at(old(self).ts(), old(self).at()) {
                Some((m, q)) => r matches Ok(v) && exprs_view(v@) == m && final(self).pos == q,
                None => r is Err,
            },
        decreases old(self).tokens@.len() - old(self).pos,
    {
        let e = self.parse_expression()?;
        let ghost ev = e@;
        if self.next_if_token(&Token::CloseParen) {
            let v = vec![e];
            assert(exprs_view(v@) =~= seq![ev]);
            Ok(v)
        } else if self.next_if_token(&Token::Comma) {
            let mut rest = self.parse_expr_list()?;
            let ghost tail = rest@;
            rest.insert(0, e);
            assert(exprs_view(rest@) =~= seq![ev] + exprs_view(tail));
            Ok(rest)
        } else {
            Err(parse_error("[Parser] Unexpected token"))
        }
    }

    /// Rows of values: parenthesized lists separated by commas.
    fn parse_value_rows(&mut self) -> (r: Result<Vec<Vec<Expression>>>)
        requires
            old(self).wf(),
        ensures
            r matches Err(e) ==> e is Parse,
            final(self).moved(*old(self)),
            match value_rows_at(old(self).ts(), old(self).at()) {
                Some((m, q)) => r matches Ok(v) && values_view(v@) == m && final(self).pos == q,
                None => r is Err,
            },
        decreases old(self).tokens@.len() - old(self).pos,
    {
        self.next_expect(&Token::OpenParen)?;
        let row = self.parse_expr_list()?;
        let ghost rv = exprs_view(row@);
        if self.next_if_token(&Token::Comma) {
            let mut rest = self.parse_value_rows()?;
            let ghost tail = rest@;
            rest.insert(0, row);
            assert(values_view(rest@) =~= seq![rv] + values_view(tail));
            Ok(rest)
        } else {
            let v = vec![row];
            assert(values_view(v@) =~= seq![rv]);
            Ok(v)
        }
    }

    /// An `INSERT` statement.
    fn parse_insert(&mut self) -> (r: Result<Statement>)
        requires
            old(self).wf(),
        ensures
            r matches Err(e) ==> e is Parse,
            final(self).moved(*old(self)),
            match insert_at(old(self).ts(), old(self).at()) {
                Some((m, q)) => r matches Ok(s) && s@ == m && final(self).pos == q,
                None => r is Err,
            },
    {
        self.next_expect(&Token::Keyword(Keyword::Insert))?;
        self.next_expect(&Token::Keyword(Keyword::Into))?;
        let table_name = self.next_ident()?;
        let columns = if self.next_if_token(&Token::OpenParen) {
            Some(self.parse_ident_list()?)
        } else {
            None
        };
        self.next_expect(&Token::Keyword(Keyword::Values))?;
        let values = self.parse_value_rows()?;
        Ok(Statement::Insert { table_name, columns, values })
    }

    /// `SET` items: a column, `=` and an expression, separated by commas;
    /// each column once, kept in the order of their names.
    fn parse_set_items(&mut self) -> (r: Result<Vec<(String, Expression)>>)
        requires
            old(self).wf(),
        ensures
            r matches Err(e) ==> e is Parse,
            final(self).moved(*old(self)),
            match set_items_at(old(self).ts(), old(self).at(), Seq::empty()) {
                Some((m, q)) => r matches Ok(v) && set_view(v@) == m && final(self).pos == q,
                None => r is Err,
            },
            set_repeat_at(old(self).ts(), old(self).at(), Seq::empty()) matches Some(c) ==> (r matches Err(
                Error::Parse(m),
            ) && m@ == "[Parser] Duplicate column "@ + c + " for update"@),
    {
        let mut columns: Vec<(String, Expression)> = Vec::new();
        assert(set_view(columns@) =~= Seq::empty());
        loop
            invariant
                self.moved(*old(self)),
                set_items_at(old(self).ts(), old(self).at(), Seq::empty()) == set_items_at(
                    self.ts(),
                    self.at(),
                    set_view(columns@),
                ),
                set_repeat_at(old(self).ts(), old(self).at(), Seq::empty()) == set_repeat_at(
                    self.ts(),
                    self.at(),
                    set_view(columns@),
                ),
            decreases self.tokens@.len() - self.pos,
        {
            let col = self.next_ident()?;
            if has_column(&columns, &col) {
                return Err(Error::Parse(String::from_str("[Parser] Duplicate column ").concat(col.as_str()).concat(" for update")));
            }
            self.next_expect(&Token::Equal)?;
            let value = self.parse_expression()?;
            insert_by_name_exec(&mut columns, col, value);
            if !self.next_if_token(&Token::Comma) {
                return Ok(columns);
            }
        }
    }

    /// An `UPDATE` statement.
    fn parse_update(&mut self) -> (r: Result<Statement>)
        requires
            old(self).wf(),
        ensures
            r matches Err(e) ==> parse_failure(e),
            final(self).moved(*old(self)),
            match update_at(old(self).ts(), old(self).at()) {
                Some((m, q)) => r matches Ok(s) && s@ == m && final(self).pos == q,
                None => r is Err,
            },
            update_repeat_at(old(self).ts(), old(self).at()) matches Some(c) ==> (r matches Err(
                Error::Parse(m),
            ) && m@ == "[Parser] Duplicate column "@ + c + " for update"@),
    {
        self.next_expect(&Token::Keyword(Keyword::Update))?;
        let table_name = self.next_ident()?;
        self.next_expect(&Token::Keyword(Keyword::SetClause))?;
        let columns = self.parse_set_items()?;
        let where_clause = self.parse_where_clause()?;
        Ok(Statement::Update { table_name, columns, where_clause })
    }

    /// A `DELETE` statement.
    fn parse_delete(&mut self) -> (r: Result<Statement>)
        requires
            old(self).wf(),
        ensures
            r matches Err(e) ==> parse_failure(e),
            final(self).moved(*old(self)),
            match delete_at(old(self).ts(), old(self).at()) {
                Some((m, q)) => r matches Ok(s) && s@ == m && final(self).pos == q,
                None => r is Err,
            },
    {
        self.next_expect(&Token::Keyword(Keyword::Delete))?;
        self.next_expect(&Token::Keyword(Keyword::From))?;
        let table_name = self.next_ident()?;
        let where_clause = self.parse_where_clause()?;
        Ok(Statement::Delete { table_name, where_clause })
    }

    /// A column declaration: a name, a type, then options until a token
    /// that is not a keyword.
    fn parse_ddl_column(&mut self) -> (r: Result<Column>)
        requires
            old(self).wf(),
        ensures
            r matches Err(e) ==> e is Parse,
            final(self).moved(*old(self)),
            match column_at(old(self).ts(), old(self).at()) {
                Some((m, q)) => r matches Ok(c) && column_def_view(c) == m && final(self).pos == q,
                None => r is Err,
            },
    {
        let name = self.next_ident()?;
        let datatype = self.next_datatype()?;
        let mut column = Column { name, datatype, nullable: None, default: None, primary_key: false };
        loop
            invariant
                self.moved(*old(self)),
                column_at(old(self).ts(), old(self).at()) == col_opts_at(
                    self.ts(),
                    self.at(),
                    column_def_view(column),
                ),
            decreases self.tokens@.len() - self.pos,
        {
            if self.pos >= self.tokens.len() {
                return Ok(column);
            }
            let p = self.pos;
            let k = match &self.tokens[p] {
                Token::Keyword(k) => *k,
                _ => {
                    return Ok(column);
                },
            };
            self.pos = p + 1;
            match k {
                Keyword::Null => {
                    column.nullable = Some(true);
                },
                Keyword::Not => {
                    self.next_expect(&Token::Keyword(Keyword::Null))?;
                    column.nullable = Some(false);
                },
                Keyword::Default => {
                    column.default = Some(self.parse_expression()?);
                },
                Keyword::Primary => {
                    self.next_expect(&Token::Keyword(Keyword::Key))?;
                    column.primary_key = true;
                },
                _ => {
                    return Err(parse_error("[Parser] Unexpected keyword"));
                },
            }
        }
    }

    /// Column declarations separated by commas.
    fn parse_ddl_columns(&mut self) -> (r: Result<Vec<Column>>)
        requires
            old(self).wf(),
        ensures
            r matches Err(e) ==> e is Parse,
            final(self).moved(*old(self)),
            match columns_at(old(self).ts(), old(self).at()) {
                Some((m, q)) => r matches Ok(v) && columns_view(v@) == m && final(self).pos == q,
                None => r is Err,
            },
        decreases old(self).tokens@.len() - old(self).pos,
    {
        let c = self.parse_ddl_column()?;
        let ghost cv = column_def_view(c);
        if self.next_if_token(&Token::Comma) {
            let mut rest = self.parse_ddl_columns()?;
            let ghost tail = rest@;
            rest.insert(0, c);
            assert(columns_view(rest@) =~= seq![cv] + columns_view(tail));
            Ok(rest)
        } else {
            let v = vec![c];
            assert(columns_view(v@) =~= seq![cv]);
            Ok(v)
        }
    }

    /// The rest of `CREATE TABLE`: the name and the columns in parentheses.
    fn parse_ddl_create_table(&mut self) -> (r: Result<Statement>)
        requires
            old(self).wf(),
        ensures
            r matches Err(e) ==> e is Parse,
            final(self).moved(*old(self)),
            match create_table_at(old(self).ts(), old(self).at()) {
                Some((m, q)) => r matches Ok(s) && s@ == m && final(self).pos == q,
                None => r is Err,
            },
    {
        let name = self.next_ident()?;
        self.next_expect(&Token::OpenParen)?;
        let columns = self.parse_ddl_columns()?;
        self.next_expect(&Token::CloseParen)?;
        Ok(Statement::CreateTable { name, columns })
    }

    /// A `CREATE TABLE` statement.
    fn parse_ddl(&mut self) -> (r: Result<Statement>)
        requires
            old(self).wf(),
        ensures
            r matches Err(e) ==> e is Parse,
            final(self).moved(*old(self)),
            match create_at(old(self).ts(), old(self).at()) {
                Some((m, q)) => r matches Ok(s) && s@ == m && final(self).pos == q,
                None => r is Err,
            },
    {
        self.next_expect(&Token::Keyword(Keyword::Create))?;
        self.next_expect(&Token::Keyword(Keyword::Table))?;
        self.parse_ddl_create_table()
    }

    /// A statement, by its first keyword.
    fn parse_statement(&mut self) -> (r: Result<Statement>)
        requires
            old(self).wf(),
        ensures
            r matches Err(e) ==> parse_failure(e),
            final(self).moved(*old(self)),
            match statement_at(old(self).ts(), old(self).at()) {
                Some((m, q)) => r matches Ok(s) && s@ == m && final(self).pos == q,
                None => r is Err,
            },
            statement_repeat_at(old(self).ts(), old(self).at()) matches Some(c) ==> (r matches Err(
                Error::Parse(m),
            ) && m@ == "[Parser] Duplicate column "@ + c + " for update"@),
    {
        if self.pos >= self.tokens.len() {
            return Err(parse_error("[Parser] Unexpected end of input"));
        }
        let p = self.pos;
        let kind: u8 = match &self.tokens[p] {
            Token::Keyword(Keyword::Create) => 0,
            Token::Keyword(Keyword::Select) => 1,
            Token::Keyword(Keyword::Insert) => 2,
            Token::Keyword(Keyword::Update) => 3,
            Token::Keyword(Keyword::Delete) => 4,
            _ => {
                return Err(parse_error("[Parser] Unexpected token"));
            },
        };
        if kind == 0 {
            self.parse_ddl()
        } else if kind == 1 {
            self.parse_select()
        } else if kind == 2 {
            self.parse_insert()
        } else if kind == 3 {
            self.parse_update()
        } else {
            self.parse_delete()
        }
    }

    /// Parses one statement, which a semicolon ends and nothing follows.
    pub fn parse(&mut self) -> (r: Result<Statement>)
        requires
            old(self).wf(),
        ensures
            r matches Err(e) ==> parse_failure(e),
            final(self).wf(),
            final(self).source() == old(self).source(),
            final(self).tokens() == old(self).tokens(),
            match old(self).tokens() {
                Some(ts) => match parse_tokens_from(ts, old(self).position()) {
                    Some(m) => r matches Ok(s) && s@ == m && final(self).position() == ts.len(),
                    None => r is Err,
                },
                None => r matches Err(e) && e is Parse,
            },
            old(self).tokens() matches Some(ts) ==> (statement_repeat_at(ts, old(self).position()) matches Some(
                c,
            ) ==> (r matches Err(Error::Parse(m)) && m@ == "[Parser] Duplicate column "@ + c
                + " for update"@)),
    {
        match &self.lex_error {
            Some(msg) => {
                return Err(Error::Parse(copy_string(msg)));
            },
            None => {},
        }
        let stmt = self.parse_statement()?;
        self.next_expect(&Token::Semicolon)?;
        if self.pos < self.tokens.len() {
            return Err(parse_error("[Parser] Unexpected token"));
        }
        Ok(stmt)
    }
}

/// Whether a column of `set` is named `name`.
fn has_column(set: &Vec<(String, Expression)>, name: &String) -> (r: bool)
    ensures
        r == has_name(set_view(set@), name@),
{
    let mut i: usize = 0;
    while i < set.len()
        invariant
            i <= set@.len(),
            forall|j: int| 0 <= j < i ==> set@[j].0@ != name@,
        decreases set@.len() - i,
    {
        if str_eq(set[i].0.as_str(), name.as_str()) {
            assert(set_view(set@)[i as int].0 == name@);
            return true;
        }
        i = i + 1;
    }
    assert forall|j: int| 0 <= j < set_view(set@).len() implies set_view(set@)[j].0 != name@ by {
        assert(set@[j].0@ != name@);
    }
    false
}

/// Inserting by name puts the entry before the first one whose name sorts
/// after it.
proof fn lemma_insert_by_name(s: Seq<(Seq<char>, ExprModel)>, n: Seq<char>, e: ExprModel, i: int)
    requires
        0 <= i <= s.len(),
        forall|j: int| 0 <= j < i ==> !chars_lt(n, #[trigger] s[j].0),
        i < s.len() ==> chars_lt(n, s[i].0),
    ensures
        insert_by_name(s, n, e) == s.take(i) + seq![(n, e)] + s.skip(i),
    decreases s.len(),
{
    if s.len() == 0 {
        assert(s.take(i) + seq![(n, e)] + s.skip(i) =~= seq![(n, e)]);
    } else if i == 0 {
        assert(s.take(i) + seq![(n, e)] + s.skip(i) =~= seq![(n, e)] + s);
    } else {
        assert(!chars_lt(n, s[0].0));
        let t = s.drop_first();
        assert forall|j: int| 0 <= j < i - 1 implies !chars_lt(n, #[trigger] t[j].0) by {
            assert(t[j] == s[j + 1]);
        }
        lemma_insert_by_name(t, n, e, i - 1);
        assert(s.take(i) + seq![(n, e)] + s.skip(i) =~= seq![s[0]] + (t.take(i - 1) + seq![(n, e)] + t.skip(i - 1)));
    }
}

/// Puts `(name, e)` into `set`, which is in name order, at its place.
fn insert_by_name_exec(set: &mut Vec<(String, Expression)>, name: String, e: Expression)
    ensures
        set_view(final(set)@) == insert_by_name(set_view(old(set)@), name@, e@),
{
    let mut i: usize = 0;
    while i < set.len() && compare_str(name.as_str(), set[i].0.as_str()) != Order3::Less
        invariant
            i <= set@.len(),
            forall|j: int| 0 <= j < i ==> !chars_lt(name@, #[trigger] set@[j].0@),
        decreases set@.len() - i,
    {
        i = i + 1;
    }
    let ghost before = set_view(set@);
    let ghost entry = (name@, e@);
    proof {
        assert forall|j: int| 0 <= j < i implies !chars_lt(name@, #[trigger] before[j].0) by {
            assert(before[j].0 == set@[j].0@);
        }
        lemma_insert_by_name(before, name@, e@, i as int);
    }
    set.insert(i, (name, e));
    assert(set_view(set@) =~= before.take(i as int) + seq![entry] + before.skip(i as int));
}

} // verus!
