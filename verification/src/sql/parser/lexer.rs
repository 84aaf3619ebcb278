//! The lexer: SQL text to tokens.
use vstd::prelude::*;

use crate::error::{Error, Result};
use crate::sql::text::{chars_of, string_of};

verus! {

/// A keyword of the language.
#[derive(PartialEq, Eq, Structural, Clone, Copy, Debug)]
pub enum Keyword {
    Create,
    Table,
    Int,
    Integer,
    Boolean,
    Bool,
    String,
    Text,
    Varchar,
    Float,
    Double,
    Select,
    From,
    Insert,
    Into,
    Values,
    True,
    False,
    Default,
    Not,
    Null,
    Primary,
    Key,
    Update,
    SetClause,
    Where,
    Delete,
    Order,
    By,
    Asc,
    Desc,
    Limit,
    Offset,
    As,
    Cross,
    Join,
    Left,
    Right,
    On,
    Group,
    Having,
    Begin,
    Commit,
    Rollback,
    Explain,
}

/// A token.
#[derive(Debug, Clone, PartialEq)]
pub enum Token {
    Keyword(Keyword),
    Ident(String),
    String(String),
    Number(String),
    OpenParen,
    CloseParen,
    Comma,
    Semicolon,
    Asterisk,
    Plus,
    Minus,
    Slash,
    Equal,
    GreaterThan,
    LessThan,
}

/// The mathematical form of a token.
pub enum TokenModel {
    Keyword(Keyword),
    Ident(Seq<char>),
    String(Seq<char>),
    Number(Seq<char>),
    OpenParen,
    CloseParen,
    Comma,
    Semicolon,
    Asterisk,
    Plus,
    Minus,
    Slash,
    Equal,
    GreaterThan,
    LessThan,
}

impl View for Token {
    type V = TokenModel;

    open spec fn view(&self) -> TokenModel {
        match self {
            Token::Keyword(k) => TokenModel::Keyword(*k),
            Token::Ident(s) => TokenModel::Ident(s@),
            Token::String(s) => TokenModel::String(s@),
            Token::Number(s) => TokenModel::Number(s@),
            Token::OpenParen => TokenModel::OpenParen,
            Token::CloseParen => TokenModel::CloseParen,
            Token::Comma => TokenModel::Comma,
            Token::Semicolon => TokenModel::Semicolon,
            Token::Asterisk => TokenModel::Asterisk,
            Token::Plus => TokenModel::Plus,
            Token::Minus => TokenModel::Minus,
            Token::Slash => TokenModel::Slash,
            Token::Equal => TokenModel::Equal,
            Token::GreaterThan => TokenModel::GreaterThan,
            Token::LessThan => TokenModel::LessThan,
        }
    }
}

pub open spec fn tokens_view(ts: Seq<Token>) -> Seq<TokenModel> {
    ts.map_values(|t: Token| t@)
}

pub open spec fn is_space(c: char) -> bool {
    c == ' ' || c == '\t' || c == '\n' || c == '\r' || c == '\x0b' || c == '\x0c'
}

pub open spec fn is_digit_char(c: char) -> bool {
    '0' <= c && c <= '9'
}

pub open spec fn is_letter(c: char) -> bool {
    ('a' <= c && c <= 'z') || ('A' <= c && c <= 'Z')
}

pub open spec fn is_word_char(c: char) -> bool {
    is_letter(c) || is_digit_char(c) || c == '_'
}

/// A letter in lower case.
pub open spec fn lower(c: char) -> char {
    if 'A' <= c && c <= 'Z' {
        ((c as u32) + 32) as char
    } else {
        c
    }
}

pub open spec fn lower_all(s: Seq<char>) -> Seq<char> {
    s.map_values(|c: char| lower(c))
}

/// The keyword a (lower-case) word is, if any.
pub open spec fn keyword_of(w: Seq<char>) -> Option<Keyword> {
    if w == "create"@ { Some(Keyword::Create) }
    else if w == "table"@ { Some(Keyword::Table) }
    else if w == "int"@ { Some(Keyword::Int) }
    else if w == "integer"@ { Some(Keyword::Integer) }
    else if w == "boolean"@ { Some(Keyword::Boolean) }
    else if w == "bool"@ { Some(Keyword::Bool) }
    else if w == "string"@ { Some(Keyword::String) }
    else if w == "text"@ { Some(Keyword::Text) }
    else if w == "varchar"@ { Some(Keyword::Varchar) }
    else if w == "float"@ { Some(Keyword::Float) }
    else if w == "double"@ { Some(Keyword::Double) }
    else if w == "select"@ { Some(Keyword::Select) }
    else if w == "from"@ { Some(Keyword::From) }
    else if w == "insert"@ { Some(Keyword::Insert) }
    else if w == "into"@ { Some(Keyword::Into) }
    else if w == "values"@ { Some(Keyword::Values) }
    else if w == "true"@ { Some(Keyword::True) }
    else if w == "false"@ { Some(Keyword::False) }
    else if w == "default"@ { Some(Keyword::Default) }
    else if w == "not"@ { Some(Keyword::Not) }
    else if w == "null"@ { Some(Keyword::Null) }
    else if w == "primary"@ { Some(Keyword::Primary) }
    else if w == "key"@ { Some(Keyword::Key) }
    else if w == "update"@ { Some(Keyword::Update) }
    else if w == "set"@ { Some(Keyword::SetClause) }
    else if w == "where"@ { Some(Keyword::Where) }
    else if w == "delete"@ { Some(Keyword::Delete) }
    else if w == "order"@ { Some(Keyword::Order) }
    else if w == "by"@ { Some(Keyword::By) }
    else if w == "asc"@ { Some(Keyword::Asc) }
    else if w == "desc"@ { Some(Keyword::Desc) }
    else if w == "limit"@ { Some(Keyword::Limit) }
    else if w == "offset"@ { Some(Keyword::Offset) }
    else if w == "as"@ { Some(Keyword::As) }
    else if w == "cross"@ { Some(Keyword::Cross) }
    else if w == "join"@ { Some(Keyword::Join) }
    else if w == "left"@ { Some(Keyword::Left) }
    else if w == "right"@ { Some(Keyword::Right) }
    else if w == "on"@ { Some(Keyword::On) }
    else if w == "group"@ { Some(Keyword::Group) }
    else if w == "having"@ { Some(Keyword::Having) }
    else if w == "begin"@ { Some(Keyword::Begin) }
    else if w == "commit"@ { Some(Keyword::Commit) }
    else if w == "rollback"@ { Some(Keyword::Rollback) }
    else if w == "explain"@ { Some(Keyword::Explain) }
    else { None }
}

/// The end of the run of characters from `i` that satisfy `f`.
pub open spec fn run_end(s: Seq<char>, i: int, f: spec_fn(char) -> bool) -> int
    decreases s.len() - i,
{
    if i < s.len() && f(s[i]) {
        run_end(s, i + 1, f)
    } else {
        i
    }
}

/// The position of the first quote from `i`, if any.
pub open spec fn quote_at(s: Seq<char>, i: int) -> Option<int>
    decreases s.len() - i,
{
    if i >= s.len() || i < 0 {
        None
    } else if s[i] == '\'' {
        Some(i)
    } else {
        quote_at(s, i + 1)
    }
}

/// The end of a number from `i`: digits, and a point and digits after.
pub open spec fn number_end(s: Seq<char>, i: int) -> int {
    let e = run_end(s, i, |c: char| is_digit_char(c));
    if e < s.len() && s[e] == '.' {
        run_end(s, e + 1, |c: char| is_digit_char(c))
    } else {
        e
    }
}

/// The token of a one-character symbol.
pub open spec fn symbol_token(c: char) -> Option<TokenModel> {
    if c == '*' { Some(TokenModel::Asterisk) }
    else if c == '(' { Some(TokenModel::OpenParen) }
    else if c == ')' { Some(TokenModel::CloseParen) }
    else if c == ',' { Some(TokenModel::Comma) }
    else if c == ';' { Some(TokenModel::Semicolon) }
    else if c == '+' { Some(TokenModel::Plus) }
    else if c == '-' { Some(TokenModel::Minus) }
    else if c == '/' { Some(TokenModel::Slash) }
    else if c == '=' { Some(TokenModel::Equal) }
    else if c == '>' { Some(TokenModel::GreaterThan) }
    else if c == '<' { Some(TokenModel::LessThan) }
    else { None }
}

/// The tokens of the text from position `i`: spaces are passed over; a
/// string runs between quotes; a number is digits with an optional point and
/// more digits; a word (a letter, then letters, digits and underscores) is a
/// keyword or, in lower case, an identifier; then the symbols. `None` where
/// a string is not closed or a character starts no token.
pub open spec fn lex_from(s: Seq<char>, i: int) -> Option<Seq<TokenModel>>
    decreases s.len() - i,
{
    if i < 0 || i >= s.len() {
        Some(Seq::empty())
    } else {
        let c = s[i];
        if is_space(c) {
            lex_from(s, i + 1)
        } else if c == '\'' {
            match quote_at(s, i + 1) {
                Some(j) => if j < s.len() && j > i {
                    match lex_from(s, j + 1) {
                        Some(rest) => Some(seq![TokenModel::String(s.subrange(i + 1, j))] + rest),
                        None => None,
                    }
                } else {
                    None
                },
                None => None,
            }
        } else if is_digit_char(c) {
            let e = number_end(s, i);
            if i < e <= s.len() {
                match lex_from(s, e) {
                    Some(rest) => Some(seq![TokenModel::Number(s.subrange(i, e))] + rest),
                    None => None,
                }
            } else {
                None
            }
        } else if is_letter(c) {
            let e = run_end(s, i + 1, |c: char| is_word_char(c));
            if i < e <= s.len() {
                let w = lower_all(s.subrange(i, e));
                let tok = match keyword_of(w) {
                    Some(k) => TokenModel::Keyword(k),
                    None => TokenModel::Ident(w),
                };
                match lex_from(s, e) {
                    Some(rest) => Some(seq![tok] + rest),
                    None => None,
                }
            } else {
                None
            }
        } else {
            match symbol_token(c) {
                Some(t) => match lex_from(s, i + 1) {
                    Some(rest) => Some(seq![t] + rest),
                    None => None,
                },
                None => None,
            }
        }
    }
}


/// The keyword a (lower-case) word is, if any.
fn keyword_exec(w: &str) -> (r: Option<Keyword>)
    ensures
        r == keyword_of(w@),
{
    if crate::sql::text::str_eq(w, "create") {
        Some(Keyword::Create)
    } else if crate::sql::text::str_eq(w, "table") {
        Some(Keyword::Table)
    } else if crate::sql::text::str_eq(w, "int") {
        Some(Keyword::Int)
    } else if crate::sql::text::str_eq(w, "integer") {
        Some(Keyword::Integer)
    } else if crate::sql::text::str_eq(w, "boolean") {
        Some(Keyword::Boolean)
    } else if crate::sql::text::str_eq(w, "bool") {
        Some(Keyword::Bool)
    } else if crate::sql::text::str_eq(w, "string") {
        Some(Keyword::String)
    } else if crate::sql::text::str_eq(w, "text") {
        Some(Keyword::Text)
    } else if crate::sql::text::str_eq(w, "varchar") {
        Some(Keyword::Varchar)
    } else if crate::sql::text::str_eq(w, "float") {
        Some(Keyword::Float)
    } else if crate::sql::text::str_eq(w, "double") {
        Some(Keyword::Double)
    } else if crate::sql::text::str_eq(w, "select") {
        Some(Keyword::Select)
    } else if crate::sql::text::str_eq(w, "from") {
        Some(Keyword::From)
    } else if crate::sql::text::str_eq(w, "insert") {
        Some(Keyword::Insert)
    } else if crate::sql::text::str_eq(w, "into") {
        Some(Keyword::Into)
    } else if crate::sql::text::str_eq(w, "values") {
        Some(Keyword::Values)
    } else if crate::sql::text::str_eq(w, "true") {
        Some(Keyword::True)
    } else if crate::sql::text::str_eq(w, "false") {
        Some(Keyword::False)
    } else if crate::sql::text::str_eq(w, "default") {
        Some(Keyword::Default)
    } else if crate::sql::text::str_eq(w, "not") {
        Some(Keyword::Not)
    } else if crate::sql::text::str_eq(w, "null") {
        Some(Keyword::Null)
    } else if crate::sql::text::str_eq(w, "primary") {
        Some(Keyword::Primary)
    } else if crate::sql::text::str_eq(w, "key") {
        Some(Keyword::Key)
    } else if crate::sql::text::str_eq(w, "update") {
        Some(Keyword::Update)
    } else if crate::sql::text::str_eq(w, "set") {
        Some(Keyword::SetClause)
    } else if crate::sql::text::str_eq(w, "where") {
        Some(Keyword::Where)
    } else if crate::sql::text::str_eq(w, "delete") {
        Some(Keyword::Delete)
    } else if crate::sql::text::str_eq(w, "order") {
        Some(Keyword::Order)
    } else if crate::sql::text::str_eq(w, "by") {
        Some(Keyword::By)
    } else if crate::sql::text::str_eq(w, "asc") {
        Some(Keyword::Asc)
    } else if crate::sql::text::str_eq(w, "desc") {
        Some(Keyword::Desc)
    } else if crate::sql::text::str_eq(w, "limit") {
        Some(Keyword::Limit)
    } else if crate::sql::text::str_eq(w, "offset") {
        Some(Keyword::Offset)
    } else if crate::sql::text::str_eq(w, "as") {
        Some(Keyword::As)
    } else if crate::sql::text::str_eq(w, "cross") {
        Some(Keyword::Cross)
    } else if crate::sql::text::str_eq(w, "join") {
        Some(Keyword::Join)
    } else if crate::sql::text::str_eq(w, "left") {
        Some(Keyword::Left)
    } else if crate::sql::text::str_eq(w, "right") {
        Some(Keyword::Right)
    } else if crate::sql::text::str_eq(w, "on") {
        Some(Keyword::On)
    } else if crate::sql::text::str_eq(w, "group") {
        Some(Keyword::Group)
    } else if crate::sql::text::str_eq(w, "having") {
        Some(Keyword::Having)
    } else if crate::sql::text::str_eq(w, "begin") {
        Some(Keyword::Begin)
    } else if crate::sql::text::str_eq(w, "commit") {
        Some(Keyword::Commit)
    } else if crate::sql::text::str_eq(w, "rollback") {
        Some(Keyword::Rollback)
    } else if crate::sql::text::str_eq(w, "explain") {
        Some(Keyword::Explain)
    } else {
        None
    }
}

pub open spec fn prepend(a: Seq<TokenModel>, o: Option<Seq<TokenModel>>) -> Option<Seq<TokenModel>> {
    match o {
        Some(r) => Some(a + r),
        None => None,
    }
}

fn lower_char(c: char) -> (r: char)
    ensures
        r == lower(c),
{
    if 'A' <= c && c <= 'Z' {
        ((c as u8) + 32) as char
    } else {
        c
    }
}

/// The end of the run of digits from `i`.
fn digits_end(s: &Vec<char>, i: usize) -> (e: usize)
    requires
        i <= s@.len(),
    ensures
        e == run_end(s@, i as int, |c: char| is_digit_char(c)),
        i <= e <= s@.len(),
{
    let mut e = i;
    while e < s.len() && s[e] >= '0' && s[e] <= '9'
        invariant
            i <= e <= s@.len(),
            run_end(s@, i as int, |c: char| is_digit_char(c)) == run_end(s@, e as int, |c: char| is_digit_char(c)),
        decreases s@.len() - e,
    {
        e = e + 1;
    }
    e
}

/// The end of the run of word characters from `i`.
fn word_end(s: &Vec<char>, i: usize) -> (e: usize)
    requires
        i <= s@.len(),
    ensures
        e == run_end(s@, i as int, |c: char| is_word_char(c)),
        i <= e <= s@.len(),
{
    let mut e = i;
    while e < s.len() && (('a' <= s[e] && s[e] <= 'z') || ('A' <= s[e] && s[e] <= 'Z') || ('0' <= s[e] && s[e] <= '9') || s[e] == '_')
        invariant
            i <= e <= s@.len(),
            run_end(s@, i as int, |c: char| is_word_char(c)) == run_end(s@, e as int, |c: char| is_word_char(c)),
        decreases s@.len() - e,
    {
        e = e + 1;
    }
    e
}

/// The first quote from `i`.
fn find_quote(s: &Vec<char>, i: usize) -> (r: Option<usize>)
    requires
        i <= s@.len(),
    ensures
        match r {
            Some(j) => quote_at(s@, i as int) == Some(j as int) && i <= j < s@.len(),
            None => quote_at(s@, i as int) is None,
        },
{
    let mut j = i;
    while j < s.len()
        invariant
            i <= j <= s@.len(),
            quote_at(s@, i as int) == quote_at(s@, j as int),
        decreases s@.len() - j,
    {
        if s[j] == '\'' {
            return Some(j);
        }
        j = j + 1;
    }
    None
}

/// The characters from `a` to `b`.
fn slice_chars(s: &Vec<char>, a: usize, b: usize) -> (r: Vec<char>)
    requires
        a <= b <= s@.len(),
    ensures
        r@ == s@.subrange(a as int, b as int),
{
    let mut r: Vec<char> = Vec::new();
    let mut k = a;
    while k < b
        invariant
            a <= k <= b <= s@.len(),
            r@ == s@.subrange(a as int, k as int),
        decreases b - k,
    {
        r.push(s[k]);
        k = k + 1;
        assert(r@ =~= s@.subrange(a as int, k as int));
    }
    r
}

/// The word from `a` to `b`, in lower case.
fn lower_word(s: &Vec<char>, a: usize, b: usize) -> (r: Vec<char>)
    requires
        a <= b <= s@.len(),
    ensures
        r@ == lower_all(s@.subrange(a as int, b as int)),
{
    let mut r: Vec<char> = Vec::new();
    let mut k = a;
    while k < b
        invariant
            a <= k <= b <= s@.len(),
            r@ == lower_all(s@.subrange(a as int, k as int)),
        decreases b - k,
    {
        r.push(lower_char(s[k]));
        k = k + 1;
        assert(r@ =~= lower_all(s@.subrange(a as int, k as int)));
    }
    r
}

/// The token of a one-character symbol.
fn symbol_exec(c: char) -> (r: Option<Token>)
    ensures
        match r {
            Some(t) => symbol_token(c) == Some(t@),
            None => symbol_token(c) is None,
        },
{
    if c == '*' {
        Some(Token::Asterisk)
    } else if c == '(' {
        Some(Token::OpenParen)
    } else if c == ')' {
        Some(Token::CloseParen)
    } else if c == ',' {
        Some(Token::Comma)
    } else if c == ';' {
        Some(Token::Semicolon)
    } else if c == '+' {
        Some(Token::Plus)
    } else if c == '-' {
        Some(Token::Minus)
    } else if c == '/' {
        Some(Token::Slash)
    } else if c == '=' {
        Some(Token::Equal)
    } else if c == '>' {
        Some(Token::GreaterThan)
    } else if c == '<' {
        Some(Token::LessThan)
    } else {
        None
    }
}

pub open spec fn opt_token_seq(t: Option<Token>) -> Seq<TokenModel> {
    match t {
        Some(x) => seq![x@],
        None => Seq::empty(),
    }
}

proof fn lemma_run_end_ge(s: Seq<char>, i: int, f: spec_fn(char) -> bool)
    ensures
        run_end(s, i, f) >= i,
        0 <= i <= s.len() ==> run_end(s, i, f) <= s.len(),
    decreases s.len() - i,
{
    if i < s.len() && f(s[i]) {
        lemma_run_end_ge(s, i + 1, f);
    }
}

/// The token at position `i` (none for a space) and where the next one may
/// start.
#[verifier::rlimit(40)]
fn next_token(s: &Vec<char>, i: usize) -> (r: Result<(Option<Token>, usize)>)
    requires
        i < s@.len(),
    ensures
        match r {
            Ok((t, j)) => i < j <= s@.len() && lex_from(s@, i as int) == prepend(opt_token_seq(t), lex_from(s@, j as int)),
            Err(e) => lex_from(s@, i as int) is None && e is Parse,
        },
{
    let n = s.len();
    let c = s[i];
    if c == ' ' || c == '\t' || c == '\n' || c == '\r' || c == '\x0b' || c == '\x0c' {
        proof {
            match lex_from(s@, i + 1) {
                Some(rest) => assert(Seq::<TokenModel>::empty() + rest =~= rest),
                None => {},
            }
        }
        Ok((None, i + 1))
    } else if c == '\'' {
        match find_quote(s, i + 1) {
            Some(j) => {
                let text = string_of(&slice_chars(s, i + 1, j));
                Ok((Some(Token::String(text)), j + 1))
            },
            None => Err(Error::Parse(String::from_str("[Lexer] Unexpected end of string"))),
        }
    } else if '0' <= c && c <= '9' {
        let e1 = digits_end(s, i + 1);
        proof {
            assert(run_end(s@, i as int, |c: char| is_digit_char(c)) == run_end(s@, i + 1, |c: char| is_digit_char(c)));
        }
        let e = if e1 < s.len() && s[e1] == '.' {
            digits_end(s, e1 + 1)
        } else {
            e1
        };
        assert(e == number_end(s@, i as int));
        let text = string_of(&slice_chars(s, i, e));
        Ok((Some(Token::Number(text)), e))
    } else if ('a' <= c && c <= 'z') || ('A' <= c && c <= 'Z') {
        let e = word_end(s, i + 1);
        let w = string_of(&lower_word(s, i, e));
        let t = match keyword_exec(w.as_str()) {
            Some(k) => Token::Keyword(k),
            None => Token::Ident(w),
        };
        Ok((Some(t), e))
    } else {
        match symbol_exec(c) {
            Some(t) => Ok((Some(t), i + 1)),
            None => Err(Error::Parse(String::from_str("[Lexer] Unexpected character"))),
        }
    }
}

/// The tokens of a text, as `lex_from` says; a parse error where there are
/// none.
pub fn lex(input: &str) -> (r: Result<Vec<Token>>)
    ensures
        match lex_from(input@, 0) {
            Some(ts) => r matches Ok(v) && tokens_view(v@) == ts,
            None => r matches Err(e) && e is Parse,
        },
{
    let s = chars_of(input);
    let mut out: Vec<Token> = Vec::new();
    let mut i: usize = 0;
    while i < s.len()
        invariant
            i <= s@.len(),
            s@ == input@,
            lex_from(s@, 0) == prepend(tokens_view(out@), lex_from(s@, i as int)),
        decreases s@.len() - i,
    {
        let ghost ov = tokens_view(out@);
        let (t, j) = next_token(&s, i)?;
        let ghost ts = opt_token_seq(t);
        match t {
            Some(x) => {
                out.push(x);
            },
            None => {},
        }
        proof {
            assert(tokens_view(out@) =~= ov + ts);
            match lex_from(s@, j as int) {
                Some(rest) => assert(ov + (ts + rest) =~= (ov + ts) + rest),
                None => {},
            }
        }
        i = j;
    }
    assert(tokens_view(out@) + Seq::<TokenModel>::empty() =~= tokens_view(out@));
    Ok(out)
}

} // verus!
