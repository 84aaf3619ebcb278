use sqldb::error::Result;
use sqldb::sql::number::Decimal;
use sqldb::sql::parser::ast::{Column, Consts, Expression, FromItem, JoinType, Operation, OrderDirection, Statement};
use sqldb::sql::parser::Parser;
use sqldb::sql::types::DataType;

fn num(i: i64) -> Expression {
    Expression::Consts(Consts::Integer(i))
}

fn text(s: &str) -> Expression {
    Expression::Consts(Consts::String(s.to_string()))
}

fn boolean(b: bool) -> Expression {
    Expression::Consts(Consts::Boolean(b))
}

fn field(s: &str) -> Expression {
    Expression::Filed(s.to_string())
}

fn table(s: &str) -> FromItem {
    FromItem::Table { name: s.to_string() }
}

#[test]
fn test_parser_create_table() -> Result<()> {
    let sql1 = "
            create table tbl1 (
                a int default 100,
                b float not null,
                c varchar null,
                d bool default true
            );
        ";
    let stmt1 = Parser::new(sql1).parse()?;

    let sql2 = "
        create            table tbl1 (
            a int default     100,
            b float not null     ,
            c varchar      null,
            d       bool default        true
        );
        ";
    let stmt2 = Parser::new(sql2).parse()?;
    assert_eq!(stmt1, stmt2);

    let sql3 = "
            create            table tbl1 (
            a int default     100,
            b float not null     ,
            c varchar      null,
            d       bool default        true
        )
        ";

    let stmt3 = Parser::new(sql3).parse();
    assert!(stmt3.is_err());
    Ok(())
}

#[test]
fn test_parser_insert() -> Result<()> {
    let sql1 = "insert into tbl1 values (1, 2, 3, 'a', true);";
    let stmt1 = Parser::new(sql1).parse()?;
    assert_eq!(
        stmt1,
        Statement::Insert {
            table_name: "tbl1".to_string(),
            columns: None,
            values: vec![vec![num(1), num(2), num(3), text("a"), boolean(true)]],
        }
    );

    let sql2 = "insert into tbl2 (c1, c2, c3) values (3, 'a', true),(4, 'b', false);";
    let stmt2 = Parser::new(sql2).parse()?;
    assert_eq!(
        stmt2,
        Statement::Insert {
            table_name: "tbl2".to_string(),
            columns: Some(vec!["c1".to_string(), "c2".to_string(), "c3".to_string()]),
            values: vec![
                vec![num(3), text("a"), boolean(true)],
                vec![num(4), text("b"), boolean(false)],
            ],
        }
    );

    Ok(())
}

#[test]
fn test_parser_select() -> Result<()> {
    let sql = "select a as hsy, b from tbl1 cross join tbl2 cross join tbl3 limit 10 offset 10;";
    let stmt = Parser::new(sql).parse()?;
    assert_eq!(
        stmt,
        Statement::Select {
            from: FromItem::Join {
                left: Box::new(FromItem::Join {
                    left: Box::new(table("tbl1")),
                    right: Box::new(table("tbl2")),
                    join_type: JoinType::Cross,
                    predicate: None,
                }),
                right: Box::new(table("tbl3")),
                join_type: JoinType::Cross,
                predicate: None,
            },
            order_by: vec![],
            limit: Some(num(10)),
            offset: Some(num(10)),
            select: vec![(field("a"), Some("hsy".to_string())), (field("b"), None)],
            group_by: None,
            where_clause: None,
            having: None,
        }
    );

    let sql = "select * from tbl1 order by a, b asc, c desc limit 5 offset 20;";
    let stmt = Parser::new(sql).parse()?;
    assert_eq!(
        stmt,
        Statement::Select {
            from: table("tbl1"),
            order_by: vec![
                ("a".to_string(), OrderDirection::Asc),
                ("b".to_string(), OrderDirection::Asc),
                ("c".to_string(), OrderDirection::Desc),
            ],
            limit: Some(num(5)),
            offset: Some(num(20)),
            select: vec![],
            group_by: None,
            where_clause: None,
            having: None,
        }
    );

    let functions = vec![
        (Expression::Function("count".to_string(), "a".to_string()), None),
        (Expression::Function("max".to_string(), "b".to_string()), None),
        (Expression::Function("min".to_string(), "c".to_string()), None),
    ];
    let sql = "select count(a), max(b), min(c) from tbl1;";
    let stmt = Parser::new(sql).parse()?;
    assert_eq!(
        stmt,
        Statement::Select {
            from: table("tbl1"),
            order_by: vec![],
            limit: None,
            offset: None,
            select: vec![
                (Expression::Function("count".to_string(), "a".to_string()), None),
                (Expression::Function("max".to_string(), "b".to_string()), None),
                (Expression::Function("min".to_string(), "c".to_string()), None),
            ],
            group_by: None,
            where_clause: None,
            having: None,
        }
    );

    let sql = "select count(a), max(b), min(c) from tbl1 group by a;";
    let stmt = Parser::new(sql).parse()?;
    assert_eq!(
        stmt,
        Statement::Select {
            from: table("tbl1"),
            order_by: vec![],
            limit: None,
            offset: None,
            select: functions,
            group_by: Some(field("a")),
            where_clause: None,
            having: None,
        }
    );

    let sql = "select * from tbl1 where a > 100;";
    let stmt = Parser::new(sql).parse()?;
    assert_eq!(
        stmt,
        Statement::Select {
            from: table("tbl1"),
            order_by: vec![],
            limit: None,
            offset: None,
            select: vec![],
            group_by: None,
            where_clause: Some(Expression::Operation(Operation::GreaterThan(
                Box::new(field("a")),
                Box::new(num(100))
            ))),
            having: None,
        }
    );

    let sql = "select * from tbl1 group by a having a > 100;";
    let stmt = Parser::new(sql).parse()?;
    assert_eq!(
        stmt,
        Statement::Select {
            from: table("tbl1"),
            order_by: vec![],
            limit: None,
            offset: None,
            select: vec![],
            group_by: Some(field("a")),
            where_clause: None,
            having: Some(Expression::Operation(Operation::GreaterThan(
                Box::new(field("a")),
                Box::new(num(100))
            ))),
        }
    );

    Ok(())
}

#[test]
fn test_parser_update() -> Result<()> {
    let sql = "update tabl set a = 1, b = 2.0 where c < 'a';";
    let stmt = Parser::new(sql).parse()?;
    assert_eq!(
        stmt,
        Statement::Update {
            table_name: "tabl".to_string(),
            columns: vec![
                ("a".to_string(), num(1)),
                ("b".to_string(), Expression::Consts(Consts::Float(Decimal::parse("2.0").unwrap()))),
            ],
            where_clause: Some(Expression::Operation(Operation::LessThan(
                Box::new(field("c")),
                Box::new(text("a"))
            ))),
        },
    );

    Ok(())
}

#[test]
fn update_columns_come_in_name_order() -> Result<()> {
    let stmt = Parser::new("update t set c = 3, a = 1, b = 2;").parse()?;
    assert_eq!(
        stmt,
        Statement::Update {
            table_name: "t".to_string(),
            columns: vec![
                ("a".to_string(), num(1)),
                ("b".to_string(), num(2)),
                ("c".to_string(), num(3)),
            ],
            where_clause: None,
        }
    );
    Ok(())
}

#[test]
fn update_refuses_a_column_set_twice() {
    assert!(Parser::new("update t set a = 1, a = 2;").parse().is_err());
}

#[test]
fn create_table_reads_column_options() -> Result<()> {
    let stmt = Parser::new("create table t (id integer primary key, name text not null, n double null);").parse()?;
    assert_eq!(
        stmt,
        Statement::CreateTable {
            name: "t".to_string(),
            columns: vec![
                Column {
                    name: "id".to_string(),
                    datatype: DataType::Integer,
                    nullable: None,
                    default: None,
                    primary_key: true,
                },
                Column {
                    name: "name".to_string(),
                    datatype: DataType::String,
                    nullable: Some(false),
                    default: None,
                    primary_key: false,
                },
                Column {
                    name: "n".to_string(),
                    datatype: DataType::Float,
                    nullable: Some(true),
                    default: None,
                    primary_key: false,
                },
            ],
        }
    );
    Ok(())
}

#[test]
fn joins_take_their_conditions() -> Result<()> {
    let stmt = Parser::new("select * from a left join b on x = y right join c on p = q;").parse()?;
    assert_eq!(
        stmt,
        Statement::Select {
            from: FromItem::Join {
                left: Box::new(FromItem::Join {
                    left: Box::new(table("a")),
                    right: Box::new(table("b")),
                    join_type: JoinType::Left,
                    predicate: Some(Expression::Operation(Operation::Equal(
                        Box::new(field("x")),
                        Box::new(field("y"))
                    ))),
                }),
                right: Box::new(table("c")),
                join_type: JoinType::Right,
                predicate: Some(Expression::Operation(Operation::Equal(
                    Box::new(field("q")),
                    Box::new(field("p"))
                ))),
            },
            order_by: vec![],
            limit: None,
            offset: None,
            select: vec![],
            group_by: None,
            where_clause: None,
            having: None,
        }
    );
    Ok(())
}

#[test]
fn delete_with_condition() -> Result<()> {
    let stmt = Parser::new("delete from t where id = 3;").parse()?;
    assert_eq!(
        stmt,
        Statement::Delete {
            table_name: "t".to_string(),
            where_clause: Some(Expression::Operation(Operation::Equal(
                Box::new(field("id")),
                Box::new(num(3))
            ))),
        }
    );
    Ok(())
}

#[test]
fn parse_refuses_what_follows_the_semicolon() {
    assert!(Parser::new("delete from t; delete from t;").parse().is_err());
    assert!(Parser::new("delete from t").parse().is_err());
    assert!(Parser::new("").parse().is_err());
    assert!(Parser::new("drop table t;").parse().is_err());
}

#[test]
fn parse_refuses_an_integer_too_large() {
    assert!(Parser::new("select * from t limit 9223372036854775808;").parse().is_err());
    assert!(Parser::new("select * from t limit 9223372036854775807;").parse().is_ok());
}

#[test]
fn parse_refuses_a_comparison_without_operator() {
    assert!(Parser::new("select * from t where a b;").parse().is_err());
}

#[test]
fn lex_errors_are_parse_errors() {
    match Parser::new("select * from t where a = 'open;").parse() {
        Err(sqldb::error::Error::Parse(_)) => {}
        other => panic!("unexpected {:?}", other),
    }
}

#[test]
fn keywords_are_case_insensitive() -> Result<()> {
    let a = Parser::new("SELECT * FROM t WHERE x > 1;").parse()?;
    let b = Parser::new("select * from t where x > 1;").parse()?;
    assert_eq!(a, b);
    Ok(())
}

#[test]
fn parse_errors_are_parse_errors() {
    match Parser::new("update t set a = 1, a = 2;").parse() {
        Err(sqldb::error::Error::Parse(m)) => assert_eq!(m, "[Parser] Duplicate column a for update"),
        other => panic!("unexpected: {:?}", other),
    }
    assert!(matches!(Parser::new("select 99999999999999999999 from t;").parse(), Err(sqldb::error::Error::Parse(_))));
    assert!(matches!(
        Parser::new("create table tbl1 ( a int default 100, b float not null )").parse(),
        Err(sqldb::error::Error::Parse(_))
    ));
}
