use sqldb::error::{Error, Result};
use sqldb::sql::engine::kv::{KVEngine, Key, KeyPrefix};
use sqldb::sql::executor::ResultSet;
use sqldb::sql::number::Decimal;
use sqldb::sql::types::Value;
use sqldb::storage::memory::MemoryEngine;

fn s(x: &str) -> Value {
    Value::String(x.to_string())
}

fn i(x: i64) -> Value {
    Value::Integer(x)
}

fn scan(r: ResultSet) -> (Vec<String>, Vec<Vec<Value>>) {
    match r {
        ResultSet::Scan { columns, rows } => (columns, rows),
        other => panic!("not a scan: {:?}", other),
    }
}

#[test]
fn test_create_table() -> Result<()> {
    let kv_engine = KVEngine::new(MemoryEngine::new());
    let mut s = kv_engine.session()?;
    s.execute("create table t1 (a int primary key, b text default 'zz', c integer default 100);")?;
    s.execute("insert into t1 values (1, 'hsy', 5);")?;
    s.execute("insert into t1 values (2, 'a');")?;
    s.execute("insert into t1 (c, a) values (200, 3);")?;

    let v1 = s.execute("select * from t1;")?;
    println!("{:?}", v1);
    Ok(())
}

fn sample() -> Result<sqldb::sql::engine::Session<MemoryEngine>> {
    let mut session = KVEngine::new(MemoryEngine::new()).session()?;
    session.execute("create table t1 (a int primary key, b text default 'zz', c integer default 100);")?;
    session.execute("insert into t1 values (1, 'hsy', 5);")?;
    session.execute("insert into t1 values (2, 'a');")?;
    session.execute("insert into t1 (c, a) values (200, 3);")?;
    Ok(session)
}

#[test]
fn insert_fills_defaults() -> Result<()> {
    let mut session = sample()?;
    let (columns, rows) = scan(session.execute("select * from t1;")?);
    assert_eq!(columns, vec!["a".to_string(), "b".to_string(), "c".to_string()]);
    assert_eq!(
        rows,
        vec![
            vec![i(1), s("hsy"), i(5)],
            vec![i(2), s("a"), i(100)],
            vec![i(3), s("zz"), i(200)],
        ]
    );
    Ok(())
}

#[test]
fn insert_reports_its_count() -> Result<()> {
    let mut session = sample()?;
    let r = session.execute("insert into t1 values (4, 'x', 1), (5, 'y', 2);")?;
    assert_eq!(r, ResultSet::Insert { count: 2 });
    assert_eq!(r.to_string(), "INSERT 2 row");
    Ok(())
}

#[test]
fn a_duplicate_primary_key_is_refused_and_undone() -> Result<()> {
    let mut session = sample()?;
    let r = session.execute("insert into t1 values (6, 'x', 1), (1, 'again', 2);");
    assert!(matches!(r, Err(Error::Internal(_))));
    let (_, rows) = scan(session.execute("select * from t1;")?);
    assert_eq!(rows.len(), 3);
    Ok(())
}

#[test]
fn where_on_the_primary_key() -> Result<()> {
    let mut session = sample()?;
    let (_, rows) = scan(session.execute("select * from t1 where a = 2;")?);
    assert_eq!(rows, vec![vec![i(2), s("a"), i(100)]]);
    let (_, rows) = scan(session.execute("select * from t1 where c > 50;")?);
    assert_eq!(rows, vec![vec![i(2), s("a"), i(100)], vec![i(3), s("zz"), i(200)]]);
    Ok(())
}

#[test]
fn update_then_read_back() -> Result<()> {
    let mut session = sample()?;
    let r = session.execute("update t1 set b = 'new' where a = 1;")?;
    assert_eq!(r, ResultSet::Update { count: 1 });
    let (_, rows) = scan(session.execute("select b from t1 where a = 1;")?);
    assert_eq!(rows, vec![vec![s("new")]]);
    Ok(())
}

#[test]
fn delete_then_read_back() -> Result<()> {
    let mut session = sample()?;
    let r = session.execute("delete from t1 where c < 10;")?;
    assert_eq!(r, ResultSet::Delete { count: 1 });
    let (_, rows) = scan(session.execute("select a from t1;")?);
    assert_eq!(rows, vec![vec![i(2)], vec![i(3)]]);
    Ok(())
}

#[test]
fn order_limit_offset() -> Result<()> {
    let mut session = sample()?;
    let (_, rows) = scan(session.execute("select a from t1 order by c desc limit 2 offset 1;")?);
    assert_eq!(rows, vec![vec![i(2)], vec![i(1)]]);
    Ok(())
}

#[test]
fn aggregates() -> Result<()> {
    let mut session = sample()?;
    let (columns, rows) = scan(session.execute("select count(a), max(c), min(b) as m from t1;")?);
    assert_eq!(columns, vec!["count".to_string(), "max".to_string(), "m".to_string()]);
    assert_eq!(rows, vec![vec![i(3), i(200), s("a")]]);
    Ok(())
}

#[test]
fn group_by_keeps_first_appearance_order() -> Result<()> {
    let mut session = KVEngine::new(MemoryEngine::new()).session()?;
    session.execute("create table g (id int primary key, k text, v int);")?;
    session.execute("insert into g values (1, 'x', 10), (2, 'y', 20), (3, 'x', 30);")?;
    let (columns, rows) = scan(session.execute("select k, count(v), max(v) from g group by k;")?);
    assert_eq!(columns, vec!["k".to_string(), "count".to_string(), "max".to_string()]);
    assert_eq!(rows, vec![vec![s("x"), i(2), i(30)], vec![s("y"), i(1), i(20)]]);
    Ok(())
}

#[test]
fn joins() -> Result<()> {
    let mut session = KVEngine::new(MemoryEngine::new()).session()?;
    session.execute("create table l (id int primary key, v text);")?;
    session.execute("create table r (id int primary key, w text);")?;
    session.execute("insert into l values (1, 'a'), (2, 'b');")?;
    session.execute("insert into r values (2, 'x'), (3, 'y');")?;
    let (columns, rows) = scan(session.execute("select * from l join r on id = id;")?);
    assert_eq!(columns.len(), 4);
    assert_eq!(rows, vec![vec![i(2), s("b"), i(2), s("x")]]);
    let (_, rows) = scan(session.execute("select * from l left join r on id = id;")?);
    assert_eq!(
        rows,
        vec![vec![i(1), s("a"), Value::Null, Value::Null], vec![i(2), s("b"), i(2), s("x")]]
    );
    let (_, rows) = scan(session.execute("select * from l cross join r;")?);
    assert_eq!(rows.len(), 4);
    Ok(())
}

#[test]
fn floats_are_stored_as_written() -> Result<()> {
    let mut session = KVEngine::new(MemoryEngine::new()).session()?;
    session.execute("create table f (id int primary key, x float);")?;
    session.execute("insert into f values (1, 2.50);")?;
    let (_, rows) = scan(session.execute("select x from f;")?);
    assert_eq!(rows, vec![vec![Value::Float(Decimal::parse("2.5").unwrap())]]);
    assert_eq!(rows[0][0].to_string(), "2.5");
    Ok(())
}

#[test]
fn errors_of_statements() -> Result<()> {
    let mut session = sample()?;
    assert!(matches!(session.execute("select * from nowhere;"), Err(Error::Internal(_))));
    assert!(matches!(session.execute("create table t1 (a int primary key);"), Err(Error::Internal(_))));
    assert!(matches!(session.execute("create table t2 (a int);"), Err(Error::Internal(_))));
    assert!(matches!(session.execute("insert into t1 values ('x', 'y', 1);"), Err(Error::Internal(_))));
    assert!(matches!(session.execute("select * from t1"), Err(Error::Parse(_))));
    Ok(())
}

#[test]
fn table_names_and_text() -> Result<()> {
    let mut session = sample()?;
    session.execute("create table t0 (id int primary key);")?;
    assert_eq!(session.get_table_names()?, "t0\nt1");
    assert_eq!(
        session.get_table("t1".to_string())?,
        "t1 (a INTEGER PRIMARY KEY NOT NULL, b STRING NULL DEFAULT zz, c INTEGER NULL DEFAULT 100)"
    );
    assert!(matches!(session.get_table("none".to_string()), Err(Error::Internal(_))));
    Ok(())
}

#[test]
fn error_messages() {
    assert_eq!(Error::Parse("x".to_string()).to_string(), "parse error x");
    assert_eq!(Error::Internal("y".to_string()).to_string(), "internal error y");
    assert_eq!(Error::WriteConflict.to_string(), "write conflict, try transaction");
}

fn dec(x: &str) -> Value {
    Value::Float(Decimal::parse(x).unwrap())
}

#[test]
fn sum_and_avg_are_exact_decimals() -> Result<()> {
    let mut session = sample()?;
    let (columns, rows) = scan(session.execute("select sum(c), avg(c), avg(a) from t1;")?);
    assert_eq!(columns, vec!["sum".to_string(), "avg".to_string(), "avg".to_string()]);
    assert_eq!(rows, vec![vec![dec("305"), dec("101.666666666666666"), dec("2")]]);
    Ok(())
}

#[test]
fn sum_of_decimals_and_integers() -> Result<()> {
    let mut session = KVEngine::new(MemoryEngine::new()).session()?;
    session.execute("create table f (id int primary key, x float null, y int null);")?;
    session.execute("insert into f values (1, 2.5, null), (2, 0.25, null), (3, null, null);")?;
    let (_, rows) = scan(session.execute("select sum(x), avg(x), sum(y), avg(y), sum(id) from f;")?);
    assert_eq!(rows, vec![vec![dec("2.75"), dec("1.375"), Value::Null, Value::Null, dec("6")]]);
    assert!(matches!(session.execute("select sum(x) from g;"), Err(Error::Internal(_))));
    Ok(())
}

#[test]
fn sum_of_text_is_refused() -> Result<()> {
    let mut session = sample()?;
    assert!(matches!(session.execute("select sum(b) from t1;"), Err(Error::Internal(_))));
    assert!(matches!(session.execute("select avg(b) from t1;"), Err(Error::Internal(_))));
    assert!(matches!(session.execute("select median(b) from t1;"), Err(Error::Internal(_))));
    Ok(())
}

#[test]
fn failed_statement_is_rolled_back() -> Result<()> {
    let mut session = sample()?;
    let r = session.execute("insert into t1 values (4, 'x', 1), (1, 'y', 1);");
    match r {
        Err(Error::Internal(m)) => assert_eq!(m, "Duplicate data for primary key 1 in table t1"),
        other => panic!("unexpected: {:?}", other),
    }
    let (_, rows) = scan(session.execute("select * from t1;")?);
    assert_eq!(
        rows,
        vec![
            vec![i(1), s("hsy"), i(5)],
            vec![i(2), s("a"), i(100)],
            vec![i(3), s("zz"), i(200)],
        ]
    );
    Ok(())
}

#[test]
fn error_texts_name_the_object() -> Result<()> {
    let mut session = sample()?;
    match session.get_table("none".to_string()) {
        Err(Error::Internal(m)) => assert_eq!(m, "table none does not exist"),
        other => panic!("unexpected: {:?}", other),
    }
    match session.execute("create table t1 (a int primary key);") {
        Err(Error::Internal(m)) => assert_eq!(m, "table t1 already exists"),
        other => panic!("unexpected: {:?}", other),
    }
    match session.execute("select sum(b) from t1;") {
        Err(Error::Internal(m)) => assert_eq!(m, "cannot calc column b"),
        other => panic!("unexpected: {:?}", other),
    }
    match session.execute("select sum(zz) from t1;") {
        Err(Error::Internal(m)) => assert_eq!(m, "column zz is not in table"),
        other => panic!("unexpected: {:?}", other),
    }
    match session.execute("create table t3 (a int);") {
        Err(Error::Internal(m)) => assert_eq!(m, "No primary key for table t3"),
        other => panic!("unexpected: {:?}", other),
    }
    Ok(())
}

#[test]
fn order_by_is_stable() -> Result<()> {
    let mut session = KVEngine::new(MemoryEngine::new()).session()?;
    session.execute("create table o (id int primary key, k int);")?;
    session.execute("insert into o values (1, 2), (2, 1), (3, 2), (4, 1), (5, 2);")?;
    let (_, rows) = scan(session.execute("select id from o order by k;")?);
    assert_eq!(rows, vec![vec![i(2)], vec![i(4)], vec![i(1)], vec![i(3)], vec![i(5)]]);
    let (_, rows) = scan(session.execute("select id from o order by k desc;")?);
    assert_eq!(rows, vec![vec![i(1)], vec![i(3)], vec![i(5)], vec![i(2)], vec![i(4)]]);
    Ok(())
}

#[test]
fn keys_lie_under_their_prefixes() -> Result<()> {
    let row = Key::Row("t".to_string(), i(1)).encode()?;
    let other = Key::Row("tt".to_string(), i(1)).encode()?;
    let table = Key::Table("t".to_string()).encode()?;
    assert!(row.starts_with(&KeyPrefix::Row("t".to_string()).encode()?));
    assert!(!other.starts_with(&KeyPrefix::Row("t".to_string()).encode()?));
    assert!(table.starts_with(&KeyPrefix::Table.encode()?));
    assert!(!row.starts_with(&KeyPrefix::Table.encode()?));
    assert_ne!(row, Key::Row("t".to_string(), i(2)).encode()?);
    Ok(())
}
