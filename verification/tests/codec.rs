use sqldb::sql::codec::{decode_row, decode_table, decode_value, encode_row, encode_table, encode_value};
use sqldb::sql::number::Decimal;
use sqldb::sql::schema::{Column, Table};
use sqldb::sql::types::{DataType, Value};

fn sample_values() -> Vec<Value> {
    vec![
        Value::Null,
        Value::Boolean(true),
        Value::Integer(-42),
        Value::Integer(i64::MAX),
        Value::Float(Decimal::parse("3.14").unwrap()),
        Value::String("héllo".to_string()),
    ]
}

#[test]
fn values_read_back() {
    for v in sample_values() {
        let mut out = vec![9u8];
        encode_value(&mut out, &v);
        out.push(7);
        let (back, end) = decode_value(&out, 1).unwrap();
        assert_eq!(back, v);
        assert_eq!(end, out.len() - 1);
    }
    assert!(decode_value(&[5], 0).is_none());
    assert!(decode_value(&[1, 2], 0).is_none());
}

#[test]
fn rows_read_back() {
    let row = sample_values();
    let mut out = Vec::new();
    encode_row(&mut out, &row);
    let (back, end) = decode_row(&out, 0).unwrap();
    assert_eq!(back, row);
    assert_eq!(end, out.len());
    assert!(decode_row(&out[..out.len() - 1], 0).is_none());
}

#[test]
fn tables_read_back() {
    let table = Table {
        name: "t".to_string(),
        columns: vec![
            Column {
                name: "id".to_string(),
                datatype: DataType::Integer,
                nullable: false,
                default: None,
                primary_key: true,
            },
            Column {
                name: "x".to_string(),
                datatype: DataType::Float,
                nullable: true,
                default: Some(Value::Float(Decimal::parse("0.5").unwrap())),
                primary_key: false,
            },
        ],
    };
    let bytes = encode_table(&table);
    assert_eq!(decode_table(&bytes), Some(table));
    assert_eq!(decode_table(&bytes[..3]), None);
}

#[test]
fn decimals_are_canonical() {
    let a = Decimal::parse("007.2500").unwrap();
    assert_eq!(a.to_string(), "7.25");
    assert_eq!(a, Decimal::parse("7.25").unwrap());
    assert_eq!(Decimal::parse("0.0").unwrap().to_string(), "0");
    assert!(Decimal::parse("1.2.3").is_none());
    assert!(Decimal::parse(".5").is_none());
}
