use sqldb::error::{Error, Result};
use sqldb::storage::bincode_codec::{deserialize_option_bytes, deserialize_u64, serialize_option_bytes, serialize_u64};
use sqldb::storage::keycode::{push_escaped, push_u64, read_escaped, read_u64};
use sqldb::storage::memory::MemoryEngine;
use sqldb::storage::mvcc::Mvcc;
use sqldb::storage::mvcc_key::MvccKey;

fn b(s: &str) -> Vec<u8> {
    s.as_bytes().to_vec()
}

#[test]
fn read_own_write_and_commit() -> Result<()> {
    let mut m = Mvcc::new(MemoryEngine::new());
    let t1 = m.begin()?;
    t1.set(&mut m, b("a"), b("1"))?;
    assert_eq!(t1.get(&mut m, b("a"))?, Some(b("1")));
    t1.commmit(&mut m)?;
    let t2 = m.begin()?;
    assert_eq!(t2.get(&mut m, b("a"))?, Some(b("1")));
    Ok(())
}

#[test]
fn versions_count_up() -> Result<()> {
    let mut m = Mvcc::new(MemoryEngine::new());
    let t1 = m.begin()?;
    let t2 = m.begin()?;
    assert_eq!(t2.version(), t1.version() + 1);
    Ok(())
}

#[test]
fn uncommitted_writes_are_invisible() -> Result<()> {
    let mut m = Mvcc::new(MemoryEngine::new());
    let t1 = m.begin()?;
    let t2 = m.begin()?;
    t1.set(&mut m, b("k"), b("v"))?;
    assert_eq!(t2.get(&mut m, b("k"))?, None);
    t1.commmit(&mut m)?;
    // t2 began while t1 was active, so it still does not see the write.
    assert_eq!(t2.get(&mut m, b("k"))?, None);
    let t3 = m.begin()?;
    assert_eq!(t3.get(&mut m, b("k"))?, Some(b("v")));
    Ok(())
}

#[test]
fn concurrent_writes_conflict() -> Result<()> {
    let mut m = Mvcc::new(MemoryEngine::new());
    let t1 = m.begin()?;
    let t2 = m.begin()?;
    t1.set(&mut m, b("k"), b("1"))?;
    assert_eq!(t2.set(&mut m, b("k"), b("2")), Err(Error::WriteConflict));
    Ok(())
}

#[test]
fn rollback_undoes_writes() -> Result<()> {
    let mut m = Mvcc::new(MemoryEngine::new());
    let t0 = m.begin()?;
    t0.set(&mut m, b("k"), b("old"))?;
    t0.commmit(&mut m)?;
    let t1 = m.begin()?;
    t1.set(&mut m, b("k"), b("new"))?;
    t1.rollback(&mut m)?;
    let t2 = m.begin()?;
    assert_eq!(t2.get(&mut m, b("k"))?, Some(b("old")));
    Ok(())
}

#[test]
fn delete_hides_a_key() -> Result<()> {
    let mut m = Mvcc::new(MemoryEngine::new());
    let t1 = m.begin()?;
    t1.set(&mut m, b("k"), b("v"))?;
    t1.delete(&mut m, b("k"))?;
    assert_eq!(t1.get(&mut m, b("k"))?, None);
    Ok(())
}

#[test]
fn scan_prefix_sees_the_latest_visible_versions_in_key_order() -> Result<()> {
    let mut m = Mvcc::new(MemoryEngine::new());
    let t1 = m.begin()?;
    t1.set(&mut m, b("ab"), b("1"))?;
    t1.set(&mut m, b("aa"), b("2"))?;
    t1.set(&mut m, b("b"), b("3"))?;
    t1.set(&mut m, b("aa"), b("4"))?;
    t1.delete(&mut m, b("ab"))?;
    let r = t1.scan_prefix(&mut m, b("a"))?;
    let got: Vec<(Vec<u8>, Vec<u8>)> = r.into_iter().map(|x| (x.key, x.value)).collect();
    assert_eq!(got, vec![(b("aa"), b("4"))]);
    Ok(())
}

#[test]
fn keys_round_trip() {
    let keys = vec![
        MvccKey::NextVersion,
        MvccKey::TxnActive(7),
        MvccKey::TxnWrite(7, b("a\0b")),
        MvccKey::Version(b("key"), u64::MAX),
    ];
    for k in keys {
        let bytes = k.encode();
        assert_eq!(MvccKey::decode(bytes).unwrap(), k);
    }
    assert!(MvccKey::decode(vec![9]).is_err());
}

#[test]
fn escaped_bytes_round_trip_and_keep_order() {
    let mut x = Vec::new();
    push_escaped(&mut x, &[1, 0, 2]);
    assert_eq!(x, vec![1, 0, 255, 2, 0, 0]);
    let (back, end) = read_escaped(&x, 0).unwrap();
    assert_eq!(back, vec![1, 0, 2]);
    assert_eq!(end, x.len());
    let mut y = Vec::new();
    push_escaped(&mut y, &[1, 0]);
    assert!(y < x);
    let mut z = Vec::new();
    push_u64(&mut z, 0x0102030405060708);
    assert_eq!(z, vec![1, 2, 3, 4, 5, 6, 7, 8]);
    assert_eq!(read_u64(&z, 0), 0x0102030405060708);
}

#[test]
fn bincode_wrappers() {
    let bytes = serialize_u64(258).unwrap();
    assert_eq!(bytes, vec![2, 1, 0, 0, 0, 0, 0, 0]);
    assert_eq!(deserialize_u64(&bytes).unwrap(), 258);
    assert!(deserialize_u64(&[1, 2, 3]).is_err());
    let some = serialize_option_bytes(&Some(vec![7, 8])).unwrap();
    assert_eq!(some, vec![1, 2, 0, 0, 0, 0, 0, 0, 0, 7, 8]);
    assert_eq!(deserialize_option_bytes(&some).unwrap(), Some(vec![7, 8]));
    let none = serialize_option_bytes(&None).unwrap();
    assert_eq!(none, vec![0]);
    assert_eq!(deserialize_option_bytes(&none).unwrap(), None);
    assert!(deserialize_option_bytes(&[2]).is_err());
}

#[test]
fn reads_after_a_run_of_writes() -> Result<()> {
    let mut m = Mvcc::new(MemoryEngine::new());
    let t0 = m.begin()?;
    t0.set(&mut m, b("c"), b("0"))?;
    t0.commmit(&mut m)?;
    let t = m.begin()?;
    t.set(&mut m, b("a"), b("1"))?;
    t.set(&mut m, b("b"), b("2"))?;
    t.set(&mut m, b("a"), b("3"))?;
    t.delete(&mut m, b("b"))?;
    assert_eq!(t.get(&mut m, b("a"))?, Some(b("3")));
    assert_eq!(t.get(&mut m, b("b"))?, None);
    assert_eq!(t.get(&mut m, b("c"))?, Some(b("0")));
    Ok(())
}

#[test]
fn rollback_after_many_writes_leaves_nothing() -> Result<()> {
    let mut m = Mvcc::new(MemoryEngine::new());
    let t = m.begin()?;
    t.set(&mut m, b("a"), b("1"))?;
    t.set(&mut m, b("a"), b("2"))?;
    t.set(&mut m, b("b"), b("3"))?;
    t.rollback(&mut m)?;
    let t2 = m.begin()?;
    assert_eq!(t2.version(), t.version() + 1);
    assert_eq!(t2.get(&mut m, b("a"))?, None);
    assert_eq!(t2.get(&mut m, b("b"))?, None);
    Ok(())
}

#[test]
fn concurrent_delete_conflicts_and_writes_nothing() -> Result<()> {
    let mut m = Mvcc::new(MemoryEngine::new());
    let t1 = m.begin()?;
    let t2 = m.begin()?;
    t1.set(&mut m, b("k"), b("v"))?;
    assert!(matches!(t2.delete(&mut m, b("k")), Err(Error::WriteConflict)));
    assert_eq!(t1.get(&mut m, b("k"))?, Some(b("v")));
    t1.commmit(&mut m)?;
    let t3 = m.begin()?;
    assert_eq!(t3.get(&mut m, b("k"))?, Some(b("v")));
    Ok(())
}
