//! The on-disk format: round trips and rejection of broken files.

use bight_engine::engine::SourceTable;
use bight_engine::file::load;
use bight_engine::file::save;
use bight_engine::file::FileLoadError;
use bight_engine::map::AddrMap;
use bight_engine::pos::CellPos;

fn table_of(entries: &[(&str, &str)]) -> SourceTable {
    let mut t: SourceTable = AddrMap::new();
    for (addr, src) in entries {
        let pos = CellPos::from_str(addr).expect("test address parses");
        t.insert(pos.key(), src.to_string());
    }
    t
}

fn assert_tables_equal(a: &SourceTable, b: &SourceTable, keys: &[&str]) {
    assert_eq!(a.len(), b.len());
    for addr in keys {
        let k = CellPos::from_str(addr).unwrap().key();
        assert_eq!(a.get(k), b.get(k), "mismatch at {addr}");
    }
}

#[test]
fn save_then_load_gives_the_table_back() {
    let t = table_of(&[("A0", "hello"), ("B2", "=A0"), ("ZZ9", "\\=escaped")]);
    let bytes = save(&t);
    let u = load(bytes.as_slice()).expect("a saved table loads");
    assert_tables_equal(&t, &u, &["A0", "B2", "ZZ9"]);
}

#[test]
fn round_trip_keeps_unicode_sources() {
    let t = table_of(&[("A0", "Привет, мир!"), ("A1", "naïve £ →")]);
    let bytes = save(&t);
    let u = load(bytes.as_slice()).expect("a saved table loads");
    assert_tables_equal(&t, &u, &["A0", "A1"]);
}

#[test]
fn empty_file_is_an_empty_table() {
    let u = load(&[]).expect("an empty file is fine");
    assert_eq!(u.len(), 0);
}

#[test]
fn empty_table_round_trips() {
    let t: SourceTable = AddrMap::new();
    let bytes = save(&t);
    assert_eq!(bytes.len(), 1024 + 8);
    let u = load(bytes.as_slice()).expect("a saved empty table loads");
    assert_eq!(u.len(), 0);
}

#[test]
fn short_file_is_a_malformed_header() {
    assert!(matches!(load(&[1, 2, 3]), Err(FileLoadError::MalformedHeader)));
    assert!(matches!(load(&[0u8; 1023]), Err(FileLoadError::MalformedHeader)));
}

#[test]
fn unknown_version_is_reported() {
    let mut bytes = vec![0u8; 1024];
    bytes[0] = 9;
    assert!(matches!(load(bytes.as_slice()), Err(FileLoadError::UnsupportedVersion(9))));
}

#[test]
fn truncated_body_is_malformed() {
    let t = table_of(&[("A0", "hello")]);
    let mut bytes = save(&t);
    bytes.truncate(bytes.len() - 1);
    assert!(matches!(load(bytes.as_slice()), Err(FileLoadError::Malformed)));
}

#[test]
fn trailing_garbage_is_malformed() {
    let t = table_of(&[("A0", "hello")]);
    let mut bytes = save(&t);
    bytes.push(0);
    assert!(matches!(load(bytes.as_slice()), Err(FileLoadError::Malformed)));
}

#[test]
fn bad_utf8_is_malformed() {
    let t = table_of(&[("A0", "zz")]);
    let mut bytes = save(&t);
    let n = bytes.len();
    bytes[n - 1] = 0xFF;
    assert!(matches!(load(bytes.as_slice()), Err(FileLoadError::Malformed)));
}

#[test]
fn version_sits_little_endian_at_the_start() {
    let t: SourceTable = AddrMap::new();
    let bytes = save(&t);
    assert_eq!(&bytes[0..8], &[1, 0, 0, 0, 0, 0, 0, 0]);
    assert!(bytes[8..1024].iter().all(|b| *b == 0));
}
