//! Comma-separated rendering of table windows.

use bight_engine::csv::slice_to_csv_string;
use bight_engine::csv::write_slice_to_csv;
use bight_engine::pos::CellPos;
use bight_engine::table::DataTable;
use bight_engine::table::TableMut;

#[test]
fn csv() {
    let mut table: DataTable<String> = DataTable::new();
    table.set(CellPos::new(0, 0), Some("Hello, ".to_string()));
    table.set(CellPos::new(1, 1), Some("World!".to_string()));

    let csv = slice_to_csv_string(table.full_slice());

    assert_eq!(csv, "\"Hello, \",\n,World!\n");
}

#[test]
fn cyrillic() {
    let mut table: DataTable<String> = DataTable::new();
    table.set(CellPos::new(0, 0), Some("Привет, ".to_string()));
    table.set(CellPos::new(1, 1), Some("мир!".to_string()));

    let csv = slice_to_csv_string(table.full_slice());

    assert_eq!(csv, "\"Привет, \",\n,мир!\n");
}

#[test]
fn quotes_inside_fields_are_doubled() {
    let mut table: DataTable<String> = DataTable::new();
    table.set(CellPos::new(0, 0), Some("say \"hi\"".to_string()));
    let csv = slice_to_csv_string(table.full_slice());
    assert_eq!(csv, "\"say \"\"hi\"\"\"\n");
}

#[test]
fn writing_to_bytes_matches_the_string_form() {
    let mut table: DataTable<String> = DataTable::new();
    table.set(CellPos::new(0, 0), Some("a,b".to_string()));
    let mut out: Vec<u8> = b"head:".to_vec();
    write_slice_to_csv(table.full_slice(), &mut out);
    assert_eq!(out, b"head:\"a,b\"\n".to_vec());
}

#[test]
fn plain_fields_stay_unquoted() {
    let mut table: DataTable<String> = DataTable::new();
    table.set(CellPos::new(0, 0), Some("plain".to_string()));
    table.set(CellPos::new(0, 1), Some("text".to_string()));
    let csv = slice_to_csv_string(table.full_slice());
    assert_eq!(csv, "plain,text\n");
}
