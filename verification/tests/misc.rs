//! Modes, key text, grids and windows over them.

use bight_engine::key::KeyString;
use bight_engine::key::SequenceMatchError;
use bight_engine::mode::parse_modes;
use bight_engine::mode::Mode;
use bight_engine::mode::ModeParseError;
use bight_engine::pos::CellPos;
use bight_engine::slice::SlicePos;
use bight_engine::table::DataTable;
use bight_engine::table::Table;
use bight_engine::table::TableMut;
use bight_engine::value::EvalationError;
use bight_engine::view::ContentAlignment;
use bight_engine::view::DrawRect;
use bight_engine::view::TableSlice;
use bight_engine::view::TableSliceIter;
use bight_engine::view::TableStyle;

#[test]
fn modes_parse_by_letter() {
    let v = parse_modes("nic").unwrap();
    assert_eq!(v, vec![Mode::Normal, Mode::Insert, Mode::Cell]);
    assert_eq!(parse_modes(""), Ok(vec![]));
    assert_eq!(parse_modes("nxc"), Err(ModeParseError::InvalidChar('x')));
    // the first letter that names no mode is the one reported
    assert_eq!(parse_modes("nxyc"), Err(ModeParseError::InvalidChar('x')));
}

#[test]
fn only_insert_mode_types_text() {
    assert!(Mode::Insert.is_text());
    assert!(!Mode::Normal.is_text());
    assert!(!Mode::Cell.is_text());
}

#[test]
fn key_strings_expose_their_text() {
    let p = KeyString::Plain("a".to_string());
    assert_eq!(p.inner_str(), "a");
    assert_eq!(p.into_inner(), "a");
    let e = KeyString::Escape("C-x".to_string());
    assert_eq!(e.inner_str(), "C-x");
    assert_eq!(e.into_inner(), "C-x");
}

#[test]
fn match_errors_tell_whether_to_go_on() {
    let cont = SequenceMatchError::CanBeContined { hint: "d".to_string() };
    assert!(cont.can_be_continued());
    assert!(!SequenceMatchError::CannotBeContined.can_be_continued());
}

#[test]
fn data_table_stores_and_clears() {
    let mut t: DataTable<String> = DataTable::new();
    t.set(CellPos::new(0, 0), Some("x".to_string()));
    t.set(CellPos::new(2, 1), Some("y".to_string()));
    assert_eq!(t.get(CellPos::new(0, 0)).map(|s| s.as_str()), Some("x"));
    assert_eq!(t.get(CellPos::new(2, 1)).map(|s| s.as_str()), Some("y"));
    assert_eq!(t.get(CellPos::new(1, 1)), None);
    t.set(CellPos::new(0, 0), None);
    assert_eq!(t.get(CellPos::new(0, 0)), None);
    assert_eq!(t.get(CellPos::new(2, 1)).map(|s| s.as_str()), Some("y"));
}

#[test]
fn slices_window_a_table() {
    let mut t: DataTable<i32> = DataTable::new();
    t.set(CellPos::new(1, 1), Some(11));
    t.set(CellPos::new(2, 2), Some(22));
    let sp = SlicePos::new(CellPos::new(1, 1), CellPos::new(3, 3));
    let s = TableSlice::new(sp, &t);
    assert_eq!(s.width(), 2);
    assert_eq!(s.height(), 2);
    assert!(!s.is_col());
    assert!(!s.is_row());
    // window-relative lookups
    assert_eq!(s.get(CellPos::new(0, 0)), Some(Some(&11)));
    assert_eq!(s.get(CellPos::new(1, 1)), Some(Some(&22)));
    assert_eq!(s.get(CellPos::new(1, 0)), Some(None));
    assert_eq!(s.get(CellPos::new(2, 0)), None);
}

#[test]
fn row_and_column_walkers_cover_the_window() {
    let mut t: DataTable<i32> = DataTable::new();
    t.set(CellPos::new(0, 0), Some(1));
    let sp = SlicePos::new(CellPos::new(0, 0), CellPos::new(3, 2));
    let s = TableSlice::new(sp, &t);
    let mut rows = s.rows();
    let mut row_count = 0;
    while let Some(r) = rows.next() {
        assert!(r.into_inner().is_row());
        row_count += 1;
    }
    assert_eq!(row_count, 2);
    let mut cols = s.cols();
    let mut col_count = 0;
    while let Some(c) = cols.next() {
        assert!(c.into_inner().is_col());
        col_count += 1;
    }
    assert_eq!(col_count, 3);
}

#[test]
fn cell_walker_visits_every_cell_in_row_order() {
    let mut t: DataTable<i32> = DataTable::new();
    t.set(CellPos::new(0, 0), Some(7));
    t.set(CellPos::new(1, 1), Some(8));
    let sp = SlicePos::new(CellPos::new(0, 0), CellPos::new(2, 2));
    let mut it = TableSliceIter::new(TableSlice::new(sp, &t));
    let mut seen: Vec<Option<i32>> = Vec::new();
    while let Some(cell) = it.next() {
        seen.push(cell.copied());
    }
    assert_eq!(seen, vec![Some(7), None, None, Some(8)]);
}

#[test]
fn draw_rect_width_counts_inclusive_columns() {
    let r = DrawRect { start_x: 2, end_x: 5, start_y: 0, end_y: 0 };
    assert_eq!(r.width(), 4);
}

#[test]
fn standard_table_style() {
    let s = TableStyle::default();
    assert!(matches!(s.align, ContentAlignment::Right));
    assert_eq!(s.cell_width, 10);
    assert_eq!(s.cell_height, 1);
    assert_eq!(s.col_separator, "|");
    assert_eq!(s.row_separator, "-");
}

#[test]
fn cycle_failure_text() {
    assert_eq!(
        EvalationError::DependencyCycle.describe(),
        "Dependency cycle detected"
    );
}
