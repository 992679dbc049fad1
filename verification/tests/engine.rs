//! End-to-end rounds through the engine, scripts included.

use bight_engine::engine::EvaluatorTable;
use bight_engine::map::AddrMap;
use bight_engine::pos::CellPos;
use bight_engine::value::ErrKind;
use bight_engine::value::TableValue;

fn empty_engine() -> EvaluatorTable {
    EvaluatorTable::new(AddrMap::new())
}

fn set(e: &mut EvaluatorTable, addr: &str, src: &str) {
    let pos = CellPos::from_str(addr).expect("test address parses");
    e.set_source(pos, Some(src.to_string()));
}

fn clear(e: &mut EvaluatorTable, addr: &str) {
    let pos = CellPos::from_str(addr).expect("test address parses");
    e.set_source(pos, None);
}

fn value<'a>(e: &'a EvaluatorTable, addr: &str) -> Option<&'a TableValue> {
    let pos = CellPos::from_str(addr).expect("test address parses");
    e.value_of(&pos)
}

fn number(e: &EvaluatorTable, addr: &str) -> i64 {
    match value(e, addr) {
        Some(TableValue::Number(n)) => *n,
        other => panic!("expected a number at {addr}, got {other:?}"),
    }
}

fn text(e: &EvaluatorTable, addr: &str) -> String {
    match value(e, addr) {
        Some(TableValue::Text(s)) => s.clone(),
        other => panic!("expected text at {addr}, got {other:?}"),
    }
}

fn error_kind(e: &EvaluatorTable, addr: &str) -> ErrKind {
    match value(e, addr) {
        Some(TableValue::Error(err)) => err.kind,
        other => panic!("expected an error at {addr}, got {other:?}"),
    }
}

fn is_invalid(e: &EvaluatorTable, addr: &str) -> bool {
    let pos = CellPos::from_str(addr).expect("test address parses");
    e.is_invalid(&pos)
}

#[test]
fn plain_text_cell() {
    let mut e = empty_engine();
    set(&mut e, "A0", "hello");
    e.evaluate();
    assert_eq!(text(&e, "A0"), "hello");
}

#[test]
fn escaped_literal_cell() {
    let mut e = empty_engine();
    set(&mut e, "A0", "\\=literal");
    e.evaluate();
    assert_eq!(text(&e, "A0"), "=literal");
}

#[test]
fn forward_reference_with_arithmetic() {
    let mut e = empty_engine();
    set(&mut e, "A0", "=A1 + 1");
    set(&mut e, "A1", "=2");
    e.evaluate();
    assert_eq!(number(&e, "A0"), 3);
    assert_eq!(number(&e, "A1"), 2);
    let a0 = CellPos::from_str("A0").unwrap();
    let a1 = CellPos::from_str("A1").unwrap();
    assert_eq!(e.depends_on(&a0), vec![a1.key()]);
    assert_eq!(e.required_by(&a1), vec![a0.key()]);
    assert_eq!(e.depends_on(&a1), Vec::<u64>::new());
}

#[test]
fn transitive_invalidation() {
    let mut e = empty_engine();
    set(&mut e, "A0", "=A1 + 1");
    set(&mut e, "A1", "=2");
    e.evaluate();
    set(&mut e, "A1", "=5");
    assert!(is_invalid(&e, "A0"), "editing A1 must also mark A0 stale");
    assert!(is_invalid(&e, "A1"));
    e.evaluate();
    assert_eq!(number(&e, "A0"), 6);
    assert_eq!(number(&e, "A1"), 5);
}

#[test]
fn two_cell_cycle() {
    let mut e = empty_engine();
    set(&mut e, "A0", "=A1");
    set(&mut e, "A1", "=A0");
    e.evaluate();
    assert_eq!(error_kind(&e, "A0"), ErrKind::Cycle);
    assert_eq!(error_kind(&e, "A1"), ErrKind::Cycle);
}

#[test]
fn self_cycle() {
    let mut e = empty_engine();
    set(&mut e, "A0", "=A0");
    e.evaluate();
    assert_eq!(error_kind(&e, "A0"), ErrKind::Cycle);
}

#[test]
fn range_sum() {
    let mut e = empty_engine();
    set(&mut e, "A0", "=1");
    set(&mut e, "A1", "=2");
    set(&mut e, "A2", "=3");
    set(&mut e, "B0", "=SUM(A0_A2)");
    e.evaluate();
    assert_eq!(number(&e, "B0"), 6);
}

#[test]
fn sum_skips_text_and_empty_cells() {
    let mut e = empty_engine();
    set(&mut e, "A0", "=4");
    set(&mut e, "A1", "words");
    set(&mut e, "B1", "=10");
    set(&mut e, "C0", "=SUM(A0_B1)");
    e.evaluate();
    assert_eq!(number(&e, "C0"), 14);
}

#[test]
fn sum_over_unset_cells_is_zero() {
    let mut e = empty_engine();
    set(&mut e, "A0", "=SUM(B5_B9)");
    e.evaluate();
    assert_eq!(number(&e, "A0"), 0);
}

#[test]
fn sum_short_circuits_on_error() {
    let mut e = empty_engine();
    set(&mut e, "A0", "=1");
    set(&mut e, "A1", "=nosuchfunction()");
    set(&mut e, "A2", "=3");
    set(&mut e, "B0", "=SUM(A0_A2)");
    e.evaluate();
    assert_eq!(error_kind(&e, "A1"), ErrKind::Script);
    assert_eq!(error_kind(&e, "B0"), ErrKind::Script);
}

#[test]
fn sum_returns_the_first_error_in_row_order() {
    let mut e = empty_engine();
    set(&mut e, "A0", "=error('one', 0)");
    set(&mut e, "A1", "=error('two', 0)");
    set(&mut e, "B0", "=SUM(A0_A2)");
    e.evaluate();
    match value(&e, "B0") {
        Some(TableValue::Error(err)) => {
            assert!(err.message.contains("one"), "got {:?}", err.message);
        }
        other => panic!("expected an error at B0, got {other:?}"),
    }
}

#[test]
fn get_of_unsourced_cell_is_empty() {
    let mut e = empty_engine();
    set(&mut e, "A0", "=Z9");
    e.evaluate();
    assert!(matches!(value(&e, "A0"), Some(TableValue::Empty)));
}

#[test]
fn rel_with_negative_offset_is_empty() {
    let mut e = empty_engine();
    set(&mut e, "A0", "=REL(-1, 0)");
    e.evaluate();
    assert!(matches!(value(&e, "A0"), Some(TableValue::Empty)));
}

#[test]
fn rel_reads_a_neighbour() {
    let mut e = empty_engine();
    set(&mut e, "A0", "=7");
    set(&mut e, "A1", "=REL(0, -1) + 1");
    e.evaluate();
    assert_eq!(number(&e, "A1"), 8);
}

#[test]
fn pos_reports_own_coordinates() {
    let mut e = empty_engine();
    set(&mut e, "B3", "=select(2, POS())");
    e.evaluate();
    assert_eq!(number(&e, "B3"), 3);
}

#[test]
fn evaluate_twice_changes_nothing() {
    let mut e = empty_engine();
    set(&mut e, "A0", "=A1 + 1");
    set(&mut e, "A1", "=41");
    e.evaluate();
    let first = number(&e, "A0");
    e.evaluate();
    assert_eq!(number(&e, "A0"), first);
    assert_eq!(first, 42);
    assert!(!is_invalid(&e, "A0"));
    assert!(!is_invalid(&e, "A1"));
}

#[test]
fn setting_same_source_twice_equals_once() {
    let mut e = empty_engine();
    set(&mut e, "A0", "=A1");
    set(&mut e, "A1", "=2");
    e.evaluate();
    set(&mut e, "A1", "=3");
    let stale_after_once = (is_invalid(&e, "A0"), is_invalid(&e, "A1"));
    set(&mut e, "A1", "=3");
    let stale_after_twice = (is_invalid(&e, "A0"), is_invalid(&e, "A1"));
    assert_eq!(stale_after_once, stale_after_twice);
    assert_eq!(stale_after_twice, (true, true));
    e.evaluate();
    assert_eq!(number(&e, "A0"), 3);
}

#[test]
fn set_source_hides_value_until_evaluate() {
    let mut e = empty_engine();
    set(&mut e, "A0", "1");
    e.evaluate();
    assert!(value(&e, "A0").is_some());
    set(&mut e, "A0", "2");
    assert!(is_invalid(&e, "A0"));
    e.evaluate();
    assert_eq!(text(&e, "A0"), "2");
}

#[test]
fn clearing_a_cell_removes_it_and_leaves_others() {
    let mut e = empty_engine();
    set(&mut e, "A0", "one");
    set(&mut e, "A1", "two");
    e.evaluate();
    clear(&mut e, "A0");
    assert!(!is_invalid(&e, "A0"));
    assert!(value(&e, "A0").is_none());
    assert_eq!(text(&e, "A1"), "two");
    let a0 = CellPos::from_str("A0").unwrap();
    let a1 = CellPos::from_str("A1").unwrap();
    assert!(e.get_source(&a0).is_none());
    assert_eq!(e.get_source(&a1).map(|s| s.as_str()), Some("two"));
}

#[test]
fn every_sourced_cell_gets_a_value() {
    let mut e = empty_engine();
    set(&mut e, "A0", "x");
    set(&mut e, "B1", "=1 + 1");
    set(&mut e, "C2", "=A0");
    e.evaluate();
    for addr in ["A0", "B1", "C2"] {
        assert!(value(&e, addr).is_some(), "{addr} must be cached");
    }
    let sources = e.iter_sources();
    assert_eq!(sources.len(), 3);
}

#[test]
fn script_error_is_rethrown_and_catchable() {
    let mut e = empty_engine();
    set(&mut e, "A0", "=error('boom', 0)");
    set(&mut e, "A1", "=A0");
    e.evaluate();
    assert_eq!(error_kind(&e, "A0"), ErrKind::Script);
    assert_eq!(error_kind(&e, "A1"), ErrKind::Script);
}

#[test]
fn chained_references_resolve_in_one_round() {
    let mut e = empty_engine();
    set(&mut e, "A0", "=A1 + A2");
    set(&mut e, "A1", "=A2 * 2");
    set(&mut e, "A2", "=5");
    e.evaluate();
    assert_eq!(number(&e, "A0"), 15);
    assert_eq!(number(&e, "A1"), 10);
}
