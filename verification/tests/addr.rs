//! Address and range text handling.

use bight_engine::pos::CellPos;
use bight_engine::pos::CellPosParseError;
use bight_engine::slice::SlicePos;

#[test]
fn parse_simple_addresses() {
    assert_eq!(CellPos::from_str("A0"), Ok(CellPos::new(0, 0)));
    assert_eq!(CellPos::from_str("B2"), Ok(CellPos::new(1, 2)));
    assert_eq!(CellPos::from_str("Z25"), Ok(CellPos::new(25, 25)));
    assert_eq!(CellPos::from_str("AB7"), Ok(CellPos::new(1, 7)));
}

#[test]
fn parse_is_case_insensitive() {
    assert_eq!(CellPos::from_str("b2"), CellPos::from_str("B2"));
    assert_eq!(CellPos::from_str("aa0"), CellPos::from_str("AA0"));
}

#[test]
fn letter_prefix_is_plain_base_26() {
    // the convention is non-bijective: AA names the same column as A
    assert_eq!(CellPos::from_str("AA0"), Ok(CellPos::new(0, 0)));
    assert_eq!(CellPos::from_str("BA0"), Ok(CellPos::new(26, 0)));
    assert_eq!(CellPos::from_str("ZZ99"), Ok(CellPos::new(675, 99)));
}

#[test]
fn parse_rejects_bad_shapes() {
    for bad in ["", "A", "7", "1A", "A1B", "A 1", "A-1", "Ä1"] {
        assert_eq!(
            CellPos::from_str(bad),
            Err(CellPosParseError::InvalidDigit),
            "{bad:?} must be rejected"
        );
    }
}

#[test]
fn parse_rejects_out_of_range_numbers() {
    assert_eq!(
        CellPos::from_str("A99999999999"),
        Err(CellPosParseError::OutOfRange)
    );
    assert_eq!(
        CellPos::from_str("ZZZZZZZZZZ0"),
        Err(CellPosParseError::OutOfRange)
    );
}

#[test]
fn render_gives_canonical_text() {
    assert_eq!(CellPos::new(0, 0).render(), "A0");
    assert_eq!(CellPos::new(1, 2).render(), "B2");
    assert_eq!(CellPos::new(26, 0).render(), "BA0");
    assert_eq!(CellPos::new(675, 99).render(), "ZZ99");
}

#[test]
fn render_then_parse_round_trips() {
    for (x, y) in [(0, 0), (25, 1), (26, 10), (675, 99), (12345, 67890)] {
        let p = CellPos::new(x, y);
        assert_eq!(CellPos::from_str(p.render().as_str()), Ok(p));
    }
}

#[test]
fn parse_then_render_canonicalizes() {
    assert_eq!(
        CellPos::from_str("aa0").unwrap().render(),
        "A0",
        "redundant letters collapse to the shortest form"
    );
    assert_eq!(CellPos::from_str("b02").unwrap().render(), "B2");
}

#[test]
fn range_parse_normalizes_and_widens() {
    let r = SlicePos::from_str("A0_A2").unwrap();
    assert_eq!(r.start, CellPos::new(0, 0));
    assert_eq!(r.end, CellPos::new(1, 3));
    let swapped = SlicePos::from_str("A2_A0").unwrap();
    assert_eq!(swapped, r);
}

#[test]
fn range_parse_rejects_bad_text() {
    assert!(SlicePos::from_str("A0").is_err());
    assert!(SlicePos::from_str("A0_A1_A2").is_err());
    assert!(SlicePos::from_str("A0_").is_err());
    assert!(SlicePos::from_str("_A0").is_err());
}

#[test]
fn range_membership_and_shifts() {
    let r = SlicePos::new(CellPos::new(2, 1), CellPos::new(4, 5));
    assert!(r.is_inside(CellPos::new(2, 1)));
    assert!(r.is_inside(CellPos::new(3, 4)));
    assert!(!r.is_inside(CellPos::new(4, 1)));
    assert!(!r.is_inside(CellPos::new(2, 5)));
    assert_eq!(r.columns(), 2);
    assert_eq!(r.rows(), 4);
    assert!(r.is_valid_shift(CellPos::new(1, 3)));
    assert!(!r.is_valid_shift(CellPos::new(2, 0)));
    assert_eq!(r.shift_to_pos(CellPos::new(1, 3)), Some(CellPos::new(3, 4)));
    assert_eq!(r.shift_to_pos(CellPos::new(2, 0)), None);
}

#[test]
fn range_constructor_swaps_corners() {
    let r = SlicePos::new(CellPos::new(9, 1), CellPos::new(3, 7));
    assert_eq!(r.start, CellPos::new(3, 1));
    assert_eq!(r.end, CellPos::new(9, 7));
}
