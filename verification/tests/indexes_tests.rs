//! Tests for cell-address parsing, formatting and range traversal.

use excel_index::ExcelIndex;
use excel_index::ExcelIndexRange;
use excel_index::ParseError;

#[test]
fn parse_easy_str() {
    let expected = ExcelIndex {
        coordinates: (0, 1),
        letters: String::from("A2"),
    };
    let ey: ExcelIndex = ExcelIndex::from_str("A2").unwrap();
    assert_eq!(expected, ey);
}

#[test]
fn parse_easy_str_lowercase() {
    let expected = ExcelIndex {
        coordinates: (0, 1),
        letters: String::from("A2"),
    };
    let ey: ExcelIndex = ExcelIndex::from_str("a2").unwrap();
    assert_eq!(expected, ey);
}

#[test]
fn parse_easy_tuple() {
    let expected = ExcelIndex {
        coordinates: (0, 1),
        letters: String::from("A2"),
    };
    let ey: ExcelIndex = ExcelIndex::from_tuple(0, 1);
    assert_eq!(expected, ey);
}

#[test]
fn parse_hard_str() {
    let expected = ExcelIndex {
        coordinates: (699, 1233),
        letters: String::from("ZX1234"),
    };
    let ey: ExcelIndex = ExcelIndex::from_str("ZX1234").unwrap();
    assert_eq!(expected, ey);
}

#[test]
fn parse_hard_tuple() {
    let expected = ExcelIndex {
        coordinates: (699, 1233),
        letters: String::from("ZX1234"),
    };
    let ey: ExcelIndex = ExcelIndex::from_tuple(699, 1233);
    assert_eq!(expected, ey);
}

#[test]
fn into_tuple() {
    let s: ExcelIndex = ExcelIndex::from_str("B12").unwrap();
    let t: (u32, u32) = s.coordinates;

    assert_eq!(t, (1, 11));
}

#[test]
fn into_string() {
    let e: ExcelIndex = ExcelIndex::from_tuple(1, 11);
    let s: String = e.letters;

    assert_eq!(s, String::from("B12"));
}

#[test]
fn invertible_test() {
    let excel_coordinate = String::from("F81");
    let e1: ExcelIndex = ExcelIndex::from_str(&excel_coordinate).unwrap();
    let t: (u32, u32) = e1.coordinates;
    let e2: ExcelIndex = ExcelIndex::from_tuple(t.0, t.1);
    let s: String = e2.letters;

    assert_eq!(excel_coordinate, s);
}

#[test]
fn test_into_range() {
    let expected = vec![
        "A4", "B4", "C4", "D4", "A5", "B5", "C5", "D5", "A6", "B6", "C6", "D6",
    ];

    let e1: ExcelIndex = ExcelIndex::from_str("A4").unwrap();
    let e2: ExcelIndex = ExcelIndex::from_str("D6").unwrap();

    let mut range = e1.into_range(e2);
    let mut result: Vec<String> = Vec::new();
    while let Some(x) = range.next() {
        result.push(x.letters);
    }

    assert_eq!(expected, result);
}

#[test]
fn test_into_iter() {
    let expected = vec!["A4", "B4", "C4", "D4", "E4", "F4", "G4", "H4", "I4"];

    let e1: ExcelIndex = ExcelIndex::from_str("A4").unwrap();

    let mut iter = e1.into_iter();
    let mut result: Vec<String> = Vec::new();
    for _ in 0..9 {
        result.push(iter.next().unwrap().letters);
    }

    assert_eq!(expected, result);
}

#[test]
fn address_round_trip() {
    for (c, r) in [
        (0u32, 0u32),
        (2, 6),
        (25, 9),
        (26, 99),
        (701, 1000),
        (702, 123456),
        (u32::MAX, 0),
        (0, u32::MAX - 1),
    ] {
        let e1 = ExcelIndex::from_tuple(c, r);
        let e2 = ExcelIndex::from_str(&e1.letters).unwrap();
        assert_eq!(e2.coordinates, (c, r));
        assert_eq!(e2.letters, e1.letters);
    }
}

#[test]
fn parse_case_insensitive_equal() {
    assert_eq!(
        ExcelIndex::from_str("a2").unwrap(),
        ExcelIndex::from_str("A2").unwrap()
    );
    assert_eq!(
        ExcelIndex::from_str("zx1234").unwrap(),
        ExcelIndex::from_str("ZX1234").unwrap()
    );
}

#[test]
fn parse_invalid_format() {
    for bad in ["", "123", "?test", "A", "ERR", "A1B", "1A", "A-1", " A1", "A1 "] {
        let t = ExcelIndex::from_str(bad);
        assert_eq!(t, Err(ParseError::InvalidFormat));
    }
}

#[test]
fn parse_row_zero_is_invalid() {
    assert_eq!(ExcelIndex::from_str("A0"), Err(ParseError::InvalidFormat));
    assert_eq!(ExcelIndex::from_str("B000"), Err(ParseError::InvalidFormat));
}

#[test]
fn parse_overflow() {
    // Column letters beyond the 32-bit range.
    assert_eq!(
        ExcelIndex::from_str("ABCDEFGHIJKLMNOP1"),
        Err(ParseError::Overflow)
    );
    // Row number beyond the 32-bit range.
    assert_eq!(
        ExcelIndex::from_str("A4294967296"),
        Err(ParseError::Overflow)
    );
    // The largest one-based row that still fits parses fine.
    let e = ExcelIndex::from_str("A4294967295").unwrap();
    assert_eq!(e.coordinates, (0, 4294967294));
}

#[test]
fn parse_preserves_leading_zero_row() {
    // The stored label is the uppercased input verbatim, so a redundant
    // leading zero in the row survives; the coordinates do not see it.
    let e = ExcelIndex::from_str("a02").unwrap();
    assert_eq!(e.coordinates, (0, 1));
    assert_eq!(e.letters, String::from("A02"));
}

#[test]
fn unbounded_crosses_letter_boundary() {
    let mut iter = ExcelIndex::from_str("ZZ9").unwrap().into_iter();
    assert_eq!(iter.next().unwrap().letters, String::from("ZZ9"));
    assert_eq!(iter.next().unwrap().letters, String::from("AAA9"));
    assert_eq!(iter.next().unwrap().letters, String::from("AAB9"));
}

#[test]
fn range_exhausted_stays_exhausted() {
    let e1 = ExcelIndex::from_str("A4").unwrap();
    let e2 = ExcelIndex::from_str("B5").unwrap();
    let mut range = e1.into_range(e2);
    let mut count = 0;
    while let Some(_) = range.next() {
        count += 1;
    }
    assert_eq!(count, 4);
    assert!(range.next().is_none());
    assert!(range.next().is_none());
}

#[test]
fn range_single_cell() {
    let e1 = ExcelIndex::from_str("A4").unwrap();
    let e2 = ExcelIndex::from_str("A4").unwrap();
    let mut range = e1.into_range(e2);
    assert_eq!(range.next().unwrap().letters, String::from("A4"));
    assert!(range.next().is_none());
}

#[test]
fn range_inverted_is_empty() {
    // End before start in column-major order: nothing is produced.
    let e1 = ExcelIndex::from_str("D6").unwrap();
    let e2 = ExcelIndex::from_str("A4").unwrap();
    let mut range = e1.into_range(e2);
    assert!(range.next().is_none());

    // Same column, earlier row.
    let e1 = ExcelIndex::from_str("C6").unwrap();
    let e2 = ExcelIndex::from_str("C5").unwrap();
    let mut range = e1.into_range(e2);
    assert!(range.next().is_none());
}

#[test]
fn range_start_column_right_of_end() {
    // The bound check is column-major, so a bound whose column is left
    // of the start exhausts immediately even when rows remain.
    let e1 = ExcelIndex::from_str("D4").unwrap();
    let e2 = ExcelIndex::from_str("A6").unwrap();
    let mut range = e1.into_range(e2);
    assert!(range.next().is_none());
}

#[test]
fn clone_keeps_address() {
    let e = ExcelIndex::from_str("ZX1234").unwrap();
    let c = e.clone();
    assert_eq!(c, e);
    assert_eq!(c.coordinates, (699, 1233));
    assert_eq!(c.letters, String::from("ZX1234"));
}

#[test]
fn addresses_order_column_major() {
    // Ordering compares the coordinate pair first: column, then row.
    assert!(ExcelIndex::from_tuple(0, 9) < ExcelIndex::from_tuple(1, 0));
    assert!(ExcelIndex::from_tuple(1, 0) < ExcelIndex::from_tuple(1, 5));
    assert!(ExcelIndex::from_tuple(2, 3) <= ExcelIndex::from_tuple(2, 3));
}

#[test]
fn range_constructors_agree() {
    let s1 = ExcelIndex::from_str("A1").unwrap();
    let s2 = ExcelIndex::from_str("A1").unwrap();
    let e1 = ExcelIndex::from_str("B2").unwrap();
    let e2 = ExcelIndex::from_str("B2").unwrap();
    let mut ra = ExcelIndexRange::range(s1, e1);
    let mut rb = ExcelIndexRange::range_bounded(s2, e2);
    loop {
        let a = ra.next();
        let b = rb.next();
        assert_eq!(a, b);
        if a.is_none() {
            break;
        }
    }

    let mut ua = ExcelIndexRange::new(ExcelIndex::from_str("C3").unwrap());
    let mut ub = ExcelIndexRange::range_unbounded(ExcelIndex::from_str("C3").unwrap());
    for _ in 0..5 {
        assert_eq!(ua.next(), ub.next());
    }
}
