use pdf_pages::PdfError;
use pdf_pages::ranges::is_valid_pdf;
use pdf_pages::ranges::parse_page_number;
use pdf_pages::ranges::parse_page_ranges;
use pdf_pages::rotate::parse_rotations;

fn ok_nums(r: Result<Vec<u32>, PdfError>) -> Vec<u32> {
    match r {
        Ok(v) => v,
        Err(_) => panic!("parse failed"),
    }
}

#[test]
fn ranges_mixed() {
    assert_eq!(ok_nums(parse_page_ranges("1, 3, 5-7, 10")), vec![1, 3, 5, 6, 7, 10]);
}

#[test]
fn ranges_single() {
    assert_eq!(ok_nums(parse_page_ranges("4")), vec![4]);
}

#[test]
fn ranges_dedupe_keeps_first_occurrence() {
    assert_eq!(ok_nums(parse_page_ranges("3,1,3,2,1")), vec![3, 1, 2]);
}

#[test]
fn ranges_overlapping() {
    assert_eq!(ok_nums(parse_page_ranges("2-4,3-5")), vec![2, 3, 4, 5]);
}

#[test]
fn ranges_skip_blank_pieces() {
    assert_eq!(ok_nums(parse_page_ranges("1,,2, ,3")), vec![1, 2, 3]);
}

#[test]
fn ranges_inverted_is_invalid_range() {
    let r = parse_page_ranges("7-3");
    match r {
        Err(PdfError::InvalidRange(t)) => assert_eq!(t, "7-3"),
        _ => panic!("expected an inverted-range error"),
    }
}

#[test]
fn ranges_letters_are_invalid_number() {
    let r = parse_page_ranges("2,a");
    match r {
        Err(PdfError::InvalidPageNumber(t)) => assert_eq!(t, "a"),
        _ => panic!("expected a bad-number error"),
    }
}

#[test]
fn ranges_empty_input_is_no_pages() {
    assert!(matches!(parse_page_ranges(""), Err(PdfError::NoPages)));
    assert!(matches!(parse_page_ranges("  ,  "), Err(PdfError::NoPages)));
}

#[test]
fn ranges_overflowing_number_is_invalid() {
    assert!(matches!(
        parse_page_ranges("4294967296"),
        Err(PdfError::InvalidPageNumber(_))
    ));
}

#[test]
fn extract_variant_marks_bad_bound_as_range_error() {
    let r = pdf_pages::extract::parse_page_ranges("x-2");
    assert!(matches!(r, Err(PdfError::InvalidRange(_))));
    assert_eq!(
        ok_nums(pdf_pages::extract::parse_page_ranges("1, 3, 5-7, 10")),
        vec![1, 3, 5, 6, 7, 10]
    );
}

#[test]
fn page_number_trims_and_parses() {
    match parse_page_number(" 12 ", "ctx") {
        Ok(v) => assert_eq!(v, 12),
        Err(_) => panic!("expected a number"),
    }
    match parse_page_number("x", "the piece") {
        Err(PdfError::InvalidPageNumber(t)) => assert_eq!(t, "the piece"),
        _ => panic!("expected a bad-number error"),
    }
}

#[test]
fn rotations_parse() {
    match parse_rotations("1:90, 3:180,5:270") {
        Ok(v) => assert_eq!(v, vec![(1, 90), (3, 180), (5, 270)]),
        Err(_) => panic!("expected rotations"),
    }
}

#[test]
fn rotations_empty_is_empty_list() {
    match parse_rotations("") {
        Ok(v) => assert!(v.is_empty()),
        Err(_) => panic!("expected an empty list"),
    }
}

#[test]
fn rotations_reject_odd_angle() {
    assert!(matches!(parse_rotations("1:45"), Err(PdfError::InvalidRange(_))));
    assert!(matches!(parse_rotations("1"), Err(PdfError::InvalidRange(_))));
    assert!(matches!(
        parse_rotations("x:90"),
        Err(PdfError::InvalidPageNumber(_))
    ));
}

#[test]
fn pdf_signature_check() {
    assert!(is_valid_pdf(b"%PDF-1.7 rest"));
    assert!(!is_valid_pdf(b"%PDF"));
    assert!(!is_valid_pdf(b"not a pdf"));
    assert!(!is_valid_pdf(b""));
}
