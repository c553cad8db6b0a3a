use gaps_rs::header::{blocks_from_headers, parse_header, parse_i64, BlockFileError};

#[test]
fn header_gives_name_position_and_strand() {
    let w = parse_header("seqA (pos 123 strand 0)").unwrap();
    assert_eq!(w.seq_name, "seqA");
    assert_eq!(w.position, 123);
    assert!(!w.rev_comp);
    assert_eq!(w.match_positions, None);
    let r = parse_header("seqB (pos 45 strand 1)").unwrap();
    assert_eq!(r.position, -45);
    assert!(r.rev_comp);
    let extra = parse_header("seqC x -7 y 0) trailing").unwrap();
    assert_eq!(extra.position, -7);
}

#[test]
fn malformed_headers_are_refused() {
    assert!(parse_header("seqA (pos 123 strand").is_none());
    assert!(parse_header("seqA (pos 12x strand 0)").is_none());
    assert!(parse_header("seqA 123 strand 0)").is_none());
    // an empty field counts as a field
    assert_eq!(parse_header("seqA  123 strand 0)").unwrap().position, 123);
    assert!(parse_header("").is_none());
}

#[test]
fn decimal_numbers_read_like_std() {
    assert_eq!(parse_i64("0"), Some(0));
    assert_eq!(parse_i64("+17"), Some(17));
    assert_eq!(parse_i64("-9223372036854775808"), Some(i64::MIN));
    assert_eq!(parse_i64("9223372036854775807"), Some(i64::MAX));
    assert_eq!(parse_i64("9223372036854775808"), None);
    assert_eq!(parse_i64("-"), None);
    assert_eq!(parse_i64(""), None);
    assert_eq!(parse_i64("1 2"), None);
    for s in ["42", "-42", "007", "+0", "99999999999999999999"] {
        assert_eq!(parse_i64(s), s.parse::<i64>().ok());
    }
}

fn headers(v: &[&str]) -> Vec<String> {
    v.iter().map(|s| s.to_string()).collect()
}

#[test]
fn every_four_records_make_a_sorted_block() {
    let h = headers(&[
        "D x 4 y 0)", "B x 2 y 0)", "A x 1 y 1)", "C x 3 y 0)",
        "A x 10 y 0)", "B x 20 y 0)", "C x 30 y 0)", "D x 40 y 0)",
    ]);
    let blocks = blocks_from_headers(&h).unwrap();
    assert_eq!(blocks.len(), 2);
    let first: Vec<(&str, i64)> = blocks[0].0.iter().map(|w| (w.seq_name.as_str(), w.position)).collect();
    assert_eq!(first, vec![("A", -1), ("B", 2), ("C", 3), ("D", 4)]);
    assert_eq!(blocks[1].0[3].position, 40);
}

#[test]
fn record_count_must_be_multiple_of_four() {
    let h = headers(&["A x 1 y 0)", "B x 2 y 0)", "C x 3 y 0)", "D x 4 y 0)", "E x 5 y 0)"]);
    assert_eq!(blocks_from_headers(&h).unwrap_err(), BlockFileError::NotQuartets);
}

#[test]
fn first_bad_record_is_reported() {
    let h = headers(&["A x 1 y 0)", "B x two y 0)", "C x", "D x 4 y 0)"]);
    assert_eq!(blocks_from_headers(&h).unwrap_err(), BlockFileError::BadRecord(1));
}
