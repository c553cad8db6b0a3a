use gaps_rs::order::sort_by_fingerprint;
use gaps_rs::SpacedWord;

fn word(name: &str, pos: i64, w: &str, p: &str) -> SpacedWord {
    SpacedWord::new(name, pos, &Some(w), &Some(p), false).unwrap()
}

#[test]
fn fingerprint_packs_two_bits_per_base() {
    let w = word("s", 5, "ACGT", "1111");
    // ((((0 + 0) << 2 + 1) << 2 + 2) << 2 + 3) << 2
    assert_eq!(w.match_positions, Some(108));
    assert_eq!(w.position, 5);
    assert_eq!(w.seq_name, "s");
    assert!(!w.rev_comp);
}

#[test]
fn fingerprint_skips_wildcards() {
    assert_eq!(word("s", 0, "ACGT", "1010").match_positions, Some(8));
    assert_eq!(word("s", 0, "ACNT", "1101").match_positions, Some(28));
}

#[test]
fn fingerprint_ignores_case() {
    assert_eq!(word("s", 0, "acgt", "1111").match_positions, Some(108));
}

#[test]
fn non_nucleotide_at_match_position_gives_none() {
    assert!(SpacedWord::new("s", 0, &Some("ACNT"), &Some("1111"), false).is_none());
}

#[test]
fn word_without_content_has_no_fingerprint() {
    let w = SpacedWord::new("s", 9, &None, &None, false).unwrap();
    assert_eq!(w.match_positions, None);
    assert_eq!(w.position, 9);
}

#[test]
fn reverse_strand_negates_position() {
    let w = SpacedWord::new("s", 7, &Some("ACGT"), &Some("1111"), true).unwrap();
    assert_eq!(w.position, -7);
    assert!(w.rev_comp);
}

#[test]
fn equal_content_compares_equal_whatever_origin() {
    let a = word("alpha", 3, "GATTACA", "1101101");
    let b = word("beta", -400, "GATTACA", "1101101");
    assert!(a == b);
    assert_eq!(a.partial_cmp(&b), Some(std::cmp::Ordering::Equal));
    let c = word("alpha", 3, "GATTACC", "1101101");
    assert!(a != c);
    assert_ne!(a.partial_cmp(&c), Some(std::cmp::Ordering::Equal));
}

#[test]
fn equal_fingerprints_sort_adjacently() {
    let words = vec![
        word("a", 1, "TTTT", "1111"),
        word("b", 2, "ACGT", "1111"),
        word("c", 3, "CCCC", "1111"),
        word("d", 4, "ACGT", "1111"),
        word("e", 5, "AAAA", "1111"),
    ];
    let sorted = sort_by_fingerprint(words);
    let fps: Vec<Option<u64>> = sorted.iter().map(|w| w.match_positions).collect();
    let mut expected = fps.clone();
    expected.sort();
    assert_eq!(fps, expected);
    let acgt: Vec<usize> = (0..sorted.len()).filter(|&i| sorted[i].match_positions == Some(108)).collect();
    assert_eq!(acgt.len(), 2);
    assert_eq!(acgt[1], acgt[0] + 1);
    let mut names = vec![sorted[acgt[0]].seq_name.clone(), sorted[acgt[1]].seq_name.clone()];
    names.sort();
    assert_eq!(names, vec!["b", "d"]);
}

#[test]
fn gap_size_is_absolute_distance() {
    let a = word("s", 10, "ACGT", "1111");
    let b = word("s", 3, "ACGT", "1111");
    assert_eq!(a.gap_size(&b), 7);
    assert_eq!(b.gap_size(&a), 7);
}
