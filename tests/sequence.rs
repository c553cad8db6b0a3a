use gaps_rs::{Sequence, SequenceStore};

fn seq(name: &str, fwd: &str, rev: &str) -> Sequence {
    Sequence { name: name.to_string(), sequence: fwd.to_string(), seq_rev: rev.to_string(), is_rev_comp: false }
}

#[test]
fn spaced_words_cover_window_starts() {
    let s = seq("s", "ACGTAC", "GTACGT");
    let words = s.spaced_words("11", 0, 6, false);
    let pos: Vec<i64> = words.iter().map(|w| w.position).collect();
    assert_eq!(pos, vec![0, 1, 2, 3, 4]);
    assert_eq!(words[0].match_positions, Some(4));
    assert!(words.iter().all(|w| w.seq_name == "s" && !w.rev_comp));
}

#[test]
fn spaced_words_drop_invalid_words() {
    let s = seq("s", "ACNGTA", "TACNGT");
    let words = s.spaced_words("11", 0, 6, false);
    let pos: Vec<i64> = words.iter().map(|w| w.position).collect();
    assert_eq!(pos, vec![0, 3, 4]);
}

#[test]
fn spaced_words_clamp_window() {
    let s = seq("s", "ACGTAC", "GTACGT");
    let words = s.spaced_words("11", -5, 100, false);
    assert_eq!(words.len(), 5);
    // a window exactly as long as the pattern holds one word
    let words = s.spaced_words("11", 2, 4, false);
    assert_eq!(words.iter().map(|w| w.position).collect::<Vec<i64>>(), vec![2]);
    let words = s.spaced_words("11", 2, 3, false);
    assert_eq!(words.len(), 0);
    let words = s.spaced_words("1111", 3, 6, false);
    assert!(words.is_empty());
}

#[test]
fn spaced_words_on_reverse_strand() {
    let s = seq("s", "AAAAAA", "CCGGTT");
    let words = s.spaced_words("11", 0, 6, true);
    let pos: Vec<i64> = words.iter().map(|w| w.position).collect();
    assert_eq!(pos, vec![0, -1, -2, -3, -4]);
    assert!(words.iter().all(|w| w.rev_comp));
    // CC
    assert_eq!(words[0].match_positions, Some(20));
}

#[test]
fn rev_comp_swaps_strands() {
    let s = seq("s", "AACC", "GGTT");
    let r = s.get_rev_comp();
    assert_eq!(r.sequence, "GGTT");
    assert_eq!(r.seq_rev, "AACC");
    assert!(r.is_rev_comp);
    assert_eq!(s.len(), 4);
    assert!(!s.is_empty());
    let words = r.spaced_words("11", 0, 4, false);
    assert!(words.iter().all(|w| w.rev_comp && w.position <= 0));
}

#[test]
fn record_builds_both_strands_upper_case() {
    let s = Sequence::from_record(b"chr1", b"aaCCgT").unwrap();
    assert_eq!(s.name, "chr1");
    assert_eq!(s.sequence, "AACCGT");
    assert_eq!(s.seq_rev, "ACGGTT");
    assert!(!s.is_rev_comp);
    let t = Sequence::from_record(b"x", b"AACC").unwrap();
    assert_eq!(t.seq_rev, "GGTT");
}

#[test]
fn record_with_invalid_utf8_is_refused() {
    assert!(Sequence::from_record(&[0xff, 0xfe], b"ACGT").is_none());
    assert!(Sequence::from_record(b"x", &[0x41, 0xc3]).is_none());
}

#[test]
fn store_answers_with_last_insert() {
    let mut store = SequenceStore::new();
    store.insert(seq("a", "AC", "GT"));
    store.insert(seq("b", "GG", "CC"));
    store.insert(seq("a", "TT", "AA"));
    assert_eq!(store.len(), 3);
    assert_eq!(store.get(&"a".to_string()).unwrap().sequence, "TT");
    assert_eq!(store.get(&"b".to_string()).unwrap().sequence, "GG");
    assert!(store.get(&"c".to_string()).is_none());
}
