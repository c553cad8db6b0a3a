use gaps_rs::search::{search_step, SearchState};
use gaps_rs::{PBlock, Sequence, SequenceStore, SpacedWord};

const X: &str = "GCACGAAACTTGTTGGCCCAGTGTGAATCG";

fn seq(name: &str, fwd: &str) -> Sequence {
    Sequence { name: name.to_string(), sequence: fwd.to_string(), seq_rev: String::new(), is_rev_comp: false }
}

fn store() -> SequenceStore {
    let shifted = format!("GG{}", X);
    let mut s = SequenceStore::new();
    s.insert(seq("A", X));
    s.insert(seq("B", X));
    s.insert(seq("C", &shifted));
    s.insert(seq("D", &shifted));
    s
}

fn seed(pos: [i64; 4]) -> PBlock {
    let names = ["A", "B", "C", "D"];
    PBlock((0..4).map(|i| SpacedWord::new(names[i], pos[i], &None, &None, false).unwrap()).collect())
}

fn positions(b: &PBlock) -> Vec<i64> {
    b.0.iter().map(|w| w.position).collect()
}

#[test]
fn companion_found_at_first_probe() {
    let found = PBlock::find_matching_block(&seed([0, 0, 0, 0]), &store(), "1111", 20, false).unwrap();
    assert_eq!(positions(&found), vec![8, 8, 10, 10]);
    let names: Vec<&str> = found.0.iter().map(|w| w.seq_name.as_str()).collect();
    assert_eq!(names, vec!["A", "B", "C", "D"]);
    let fp = found.0[0].match_positions;
    assert!(fp.is_some() && found.0.iter().all(|w| w.match_positions == fp));
}

#[test]
fn strict_search_accepts_strong_companion() {
    let found = PBlock::find_matching_block(&seed([0, 0, 0, 0]), &store(), "1111", 20, true).unwrap();
    assert_eq!(positions(&found), vec![8, 8, 10, 10]);
    assert!(PBlock::strong_pair(&seed([0, 0, 0, 0]), &found));
}

#[test]
fn uniform_gaps_never_accepted() {
    let mut s = SequenceStore::new();
    for n in ["A", "B", "C", "D"] {
        s.insert(seq(n, X));
    }
    assert!(PBlock::find_matching_block(&seed([0, 0, 0, 0]), &s, "1111", 20, false).is_none());
}

#[test]
fn empty_window_for_one_species_gives_no_match() {
    // D's window starts past the end of its sequence
    assert!(PBlock::find_matching_block(&seed([0, 0, 0, 500]), &store(), "1111", 20, false).is_none());
    // A's window is shorter than the pattern
    assert!(PBlock::find_matching_block(&seed([0, 0, 0, 0]), &store(), "1111", 3, false).is_none());
}

#[test]
fn missing_species_or_bad_seed_gives_no_match() {
    let mut s = store();
    s.insert(seq("E", X));
    let names = ["A", "B", "C", "F"];
    let b = PBlock((0..4).map(|i| SpacedWord::new(names[i], 0, &None, &None, false).unwrap()).collect());
    assert!(PBlock::find_matching_block(&b, &s, "1111", 20, false).is_none());
    let unsorted = PBlock(seed([0, 0, 0, 0]).0.into_iter().rev().collect());
    assert!(PBlock::find_matching_block(&unsorted, &store(), "1111", 20, false).is_none());
    assert!(PBlock::find_matching_block(&seed([0, 0, 0, 0]), &store(), "1111", -1, false).is_none());
}

fn lists(s: &SequenceStore, names: [&str; 4]) -> Vec<Vec<SpacedWord>> {
    names
        .iter()
        .enumerate()
        .map(|(i, n)| {
            let words = s.get(&n.to_string()).unwrap().spaced_words("1111", 0, 20, false);
            if i == 0 { words } else { gaps_rs::order::sort_by_fingerprint(words) }
        })
        .collect()
}

#[test]
fn search_steps_through_states() {
    let s = store();
    let l = lists(&s, ["A", "B", "C", "D"]);
    assert_eq!(l[0].len(), 17);
    match search_step(&seed([0, 0, 0, 0]), &l[0], &l[1], &l[2], &l[3], false, 0, 16, 8) {
        SearchState::Accepted(b) => assert_eq!(positions(&b), vec![8, 8, 10, 10]),
        _ => panic!("expected an accepted candidate"),
    }
    assert!(matches!(
        search_step(&seed([0, 0, 0, 0]), &l[0], &l[1], &l[2], &l[3], false, 3, 4, 3),
        SearchState::Exhausted
    ));

    let mut uniform = SequenceStore::new();
    for n in ["A", "B", "C", "D"] {
        uniform.insert(seq(n, X));
    }
    let u = lists(&uniform, ["A", "B", "C", "D"]);
    // all four gaps equal: rejected, and not all distinct, so the upper half
    assert!(matches!(
        search_step(&seed([0, 0, 0, 0]), &u[0], &u[1], &u[2], &u[3], false, 0, 16, 8),
        SearchState::Probe { min: 8, max: 16, at: 12 }
    ));
    // a probe whose fingerprint is missing from another list moves on
    let empty: Vec<SpacedWord> = Vec::new();
    assert!(matches!(
        search_step(&seed([0, 0, 0, 0]), &u[0], &empty, &u[2], &u[3], false, 0, 16, 8),
        SearchState::Probe { min: 0, max: 16, at: 9 }
    ));
}

#[test]
fn distinct_gaps_send_search_lower() {
    // B, C, D hold A's words shifted by different amounts: gaps all differ
    let mut s = SequenceStore::new();
    s.insert(seq("A", X));
    s.insert(seq("B", &format!("G{}", X)));
    s.insert(seq("C", &format!("GG{}", X)));
    s.insert(seq("D", &format!("TTT{}", X)));
    let l = lists(&s, ["A", "B", "C", "D"]);
    assert!(matches!(
        search_step(&seed([0, 0, 0, 0]), &l[0], &l[1], &l[2], &l[3], false, 0, 16, 8),
        SearchState::Probe { min: 0, max: 8, at: 4 }
    ));
}
