use gaps_rs::qtree::classify_gaps;
use gaps_rs::{PBlock, QTree, SpacedWord, Topology};

fn block(names: [&str; 4], pos: [i64; 4]) -> PBlock {
    let words = (0..4)
        .map(|i| SpacedWord::new(names[i], pos[i], &None, &None, false).unwrap())
        .collect();
    PBlock(words)
}

fn tree_for_gaps(g: [i64; 4]) -> Option<QTree> {
    let a = block(["A", "B", "C", "D"], [0, 0, 0, 0]);
    let b = block(["A", "B", "C", "D"], g);
    QTree::new(&a, &b)
}

#[test]
fn equal_pairs_give_sister_species() {
    let t = tree_for_gaps([5, 5, 9, 9]).unwrap();
    assert_eq!(t.newick(), "((A,B),(C,D));");
    assert_eq!((t.pair1, t.pair2), ((0, 1), (2, 3)));
}

#[test]
fn crossed_pairs_give_crossed_topology() {
    let t = tree_for_gaps([5, 9, 5, 9]).unwrap();
    assert_eq!(t.newick(), "((A,C),(B,D));");
}

#[test]
fn distinct_gaps_give_no_topology() {
    assert!(tree_for_gaps([1, 2, 3, 4]).is_none());
    assert!(tree_for_gaps([10, 7, 3, 0]).is_none());
    assert!(matches!(classify_gaps([1, 2, 3, 4]), Topology::Unresolved));
}

#[test]
fn three_equal_gaps_give_no_topology() {
    assert!(tree_for_gaps([4, 4, 4, 9]).is_none());
    assert!(tree_for_gaps([9, 4, 4, 4]).is_none());
    assert!(tree_for_gaps([4, 9, 4, 4]).is_none());
    assert!(tree_for_gaps([7, 7, 7, 7]).is_none());
}

#[test]
fn first_equal_pair_wins() {
    // only the (1,3) pair is equal
    let t = tree_for_gaps([1, 6, 2, 6]).unwrap();
    assert_eq!((t.pair1, t.pair2), ((1, 3), (0, 2)));
    // one equal pair suffices
    let t = tree_for_gaps([3, 3, 1, 2]).unwrap();
    assert_eq!((t.pair1, t.pair2), ((0, 1), (2, 3)));
    let t = tree_for_gaps([1, 2, 5, 5]).unwrap();
    assert_eq!(t.newick(), "((C,D),(A,B));");
}

#[test]
fn gap_sizes_are_absolute_for_the_topology() {
    let a = block(["A", "B", "C", "D"], [10, 10, 0, 0]);
    let b = block(["A", "B", "C", "D"], [5, 5, 9, 9]);
    // gaps 5, 5, 9, 9
    let t = QTree::new(&a, &b).unwrap();
    assert_eq!(t.newick(), "((A,B),(C,D));");
    assert_eq!(t.gap_sizes(), vec![-5, -5, 9, 9]);
    assert_eq!(t.seq_names(), vec!["A", "B", "C", "D"]);
}

#[test]
fn trees_from_pairs_keep_resolved_ones() {
    let a = block(["A", "B", "C", "D"], [0, 0, 0, 0]);
    let pairs = vec![
        (a.clone(), block(["A", "B", "C", "D"], [5, 5, 9, 9])),
        (a.clone(), block(["A", "B", "C", "D"], [1, 2, 3, 4])),
        (a.clone(), block(["A", "B", "C", "D"], [5, 9, 5, 9])),
    ];
    let trees = QTree::from_pairs(&pairs);
    assert_eq!(trees.len(), 2);
    assert_eq!(trees[0].newick(), "((A,B),(C,D));");
    assert_eq!(trees[1].newick(), "((A,C),(B,D));");
}

#[test]
fn strong_pairs_split_two_against_two() {
    let a = block(["A", "B", "C", "D"], [0, 0, 0, 0]);
    assert!(PBlock::strong_pair(&a, &block(["A", "B", "C", "D"], [5, 5, 9, 9])));
    assert!(PBlock::strong_pair(&a, &block(["A", "B", "C", "D"], [5, 9, 9, 5])));
    assert!(!PBlock::strong_pair(&a, &block(["A", "B", "C", "D"], [5, 5, 5, 5])));
    assert!(!PBlock::strong_pair(&a, &block(["A", "B", "C", "D"], [5, 5, 1, 9])));
    // gap sizes are absolute: 5, 5, 5, 5 is uniform
    assert!(!PBlock::strong_pair(&a, &block(["A", "B", "C", "D"], [5, 5, -5, -5])));
    let short = PBlock(vec![SpacedWord::new("A", 0, &None, &None, false).unwrap()]);
    assert!(!PBlock::strong_pair(&short, &short));
}

#[test]
fn distances_name_each_species() {
    let a = block(["A", "B", "C", "D"], [1, 2, 3, 4]);
    let b = block(["A", "B", "C", "D"], [11, 0, 3, -4]);
    let d = PBlock::get_distances(&a, &b);
    assert_eq!(
        d,
        vec![("A".to_string(), 10), ("B".to_string(), -2), ("C".to_string(), 0), ("D".to_string(), -8)]
    );
}

#[test]
fn blocks_sort_by_species_name() {
    let words = vec![
        SpacedWord::new("delta", 4, &None, &None, false).unwrap(),
        SpacedWord::new("Beta", 2, &None, &None, false).unwrap(),
        SpacedWord::new("alpha", 1, &None, &None, false).unwrap(),
        SpacedWord::new("Alpha", 3, &None, &None, false).unwrap(),
    ];
    let b = PBlock::from_spaced_words(words);
    let names: Vec<&str> = b.0.iter().map(|w| w.seq_name.as_str()).collect();
    assert_eq!(names, vec!["Alpha", "Beta", "alpha", "delta"]);
    assert!(b.is_well_formed());
    assert_eq!(b.len(), 4);
    assert!(!b.is_empty());
    let unsorted = block(["D", "A", "C", "B"], [0, 0, 0, 0]);
    let names = unsorted.get_sequence_names();
    assert_eq!(names, vec!["A", "B", "C", "D"]);
    assert!(!unsorted.is_well_formed());
    assert!(!block(["A", "A", "C", "D"], [0, 0, 0, 0]).is_well_formed());
}

#[test]
fn strong_pairs_always_have_a_topology() {
    let a = block(["A", "B", "C", "D"], [0, 0, 0, 0]);
    // gap sizes 5, 5, 5, 5: no topology, so not strong either
    let b = block(["A", "B", "C", "D"], [5, 5, -5, -5]);
    assert!(QTree::new(&a, &b).is_none());
    assert!(!PBlock::strong_pair(&a, &b));
    // gap sizes 5, 5, 9, 9 in mixed directions
    let c = block(["A", "B", "C", "D"], [5, -5, 9, -9]);
    assert!(PBlock::strong_pair(&a, &c));
    assert!(QTree::new(&a, &c).is_some());
}
