use gaps_rs::opt::check_format;
use gaps_rs::pairs::{collect_pairs, pairs_from_vector, partition_by_species, select_pairs};
use gaps_rs::{PBlock, Sequence, SequenceStore, SpacedWord};

const X: &str = "GCACGAAACTTGTTGGCCCAGTGTGAATCG";

fn block(names: [&str; 4], pos: [i64; 4]) -> PBlock {
    PBlock((0..4).map(|i| SpacedWord::new(names[i], pos[i], &None, &None, false).unwrap()).collect())
}

fn first_positions(pairs: &[(PBlock, PBlock)]) -> Vec<(i64, i64)> {
    pairs.iter().map(|(a, b)| (a.0[0].position, b.0[0].position)).collect()
}

#[test]
fn neighbouring_anchors_pair_up() {
    let abcd = ["A", "B", "C", "D"];
    let blocks = vec![block(abcd, [30, 0, 0, 0]), block(abcd, [10, 0, 0, 0]), block(abcd, [20, 0, 0, 0])];
    let pairs = pairs_from_vector(&blocks);
    assert_eq!(first_positions(&pairs), vec![(10, 20), (20, 30)]);
    assert!(pairs_from_vector(&vec![block(abcd, [1, 2, 3, 4])]).is_empty());
    assert!(pairs_from_vector(&Vec::new()).is_empty());
}

#[test]
fn blocks_group_by_species() {
    let blocks = vec![
        block(["A", "B", "C", "D"], [1, 0, 0, 0]),
        block(["A", "B", "C", "E"], [2, 0, 0, 0]),
        block(["A", "B", "C", "D"], [3, 0, 0, 0]),
        block(["B", "C", "D", "E"], [4, 0, 0, 0]),
    ];
    let groups = partition_by_species(&blocks);
    let shape: Vec<Vec<i64>> = groups.iter().map(|g| g.iter().map(|b| b.0[0].position).collect()).collect();
    assert_eq!(shape, vec![vec![1, 3], vec![2], vec![4]]);
}

#[test]
fn collected_pairs_join_group_pairs_and_seed_search() {
    let shifted = format!("GG{}", X);
    let mut store = SequenceStore::new();
    for (n, f) in [("A", X), ("B", X), ("C", shifted.as_str()), ("D", shifted.as_str())] {
        store.insert(Sequence { name: n.to_string(), sequence: f.to_string(), seq_rev: String::new(), is_rev_comp: false });
    }
    let blocks = vec![
        block(["A", "B", "C", "D"], [0, 0, 0, 0]),
        block(["A", "B", "C", "E"], [5, 0, 0, 0]),
        block(["A", "B", "C", "E"], [2, 0, 0, 0]),
    ];
    let pairs = collect_pairs(&blocks, &store, "1111", 20, false, 2);
    assert_eq!(first_positions(&pairs), vec![(2, 5), (0, 8)]);
}

#[test]
fn selection_follows_strength_options() {
    let z = block(["A", "B", "C", "D"], [0, 0, 0, 0]);
    let pairs = || {
        vec![
            (z.clone(), block(["A", "B", "C", "D"], [5, 5, 9, 9])),
            (z.clone(), block(["A", "B", "C", "D"], [5, 5, 1, 9])),
            (z.clone(), block(["A", "B", "C", "D"], [1, 2, 3, 4])),
        ]
    };
    let second = |ps: &[(PBlock, PBlock)]| ps.iter().map(|(_, b)| b.0[2].position).collect::<Vec<i64>>();
    assert_eq!(second(&select_pairs(pairs(), true, false)), vec![9]);
    assert_eq!(second(&select_pairs(pairs(), false, false)), vec![9, 1]);
    assert_eq!(second(&select_pairs(pairs(), false, true)), vec![1]);
}

#[test]
fn known_formats_pass_the_check() {
    assert_eq!(check_format("max-cut"), Ok("max-cut".to_string()));
    assert_eq!(check_format("paup"), Ok("paup".to_string()));
    assert_eq!(check_format("phylip"), Err("phylip".to_string()));
}

#[test]
fn exhaustive_search_collects_every_unique_match() {
    let shifted = format!("GG{}", X);
    let mut store = SequenceStore::new();
    for (n, f) in [("A", X), ("B", X), ("C", shifted.as_str()), ("D", shifted.as_str())] {
        store.insert(Sequence { name: n.to_string(), sequence: f.to_string(), seq_rev: String::new(), is_rev_comp: false });
    }
    let seed = block(["A", "B", "C", "D"], [0, 0, 0, 0]);
    let found = PBlock::find_matching_pblocks(&seed, &store, "1111", 10);
    // windows [-10, 10): every species has starts 0 to 6
    // (offsets 2 to 6 of C and D hold the words of A's offsets 0 to 4)
    let mut pos: Vec<Vec<i64>> = found.iter().map(|b| b.0.iter().map(|w| w.position).collect()).collect();
    pos.sort();
    assert_eq!(
        pos,
        vec![vec![0, 0, 2, 2], vec![1, 1, 3, 3], vec![2, 2, 4, 4], vec![3, 3, 5, 5], vec![4, 4, 6, 6]]
    );
    assert!(PBlock::find_matching_pblocks(&seed, &store, "1111", -1).is_empty());
}
