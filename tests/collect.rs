use gaps_rs::collect::{search_seeds, search_sharded};
use gaps_rs::{PBlock, Sequence, SequenceStore, SpacedWord};

const X: &str = "GCACGAAACTTGTTGGCCCAGTGTGAATCG";

fn store() -> SequenceStore {
    let shifted = format!("GG{}", X);
    let mut s = SequenceStore::new();
    for (n, f) in [("A", X), ("B", X), ("C", shifted.as_str()), ("D", shifted.as_str())] {
        s.insert(Sequence { name: n.to_string(), sequence: f.to_string(), seq_rev: String::new(), is_rev_comp: false });
    }
    s
}

fn seed(pos: [i64; 4]) -> PBlock {
    let names = ["A", "B", "C", "D"];
    PBlock((0..4).map(|i| SpacedWord::new(names[i], pos[i], &None, &None, false).unwrap()).collect())
}

fn summary(pairs: &[(PBlock, PBlock)]) -> Vec<(Vec<i64>, Vec<i64>)> {
    let mut v: Vec<(Vec<i64>, Vec<i64>)> = pairs
        .iter()
        .map(|(a, b)| (a.0.iter().map(|w| w.position).collect(), b.0.iter().map(|w| w.position).collect()))
        .collect();
    v.sort();
    v
}

#[test]
fn worker_count_does_not_change_pairs() {
    let seeds = vec![seed([0, 0, 0, 0]), seed([1, 1, 1, 1]), seed([0, 0, 0, 900]), seed([2, 2, 2, 2]), seed([3, 3, 3, 3])];
    let one = search_sharded(&seeds, &store(), "1111", 20, false, 1);
    let two = search_sharded(&seeds, &store(), "1111", 20, false, 2);
    let many = search_sharded(&seeds, &store(), "1111", 20, false, 7);
    assert_eq!(summary(&one), summary(&two));
    assert_eq!(summary(&one), summary(&many));
    assert_eq!(one.len(), 4);
    let mut reversed = seeds.clone();
    reversed.reverse();
    assert_eq!(summary(&search_sharded(&reversed, &store(), "1111", 20, false, 3)), summary(&one));
}

#[test]
fn seeds_without_companion_are_left_out() {
    let seeds = vec![seed([0, 0, 0, 900])];
    assert!(search_seeds(&seeds, &store(), "1111", 20, false).is_empty());
    let found = search_seeds(&[seed([0, 0, 0, 0])], &store(), "1111", 20, false);
    assert_eq!(found.len(), 1);
    assert_eq!(found[0].1 .0.iter().map(|w| w.position).collect::<Vec<_>>(), vec![8, 8, 10, 10]);
}
