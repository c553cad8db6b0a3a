use gaps_rs::stats::{categorize, count_pairs, GapCategory};
use gaps_rs::{PBlock, SpacedWord};

fn block(pos: [i64; 4]) -> PBlock {
    let names = ["A", "B", "C", "D"];
    PBlock((0..4).map(|i| SpacedWord::new(names[i], pos[i], &None, &None, false).unwrap()).collect())
}

#[test]
fn categories_by_distinct_values() {
    assert_eq!(categorize([3, 3, 3, 3]), GapCategory::OneValue);
    assert_eq!(categorize([3, 7, 3, 7]), GapCategory::TwoTwo);
    assert_eq!(categorize([3, 3, 3, 7]), GapCategory::ThreeOne);
    assert_eq!(categorize([7, 3, 3, 3]), GapCategory::ThreeOne);
    assert_eq!(categorize([1, 1, 2, 3]), GapCategory::ThreeValues);
    assert_eq!(categorize([1, 2, 3, 4]), GapCategory::FourValues);
}

#[test]
fn category_counts_sum_to_pair_count() {
    let z = block([0, 0, 0, 0]);
    let pairs = vec![
        (z.clone(), block([4, 4, 4, 4])),
        (z.clone(), block([4, 4, 9, 9])),
        (z.clone(), block([4, 4, 4, 9])),
        (z.clone(), block([1, 1, 2, 3])),
        (z.clone(), block([1, 2, 3, 4])),
    ];
    let c = count_pairs(&pairs);
    assert_eq!(c.total_pairs, 5);
    assert_eq!(c.one_value, 1);
    assert_eq!(c.two_two, 1);
    assert_eq!(c.three_one, 1);
    assert_eq!(c.three_values, 1);
    assert_eq!(c.four_values, 1);
    assert_eq!(c.one_value + c.two_two + c.three_one + c.three_values + c.four_values, c.total_pairs);
    assert_eq!(c.strong_pairs, 1);
    assert_eq!(c.weak_pairs, 4);
}

#[test]
fn empty_pair_list_counts_nothing() {
    let c = count_pairs(&[]);
    assert_eq!(c.total_pairs, 0);
    assert_eq!(c.strong_pairs + c.weak_pairs, 0);
}

#[test]
fn categories_use_absolute_gap_sizes() {
    let z = block([0, 0, 0, 0]);
    let pairs = vec![(z.clone(), block([4, -4, 4, -4])), (z.clone(), block([4, -4, 9, -9]))];
    let c = count_pairs(&pairs);
    assert_eq!(c.one_value, 1);
    assert_eq!(c.two_two, 1);
    assert_eq!(c.strong_pairs, 1);
}
