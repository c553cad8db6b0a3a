//! Tallies over the collected pairs: gap-size categories, strong and weak
//! pairs, and how many distinct quartets the pairs cover.

use vstd::prelude::*;
use crate::pblock::{PBlock, spec_strong_pair};
use crate::qtree::{abs_gaps, block_gaps};
use crate::spaced_word::SpacedWord;

verus! {

/// How the four gap sizes `|a[i].position - b[i].position|` of a pair group
/// into equal values.
#[derive(Debug, PartialEq, Eq, Structural, Clone, Copy)]
pub enum GapCategory {
    /// All four are equal.
    OneValue,
    /// Two values, two of each.
    TwoTwo,
    /// Two values, three of one and one of the other.
    ThreeOne,
    /// Three values.
    ThreeValues,
    /// Four values.
    FourValues,
}

/// Number of distinct values among four.
pub open spec fn distinct_values(g: Seq<int>) -> nat {
    1 + (if g[1] != g[0] {
        1nat
    } else {
        0nat
    }) + (if g[2] != g[0] && g[2] != g[1] {
        1nat
    } else {
        0nat
    }) + (if g[3] != g[0] && g[3] != g[1] && g[3] != g[2] {
        1nat
    } else {
        0nat
    })
}

/// The values split into two equal pairs.
pub open spec fn complementary_pairs(g: Seq<int>) -> bool {
    ||| g[0] == g[1] && g[2] == g[3]
    ||| g[0] == g[2] && g[1] == g[3]
    ||| g[0] == g[3] && g[1] == g[2]
}

/// The category of four gap sizes, by their number of distinct values; two
/// values that do not split into two equal pairs count as three against one.
pub open spec fn category_of(g: Seq<int>) -> GapCategory {
    let n = distinct_values(g);
    if n == 1 {
        GapCategory::OneValue
    } else if n == 2 {
        if complementary_pairs(g) {
            GapCategory::TwoTwo
        } else {
            GapCategory::ThreeOne
        }
    } else if n == 3 {
        GapCategory::ThreeValues
    } else {
        GapCategory::FourValues
    }
}

/// The category of a pair of blocks, by its gap sizes.
pub open spec fn pair_category(p: (Seq<SpacedWord>, Seq<SpacedWord>)) -> GapCategory {
    category_of(abs_gaps(p.0, p.1))
}

/// Number of pairs of `ps` in category `c`.
pub open spec fn count_in(ps: Seq<(Seq<SpacedWord>, Seq<SpacedWord>)>, c: GapCategory) -> nat
    decreases ps.len(),
{
    if ps.len() == 0 {
        0
    } else {
        count_in(ps.drop_last(), c) + if pair_category(ps.last()) == c {
            1nat
        } else {
            0nat
        }
    }
}

/// Number of strong pairs of `ps`.
pub open spec fn count_strong(ps: Seq<(Seq<SpacedWord>, Seq<SpacedWord>)>) -> nat
    decreases ps.len(),
{
    if ps.len() == 0 {
        0
    } else {
        count_strong(ps.drop_last()) + if spec_strong_pair(ps.last().0, ps.last().1) {
            1nat
        } else {
            0nat
        }
    }
}

/// The views of a list of pairs.
pub open spec fn pair_views(pairs: Seq<(PBlock, PBlock)>) -> Seq<(Seq<SpacedWord>, Seq<SpacedWord>)> {
    pairs.map_values(|p: (PBlock, PBlock)| (p.0@, p.1@))
}

/// Blocks of four words each.
pub open spec fn four_word_pairs(pairs: Seq<(PBlock, PBlock)>) -> bool {
    forall|i: int| 0 <= i < pairs.len() ==> (#[trigger] pairs[i]).0@.len() == 4 && pairs[i].1@.len() == 4
}

/// Classifies four gap sizes.
pub fn categorize(g: [i128; 4]) -> (r: GapCategory)
    ensures
        r == category_of(seq![g[0] as int, g[1] as int, g[2] as int, g[3] as int]),
{
    let g0 = g[0];
    let g1 = g[1];
    let g2 = g[2];
    let g3 = g[3];
    let mut n: u8 = 1;
    if g1 != g0 {
        n = n + 1;
    }
    if g2 != g0 && g2 != g1 {
        n = n + 1;
    }
    if g3 != g0 && g3 != g1 && g3 != g2 {
        n = n + 1;
    }
    if n == 1 {
        GapCategory::OneValue
    } else if n == 2 {
        if (g0 == g1 && g2 == g3) || (g0 == g2 && g1 == g3) || (g0 == g3 && g1 == g2) {
            GapCategory::TwoTwo
        } else {
            GapCategory::ThreeOne
        }
    } else if n == 3 {
        GapCategory::ThreeValues
    } else {
        GapCategory::FourValues
    }
}

/// The category of the pair `(a, b)` of four-word blocks.
pub fn pair_category_of(a: &PBlock, b: &PBlock) -> (r: GapCategory)
    requires
        a@.len() == 4,
        b@.len() == 4,
    ensures
        r == pair_category((a@, b@)),
{
    let d = block_gaps(a, b);
    let g: [i128; 4] = [d[0] as i128, d[1] as i128, d[2] as i128, d[3] as i128];
    categorize(g)
}

/// The tallies over a list of pairs.
pub struct PairCounts {
    pub total_pairs: usize,
    pub strong_pairs: usize,
    pub weak_pairs: usize,
    pub one_value: usize,
    pub two_two: usize,
    pub three_one: usize,
    pub three_values: usize,
    pub four_values: usize,
}

/// Tallies the pairs: how many there are, how many are strong (the rest are
/// weak), and how many fall in each gap-size category. The categories together
/// hold every pair once.
pub fn count_pairs(pairs: &[(PBlock, PBlock)]) -> (r: PairCounts)
    requires
        four_word_pairs(pairs@),
    ensures
        r.total_pairs == pairs@.len(),
        r.strong_pairs == count_strong(pair_views(pairs@)),
        r.weak_pairs == pairs@.len() - count_strong(pair_views(pairs@)),
        r.one_value == count_in(pair_views(pairs@), GapCategory::OneValue),
        r.two_two == count_in(pair_views(pairs@), GapCategory::TwoTwo),
        r.three_one == count_in(pair_views(pairs@), GapCategory::ThreeOne),
        r.three_values == count_in(pair_views(pairs@), GapCategory::ThreeValues),
        r.four_values == count_in(pair_views(pairs@), GapCategory::FourValues),
        r.one_value + r.two_two + r.three_one + r.three_values + r.four_values == r.total_pairs,
{
    let ghost views = pair_views(pairs@);
    let mut c = PairCounts {
        total_pairs: 0,
        strong_pairs: 0,
        weak_pairs: 0,
        one_value: 0,
        two_two: 0,
        three_one: 0,
        three_values: 0,
        four_values: 0,
    };
    let mut i: usize = 0;
    while i < pairs.len()
        invariant
            i <= pairs@.len(),
            four_word_pairs(pairs@),
            views == pair_views(pairs@),
            c.total_pairs == i,
            c.strong_pairs == count_strong(views.subrange(0, i as int)),
            c.one_value == count_in(views.subrange(0, i as int), GapCategory::OneValue),
            c.two_two == count_in(views.subrange(0, i as int), GapCategory::TwoTwo),
            c.three_one == count_in(views.subrange(0, i as int), GapCategory::ThreeOne),
            c.three_values == count_in(views.subrange(0, i as int), GapCategory::ThreeValues),
            c.four_values == count_in(views.subrange(0, i as int), GapCategory::FourValues),
            c.one_value + c.two_two + c.three_one + c.three_values + c.four_values == i,
            c.strong_pairs <= i,
        decreases pairs@.len() - i,
    {
        proof {
            assert(views.subrange(0, i + 1).drop_last() =~= views.subrange(0, i as int));
            assert(views.subrange(0, i + 1).last() == views[i as int]);
            assert(pairs@[i as int].0@.len() == 4);
        }
        let a = &pairs[i].0;
        let b = &pairs[i].1;
        match pair_category_of(a, b) {
            GapCategory::OneValue => c.one_value = c.one_value + 1,
            GapCategory::TwoTwo => c.two_two = c.two_two + 1,
            GapCategory::ThreeOne => c.three_one = c.three_one + 1,
            GapCategory::ThreeValues => c.three_values = c.three_values + 1,
            GapCategory::FourValues => c.four_values = c.four_values + 1,
        }
        if PBlock::strong_pair(a, b) {
            c.strong_pairs = c.strong_pairs + 1;
        }
        c.total_pairs = c.total_pairs + 1;
        i = i + 1;
    }
    assert(views.subrange(0, pairs@.len() as int) =~= views);
    c.weak_pairs = c.total_pairs - c.strong_pairs;
    c
}

/// A pair of four-word blocks is strong exactly when its gap sizes split two
/// against two.
pub proof fn lemma_strong_iff_two_two(a: Seq<SpacedWord>, b: Seq<SpacedWord>)
    requires
        a.len() == 4,
        b.len() == 4,
    ensures
        spec_strong_pair(a, b) <==> pair_category((a, b)) == GapCategory::TwoTwo,
{
}

/// Two values that do not form two equal pairs land with three against one,
/// never with two against two.
pub proof fn lemma_two_values_unpaired_three_one(g: Seq<int>)
    requires
        g.len() == 4,
        distinct_values(g) == 2,
        !complementary_pairs(g),
    ensures
        category_of(g) == GapCategory::ThreeOne,
        category_of(g) != GapCategory::TwoTwo,
{
}

/// Over any list of pairs, the category counts add up to the number of pairs.
pub proof fn lemma_category_counts_sum(ps: Seq<(Seq<SpacedWord>, Seq<SpacedWord>)>)
    ensures
        count_in(ps, GapCategory::OneValue) + count_in(ps, GapCategory::TwoTwo) + count_in(
            ps,
            GapCategory::ThreeOne,
        ) + count_in(ps, GapCategory::ThreeValues) + count_in(ps, GapCategory::FourValues)
            == ps.len(),
    decreases ps.len(),
{
    if ps.len() > 0 {
        lemma_category_counts_sum(ps.drop_last());
    }
}

} // verus!
