//! P-blocks: one spaced word per species, marking a shared anchor point.

use vstd::prelude::*;
use crate::names::{Named, sort_by_name, sorted_by_name, strictly_sorted_by_name, str_lt, name_lt};
use crate::order::{is_perm, perm_witness};
use crate::spaced_word::SpacedWord;
use crate::qtree::{abs_gaps, block_gaps, pair_topology};

verus! {

/// One spaced word per species, sorted by species name.
#[derive(Debug, Clone)]
pub struct PBlock(pub Vec<SpacedWord>);

impl View for PBlock {
    type V = Seq<SpacedWord>;

    open spec fn view(&self) -> Seq<SpacedWord> {
        self.0@
    }
}

/// Names of the words, in order.
pub open spec fn names_of(s: Seq<SpacedWord>) -> Seq<Seq<char>> {
    s.map_values(|w: SpacedWord| w.seq_name@)
}

/// The gap sizes form two equal pairs and are not all equal.
pub open spec fn is_two_two(d: Seq<int>) -> bool {
    &&& !(d[0] == d[1] && d[1] == d[2] && d[2] == d[3])
    &&& (d[0] == d[1] && d[2] == d[3]) || (d[0] == d[2] && d[1] == d[3]) || (d[0] == d[3] && d[2]
        == d[1])
}

/// Two blocks of four words whose gap sizes `|a[i].position - b[i].position|`
/// split two against two.
pub open spec fn spec_strong_pair(a: Seq<SpacedWord>, b: Seq<SpacedWord>) -> bool {
    a.len() == 4 && b.len() == 4 && is_two_two(abs_gaps(a, b))
}

/// A strong pair always resolves a topology: strength is the narrower test.
pub proof fn lemma_strong_pair_resolved(a: Seq<SpacedWord>, b: Seq<SpacedWord>)
    requires
        spec_strong_pair(a, b),
    ensures
        pair_topology(a, b) is Resolved,
{
}

impl PBlock {
    /// Four words with strictly increasing names: the shape every search and
    /// classification expects.
    pub open spec fn wf(&self) -> bool {
        self@.len() == 4 && strictly_sorted_by_name(self@)
    }

    /// Sorts the words by species name into a block.
    pub fn from_spaced_words(input: Vec<SpacedWord>) -> (r: PBlock)
        ensures
            sorted_by_name(r@),
            is_perm(r@, input@),
    {
        PBlock(sort_by_name(input))
    }

    /// The species names of the block, sorted.
    pub fn get_sequence_names(&self) -> (r: Vec<&String>)
        ensures
            sorted_by_name(r@),
            is_perm(r@.map_values(|s: &String| s@), names_of(self@)),
    {
        let mut refs: Vec<&String> = Vec::new();
        let mut i: usize = 0;
        while i < self.0.len()
            invariant
                i <= self@.len(),
                refs@.len() == i,
                forall|k: int| 0 <= k < i ==> (*#[trigger] refs@[k])@ == self@[k].seq_name@,
            decreases self@.len() - i,
        {
            refs.push(&self.0[i].seq_name);
            i = i + 1;
        }
        let ghost unsorted = refs@;
        let r = sort_by_name(refs);
        proof {
            let p = choose|p: Seq<int>| perm_witness(p, r@, unsorted);
            let f = |s: &String| s@;
            crate::order::lemma_perm_map(p, r@, unsorted, f);
            assert(unsorted.map_values(f) =~= names_of(self@));
        }
        r
    }

    /// Whether `block1` and `block2` form a pair that strongly supports a
    /// topology: both have four words and the gap sizes split two against two
    /// (see `spec_strong_pair`).
    pub fn strong_pair(block1: &PBlock, block2: &PBlock) -> (r: bool)
        ensures
            r == spec_strong_pair(block1@, block2@),
    {
        if block1.0.len() != 4 || block2.0.len() != 4 {
            return false;
        }
        let d = block_gaps(block1, block2);
        !(d[0] == d[1] && d[1] == d[2] && d[2] == d[3]) && ((d[0] == d[1] && d[2] == d[3]) || (d[0]
            == d[2] && d[1] == d[3]) || (d[0] == d[3] && d[2] == d[1]))
    }

    /// For each word of `a`, its species name and how far the word of `b` at the
    /// same place lies from it (`b[i].position - a[i].position`).
    pub fn get_distances(a: &PBlock, b: &PBlock) -> (r: Vec<(String, i64)>)
        requires
            a@.len() <= b@.len(),
            forall|i: int|
                0 <= i < a@.len() ==> i64::MIN <= #[trigger] b@[i].position - a@[i].position
                    <= i64::MAX,
        ensures
            r@.len() == a@.len(),
            forall|i: int|
                0 <= i < a@.len() ==> (#[trigger] r@[i]).0@ == a@[i].seq_name@ && r@[i].1
                    == b@[i].position - a@[i].position,
    {
        let mut result: Vec<(String, i64)> = Vec::new();
        let mut i: usize = 0;
        while i < a.0.len()
            invariant
                i <= a@.len(),
                a@.len() <= b@.len(),
                forall|k: int|
                    0 <= k < a@.len() ==> i64::MIN <= #[trigger] b@[k].position - a@[k].position
                        <= i64::MAX,
                result@.len() == i,
                forall|k: int|
                    0 <= k < i ==> (#[trigger] result@[k]).0@ == a@[k].seq_name@ && result@[k].1
                        == b@[k].position - a@[k].position,
            decreases a@.len() - i,
        {
            let d: i64 = b.0[i].position - a.0[i].position;
            result.push((a.0[i].seq_name.clone(), d));
            i = i + 1;
        }
        result
    }

    /// Number of words.
    pub fn len(&self) -> (r: usize)
        ensures
            r == self@.len(),
    {
        self.0.len()
    }

    pub fn is_empty(&self) -> (r: bool)
        ensures
            r == (self@.len() == 0),
    {
        self.0.len() == 0
    }

    /// A copy of the block.
    pub fn duplicate(&self) -> (r: PBlock)
        ensures
            r@ == self@,
    {
        let mut words: Vec<SpacedWord> = Vec::new();
        let mut i: usize = 0;
        while i < self.0.len()
            invariant
                i <= self@.len(),
                words@ == self@.subrange(0, i as int),
            decreases self@.len() - i,
        {
            words.push(self.0[i].duplicate());
            i = i + 1;
        }
        PBlock(words)
    }

    /// Whether the block has four words with strictly increasing names.
    pub fn is_well_formed(&self) -> (r: bool)
        ensures
            r == self.wf(),
    {
        if self.0.len() != 4 {
            return false;
        }
        let mut i: usize = 1;
        while i < 4
            invariant
                1 <= i <= 4,
                self@.len() == 4,
                forall|a: int, b: int|
                    0 <= a < b < i ==> name_lt(
                        #[trigger] self@[a].name_of(),
                        #[trigger] self@[b].name_of(),
                    ),
            decreases 4 - i,
        {
            if !str_lt(self.0[i - 1].name_str(), self.0[i].name_str()) {
                return false;
            }
            proof {
                assert forall|a: int, b: int| 0 <= a < b < i + 1 implies name_lt(
                    #[trigger] self@[a].name_of(),
                    #[trigger] self@[b].name_of(),
                ) by {
                    if b == i && a < i - 1 {
                        crate::names::lemma_bytes_lt_transitive(
                            vstd::utf8::encode_utf8(self@[a].name_of()),
                            vstd::utf8::encode_utf8(self@[i - 1].name_of()),
                            vstd::utf8::encode_utf8(self@[b].name_of()),
                        );
                    }
                }
            }
            i = i + 1;
        }
        true
    }
}

} // verus!
