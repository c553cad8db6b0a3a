//! The search for a companion block: bisection over the first species'
//! candidate words, each probe confirmed by a unique fingerprint in every other
//! species' sorted candidate list.

use vstd::prelude::*;
use vstd::string::*;
use crate::order::{
    find_unique, is_perm, lemma_unique_word_at, lemma_unique_word_perm, sort_by_fingerprint,
    sorted_by_fingerprint, unique_at, unique_word,
};
use crate::pblock::{PBlock, spec_strong_pair};
use crate::qtree::{abs_gaps, all_distinct, block_gaps, classify_gaps, pair_topology, Topology};
use crate::sequence::Sequence;
use crate::spaced_word::SpacedWord;
use crate::store::SequenceStore;
use crate::names::strictly_sorted_by_name;

verus! {

/// `x` held to the range of `i64`.
pub open spec fn clamp_i64(x: int) -> int {
    if x > i64::MAX {
        i64::MAX as int
    } else if x < i64::MIN {
        i64::MIN as int
    } else {
        x
    }
}

/// The candidate words for the seed word `w` in its sequence `seq`: the window
/// `[p, p + range)` after the seed, on the strand the seed lies on (`p` is the
/// seed's offset on that strand).
pub open spec fn candidate_words(w: SpacedWord, seq: Sequence, pattern: Seq<u8>, range: int) -> Seq<
    SpacedWord,
> {
    if w.rev_comp {
        seq.spec_spaced_words(
            pattern,
            clamp_i64(-w.position),
            clamp_i64(-w.position + range),
            true,
        )
    } else {
        seq.spec_spaced_words(pattern, w.position as int, clamp_i64(w.position + range), false)
    }
}

/// The candidate block at index `at` of the first list: the probe word and, for
/// every other species, the one word of its list with the same fingerprint;
/// `None` when some list has no such word or more than one.
pub open spec fn probe(lists: Seq<Seq<SpacedWord>>, at: int) -> Option<Seq<SpacedWord>> {
    let w = lists[0][at];
    match w.match_positions {
        None => None,
        Some(fp) => match (
            unique_word(lists[1], fp),
            unique_word(lists[2], fp),
            unique_word(lists[3], fp),
        ) {
            (Some(a), Some(b), Some(c)) => Some(seq![w, a, b, c]),
            _ => None,
        },
    }
}

/// A candidate the search accepts: it resolves a topology with the seed, and
/// when `strict` the pair is strong as well.
pub open spec fn accepted(seed: Seq<SpacedWord>, cand: Seq<SpacedWord>, strict: bool) -> bool {
    &&& pair_topology(seed, cand) is Resolved
    &&& (strict ==> spec_strong_pair(seed, cand))
}

/// The bisection over the probe interval `[min, max)`, probing at `at`.
/// A probe without a candidate moves on to the next index; a rejected
/// candidate whose four gap sizes all differ sends the search to the lower
/// half, any other to the upper half. The search ends with no match once the
/// interval holds at most one index, or the probe leaves it.
pub open spec fn run_search(
    seed: Seq<SpacedWord>,
    lists: Seq<Seq<SpacedWord>>,
    strict: bool,
    min: int,
    max: int,
    at: int,
) -> Option<Seq<SpacedWord>>
    decreases max - min, max - at,
{
    if max - min <= 1 || at >= max || at < min || at >= lists[0].len() {
        None
    } else {
        match probe(lists, at) {
            None => run_search(seed, lists, strict, min, max, at + 1),
            Some(cand) => {
                if accepted(seed, cand, strict) {
                    Some(cand)
                } else if all_distinct(abs_gaps(seed, cand)) {
                    run_search(seed, lists, strict, min, at, (min + at) / 2)
                } else {
                    run_search(seed, lists, strict, at, max, (at + max) / 2)
                }
            },
        }
    }
}

/// The search over complete candidate lists.
pub open spec fn search_lists(seed: Seq<SpacedWord>, lists: Seq<Seq<SpacedWord>>, strict: bool) -> Option<
    Seq<SpacedWord>,
> {
    run_search(seed, lists, strict, 0, lists[0].len() as int, lists[0].len() as int / 2)
}

/// The companion block `find_matching_block` returns for `seed`.
pub open spec fn matching_block(
    seed: Seq<SpacedWord>,
    store: SequenceStore,
    pattern: Seq<u8>,
    range: int,
    strict: bool,
) -> Option<Seq<SpacedWord>> {
    if range < 0 || seed.len() != 4 || !strictly_sorted_by_name(seed) {
        None
    } else {
        match (
            store.lookup(seed[0].seq_name@),
            store.lookup(seed[1].seq_name@),
            store.lookup(seed[2].seq_name@),
            store.lookup(seed[3].seq_name@),
        ) {
            (Some(s0), Some(s1), Some(s2), Some(s3)) => search_lists(
                seed,
                seq![
                    candidate_words(seed[0], s0, pattern, range),
                    candidate_words(seed[1], s1, pattern, range),
                    candidate_words(seed[2], s2, pattern, range),
                    candidate_words(seed[3], s3, pattern, range),
                ],
                strict,
            ),
            _ => None,
        }
    }
}

/// Whatever the search returns is a four-word block it accepts.
pub proof fn lemma_run_search_accepted(
    seed: Seq<SpacedWord>,
    lists: Seq<Seq<SpacedWord>>,
    strict: bool,
    min: int,
    max: int,
    at: int,
)
    ensures
        run_search(seed, lists, strict, min, max, at) matches Some(b) ==> b.len() == 4 && accepted(
            seed,
            b,
            strict,
        ),
    decreases max - min, max - at,
{
    if max - min <= 1 || at >= max || at < min || at >= lists[0].len() {
    } else {
        match probe(lists, at) {
            None => lemma_run_search_accepted(seed, lists, strict, min, max, at + 1),
            Some(cand) => {
                if accepted(seed, cand, strict) {
                } else if all_distinct(abs_gaps(seed, cand)) {
                    lemma_run_search_accepted(seed, lists, strict, min, at, (min + at) / 2);
                } else {
                    lemma_run_search_accepted(seed, lists, strict, at, max, (at + max) / 2);
                }
            },
        }
    }
}

/// With no candidate at any probe, the search finds nothing.
proof fn lemma_run_search_no_probe(
    seed: Seq<SpacedWord>,
    lists: Seq<Seq<SpacedWord>>,
    strict: bool,
    min: int,
    max: int,
    at: int,
)
    requires
        0 <= min,
        forall|i: int| 0 <= i < lists[0].len() ==> #[trigger] probe(lists, i) is None,
    ensures
        run_search(seed, lists, strict, min, max, at) is None,
    decreases max - min, max - at,
{
    if max - min <= 1 || at >= max || at < min || at >= lists[0].len() {
    } else {
        assert(probe(lists, at) is None);
        lemma_run_search_no_probe(seed, lists, strict, min, max, at + 1);
    }
}

/// A species with no candidate word in its window, or with no sequence in the
/// store, leaves the search without a match.
pub proof fn lemma_empty_window_no_match(
    seed: Seq<SpacedWord>,
    store: SequenceStore,
    pattern: Seq<u8>,
    range: int,
    strict: bool,
    i: int,
)
    requires
        0 <= i < seed.len(),
        match store.lookup(seed[i].seq_name@) {
            None => true,
            Some(s) => candidate_words(seed[i], s, pattern, range).len() == 0,
        },
    ensures
        matching_block(seed, store, pattern, range, strict) is None,
{
    if range < 0 || seed.len() != 4 || !strictly_sorted_by_name(seed) {
    } else {
        match (
            store.lookup(seed[0].seq_name@),
            store.lookup(seed[1].seq_name@),
            store.lookup(seed[2].seq_name@),
            store.lookup(seed[3].seq_name@),
        ) {
            (Some(s0), Some(s1), Some(s2), Some(s3)) => {
                let lists = seq![
                    candidate_words(seed[0], s0, pattern, range),
                    candidate_words(seed[1], s1, pattern, range),
                    candidate_words(seed[2], s2, pattern, range),
                    candidate_words(seed[3], s3, pattern, range),
                ];
                assert(lists[i].len() == 0);
                if i > 0 {
                    assert forall|k: int| 0 <= k < lists[0].len() implies #[trigger] probe(lists, k)
                        is None by {
                        match lists[0][k].match_positions {
                            None => {},
                            Some(fp) => {
                                assert(!(exists|j: int| unique_at(lists[i], j, fp)));
                            },
                        }
                    }
                    lemma_run_search_no_probe(
                        seed,
                        lists,
                        strict,
                        0,
                        lists[0].len() as int,
                        lists[0].len() as int / 2,
                    );
                }
            },
            _ => {},
        }
    }
}

/// Two sets of lists that give the same candidate at every probe give the same
/// search.
proof fn lemma_run_search_same_probes(
    seed: Seq<SpacedWord>,
    a: Seq<Seq<SpacedWord>>,
    b: Seq<Seq<SpacedWord>>,
    strict: bool,
    min: int,
    max: int,
    at: int,
)
    requires
        0 <= min,
        a[0] == b[0],
        forall|i: int| 0 <= i < a[0].len() ==> #[trigger] probe(a, i) == probe(b, i),
    ensures
        run_search(seed, a, strict, min, max, at) == run_search(seed, b, strict, min, max, at),
    decreases max - min, max - at,
{
    if max - min <= 1 || at >= max || at < min || at >= a[0].len() {
    } else {
        assert(probe(a, at) == probe(b, at));
        match probe(a, at) {
            None => lemma_run_search_same_probes(seed, a, b, strict, min, max, at + 1),
            Some(cand) => {
                if accepted(seed, cand, strict) {
                } else if all_distinct(abs_gaps(seed, cand)) {
                    lemma_run_search_same_probes(seed, a, b, strict, min, at, (min + at) / 2);
                } else {
                    lemma_run_search_same_probes(seed, a, b, strict, at, max, (at + max) / 2);
                }
            },
        }
    }
}

/// The candidate at index `at` (see `probe`), found by binary search in the
/// sorted lists.
fn probe_at(
    first: &Vec<SpacedWord>,
    l1: &Vec<SpacedWord>,
    l2: &Vec<SpacedWord>,
    l3: &Vec<SpacedWord>,
    at: usize,
) -> (r: Option<PBlock>)
    requires
        at < first@.len(),
        sorted_by_fingerprint(l1@),
        sorted_by_fingerprint(l2@),
        sorted_by_fingerprint(l3@),
    ensures
        match r {
            Some(b) => probe(seq![first@, l1@, l2@, l3@], at as int) == Some(b@),
            None => probe(seq![first@, l1@, l2@, l3@], at as int) is None,
        },
{
    let ghost lists = seq![first@, l1@, l2@, l3@];
    let w = &first[at];
    let fp = match w.match_positions {
        None => return None,
        Some(fp) => fp,
    };
    let i1 = match find_unique(l1, fp) {
        None => {
            proof {
                assert(!(exists|i: int| unique_at(l1@, i, fp)));
            }
            return None;
        },
        Some(i) => i,
    };
    let i2 = match find_unique(l2, fp) {
        None => {
            proof {
                assert(!(exists|i: int| unique_at(l2@, i, fp)));
            }
            return None;
        },
        Some(i) => i,
    };
    let i3 = match find_unique(l3, fp) {
        None => {
            proof {
                assert(!(exists|i: int| unique_at(l3@, i, fp)));
            }
            return None;
        },
        Some(i) => i,
    };
    proof {
        lemma_unique_word_at(l1@, i1 as int, fp);
        lemma_unique_word_at(l2@, i2 as int, fp);
        lemma_unique_word_at(l3@, i3 as int, fp);
    }
    let mut words: Vec<SpacedWord> = Vec::new();
    words.push(w.duplicate());
    words.push(l1[i1].duplicate());
    words.push(l2[i2].duplicate());
    words.push(l3[i3].duplicate());
    assert(words@ =~= seq![first@[at as int], l1@[i1 as int], l2@[i2 as int], l3@[i3 as int]]);
    Some(PBlock(words))
}

/// Whether the search accepts `cand` for `seed` (see `accepted`).
fn accepts(seed: &PBlock, cand: &PBlock, strict: bool) -> (r: (bool, bool))
    requires
        seed@.len() == 4,
        cand@.len() == 4,
    ensures
        r.0 == accepted(seed@, cand@, strict),
        r.1 == all_distinct(abs_gaps(seed@, cand@)),
{
    let g = block_gaps(seed, cand);
    let resolved = match classify_gaps(g) {
        Topology::Unresolved => false,
        Topology::Resolved { .. } => true,
    };
    let distinct = g[0] != g[1] && g[0] != g[2] && g[0] != g[3] && g[1] != g[2] && g[1] != g[3]
        && g[2] != g[3];
    let ok = resolved && (!strict || PBlock::strong_pair(seed, cand));
    (ok, distinct)
}

/// A state of the bisection search.
pub enum SearchState {
    /// Probing index `at` of the interval `[min, max)` of the first list.
    Probe { min: usize, max: usize, at: usize },
    /// The candidate the search accepted.
    Accepted(PBlock),
    /// The search ended without a match.
    Exhausted,
}

impl SearchState {
    /// Where the search ends from this state.
    pub open spec fn outcome(
        &self,
        seed: Seq<SpacedWord>,
        lists: Seq<Seq<SpacedWord>>,
        strict: bool,
    ) -> Option<Seq<SpacedWord>> {
        match self {
            SearchState::Probe { min, max, at } => run_search(
                seed,
                lists,
                strict,
                *min as int,
                *max as int,
                *at as int,
            ),
            SearchState::Accepted(b) => Some(b@),
            SearchState::Exhausted => None,
        }
    }
}

/// One step of the search (see `run_search`) from probing index `at` of
/// `[min, max)`: the probe word's fingerprint is confirmed in every other
/// list; a confirmed candidate is accepted, or narrows the interval; an
/// unconfirmed probe moves to the next index. The step leads to the same end
/// as the state it started from, and the next probe state is closer to the end.
pub fn search_step(
    seed: &PBlock,
    first: &Vec<SpacedWord>,
    l1: &Vec<SpacedWord>,
    l2: &Vec<SpacedWord>,
    l3: &Vec<SpacedWord>,
    strict: bool,
    min: usize,
    max: usize,
    at: usize,
) -> (r: SearchState)
    requires
        seed@.len() == 4,
        sorted_by_fingerprint(l1@),
        sorted_by_fingerprint(l2@),
        sorted_by_fingerprint(l3@),
        min <= at <= max,
        min <= max <= first@.len(),
    ensures
        r.outcome(seed@, seq![first@, l1@, l2@, l3@], strict) == run_search(
            seed@,
            seq![first@, l1@, l2@, l3@],
            strict,
            min as int,
            max as int,
            at as int,
        ),
        r matches SearchState::Probe { min: m, max: x, at: a } ==> {
            &&& m <= a <= x
            &&& m <= x <= first@.len()
            &&& (x - m < max - min || (x - m == max - min && x - a < max - at))
        },
{
    if max - min <= 1 || at >= max {
        return SearchState::Exhausted;
    }
    match probe_at(first, l1, l2, l3, at) {
        None => SearchState::Probe { min, max, at: at + 1 },
        Some(cand) => {
            let (ok, distinct) = accepts(seed, &cand, strict);
            if ok {
                SearchState::Accepted(cand)
            } else if distinct {
                SearchState::Probe { min, max: at, at: min + (at - min) / 2 }
            } else {
                SearchState::Probe { min: at, max, at: at + (max - at) / 2 }
            }
        },
    }
}

/// Runs the bisection search (see `run_search`) over a probe list and three
/// lists sorted by fingerprint, step by step from the middle of the probe list.
pub fn search_sorted(
    seed: &PBlock,
    first: &Vec<SpacedWord>,
    l1: &Vec<SpacedWord>,
    l2: &Vec<SpacedWord>,
    l3: &Vec<SpacedWord>,
    strict: bool,
) -> (r: Option<PBlock>)
    requires
        seed@.len() == 4,
        sorted_by_fingerprint(l1@),
        sorted_by_fingerprint(l2@),
        sorted_by_fingerprint(l3@),
    ensures
        match r {
            Some(b) => search_lists(seed@, seq![first@, l1@, l2@, l3@], strict) == Some(b@),
            None => search_lists(seed@, seq![first@, l1@, l2@, l3@], strict) is None,
        },
{
    let ghost lists = seq![first@, l1@, l2@, l3@];
    let ghost target = search_lists(seed@, lists, strict);
    let mut min: usize = 0;
    let mut max: usize = first.len();
    let mut at: usize = max / 2;
    loop
        invariant
            min <= max <= first@.len(),
            min <= at <= max,
            seed@.len() == 4,
            sorted_by_fingerprint(l1@),
            sorted_by_fingerprint(l2@),
            sorted_by_fingerprint(l3@),
            lists == seq![first@, l1@, l2@, l3@],
            target == search_lists(seed@, lists, strict),
            run_search(seed@, lists, strict, min as int, max as int, at as int) == target,
        decreases max - min, max - at,
    {
        match search_step(seed, first, l1, l2, l3, strict, min, max, at) {
            SearchState::Probe { min: m, max: x, at: a } => {
                min = m;
                max = x;
                at = a;
            },
            SearchState::Accepted(b) => return Some(b),
            SearchState::Exhausted => return None,
        }
    }
}

/// `x` held to the range of `i64`.
fn clamp(x: i128) -> (r: i64)
    ensures
        r == clamp_i64(x as int),
{
    if x > i64::MAX as i128 {
        i64::MAX
    } else if x < i64::MIN as i128 {
        i64::MIN
    } else {
        x as i64
    }
}

/// The candidate words for the seed word `w` (see `candidate_words`).
fn candidates(w: &SpacedWord, seq: &Sequence, pattern: &str, range: i64) -> (r: Vec<SpacedWord>)
    requires
        range >= 0,
    ensures
        r@ == candidate_words(*w, *seq, pattern.spec_bytes(), range as int),
{
    let p: i128 = w.position as i128;
    if w.rev_comp {
        seq.spaced_words(pattern, clamp(-p), clamp(-p + range as i128), true)
    } else {
        seq.spaced_words(pattern, w.position, clamp(p + range as i128), false)
    }
}

impl PBlock {
    /// Searches the window of `range` offsets after each seed word for a
    /// companion block: the candidate words of the first species are probed by
    /// bisection (see `run_search`), and the first candidate that resolves a
    /// topology with the seed (and, with `strong_only`, forms a strong pair with
    /// it) is returned. `None` when the seed is not four words with strictly
    /// increasing names, when a species is missing from `sequences`, when
    /// `range` is negative, or when no probe is accepted.
    pub fn find_matching_block(
        block: &PBlock,
        sequences: &SequenceStore,
        pattern: &str,
        range: i64,
        strong_only: bool,
    ) -> (r: Option<PBlock>)
        ensures
            match r {
                Some(b) => matching_block(
                    block@,
                    *sequences,
                    pattern.spec_bytes(),
                    range as int,
                    strong_only,
                ) == Some(b@),
                None => matching_block(
                    block@,
                    *sequences,
                    pattern.spec_bytes(),
                    range as int,
                    strong_only,
                ) is None,
            },
            r matches Some(b) ==> b@.len() == 4 && pair_topology(block@, b@) is Resolved && (
            strong_only ==> spec_strong_pair(block@, b@)),
    {
        if range < 0 || !block.is_well_formed() {
            return None;
        }
        let s0 = match sequences.get(&block.0[0].seq_name) {
            None => return None,
            Some(s) => s,
        };
        let s1 = match sequences.get(&block.0[1].seq_name) {
            None => return None,
            Some(s) => s,
        };
        let s2 = match sequences.get(&block.0[2].seq_name) {
            None => return None,
            Some(s) => s,
        };
        let s3 = match sequences.get(&block.0[3].seq_name) {
            None => return None,
            Some(s) => s,
        };
        let first = candidates(&block.0[0], s0, pattern, range);
        let ghost lists = seq![
            first@,
            candidate_words(block@[1], *s1, pattern.spec_bytes(), range as int),
            candidate_words(block@[2], *s2, pattern.spec_bytes(), range as int),
            candidate_words(block@[3], *s3, pattern.spec_bytes(), range as int),
        ];
        if first.len() == 0 {
            return None;
        }
        let l1 = sort_by_fingerprint(candidates(&block.0[1], s1, pattern, range));
        let l2 = sort_by_fingerprint(candidates(&block.0[2], s2, pattern, range));
        let l3 = sort_by_fingerprint(candidates(&block.0[3], s3, pattern, range));
        let ghost sorted_lists = seq![first@, l1@, l2@, l3@];
        proof {
            assert forall|i: int| 0 <= i < first@.len() implies #[trigger] probe(sorted_lists, i)
                == probe(lists, i) by {
                match first@[i].match_positions {
                    None => {},
                    Some(fp) => {
                        lemma_unique_word_perm(l1@, lists[1], fp);
                        lemma_unique_word_perm(l2@, lists[2], fp);
                        lemma_unique_word_perm(l3@, lists[3], fp);
                    },
                }
            }
            lemma_run_search_same_probes(
                block@,
                sorted_lists,
                lists,
                strong_only,
                0,
                first@.len() as int,
                first@.len() as int / 2,
            );
        }
        let r = search_sorted(block, &first, &l1, &l2, &l3, strong_only);
        proof {
            lemma_run_search_accepted(
                block@,
                lists,
                strong_only,
                0,
                first@.len() as int,
                first@.len() as int / 2,
            );
        }
        r
    }
}

/// The candidate words around the seed word `w`: the symmetric window
/// `[p - range, p + range)` on the strand the seed lies on.
pub open spec fn window_words(w: SpacedWord, seq: Sequence, pattern: Seq<u8>, range: int) -> Seq<
    SpacedWord,
> {
    if w.rev_comp {
        seq.spec_spaced_words(
            pattern,
            clamp_i64(-w.position - range),
            clamp_i64(-w.position + range),
            true,
        )
    } else {
        seq.spec_spaced_words(
            pattern,
            clamp_i64(w.position - range),
            clamp_i64(w.position + range),
            false,
        )
    }
}

/// The candidates of the first `n` words of the first list, in order.
pub open spec fn all_matches(lists: Seq<Seq<SpacedWord>>, n: int) -> Seq<Seq<SpacedWord>>
    decreases n,
{
    if n <= 0 {
        Seq::empty()
    } else {
        match probe(lists, n - 1) {
            None => all_matches(lists, n - 1),
            Some(b) => all_matches(lists, n - 1).push(b),
        }
    }
}

/// The candidate words around the seed word `w` (see `window_words`).
fn window_candidates(w: &SpacedWord, seq: &Sequence, pattern: &str, range: i64) -> (r: Vec<SpacedWord>)
    requires
        range >= 0,
    ensures
        r@ == window_words(*w, *seq, pattern.spec_bytes(), range as int),
{
    let p: i128 = w.position as i128;
    let r: i128 = range as i128;
    if w.rev_comp {
        seq.spaced_words(pattern, clamp(-p - r), clamp(-p + r), true)
    } else {
        seq.spaced_words(pattern, clamp(p - r), clamp(p + r), false)
    }
}

impl PBlock {
    /// Every companion block in the window `range` offsets around each seed
    /// word: for each word of the first species' candidates, sorted by
    /// fingerprint, the words of the other species with that fingerprint, when
    /// each occurs once. Empty when the seed is not four words with strictly
    /// increasing names, when a species is missing from `sequences`, or when
    /// `range` is negative.
    pub fn find_matching_pblocks(
        block: &PBlock,
        sequences: &SequenceStore,
        pattern: &str,
        range: i64,
    ) -> (r: Vec<PBlock>)
        ensures
            (range < 0 || !block.wf()) ==> r@.len() == 0,
            block.wf() && range >= 0 ==> match (
                sequences.lookup(block@[0].seq_name@),
                sequences.lookup(block@[1].seq_name@),
                sequences.lookup(block@[2].seq_name@),
                sequences.lookup(block@[3].seq_name@),
            ) {
                (Some(s0), Some(s1), Some(s2), Some(s3)) => exists|first: Seq<SpacedWord>|
                    {
                        let lists = seq![
                            first,
                            window_words(block@[1], s1, pattern.spec_bytes(), range as int),
                            window_words(block@[2], s2, pattern.spec_bytes(), range as int),
                            window_words(block@[3], s3, pattern.spec_bytes(), range as int),
                        ];
                        &&& is_perm(
                            first,
                            window_words(block@[0], s0, pattern.spec_bytes(), range as int),
                        )
                        &&& #[trigger] sorted_by_fingerprint(first)
                        &&& r@.map_values(|b: PBlock| b@) == all_matches(lists, first.len() as int)
                    },
                _ => r@.len() == 0,
            },
    {
        let mut result: Vec<PBlock> = Vec::new();
        if range < 0 || !block.is_well_formed() {
            return result;
        }
        let s0 = match sequences.get(&block.0[0].seq_name) {
            None => return result,
            Some(s) => s,
        };
        let s1 = match sequences.get(&block.0[1].seq_name) {
            None => return result,
            Some(s) => s,
        };
        let s2 = match sequences.get(&block.0[2].seq_name) {
            None => return result,
            Some(s) => s,
        };
        let s3 = match sequences.get(&block.0[3].seq_name) {
            None => return result,
            Some(s) => s,
        };
        let first = sort_by_fingerprint(window_candidates(&block.0[0], s0, pattern, range));
        let ghost lists = seq![
            first@,
            window_words(block@[1], *s1, pattern.spec_bytes(), range as int),
            window_words(block@[2], *s2, pattern.spec_bytes(), range as int),
            window_words(block@[3], *s3, pattern.spec_bytes(), range as int),
        ];
        let l1 = sort_by_fingerprint(window_candidates(&block.0[1], s1, pattern, range));
        let l2 = sort_by_fingerprint(window_candidates(&block.0[2], s2, pattern, range));
        let l3 = sort_by_fingerprint(window_candidates(&block.0[3], s3, pattern, range));
        let ghost sorted_lists = seq![first@, l1@, l2@, l3@];
        let mut i: usize = 0;
        while i < first.len()
            invariant
                i <= first@.len(),
                sorted_by_fingerprint(l1@),
                sorted_by_fingerprint(l2@),
                sorted_by_fingerprint(l3@),
                is_perm(l1@, lists[1]),
                is_perm(l2@, lists[2]),
                is_perm(l3@, lists[3]),
                lists[0] == first@,
                sorted_lists == seq![first@, l1@, l2@, l3@],
                result@.map_values(|b: PBlock| b@) == all_matches(lists, i as int),
            decreases first@.len() - i,
        {
            proof {
                match first@[i as int].match_positions {
                    None => {},
                    Some(fp) => {
                        lemma_unique_word_perm(l1@, lists[1], fp);
                        lemma_unique_word_perm(l2@, lists[2], fp);
                        lemma_unique_word_perm(l3@, lists[3], fp);
                    },
                }
                assert(probe(sorted_lists, i as int) == probe(lists, i as int));
            }
            match probe_at(&first, &l1, &l2, &l3, i) {
                None => {},
                Some(b) => {
                    let ghost before = result@;
                    result.push(b);
                    assert(result@.map_values(|b: PBlock| b@) =~= before.map_values(
                        |b: PBlock| b@,
                    ).push(b@));
                },
            }
            i = i + 1;
        }
        result
    }
}

} // verus!
