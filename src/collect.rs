//! The seed-driven search: every seed block that has no partner among the
//! input blocks is handed to the matcher, shard by shard, and the pairs found
//! are merged.

use vstd::prelude::*;
use vstd::string::*;
use vstd::seq_lib::{lemma_multiset_commutative, to_multiset_contains, to_multiset_len, to_multiset_remove};
use crate::pblock::PBlock;
use crate::search::matching_block;
use crate::spaced_word::SpacedWord;
use crate::stats::pair_views;
use crate::store::SequenceStore;

verus! {

/// A block's words, for each block.
pub open spec fn block_views(blocks: Seq<PBlock>) -> Seq<Seq<SpacedWord>> {
    blocks.map_values(|b: PBlock| b@)
}

/// The pair a seed contributes: the seed and its companion, or nothing.
#[verifier::opaque]
pub open spec fn seed_pair(
    seed: Seq<SpacedWord>,
    store: SequenceStore,
    pattern: Seq<u8>,
    range: int,
    strict: bool,
) -> Seq<(Seq<SpacedWord>, Seq<SpacedWord>)> {
    match matching_block(seed, store, pattern, range, strict) {
        None => Seq::empty(),
        Some(b) => seq![(seed, b)],
    }
}

/// The pairs the search finds for `seeds`, in seed order.
pub open spec fn seed_pairs(
    seeds: Seq<Seq<SpacedWord>>,
    store: SequenceStore,
    pattern: Seq<u8>,
    range: int,
    strict: bool,
) -> Seq<(Seq<SpacedWord>, Seq<SpacedWord>)>
    decreases seeds.len(),
{
    if seeds.len() == 0 {
        Seq::empty()
    } else {
        seed_pairs(seeds.drop_last(), store, pattern, range, strict) + seed_pair(
            seeds.last(),
            store,
            pattern,
            range,
            strict,
        )
    }
}

/// The search over two runs of seeds is the search over each, one after the other.
pub proof fn lemma_seed_pairs_concat(
    a: Seq<Seq<SpacedWord>>,
    b: Seq<Seq<SpacedWord>>,
    store: SequenceStore,
    pattern: Seq<u8>,
    range: int,
    strict: bool,
)
    ensures
        seed_pairs(a + b, store, pattern, range, strict) == seed_pairs(a, store, pattern, range, strict)
            + seed_pairs(b, store, pattern, range, strict),
    decreases b.len(),
{
    if b.len() == 0 {
        assert(a + b =~= a);
        assert(seed_pairs(a, store, pattern, range, strict) + seed_pairs(b, store, pattern, range, strict)
            =~= seed_pairs(a, store, pattern, range, strict));
    } else {
        lemma_seed_pairs_concat(a, b.drop_last(), store, pattern, range, strict);
        assert((a + b).drop_last() =~= a + b.drop_last());
        assert((a + b).last() == b.last());
        assert(seed_pairs(a + b, store, pattern, range, strict) =~= seed_pairs(a, store, pattern, range, strict)
            + seed_pairs(b, store, pattern, range, strict));
    }
}

/// Taking seed `k` out of `b` takes its pair out of the pairs found.
proof fn lemma_seed_pairs_remove(
    b: Seq<Seq<SpacedWord>>,
    k: int,
    store: SequenceStore,
    pattern: Seq<u8>,
    range: int,
    strict: bool,
)
    requires
        0 <= k < b.len(),
    ensures
        seed_pairs(b, store, pattern, range, strict).to_multiset() == seed_pairs(
            b.remove(k),
            store,
            pattern,
            range,
            strict,
        ).to_multiset().add(seed_pair(b[k], store, pattern, range, strict).to_multiset()),
{
    let x = b[k];
    let b0 = b.subrange(0, k);
    let b2 = b.subrange(k + 1, b.len() as int);
    assert(b =~= b0 + seq![x] + b2);
    assert(b.remove(k) =~= b0 + b2);
    lemma_seed_pairs_concat(b0, seq![x], store, pattern, range, strict);
    lemma_seed_pairs_concat(b0 + seq![x], b2, store, pattern, range, strict);
    lemma_seed_pairs_concat(b0, b2, store, pattern, range, strict);
    assert(seq![x].drop_last() =~= Seq::<Seq<SpacedWord>>::empty());
    let g = seed_pair(x, store, pattern, range, strict);
    let e = Seq::<Seq<SpacedWord>>::empty();
    assert(seq![x].last() == x);
    assert(seed_pairs(e, store, pattern, range, strict) == Seq::<(Seq<SpacedWord>, Seq<SpacedWord>)>::empty());
    assert(seed_pairs(seq![x], store, pattern, range, strict) == seed_pairs(e, store, pattern, range, strict) + g);
    assert(Seq::<(Seq<SpacedWord>, Seq<SpacedWord>)>::empty() + g =~= g);
    let p0 = seed_pairs(b0, store, pattern, range, strict);
    let p2 = seed_pairs(b2, store, pattern, range, strict);
    lemma_multiset_commutative(p0 + g, p2);
    lemma_multiset_commutative(p0, g);
    lemma_multiset_commutative(p0, p2);
    let m0 = p0.to_multiset();
    let mg = g.to_multiset();
    let m2 = p2.to_multiset();
    assert(m0.add(mg).add(m2) =~= m0.add(m2).add(mg)) by {
        broadcast use vstd::multiset::group_multiset_axioms;
    }
}

/// Seeds that are a rearrangement of each other give the same pairs, counted
/// with multiplicity.
pub proof fn lemma_seed_pairs_rearranged(
    a: Seq<Seq<SpacedWord>>,
    b: Seq<Seq<SpacedWord>>,
    store: SequenceStore,
    pattern: Seq<u8>,
    range: int,
    strict: bool,
)
    requires
        a.to_multiset() == b.to_multiset(),
    ensures
        seed_pairs(a, store, pattern, range, strict).to_multiset() == seed_pairs(
            b,
            store,
            pattern,
            range,
            strict,
        ).to_multiset(),
    decreases a.len(),
{
    to_multiset_len(a);
    to_multiset_len(b);
    if a.len() == 0 {
        assert(b =~= Seq::<Seq<SpacedWord>>::empty());
    } else {
        let x = a.last();
        let a1 = a.drop_last();
        to_multiset_contains(a, x);
        assert(a.contains(x)) by {
            assert(a[a.len() - 1] == x);
        }
        to_multiset_contains(b, x);
        let k = choose|k: int| 0 <= k < b.len() && b[k] == x;
        to_multiset_remove(a, a.len() - 1);
        to_multiset_remove(b, k);
        assert(a.remove(a.len() - 1) =~= a1);
        lemma_seed_pairs_rearranged(a1, b.remove(k), store, pattern, range, strict);
        lemma_seed_pairs_remove(a, a.len() - 1, store, pattern, range, strict);
        lemma_seed_pairs_remove(b, k, store, pattern, range, strict);
    }
}

/// The search over a list of shards, one after the other.
pub open spec fn shard_pairs(
    shards: Seq<Seq<Seq<SpacedWord>>>,
    store: SequenceStore,
    pattern: Seq<u8>,
    range: int,
    strict: bool,
) -> Seq<(Seq<SpacedWord>, Seq<SpacedWord>)> {
    shards.map_values(|s: Seq<Seq<SpacedWord>>| seed_pairs(s, store, pattern, range, strict)).flatten()
}

proof fn lemma_shard_pairs_flatten(
    shards: Seq<Seq<Seq<SpacedWord>>>,
    store: SequenceStore,
    pattern: Seq<u8>,
    range: int,
    strict: bool,
)
    ensures
        shard_pairs(shards, store, pattern, range, strict) == seed_pairs(
            shards.flatten(),
            store,
            pattern,
            range,
            strict,
        ),
    decreases shards.len(),
{
    if shards.len() == 0 {
        assert(shard_pairs(shards, store, pattern, range, strict) =~= Seq::empty());
    } else {
        let f = |s: Seq<Seq<SpacedWord>>| seed_pairs(s, store, pattern, range, strict);
        lemma_shard_pairs_flatten(shards.drop_first(), store, pattern, range, strict);
        assert(shards.map_values(f).drop_first() =~= shards.drop_first().map_values(f));
        lemma_seed_pairs_concat(shards.first(), shards.drop_first().flatten(), store, pattern, range, strict);
    }
}

/// However the seeds are cut into shards, whatever the number of workers, and
/// in whatever order the shards' results are merged, the search finds the same
/// pairs, counted with multiplicity.
pub proof fn lemma_shards_find_same_pairs(
    seeds: Seq<Seq<SpacedWord>>,
    shards1: Seq<Seq<Seq<SpacedWord>>>,
    shards2: Seq<Seq<Seq<SpacedWord>>>,
    store: SequenceStore,
    pattern: Seq<u8>,
    range: int,
    strict: bool,
)
    requires
        shards1.flatten().to_multiset() == seeds.to_multiset(),
        shards2.flatten().to_multiset() == seeds.to_multiset(),
    ensures
        shard_pairs(shards1, store, pattern, range, strict).to_multiset() == shard_pairs(
            shards2,
            store,
            pattern,
            range,
            strict,
        ).to_multiset(),
{
    lemma_shard_pairs_flatten(shards1, store, pattern, range, strict);
    lemma_shard_pairs_flatten(shards2, store, pattern, range, strict);
    lemma_seed_pairs_rearranged(shards1.flatten(), shards2.flatten(), store, pattern, range, strict);
}

/// Runs the search for each seed, in order: one worker's share.
pub fn search_seeds(
    seeds: &[PBlock],
    sequences: &SequenceStore,
    pattern: &str,
    range: i64,
    strong_only: bool,
) -> (r: Vec<(PBlock, PBlock)>)
    ensures
        pair_views(r@) == seed_pairs(
            block_views(seeds@),
            *sequences,
            pattern.spec_bytes(),
            range as int,
            strong_only,
        ),
{
    let ghost views = block_views(seeds@);
    let mut result: Vec<(PBlock, PBlock)> = Vec::new();
    let mut i: usize = 0;
    while i < seeds.len()
        invariant
            i <= seeds@.len(),
            views == block_views(seeds@),
            pair_views(result@) == seed_pairs(
                views.subrange(0, i as int),
                *sequences,
                pattern.spec_bytes(),
                range as int,
                strong_only,
            ),
        decreases seeds@.len() - i,
    {
        proof {
            reveal(seed_pair);
            assert(views.subrange(0, i + 1).drop_last() =~= views.subrange(0, i as int));
            assert(views.subrange(0, i + 1).last() == seeds@[i as int]@);
        }
        match PBlock::find_matching_block(&seeds[i], sequences, pattern, range, strong_only) {
            None => {
                proof {
                    assert(pair_views(result@) =~= pair_views(result@) + Seq::empty());
                }
            },
            Some(b) => {
                let ghost before = result@;
                result.push((seeds[i].duplicate(), b));
                proof {
                    assert(pair_views(result@) =~= pair_views(before) + seq![(seeds@[i as int]@, b@)]);
                }
            },
        }
        i = i + 1;
    }
    assert(views.subrange(0, seeds@.len() as int) =~= views);
    result
}

/// Runs the search with the seeds cut into `workers` shards of about equal
/// size, and concatenates the shards' pairs: the result does not depend on
/// `workers`.
pub fn search_sharded(
    seeds: &[PBlock],
    sequences: &SequenceStore,
    pattern: &str,
    range: i64,
    strong_only: bool,
    workers: usize,
) -> (r: Vec<(PBlock, PBlock)>)
    requires
        workers > 0,
    ensures
        pair_views(r@) == seed_pairs(
            block_views(seeds@),
            *sequences,
            pattern.spec_bytes(),
            range as int,
            strong_only,
        ),
{
    let ghost views = block_views(seeds@);
    let n = seeds.len();
    let chunk: usize = if workers == 1 || n % workers == 0 {
        n / workers
    } else {
        assert(n / workers < n) by (nonlinear_arith)
            requires
                workers > 1,
                n % workers != 0,
        ;
        n / workers + 1
    };
    let chunk: usize = if chunk == 0 {
        1
    } else {
        chunk
    };
    let mut result: Vec<(PBlock, PBlock)> = Vec::new();
    let mut start: usize = 0;
    assert(pair_views(result@) =~= seed_pairs(
        views.subrange(0, 0),
        *sequences,
        pattern.spec_bytes(),
        range as int,
        strong_only,
    ));
    while start < n
        invariant
            start <= n,
            n == seeds@.len(),
            chunk >= 1,
            views == block_views(seeds@),
            pair_views(result@) == seed_pairs(
                views.subrange(0, start as int),
                *sequences,
                pattern.spec_bytes(),
                range as int,
                strong_only,
            ),
        decreases n - start,
    {
        let end: usize = if n - start < chunk {
            n
        } else {
            start + chunk
        };
        let shard = vstd::slice::slice_subrange(seeds, start, end);
        let mut part = search_seeds(shard, sequences, pattern, range, strong_only);
        let ghost before = result@;
        let ghost part_view = part@;
        result.append(&mut part);
        proof {
            assert(block_views(shard@) =~= views.subrange(start as int, end as int));
            assert(views.subrange(0, end as int) =~= views.subrange(0, start as int) + views.subrange(
                start as int,
                end as int,
            ));
            lemma_seed_pairs_concat(
                views.subrange(0, start as int),
                views.subrange(start as int, end as int),
                *sequences,
                pattern.spec_bytes(),
                range as int,
                strong_only,
            );
            assert(pair_views(result@) =~= pair_views(before) + pair_views(part_view));
        }
        start = end;
    }
    assert(views.subrange(0, n as int) =~= views);
    result
}

} // verus!
