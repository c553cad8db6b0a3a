//! Pairs from blocks over the same species: blocks are grouped by their
//! species, and within a group neighbouring anchors along the first species'
//! genome are paired.

use vstd::prelude::*;
use vstd::seq_lib::{lemma_multiset_commutative, to_multiset_insert};
use vstd::string::*;
use crate::collect::{block_views, search_sharded, seed_pairs};
use crate::stats::pair_views;
use crate::store::SequenceStore;
use crate::order::{is_perm, lemma_perm_insert, perm_witness};
use crate::pblock::{PBlock, names_of, spec_strong_pair};
use crate::qtree::{block_gaps, classify_gaps, pair_topology, Topology};
use crate::spaced_word::SpacedWord;

verus! {

/// Blocks sorted by the position of their first word.
pub open spec fn sorted_by_first_position(s: Seq<Seq<SpacedWord>>) -> bool {
    forall|i: int, j: int|
        0 <= i <= j < s.len() ==> (#[trigger] s[i])[0].position <= (#[trigger] s[j])[0].position
}

/// Consecutive blocks, paired: `(s[0], s[1]), (s[1], s[2]), ...`.
pub open spec fn adjacent_pairs(s: Seq<Seq<SpacedWord>>) -> Seq<(Seq<SpacedWord>, Seq<SpacedWord>)> {
    Seq::new(
        if s.len() == 0 {
            0
        } else {
            (s.len() - 1) as nat
        },
        |i: int| (s[i], s[i + 1]),
    )
}

/// First position of sorted `r` whose first word lies after `pos`.
fn first_after(r: &Vec<PBlock>, pos: i64) -> (k: usize)
    requires
        forall|i: int| 0 <= i < r@.len() ==> (#[trigger] r@[i])@.len() > 0,
        sorted_by_first_position(block_views(r@)),
    ensures
        k <= r@.len(),
        forall|i: int| 0 <= i < k ==> (#[trigger] r@[i])@[0].position <= pos,
        forall|i: int| k <= i < r@.len() ==> (#[trigger] r@[i])@[0].position > pos,
{
    let mut lo: usize = 0;
    let mut hi: usize = r.len();
    while lo < hi
        invariant
            lo <= hi <= r@.len(),
            forall|i: int| 0 <= i < r@.len() ==> (#[trigger] r@[i])@.len() > 0,
            sorted_by_first_position(block_views(r@)),
            forall|i: int| 0 <= i < lo ==> (#[trigger] r@[i])@[0].position <= pos,
            forall|i: int| hi <= i < r@.len() ==> (#[trigger] r@[i])@[0].position > pos,
        decreases hi - lo,
    {
        let mid = lo + (hi - lo) / 2;
        assert(block_views(r@)[mid as int] == r@[mid as int]@);
        if r[mid].0[0].position <= pos {
            proof {
                assert forall|i: int| 0 <= i <= mid implies (#[trigger] r@[i])@[0].position <= pos by {
                    assert(block_views(r@)[i] == r@[i]@);
                }
            }
            lo = mid + 1;
        } else {
            proof {
                assert forall|i: int| mid <= i < r@.len() implies (#[trigger] r@[i])@[0].position > pos by {
                    assert(block_views(r@)[i] == r@[i]@);
                }
            }
            hi = mid;
        }
    }
    lo
}

/// Sorts blocks by the position of their first word: the result is a
/// rearrangement of `v`.
pub fn sort_by_first_position(v: &Vec<PBlock>) -> (r: Vec<PBlock>)
    requires
        forall|i: int| 0 <= i < v@.len() ==> (#[trigger] v@[i])@.len() > 0,
    ensures
        sorted_by_first_position(block_views(r@)),
        is_perm(block_views(r@), block_views(v@)),
        forall|i: int| 0 <= i < r@.len() ==> (#[trigger] r@[i])@.len() > 0,
{
    let ghost vv = block_views(v@);
    let mut r: Vec<PBlock> = Vec::new();
    let ghost mut p: Seq<int> = Seq::empty();
    let mut j: usize = 0;
    assert(perm_witness(p, block_views(r@), vv.subrange(0, 0)));
    while j < v.len()
        invariant
            j <= v@.len(),
            vv == block_views(v@),
            forall|i: int| 0 <= i < v@.len() ==> (#[trigger] v@[i])@.len() > 0,
            forall|i: int| 0 <= i < r@.len() ==> (#[trigger] r@[i])@.len() > 0,
            sorted_by_first_position(block_views(r@)),
            perm_witness(p, block_views(r@), vv.subrange(0, j as int)),
        decreases v@.len() - j,
    {
        let x = v[j].duplicate();
        let pos = first_after(&r, x.0[0].position);
        let ghost old_r = r@;
        proof {
            lemma_perm_insert(p, block_views(r@), vv, j as int, pos as int);
            p = p.insert(pos as int, j as int);
        }
        r.insert(pos, x);
        proof {
            assert(block_views(r@) =~= block_views(old_r).insert(pos as int, vv[j as int]));
            assert forall|a: int, b: int| 0 <= a <= b < r@.len() implies (#[trigger] block_views(r@)[a])[0].position
                <= (#[trigger] block_views(r@)[b])[0].position by {
                let oa = if a < pos { a } else { a - 1 };
                let ob = if b < pos { b } else { b - 1 };
                if a != pos && b != pos {
                    assert(block_views(old_r)[oa] == block_views(r@)[a]);
                    assert(block_views(old_r)[ob] == block_views(r@)[b]);
                }
            }
        }
        j = j + 1;
    }
    assert(vv.subrange(0, v@.len() as int) =~= vv);
    r
}

/// Pairs each block with the next one along the first species' genome: the
/// blocks are sorted by the position of their first word, and every two
/// neighbours make a pair.
pub fn pairs_from_vector(blocks: &Vec<PBlock>) -> (r: Vec<(PBlock, PBlock)>)
    requires
        forall|i: int| 0 <= i < blocks@.len() ==> (#[trigger] blocks@[i])@.len() > 0,
    ensures
        exists|s: Seq<Seq<SpacedWord>>|
            {
                &&& is_perm(s, block_views(blocks@))
                &&& sorted_by_first_position(s)
                &&& crate::stats::pair_views(r@) == adjacent_pairs(s)
            },
{
    let sorted = sort_by_first_position(blocks);
    let ghost s = block_views(sorted@);
    let mut result: Vec<(PBlock, PBlock)> = Vec::new();
    if sorted.len() == 0 {
        assert(adjacent_pairs(s) =~= Seq::empty());
        assert(crate::stats::pair_views(result@) =~= Seq::empty());
        return result;
    }
    let mut i: usize = 1;
    assert(crate::stats::pair_views(result@) =~= adjacent_pairs(s.subrange(0, 1)));
    while i < sorted.len()
        invariant
            1 <= i <= sorted@.len(),
            s == block_views(sorted@),
            crate::stats::pair_views(result@) == adjacent_pairs(s.subrange(0, i as int)),
        decreases sorted@.len() - i,
    {
        let ghost before = result@;
        let a = sorted[i - 1].duplicate();
        let b = sorted[i].duplicate();
        result.push((a, b));
        proof {
            assert(s[i - 1] == sorted@[i - 1]@);
            assert(s[i as int] == sorted@[i as int]@);
            assert(crate::stats::pair_views(result@) =~= crate::stats::pair_views(before).push(
                (s[i - 1], s[i as int]),
            ));
            assert(crate::stats::pair_views(result@) =~= adjacent_pairs(s.subrange(0, i + 1)));
        }
        i = i + 1;
    }
    assert(s.subrange(0, i as int) =~= s);
    result
}



/// Whether two blocks name the same species, in the same order.
pub fn same_species_names(a: &PBlock, b: &PBlock) -> (r: bool)
    ensures
        r == (names_of(a@) == names_of(b@)),
{
    if a.0.len() != b.0.len() {
        assert(names_of(a@).len() != names_of(b@).len());
        return false;
    }
    let mut i: usize = 0;
    while i < a.0.len()
        invariant
            i <= a@.len(),
            a@.len() == b@.len(),
            forall|k: int| 0 <= k < i ==> (#[trigger] a@[k]).seq_name@ == b@[k].seq_name@,
        decreases a@.len() - i,
    {
        if a.0[i].seq_name != b.0[i].seq_name {
            assert(names_of(a@)[i as int] != names_of(b@)[i as int]);
            return false;
        }
        i = i + 1;
    }
    assert(names_of(a@) =~= names_of(b@));
    true
}

/// The blocks of each group.
pub open spec fn group_views(groups: Seq<Vec<PBlock>>) -> Seq<Seq<Seq<SpacedWord>>> {
    groups.map_values(|g: Vec<PBlock>| block_views(g@))
}

/// Groups of blocks: none empty, the blocks of a group over the species of its
/// first block, and no two groups over the same species.
pub open spec fn is_species_partition(groups: Seq<Seq<Seq<SpacedWord>>>) -> bool {
    &&& forall|k: int| 0 <= k < groups.len() ==> (#[trigger] groups[k]).len() > 0
    &&& forall|k: int, i: int|
        0 <= k < groups.len() && 0 <= i < groups[k].len() ==> names_of(#[trigger] groups[k][i])
            == names_of(groups[k][0])
    &&& forall|k: int, l: int|
        0 <= k < groups.len() && 0 <= l < groups.len() && k != l ==> names_of(
            (#[trigger] groups[k])[0],
        ) != names_of((#[trigger] groups[l])[0])
}

pub proof fn lemma_flatten_concat<A>(a: Seq<Seq<A>>, b: Seq<Seq<A>>)
    ensures
        (a + b).flatten() == a.flatten() + b.flatten(),
    decreases a.len(),
{
    if a.len() == 0 {
        assert(a + b =~= b);
        assert(a.flatten() + b.flatten() =~= b.flatten());
    } else {
        lemma_flatten_concat(a.drop_first(), b);
        assert((a + b).drop_first() =~= a.drop_first() + b);
        assert((a + b).flatten() =~= a.first() + (a.drop_first() + b).flatten());
    }
}

proof fn lemma_flatten_single<A>(x: Seq<A>)
    ensures
        seq![x].flatten() == x,
{
    assert(seq![x].drop_first() =~= Seq::<Seq<A>>::empty());
    assert(Seq::<Seq<A>>::empty().flatten() =~= Seq::<A>::empty());
    assert(x + Seq::<A>::empty() =~= x);
}

/// Adding `x` to group `k` adds it to the blocks of all groups.
proof fn lemma_flatten_push_into<A>(g: Seq<Seq<A>>, k: int, x: A)
    requires
        0 <= k < g.len(),
    ensures
        g.update(k, g[k].push(x)).flatten().to_multiset() == g.flatten().to_multiset().insert(x),
{
    let g0 = g.subrange(0, k);
    let g2 = g.subrange(k + 1, g.len() as int);
    let gk = g[k];
    assert(g =~= g0 + seq![gk] + g2);
    assert(g.update(k, gk.push(x)) =~= g0 + seq![gk.push(x)] + g2);
    lemma_flatten_concat(g0 + seq![gk], g2);
    lemma_flatten_concat(g0, seq![gk]);
    lemma_flatten_concat(g0 + seq![gk.push(x)], g2);
    lemma_flatten_concat(g0, seq![gk.push(x)]);
    lemma_flatten_single(gk);
    lemma_flatten_single(gk.push(x));
    let f0 = g0.flatten();
    let f2 = g2.flatten();
    lemma_multiset_commutative(f0 + gk, f2);
    lemma_multiset_commutative(f0, gk);
    lemma_multiset_commutative(f0 + gk.push(x), f2);
    lemma_multiset_commutative(f0, gk.push(x));
    assert(gk.push(x).to_multiset() == gk.to_multiset().insert(x)) by {
        vstd::seq_lib::to_multiset_build(gk, x);
    }
    assert(f0.to_multiset().add(gk.to_multiset().insert(x)).add(f2.to_multiset())
        =~= f0.to_multiset().add(gk.to_multiset()).add(f2.to_multiset()).insert(x)) by {
        broadcast use vstd::multiset::group_multiset_axioms;
    }
}

/// Adding the group `[x]` adds `x` to the blocks of all groups.
proof fn lemma_flatten_push_group<A>(g: Seq<Seq<A>>, x: A)
    ensures
        g.push(seq![x]).flatten().to_multiset() == g.flatten().to_multiset().insert(x),
{
    assert(g.push(seq![x]) =~= g + seq![seq![x]]);
    lemma_flatten_concat(g, seq![seq![x]]);
    lemma_flatten_single(seq![x]);
    assert(g.flatten() + seq![x] =~= g.flatten().push(x));
    vstd::seq_lib::to_multiset_build(g.flatten(), x);
}

/// Groups the blocks by the species they name (see `is_species_partition`);
/// every block lands in exactly one group, and within a group blocks keep
/// their order.
pub fn partition_by_species(blocks: &Vec<PBlock>) -> (r: Vec<Vec<PBlock>>)
    ensures
        is_species_partition(group_views(r@)),
        (forall|i: int| 0 <= i < blocks@.len() ==> (#[trigger] blocks@[i])@.len() > 0) ==> forall|
            k: int,
            i: int,
        | 0 <= k < r@.len() && 0 <= i < r@[k]@.len() ==> (#[trigger] r@[k]@[i])@.len() > 0,
        group_views(r@).flatten().to_multiset() == block_views(blocks@).to_multiset(),
{
    let ghost bv = block_views(blocks@);
    let mut groups: Vec<Vec<PBlock>> = Vec::new();
    let mut j: usize = 0;
    assert(group_views(groups@).flatten() =~= bv.subrange(0, 0));
    while j < blocks.len()
        invariant
            j <= blocks@.len(),
            bv == block_views(blocks@),
            is_species_partition(group_views(groups@)),
            group_views(groups@).flatten().to_multiset() == bv.subrange(0, j as int).to_multiset(),
            (forall|i: int| 0 <= i < blocks@.len() ==> (#[trigger] blocks@[i])@.len() > 0) ==> forall|
                k: int,
                i: int,
            | 0 <= k < groups@.len() && 0 <= i < groups@[k]@.len() ==> (#[trigger] groups@[k]@[i])@.len()
                > 0,
        decreases blocks@.len() - j,
    {
        let x = blocks[j].duplicate();
        let ghost gv = group_views(groups@);
        proof {
            assert(bv.subrange(0, j + 1) =~= bv.subrange(0, j as int).push(x@));
            vstd::seq_lib::to_multiset_build(bv.subrange(0, j as int), x@);
        }
        let mut k: usize = 0;
        assert forall|l: int| 0 <= l < groups@.len() implies (#[trigger] groups@[l])@.len() > 0 by {
            assert(gv[l].len() == groups@[l]@.len());
        }
        while k < groups.len() && !same_species_names(&groups[k][0], &x)
            invariant
                k <= groups@.len(),
                forall|l: int| 0 <= l < groups@.len() ==> (#[trigger] groups@[l])@.len() > 0,
                gv == group_views(groups@),
                is_species_partition(gv),
                forall|l: int| 0 <= l < k ==> names_of(#[trigger] gv[l][0]) != names_of(x@),
            decreases groups@.len() - k,
        {
            proof {
                assert(gv[k as int][0] == groups@[k as int]@[0]@);
            }
            k = k + 1;
        }
        if k < groups.len() {
            proof {
                assert(gv[k as int][0] == groups@[k as int]@[0]@);
                lemma_flatten_push_into(gv, k as int, x@);
            }
            let ghost old_groups = groups@;
            let mut g = groups.remove(k);
            let ghost old_g = g@;
            g.push(x);
            proof {
                assert(old_g == old_groups[k as int]@);
                assert(block_views(g@) =~= gv[k as int].push(x@));
            }
            groups.insert(k, g);
            proof {
                assert forall|l: int| 0 <= l < groups@.len() implies #[trigger] group_views(groups@)[l]
                    == gv.update(k as int, gv[k as int].push(x@))[l] by {
                    if l != k {
                        assert(groups@[l] == old_groups[l]);
                    }
                }
                assert(group_views(groups@) =~= gv.update(k as int, gv[k as int].push(x@)));
            }
        } else {
            proof {
                lemma_flatten_push_group(gv, x@);
            }
            let mut g: Vec<PBlock> = Vec::new();
            g.push(x);
            assert(block_views(g@) =~= seq![x@]);
            let ghost old_groups = groups@;
            groups.push(g);
            proof {
                assert forall|l: int| 0 <= l < groups@.len() implies #[trigger] group_views(groups@)[l]
                    == gv.push(seq![x@])[l] by {
                    if l < old_groups.len() {
                        assert(groups@[l] == old_groups[l]);
                    }
                }
                assert(group_views(groups@) =~= gv.push(seq![x@]));
            }
        }
        j = j + 1;
    }
    assert(bv.subrange(0, blocks@.len() as int) =~= bv);
    groups
}

} // verus!

verus! {

/// The adjacent pairs of each group, given in the order `ss`.
pub open spec fn direct_pairs(ss: Seq<Seq<Seq<SpacedWord>>>) -> Seq<(Seq<SpacedWord>, Seq<SpacedWord>)>
    decreases ss.len(),
{
    if ss.len() == 0 {
        Seq::empty()
    } else {
        direct_pairs(ss.drop_last()) + adjacent_pairs(ss.last())
    }
}

/// The blocks that are alone in their group.
pub open spec fn singles(gs: Seq<Seq<Seq<SpacedWord>>>) -> Seq<Seq<SpacedWord>>
    decreases gs.len(),
{
    if gs.len() == 0 {
        Seq::empty()
    } else if gs.last().len() == 1 {
        singles(gs.drop_last()).push(gs.last()[0])
    } else {
        singles(gs.drop_last())
    }
}

proof fn lemma_perm_refl<A>(x: Seq<A>)
    ensures
        is_perm(x, x),
{
    let p = Seq::new(x.len(), |i: int| i);
    assert forall|k: int| 0 <= k < x.len() implies #[trigger] crate::order::reached(p, k) by {
        assert(p[k] == k);
    }
    assert(perm_witness(p, x, x));
}

/// `gs` groups the blocks `bs` by species, and `ss` orders each group by the
/// position of its first word.
pub open spec fn grouped(
    bs: Seq<Seq<SpacedWord>>,
    gs: Seq<Seq<Seq<SpacedWord>>>,
    ss: Seq<Seq<Seq<SpacedWord>>>,
) -> bool {
    &&& is_species_partition(gs)
    &&& gs.flatten().to_multiset() == bs.to_multiset()
    &&& ss.len() == gs.len()
    &&& forall|k: int|
        0 <= k < gs.len() ==> is_perm(#[trigger] ss[k], gs[k]) && sorted_by_first_position(ss[k])
}

/// Groups the blocks by species (see `partition_by_species`): each group of two
/// or more blocks gives its adjacent pairs along the first species' genome
/// (first part of the result), and each block alone in its group is a seed
/// for the search (second part).
pub fn pairs_and_seeds(blocks: &Vec<PBlock>) -> (r: (Vec<(PBlock, PBlock)>, Vec<PBlock>))
    requires
        forall|i: int| 0 <= i < blocks@.len() ==> (#[trigger] blocks@[i])@.len() > 0,
    ensures
        exists|gs: Seq<Seq<Seq<SpacedWord>>>, ss: Seq<Seq<Seq<SpacedWord>>>|
            {
                &&& #[trigger] grouped(block_views(blocks@), gs, ss)
                &&& pair_views(r.0@) == direct_pairs(ss)
                &&& block_views(r.1@) == singles(gs)
            },
{
    let groups = partition_by_species(blocks);
    let ghost gs = group_views(groups@);
    let mut direct: Vec<(PBlock, PBlock)> = Vec::new();
    let mut seeds: Vec<PBlock> = Vec::new();
    let ghost mut ss: Seq<Seq<Seq<SpacedWord>>> = Seq::empty();
    let mut k: usize = 0;
    while k < groups.len()
        invariant
            k <= groups@.len(),
            gs == group_views(groups@),
            is_species_partition(gs),
            forall|g: int, i: int|
                0 <= g < groups@.len() && 0 <= i < groups@[g]@.len() ==> (#[trigger] groups@[g]@[i])@.len()
                    > 0,
            ss.len() == k,
            forall|q: int| 0 <= q < k ==> is_perm(#[trigger] ss[q], gs[q]) && sorted_by_first_position(ss[q]),
            pair_views(direct@) == direct_pairs(ss),
            block_views(seeds@) == singles(gs.subrange(0, k as int)),
        decreases groups@.len() - k,
    {
        let g = &groups[k];
        assert(gs[k as int] == block_views(g@));
        assert(gs.subrange(0, k + 1).drop_last() =~= gs.subrange(0, k as int));
        if g.len() == 1 {
            let ghost before = seeds@;
            seeds.push(g[0].duplicate());
            proof {
                assert(block_views(seeds@) =~= block_views(before).push(gs[k as int][0]));
                lemma_perm_refl(gs[k as int]);
                assert(adjacent_pairs(gs[k as int]) =~= Seq::empty());
                assert(ss.push(gs[k as int]).drop_last() =~= ss);
                assert(direct_pairs(ss.push(gs[k as int])) == direct_pairs(ss) + adjacent_pairs(gs[k as int]));
                assert(direct_pairs(ss) + Seq::<(Seq<SpacedWord>, Seq<SpacedWord>)>::empty() =~= direct_pairs(ss));
                ss = ss.push(gs[k as int]);
            }
        } else {
            let mut ps = pairs_from_vector(g);
            let ghost s = choose|s: Seq<Seq<SpacedWord>>|
                {
                    &&& is_perm(s, block_views(g@))
                    &&& sorted_by_first_position(s)
                    &&& pair_views(ps@) == adjacent_pairs(s)
                };
            let ghost before = direct@;
            let ghost psv = ps@;
            direct.append(&mut ps);
            proof {
                assert(pair_views(direct@) =~= pair_views(before) + pair_views(psv));
                assert(ss.push(s).drop_last() =~= ss);
                ss = ss.push(s);
            }
        }
        k = k + 1;
    }
    assert(gs.subrange(0, groups@.len() as int) =~= gs);
    assert(grouped(block_views(blocks@), gs, ss));
    (direct, seeds)
}

/// Collects the pairs of a run: the pairs within groups of blocks over the
/// same species (see `pairs_and_seeds`), then the pairs the search finds for
/// the blocks alone in their group, run with those seeds cut into `workers`
/// shards.
pub fn collect_pairs(
    blocks: &Vec<PBlock>,
    sequences: &SequenceStore,
    pattern: &str,
    range: i64,
    strong_only: bool,
    workers: usize,
) -> (r: Vec<(PBlock, PBlock)>)
    requires
        workers > 0,
        forall|i: int| 0 <= i < blocks@.len() ==> (#[trigger] blocks@[i])@.len() > 0,
    ensures
        exists|gs: Seq<Seq<Seq<SpacedWord>>>, ss: Seq<Seq<Seq<SpacedWord>>>|
            {
                &&& #[trigger] grouped(block_views(blocks@), gs, ss)
                &&& pair_views(r@) == direct_pairs(ss) + seed_pairs(
                    singles(gs),
                    *sequences,
                    pattern.spec_bytes(),
                    range as int,
                    strong_only,
                )
            },
{
    let (mut direct, seeds) = pairs_and_seeds(blocks);
    let ghost (gs, ss) = choose|gs: Seq<Seq<Seq<SpacedWord>>>, ss: Seq<Seq<Seq<SpacedWord>>>|
        {
            &&& #[trigger] grouped(block_views(blocks@), gs, ss)
            &&& pair_views(direct@) == direct_pairs(ss)
            &&& block_views(seeds@) == singles(gs)
        };
    let mut found = search_sharded(&seeds, sequences, pattern, range, strong_only, workers);
    let ghost before = direct@;
    let ghost fv = found@;
    direct.append(&mut found);
    assert(pair_views(direct@) =~= pair_views(before) + pair_views(fv));
    assert(grouped(block_views(blocks@), gs, ss));
    direct
}

} // verus!

verus! {

/// Whether the search keeps a pair: with `strong`, only strong pairs; else
/// pairs that resolve a topology, and with `weak` only those that are not
/// strong.
pub open spec fn keeps_pair(a: Seq<SpacedWord>, b: Seq<SpacedWord>, strong: bool, weak: bool) -> bool {
    if strong {
        spec_strong_pair(a, b)
    } else {
        pair_topology(a, b) is Resolved && (!spec_strong_pair(a, b) || !weak)
    }
}

/// The pairs of `ps` that `keeps_pair` keeps, in order.
pub open spec fn kept_pairs(ps: Seq<(Seq<SpacedWord>, Seq<SpacedWord>)>, strong: bool, weak: bool) -> Seq<
    (Seq<SpacedWord>, Seq<SpacedWord>),
>
    decreases ps.len(),
{
    if ps.len() == 0 {
        Seq::empty()
    } else if keeps_pair(ps.last().0, ps.last().1, strong, weak) {
        kept_pairs(ps.drop_last(), strong, weak).push(ps.last())
    } else {
        kept_pairs(ps.drop_last(), strong, weak)
    }
}

/// Every pair the selection keeps resolves a topology, with or without the
/// strength options.
pub proof fn lemma_kept_pairs_resolved(
    ps: Seq<(Seq<SpacedWord>, Seq<SpacedWord>)>,
    strong: bool,
    weak: bool,
    k: int,
)
    requires
        0 <= k < kept_pairs(ps, strong, weak).len(),
    ensures
        pair_topology(kept_pairs(ps, strong, weak)[k].0, kept_pairs(ps, strong, weak)[k].1) is Resolved,
    decreases ps.len(),
{
    if ps.len() > 0 {
        let rest = kept_pairs(ps.drop_last(), strong, weak);
        if k < rest.len() {
            lemma_kept_pairs_resolved(ps.drop_last(), strong, weak, k);
        } else if strong {
            crate::pblock::lemma_strong_pair_resolved(ps.last().0, ps.last().1);
        }
    }
}

/// Keeps the pairs the options ask for (see `keeps_pair`).
pub fn select_pairs(pairs: Vec<(PBlock, PBlock)>, strong: bool, weak: bool) -> (r: Vec<(PBlock, PBlock)>)
    requires
        crate::stats::four_word_pairs(pairs@),
    ensures
        pair_views(r@) == kept_pairs(pair_views(pairs@), strong, weak),
{
    let ghost pv = pair_views(pairs@);
    let mut result: Vec<(PBlock, PBlock)> = Vec::new();
    let mut rest = pairs;
    let ghost mut i: int = 0;
    while rest.len() > 0
        invariant
            0 <= i <= pv.len(),
            pair_views(rest@) == pv.subrange(i, pv.len() as int),
            crate::stats::four_word_pairs(rest@),
            pair_views(result@) == kept_pairs(pv.subrange(0, i), strong, weak),
        decreases rest@.len(),
    {
        let ghost before_rest = rest@;
        let (a, b) = rest.remove(0);
        proof {
            assert(pair_views(rest@) =~= pair_views(before_rest).drop_first());
            assert(before_rest[0] == (a, b));
            assert(pair_views(before_rest)[0] == (a@, b@));
            assert(pv.subrange(i, pv.len() as int)[0] == pv[i]);
            assert(pv[i] == (a@, b@));
            assert(pv.subrange(0, i + 1).drop_last() =~= pv.subrange(0, i));
            assert(crate::stats::four_word_pairs(rest@)) by {
                assert forall|k: int| 0 <= k < rest@.len() implies (#[trigger] rest@[k]).0@.len() == 4
                    && rest@[k].1@.len() == 4 by {
                    assert(rest@[k] == before_rest[k + 1]);
                }
            }
            assert(before_rest[0] == (a, b));
        }
        let g = block_gaps(&a, &b);
        let resolved = match classify_gaps(g) {
            Topology::Unresolved => false,
            Topology::Resolved { .. } => true,
        };
        let strong_pair = PBlock::strong_pair(&a, &b);
        let keep = if strong {
            strong_pair
        } else {
            resolved && (!strong_pair || !weak)
        };
        if keep {
            let ghost before = result@;
            result.push((a, b));
            assert(pair_views(result@) =~= pair_views(before).push(pv[i]));
        }
        proof {
            i = i + 1;
        }
    }
    assert(pv.subrange(0, i) =~= pv);
    result
}

} // verus!
