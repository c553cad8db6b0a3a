//! Sorting spaced words by fingerprint, and finding a fingerprint that occurs
//! exactly once in a sorted list.

use vstd::prelude::*;
use crate::spaced_word::SpacedWord;
use vstd::std_specs::cmp::{PartialEqSpec, PartialOrdSpec};

verus! {

/// `p` sends each position of `a` to a position of `b` holding the same
/// element, one to one and onto.
pub open spec fn perm_witness<T>(p: Seq<int>, a: Seq<T>, b: Seq<T>) -> bool {
    &&& p.len() == a.len()
    &&& a.len() == b.len()
    &&& forall|i: int| 0 <= i < a.len() ==> 0 <= #[trigger] p[i] < b.len() && a[i] == b[p[i]]
    &&& forall|i: int, j: int| 0 <= i < a.len() && 0 <= j < a.len() && i != j ==> #[trigger] p[i]
        != #[trigger] p[j]
    &&& forall|k: int| 0 <= k < b.len() ==> #[trigger] reached(p, k)
}

/// Some entry of `p` equals `k`.
pub open spec fn reached(p: Seq<int>, k: int) -> bool {
    exists|i: int| 0 <= i < p.len() && #[trigger] p[i] == k
}

/// `a` is a rearrangement of `b`.
pub open spec fn is_perm<T>(a: Seq<T>, b: Seq<T>) -> bool {
    exists|p: Seq<int>| perm_witness(p, a, b)
}

/// Words sorted by fingerprint (a missing fingerprint first).
pub open spec fn sorted_by_fingerprint(s: Seq<SpacedWord>) -> bool {
    forall|i: int, j: int| 0 <= i <= j < s.len() ==> #[trigger] s[i].key() <= #[trigger] s[j].key()
}

/// Position `i` is the only one of `s` whose word has fingerprint `fp`.
pub open spec fn unique_at(s: Seq<SpacedWord>, i: int, fp: u64) -> bool {
    &&& 0 <= i < s.len()
    &&& s[i].match_positions == Some(fp)
    &&& forall|j: int| 0 <= j < s.len() && j != i ==> #[trigger] s[j].match_positions != Some(fp)
}

/// The one word of `s` with fingerprint `fp`; `None` when there is no such word
/// or more than one.
pub open spec fn unique_word(s: Seq<SpacedWord>, fp: u64) -> Option<SpacedWord> {
    if exists|i: int| unique_at(s, i, fp) {
        Some(s[choose|i: int| unique_at(s, i, fp)])
    } else {
        None
    }
}

pub proof fn lemma_unique_at_is_unique(s: Seq<SpacedWord>, i: int, j: int, fp: u64)
    requires
        unique_at(s, i, fp),
        unique_at(s, j, fp),
    ensures
        i == j,
{
}

/// A word that occurs once in `s` under index `i` is the one `unique_word` names.
pub proof fn lemma_unique_word_at(s: Seq<SpacedWord>, i: int, fp: u64)
    requires
        unique_at(s, i, fp),
    ensures
        unique_word(s, fp) == Some(s[i]),
{
    let k = choose|k: int| unique_at(s, k, fp);
    lemma_unique_at_is_unique(s, i, k, fp);
}

/// Rearranging a list does not change which word occurs in it once.
pub proof fn lemma_unique_word_perm(a: Seq<SpacedWord>, b: Seq<SpacedWord>, fp: u64)
    requires
        is_perm(a, b),
    ensures
        unique_word(a, fp) == unique_word(b, fp),
{
    let p = choose|p: Seq<int>| perm_witness(p, a, b);
    if exists|i: int| unique_at(a, i, fp) {
        let i = choose|i: int| unique_at(a, i, fp);
        let k = p[i];
        assert forall|j: int| 0 <= j < b.len() && j != k implies #[trigger] b[j].match_positions
            != Some(fp) by {
            assert(reached(p, j));
            let i2 = choose|i2: int| 0 <= i2 < p.len() && #[trigger] p[i2] == j;
            assert(a[i2] == b[j]);
        }
        assert(unique_at(b, k, fp));
        lemma_unique_word_at(a, i, fp);
        lemma_unique_word_at(b, k, fp);
    } else if exists|k: int| unique_at(b, k, fp) {
        let k = choose|k: int| unique_at(b, k, fp);
        assert(reached(p, k));
        let i = choose|i: int| 0 <= i < p.len() && #[trigger] p[i] == k;
        assert forall|j: int| 0 <= j < a.len() && j != i implies #[trigger] a[j].match_positions
            != Some(fp) by {
            assert(p[j] != p[i]);
            assert(a[j] == b[p[j]]);
        }
        assert(unique_at(a, i, fp));
    }
}

/// Applying `f` to both sides keeps a rearrangement.
pub proof fn lemma_perm_map<A, B>(p: Seq<int>, a: Seq<A>, b: Seq<A>, f: spec_fn(A) -> B)
    requires
        perm_witness(p, a, b),
    ensures
        perm_witness(p, a.map_values(f), b.map_values(f)),
{
    assert forall|k: int| 0 <= k < b.map_values(f).len() implies #[trigger] reached(p, k) by {}
}

/// Inserting the next element of `v` into a rearrangement of the elements before it.
pub proof fn lemma_perm_insert<T>(p: Seq<int>, r: Seq<T>, v: Seq<T>, j: int, pos: int)
    requires
        0 <= j < v.len(),
        0 <= pos <= r.len(),
        perm_witness(p, r, v.subrange(0, j)),
    ensures
        perm_witness(p.insert(pos, j), r.insert(pos, v[j]), v.subrange(0, j + 1)),
{
    let q = p.insert(pos, j);
    let r_new = r.insert(pos, v[j]);
    let b_new = v.subrange(0, j + 1);
    assert forall|i: int| 0 <= i < r_new.len() implies 0 <= #[trigger] q[i] < b_new.len() && r_new[i]
        == b_new[q[i]] by {
        if i < pos {
            assert(q[i] == p[i]);
        } else if i > pos {
            assert(q[i] == p[i - 1]);
        }
    }
    assert forall|i: int, k: int| 0 <= i < r_new.len() && 0 <= k < r_new.len() && i != k implies #[trigger] q[i]
        != #[trigger] q[k] by {
        let pi = if i < pos { i } else { i - 1 };
        let pk = if k < pos { k } else { k - 1 };
        if i != pos && k != pos {
            assert(p[pi] != p[pk]);
        } else if i != pos {
            assert(0 <= p[pi] < j);
        } else {
            assert(0 <= p[pk] < j);
        }
    }
    assert forall|k: int| 0 <= k < b_new.len() implies #[trigger] reached(q, k) by {
        if k == j {
            assert(q[pos] == k);
        } else {
            assert(reached(p, k));
            let i = choose|i: int| 0 <= i < p.len() && #[trigger] p[i] == k;
            if i < pos {
                assert(q[i] == k);
            } else {
                assert(q[i + 1] == k);
            }
        }
    }
}

/// First position of sorted `s` whose fingerprint key exceeds `key`.
fn upper_bound(s: &Vec<SpacedWord>, key: i128) -> (r: usize)
    requires
        sorted_by_fingerprint(s@),
    ensures
        r <= s@.len(),
        forall|i: int| 0 <= i < r ==> #[trigger] s@[i].key() <= key,
        forall|i: int| r <= i < s@.len() ==> #[trigger] s@[i].key() > key,
{
    let mut lo: usize = 0;
    let mut hi: usize = s.len();
    while lo < hi
        invariant
            lo <= hi <= s@.len(),
            sorted_by_fingerprint(s@),
            forall|i: int| 0 <= i < lo ==> #[trigger] s@[i].key() <= key,
            forall|i: int| hi <= i < s@.len() ==> #[trigger] s@[i].key() > key,
        decreases hi - lo,
    {
        let mid = lo + (hi - lo) / 2;
        if word_key(&s[mid]) <= key {
            lo = mid + 1;
        } else {
            hi = mid;
        }
    }
    lo
}

/// First position of sorted `s` whose fingerprint key is at least `key`.
fn lower_bound(s: &Vec<SpacedWord>, key: i128) -> (r: usize)
    requires
        sorted_by_fingerprint(s@),
    ensures
        r <= s@.len(),
        forall|i: int| 0 <= i < r ==> #[trigger] s@[i].key() < key,
        forall|i: int| r <= i < s@.len() ==> #[trigger] s@[i].key() >= key,
{
    let mut lo: usize = 0;
    let mut hi: usize = s.len();
    while lo < hi
        invariant
            lo <= hi <= s@.len(),
            sorted_by_fingerprint(s@),
            forall|i: int| 0 <= i < lo ==> #[trigger] s@[i].key() < key,
            forall|i: int| hi <= i < s@.len() ==> #[trigger] s@[i].key() >= key,
        decreases hi - lo,
    {
        let mid = lo + (hi - lo) / 2;
        if word_key(&s[mid]) < key {
            lo = mid + 1;
        } else {
            hi = mid;
        }
    }
    lo
}

/// The fingerprint key of a word.
fn word_key(w: &SpacedWord) -> (r: i128)
    ensures
        r == w.key(),
{
    match w.match_positions {
        None => -1,
        Some(v) => v as i128,
    }
}

/// Sorts words by fingerprint: the result is a rearrangement of `v`.
pub fn sort_by_fingerprint(v: Vec<SpacedWord>) -> (r: Vec<SpacedWord>)
    ensures
        sorted_by_fingerprint(r@),
        is_perm(r@, v@),
{
    let mut r: Vec<SpacedWord> = Vec::new();
    let ghost mut p: Seq<int> = Seq::empty();
    let mut j: usize = 0;
    assert(perm_witness(p, r@, v@.subrange(0, 0)));
    while j < v.len()
        invariant
            j <= v@.len(),
            sorted_by_fingerprint(r@),
            perm_witness(p, r@, v@.subrange(0, j as int)),
        decreases v@.len() - j,
    {
        let x = v[j].duplicate();
        let pos = upper_bound(&r, word_key(&x));
        proof {
            lemma_perm_insert(p, r@, v@, j as int, pos as int);
            p = p.insert(pos as int, j as int);
        }
        r.insert(pos, x);
        j = j + 1;
    }
    assert(v@.subrange(0, v@.len() as int) == v@);
    r
}

/// The position of the one word of sorted `s` with fingerprint `fp`; `None`
/// when there is none, or more than one.
pub fn find_unique(s: &Vec<SpacedWord>, fp: u64) -> (r: Option<usize>)
    requires
        sorted_by_fingerprint(s@),
    ensures
        match r {
            Some(i) => unique_at(s@, i as int, fp),
            None => forall|i: int| !unique_at(s@, i, fp),
        },
{
    let l = lower_bound(s, fp as i128);
    if l < s.len() && word_key(&s[l]) == fp as i128 {
        if l + 1 < s.len() && word_key(&s[l + 1]) == fp as i128 {
            assert forall|i: int| !unique_at(s@, i, fp) by {
                if unique_at(s@, i, fp) {
                    assert(s@[l as int].match_positions == Some(fp));
                    assert(s@[l + 1].match_positions == Some(fp));
                }
            }
            None
        } else {
            assert forall|j: int| 0 <= j < s@.len() && j != l implies #[trigger] s@[j].match_positions
                != Some(fp) by {
                if j > l + 1 {
                    assert(s@[l + 1].key() <= s@[j].key());
                }
            }
            Some(l)
        }
    } else {
        assert forall|i: int| !unique_at(s@, i, fp) by {
            if 0 <= i < s@.len() && i >= l {
                assert(s@[l as int].key() <= s@[i].key());
            }
        }
        None
    }
}

} // verus!

verus! {

/// Words compare by fingerprint alone: two words with the same fingerprint are
/// equal and ordered as equal whatever their names and positions, and in a
/// list sorted by fingerprint the words between them share that fingerprint.
pub proof fn lemma_fingerprint_decides_order(s: Seq<SpacedWord>, i: int, j: int, k: int)
    requires
        sorted_by_fingerprint(s),
        0 <= i <= j <= k < s.len(),
        s[i].match_positions == s[k].match_positions,
    ensures
        s[i].eq_spec(&s[k]),
        s[i].partial_cmp_spec(&s[k]) == Some(core::cmp::Ordering::Equal),
        s[j].match_positions == s[i].match_positions,
{
    assert(s[i].key() <= s[j].key() <= s[k].key());
}

} // verus!
