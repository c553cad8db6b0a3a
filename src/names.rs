//! Species names and their order: byte-wise lexicographic, as Rust orders strings.

use vstd::prelude::*;
use vstd::string::*;
use vstd::utf8::encode_utf8;
use crate::order::{is_perm, perm_witness};
use crate::spaced_word::SpacedWord;

verus! {

/// `a` sorts strictly before `b`, byte by byte.
pub open spec fn bytes_lt(a: Seq<u8>, b: Seq<u8>) -> bool
    decreases a.len(),
{
    if a.len() == 0 {
        b.len() > 0
    } else if b.len() == 0 {
        false
    } else if a[0] != b[0] {
        a[0] < b[0]
    } else {
        bytes_lt(a.drop_first(), b.drop_first())
    }
}

/// `a` sorts strictly before `b` as names.
pub open spec fn name_lt(a: Seq<char>, b: Seq<char>) -> bool {
    bytes_lt(encode_utf8(a), encode_utf8(b))
}

pub proof fn lemma_bytes_lt_irreflexive(a: Seq<u8>)
    ensures
        !bytes_lt(a, a),
    decreases a.len(),
{
    if a.len() > 0 {
        lemma_bytes_lt_irreflexive(a.drop_first());
    }
}

pub proof fn lemma_bytes_lt_transitive(a: Seq<u8>, b: Seq<u8>, c: Seq<u8>)
    requires
        bytes_lt(a, b),
        bytes_lt(b, c),
    ensures
        bytes_lt(a, c),
    decreases a.len(),
{
    if a.len() > 0 && b.len() > 0 && c.len() > 0 && a[0] == b[0] && b[0] == c[0] {
        lemma_bytes_lt_transitive(a.drop_first(), b.drop_first(), c.drop_first());
    }
}

/// Two different byte strings are ordered one way or the other.
pub proof fn lemma_bytes_lt_total(a: Seq<u8>, b: Seq<u8>)
    requires
        a != b,
    ensures
        bytes_lt(a, b) || bytes_lt(b, a),
    decreases a.len(),
{
    if a.len() > 0 && b.len() > 0 && a[0] == b[0] {
        if a.drop_first() == b.drop_first() {
            assert(a =~= seq![a[0]] + a.drop_first());
            assert(b =~= seq![b[0]] + b.drop_first());
        }
        lemma_bytes_lt_total(a.drop_first(), b.drop_first());
    } else if a.len() == 0 && b.len() == 0 {
        assert(a =~= b);
    }
}

pub proof fn lemma_bytes_lt_asymmetric(a: Seq<u8>, b: Seq<u8>)
    requires
        bytes_lt(a, b),
    ensures
        !bytes_lt(b, a),
{
    if bytes_lt(b, a) {
        lemma_bytes_lt_transitive(a, b, a);
        lemma_bytes_lt_irreflexive(a);
    }
}

/// Whether `a` sorts strictly before `b`.
pub fn str_lt(a: &str, b: &str) -> (r: bool)
    ensures
        r == bytes_lt(a.spec_bytes(), b.spec_bytes()),
{
    let x: &[u8] = a.as_bytes();
    let y: &[u8] = b.as_bytes();
    let mut i: usize = 0;
    assert(x@.skip(0) =~= x@);
    assert(y@.skip(0) =~= y@);
    while i < x.len() && i < y.len()
        invariant
            i <= x@.len(),
            i <= y@.len(),
            x@ == a.spec_bytes(),
            y@ == b.spec_bytes(),
            bytes_lt(x@, y@) == bytes_lt(x@.skip(i as int), y@.skip(i as int)),
        decreases x@.len() - i,
    {
        assert(x@.skip(i as int)[0] == x@[i as int]);
        assert(y@.skip(i as int)[0] == y@[i as int]);
        if x[i] != y[i] {
            assert(x@.skip(i as int).len() > 0 && y@.skip(i as int).len() > 0);
            assert(bytes_lt(x@.skip(i as int), y@.skip(i as int)) == (x@[i as int] < y@[i as int]));
            return x[i] < y[i];
        }
        assert(x@.skip(i as int).drop_first() =~= x@.skip(i + 1));
        assert(y@.skip(i as int).drop_first() =~= y@.skip(i + 1));
        i = i + 1;
    }
    assert(x@.skip(i as int).len() == 0 || y@.skip(i as int).len() == 0);
    i < y.len()
}

/// Something that carries a species name.
pub trait Named {
    spec fn name_of(&self) -> Seq<char>;

    fn name_str(&self) -> (r: &str)
        ensures
            r@ == self.name_of(),
    ;
}

impl Named for SpacedWord {
    open spec fn name_of(&self) -> Seq<char> {
        self.seq_name@
    }

    fn name_str(&self) -> (r: &str) {
        self.seq_name.as_str()
    }
}

impl<'a> Named for &'a String {
    open spec fn name_of(&self) -> Seq<char> {
        (**self)@
    }

    fn name_str(&self) -> (r: &str) {
        self.as_str()
    }
}

/// Items in order of their names (equal names allowed).
pub open spec fn sorted_by_name<T: Named>(s: Seq<T>) -> bool {
    forall|i: int, j: int|
        0 <= i < j < s.len() ==> !name_lt(#[trigger] s[j].name_of(), #[trigger] s[i].name_of())
}

/// Items whose names strictly increase: sorted, and no name twice.
pub open spec fn strictly_sorted_by_name<T: Named>(s: Seq<T>) -> bool {
    forall|i: int, j: int|
        0 <= i < j < s.len() ==> name_lt(#[trigger] s[i].name_of(), #[trigger] s[j].name_of())
}

/// Sorts items by name.
pub fn sort_by_name<T: Named>(v: Vec<T>) -> (r: Vec<T>)
    ensures
        sorted_by_name(r@),
        is_perm(r@, v@),
{
    let ghost orig = v@;
    let mut rest = v;
    let mut r: Vec<T> = Vec::new();
    let ghost mut p: Seq<int> = Seq::empty();
    let ghost mut j: int = 0;
    assert(perm_witness(p, r@, orig.subrange(0, 0)));
    while rest.len() > 0
        invariant
            0 <= j <= orig.len(),
            rest@ == orig.subrange(j, orig.len() as int),
            sorted_by_name(r@),
            perm_witness(p, r@, orig.subrange(0, j)),
        decreases rest@.len(),
    {
        let x = rest.remove(0);
        assert(x == orig[j]);
        let mut pos: usize = 0;
        while pos < r.len() && !str_lt(x.name_str(), r[pos].name_str())
            invariant
                pos <= r@.len(),
                forall|i: int| 0 <= i < pos ==> !name_lt(x.name_of(), #[trigger] r@[i].name_of()),
            decreases r@.len() - pos,
        {
            pos = pos + 1;
        }
        proof {
            assert forall|i: int| pos <= i < r@.len() implies name_lt(
                x.name_of(),
                #[trigger] r@[i].name_of(),
            ) by {
                let a = encode_utf8(x.name_of());
                let b = encode_utf8(r@[pos as int].name_of());
                let c = encode_utf8(r@[i].name_of());
                if i > pos && !bytes_lt(b, c) {
                    if b != c {
                        lemma_bytes_lt_total(b, c);
                    }
                }
                if i > pos && bytes_lt(b, c) {
                    lemma_bytes_lt_transitive(a, b, c);
                }
            }
            crate::order::lemma_perm_insert(p, r@, orig, j, pos as int);
            p = p.insert(pos as int, j);
        }
        let ghost old_r = r@;
        r.insert(pos, x);
        proof {
            assert forall|a: int, b: int| 0 <= a < b < r@.len() implies !name_lt(
                #[trigger] r@[b].name_of(),
                #[trigger] r@[a].name_of(),
            ) by {
                let pa = encode_utf8(r@[a].name_of());
                let pb = encode_utf8(r@[b].name_of());
                if a == pos as int {
                    assert(r@[b] == old_r[b - 1]);
                    lemma_bytes_lt_asymmetric(pa, pb);
                } else if b == pos as int {
                    assert(r@[a] == old_r[a]);
                } else {
                    let oa = if a < pos { a } else { a - 1 };
                    let ob = if b < pos { b } else { b - 1 };
                    assert(r@[a] == old_r[oa]);
                    assert(r@[b] == old_r[ob]);
                }
            }
            j = j + 1;
        }
    }
    assert(orig.subrange(0, orig.len() as int) == orig);
    r
}

} // verus!
