//! Quartet trees: classifying the gap sizes between two blocks of four species.

use vstd::prelude::*;
use vstd::string::*;
use crate::pblock::PBlock;
use crate::spaced_word::SpacedWord;

verus! {

/// Absolute value.
pub open spec fn abs(x: int) -> int {
    if x < 0 {
        -x
    } else {
        x
    }
}

/// The four gap sizes `|a[i].position - b[i].position|` of two blocks.
pub open spec fn abs_gaps(a: Seq<SpacedWord>, b: Seq<SpacedWord>) -> Seq<int> {
    seq![
        abs(a[0].position - b[0].position),
        abs(a[1].position - b[1].position),
        abs(a[2].position - b[2].position),
        abs(a[3].position - b[3].position),
    ]
}

/// At least three of the four gap sizes are equal.
pub open spec fn three_equal(g: Seq<int>) -> bool {
    ||| g[0] == g[1] && g[1] == g[2]
    ||| g[0] == g[1] && g[1] == g[3]
    ||| g[0] == g[2] && g[2] == g[3]
    ||| g[1] == g[2] && g[2] == g[3]
}

/// The four gap sizes are pairwise distinct.
pub open spec fn all_distinct(g: Seq<int>) -> bool {
    &&& g[0] != g[1] && g[0] != g[2] && g[0] != g[3]
    &&& g[1] != g[2] && g[1] != g[3]
    &&& g[2] != g[3]
}

/// What a set of four gap sizes says about the quartet.
#[derive(Debug, Clone, Copy)]
pub enum Topology {
    /// No topology: the gap sizes are all distinct, or three or more are equal.
    Unresolved,
    /// The species at `pair1` are sisters, and so are those at `pair2`.
    Resolved { pair1: (usize, usize), pair2: (usize, usize) },
}

/// The topology of gap sizes `g`: none when three or more are equal; otherwise
/// the first equal pair in the order (0,1), (0,2), (0,3), (1,2), (1,3), (2,3)
/// is one sister pair and the other two species the other; none when all four
/// differ.
pub open spec fn split_of(g: Seq<int>) -> Topology {
    if three_equal(g) {
        Topology::Unresolved
    } else if g[0] == g[1] {
        Topology::Resolved { pair1: (0, 1), pair2: (2, 3) }
    } else if g[0] == g[2] {
        Topology::Resolved { pair1: (0, 2), pair2: (1, 3) }
    } else if g[0] == g[3] {
        Topology::Resolved { pair1: (0, 3), pair2: (1, 2) }
    } else if g[1] == g[2] {
        Topology::Resolved { pair1: (1, 2), pair2: (0, 3) }
    } else if g[1] == g[3] {
        Topology::Resolved { pair1: (1, 3), pair2: (0, 2) }
    } else if g[2] == g[3] {
        Topology::Resolved { pair1: (2, 3), pair2: (0, 1) }
    } else {
        Topology::Unresolved
    }
}

/// Classifies four gap sizes.
pub fn classify_gaps(g: [u64; 4]) -> (r: Topology)
    ensures
        r == split_of(seq![g[0] as int, g[1] as int, g[2] as int, g[3] as int]),
        all_distinct(seq![g[0] as int, g[1] as int, g[2] as int, g[3] as int]) ==> r
            is Unresolved,
        three_equal(seq![g[0] as int, g[1] as int, g[2] as int, g[3] as int]) ==> r is Unresolved,
{
    let g0 = g[0];
    let g1 = g[1];
    let g2 = g[2];
    let g3 = g[3];
    if g0 == g1 && g1 == g2 || g0 == g1 && g1 == g3 || g0 == g2 && g2 == g3 || g1 == g2 && g2
        == g3 {
        Topology::Unresolved
    } else if g0 == g1 {
        Topology::Resolved { pair1: (0, 1), pair2: (2, 3) }
    } else if g0 == g2 {
        Topology::Resolved { pair1: (0, 2), pair2: (1, 3) }
    } else if g0 == g3 {
        Topology::Resolved { pair1: (0, 3), pair2: (1, 2) }
    } else if g1 == g2 {
        Topology::Resolved { pair1: (1, 2), pair2: (0, 3) }
    } else if g1 == g3 {
        Topology::Resolved { pair1: (1, 3), pair2: (0, 2) }
    } else if g2 == g3 {
        Topology::Resolved { pair1: (2, 3), pair2: (0, 1) }
    } else {
        Topology::Unresolved
    }
}

/// `|a - b|` of two positions.
fn gap_between(a: i64, b: i64) -> (r: u64)
    ensures
        r == abs(a - b),
{
    let d: i128 = a as i128 - b as i128;
    if d < 0 {
        (-d) as u64
    } else {
        d as u64
    }
}

/// The gap sizes between two blocks of four words.
pub fn block_gaps(p1: &PBlock, p2: &PBlock) -> (r: [u64; 4])
    requires
        p1@.len() == 4,
        p2@.len() == 4,
    ensures
        seq![r[0] as int, r[1] as int, r[2] as int, r[3] as int] == abs_gaps(p1@, p2@),
{
    [
        gap_between(p1.0[0].position, p2.0[0].position),
        gap_between(p1.0[1].position, p2.0[1].position),
        gap_between(p1.0[2].position, p2.0[2].position),
        gap_between(p1.0[3].position, p2.0[3].position),
    ]
}

/// The topology of the pair of blocks `(a, b)`.
pub open spec fn pair_topology(a: Seq<SpacedWord>, b: Seq<SpacedWord>) -> Topology {
    split_of(abs_gaps(a, b))
}

/// Two blocks over the same four species, in the same order.
pub open spec fn same_species(a: Seq<SpacedWord>, b: Seq<SpacedWord>) -> bool {
    &&& a.len() == 4
    &&& b.len() == 4
    &&& forall|i: int| 0 <= i < 4 ==> (#[trigger] a[i]).seq_name@ == b[i].seq_name@
}

/// A quartet tree: the pair of blocks it comes from, and its two sister pairs.
#[derive(Debug)]
pub struct QTree {
    pub blocks: (PBlock, PBlock),
    pub pair1: (usize, usize),
    pub pair2: (usize, usize),
}

impl QTree {
    /// Blocks of four words, and sister pairs that index them.
    pub open spec fn wf(&self) -> bool {
        &&& self.blocks.0@.len() == 4
        &&& self.blocks.1@.len() == 4
        &&& self.pair1.0 < 4 && self.pair1.1 < 4 && self.pair2.0 < 4 && self.pair2.1 < 4
    }

    /// The quartet tree that the pair `(p1, p2)` supports, if any (see `split_of`).
    pub fn new(p1: &PBlock, p2: &PBlock) -> (r: Option<QTree>)
        requires
            same_species(p1@, p2@),
        ensures
            r is Some <==> pair_topology(p1@, p2@) is Resolved,
            r matches Some(t) ==> {
                &&& t.blocks.0@ == p1@
                &&& t.blocks.1@ == p2@
                &&& pair_topology(p1@, p2@) == (Topology::Resolved {
                    pair1: t.pair1,
                    pair2: t.pair2,
                })
                &&& t.wf()
            },
            all_distinct(abs_gaps(p1@, p2@)) ==> r is None,
            three_equal(abs_gaps(p1@, p2@)) ==> r is None,
    {
        let g = block_gaps(p1, p2);
        match classify_gaps(g) {
            Topology::Unresolved => None,
            Topology::Resolved { pair1, pair2 } => Some(
                QTree { blocks: (p1.duplicate(), p2.duplicate()), pair1, pair2 },
            ),
        }
    }

    /// The species names, in block order.
    pub fn seq_names(&self) -> (r: Vec<&str>)
        requires
            self.blocks.0@.len() >= 4,
        ensures
            r@.len() == 4,
            forall|i: int| 0 <= i < 4 ==> (#[trigger] r@[i])@ == self.blocks.0@[i].seq_name@,
    {
        let mut r: Vec<&str> = Vec::new();
        r.push(self.blocks.0.0[0].seq_name.as_str());
        r.push(self.blocks.0.0[1].seq_name.as_str());
        r.push(self.blocks.0.0[2].seq_name.as_str());
        r.push(self.blocks.0.0[3].seq_name.as_str());
        r
    }

    /// The signed gap sizes `blocks.1[i].position - blocks.0[i].position`.
    pub fn gap_sizes(&self) -> (r: Vec<i64>)
        requires
            self.blocks.0@.len() >= 4,
            self.blocks.1@.len() >= 4,
            forall|i: int|
                0 <= i < 4 ==> i64::MIN <= #[trigger] self.blocks.1@[i].position
                    - self.blocks.0@[i].position <= i64::MAX,
        ensures
            r@.len() == 4,
            forall|i: int|
                0 <= i < 4 ==> #[trigger] r@[i] == self.blocks.1@[i].position
                    - self.blocks.0@[i].position,
    {
        let a = &self.blocks.0.0;
        let b = &self.blocks.1.0;
        assert(i64::MIN <= b@[0].position - a@[0].position <= i64::MAX);
        assert(i64::MIN <= b@[1].position - a@[1].position <= i64::MAX);
        assert(i64::MIN <= b@[2].position - a@[2].position <= i64::MAX);
        assert(i64::MIN <= b@[3].position - a@[3].position <= i64::MAX);
        let mut r: Vec<i64> = Vec::new();
        r.push(b[0].position - a[0].position);
        r.push(b[1].position - a[1].position);
        r.push(b[2].position - a[2].position);
        r.push(b[3].position - a[3].position);
        r
    }

    /// The trees of the pairs that support one, in order.
    pub fn from_pairs(pairs: &[(PBlock, PBlock)]) -> (r: Vec<QTree>)
        requires
            forall|i: int| 0 <= i < pairs@.len() ==> same_species(#[trigger] pairs@[i].0@, pairs@[i].1@),
        ensures
            r@.len() == resolved_count(pairs@.map_values(|p: (PBlock, PBlock)| (p.0@, p.1@))),
            forall|k: int| 0 <= k < r@.len() ==> (#[trigger] r@[k]).wf(),
            forall|k: int|
                0 <= k < r@.len() ==> (#[trigger] r@[k]).view() == resolved_trees(
                    pairs@.map_values(|p: (PBlock, PBlock)| (p.0@, p.1@)),
                )[k],
    {
        let ghost views = pairs@.map_values(|p: (PBlock, PBlock)| (p.0@, p.1@));
        let mut result: Vec<QTree> = Vec::new();
        let mut i: usize = 0;
        while i < pairs.len()
            invariant
                i <= pairs@.len(),
                views == pairs@.map_values(|p: (PBlock, PBlock)| (p.0@, p.1@)),
                forall|k: int| 0 <= k < pairs@.len() ==> same_species(#[trigger] pairs@[k].0@, pairs@[k].1@),
                result@.len() == resolved_count(views.subrange(0, i as int)),
                forall|k: int| 0 <= k < result@.len() ==> (#[trigger] result@[k]).wf(),
                forall|k: int|
                    0 <= k < result@.len() ==> (#[trigger] result@[k]).view() == resolved_trees(
                        views.subrange(0, i as int),
                    )[k],
            decreases pairs@.len() - i,
        {
            proof {
                assert(views.subrange(0, i + 1).drop_last() =~= views.subrange(0, i as int));
            }
            match QTree::new(&pairs[i].0, &pairs[i].1) {
                Some(t) => result.push(t),
                None => {},
            }
            i = i + 1;
        }
        assert(views.subrange(0, pairs@.len() as int) =~= views);
        result
    }

    /// The tree in Newick form: `((A,B),(C,D));`.
    pub fn newick(&self) -> (r: String)
        requires
            self.wf(),
        ensures
            r@ == newick_of(
                self.blocks.0@[self.pair1.0 as int].seq_name@,
                self.blocks.0@[self.pair1.1 as int].seq_name@,
                self.blocks.0@[self.pair2.0 as int].seq_name@,
                self.blocks.0@[self.pair2.1 as int].seq_name@,
            ),
    {
        let w = &self.blocks.0.0;
        let mut s = String::from_str("((");
        s.append(w[self.pair1.0].seq_name.as_str());
        s.append(",");
        s.append(w[self.pair1.1].seq_name.as_str());
        s.append("),(");
        s.append(w[self.pair2.0].seq_name.as_str());
        s.append(",");
        s.append(w[self.pair2.1].seq_name.as_str());
        s.append("));");
        proof {
            reveal_strlit("((");
            reveal_strlit(",");
            reveal_strlit("),(");
            reveal_strlit("));");
        }
        s
    }
}

/// `((a,b),(c,d));`
pub open spec fn newick_of(a: Seq<char>, b: Seq<char>, c: Seq<char>, d: Seq<char>) -> Seq<char> {
    seq!['(', '('] + a + seq![','] + b + seq![')', ',', '('] + c + seq![','] + d + seq![
        ')',
        ')',
        ';',
    ]
}

impl View for QTree {
    type V = (Seq<SpacedWord>, Seq<SpacedWord>, (usize, usize), (usize, usize));

    open spec fn view(&self) -> Self::V {
        (self.blocks.0@, self.blocks.1@, self.pair1, self.pair2)
    }
}

/// Number of pairs that support a topology.
pub open spec fn resolved_count(pairs: Seq<(Seq<SpacedWord>, Seq<SpacedWord>)>) -> nat
    decreases pairs.len(),
{
    resolved_trees(pairs).len()
}

/// The trees of the pairs that support a topology, in order.
pub open spec fn resolved_trees(pairs: Seq<(Seq<SpacedWord>, Seq<SpacedWord>)>) -> Seq<
    (Seq<SpacedWord>, Seq<SpacedWord>, (usize, usize), (usize, usize)),
>
    decreases pairs.len(),
{
    if pairs.len() == 0 {
        Seq::empty()
    } else {
        let rest = resolved_trees(pairs.drop_last());
        let (a, b) = pairs.last();
        match pair_topology(a, b) {
            Topology::Unresolved => rest,
            Topology::Resolved { pair1, pair2 } => rest.push((a, b, pair1, pair2)),
        }
    }
}

} // verus!
