//! The sequences of a run, looked up by name.

use vstd::prelude::*;
use crate::sequence::Sequence;

verus! {

/// Named sequences; when two share a name, the one inserted last counts.
pub struct SequenceStore {
    pub sequences: Vec<Sequence>,
}

impl SequenceStore {
    /// Entry `i` is the last one named `name`.
    pub open spec fn last_with(&self, i: int, name: Seq<char>) -> bool {
        &&& 0 <= i < self.sequences@.len()
        &&& self.sequences@[i].name@ == name
        &&& forall|j: int| i < j < self.sequences@.len() ==> (#[trigger] self.sequences@[j]).name@ != name
    }

    /// The sequence stored under `name`.
    pub open spec fn lookup(&self, name: Seq<char>) -> Option<Sequence> {
        if exists|i: int| self.last_with(i, name) {
            Some(self.sequences@[choose|i: int| self.last_with(i, name)])
        } else {
            None
        }
    }

    pub fn new() -> (r: SequenceStore)
        ensures
            r.sequences@.len() == 0,
    {
        SequenceStore { sequences: Vec::new() }
    }

    /// Stores `seq` under its name, in place of any sequence of that name.
    pub fn insert(&mut self, seq: Sequence)
        ensures
            final(self).sequences@ == old(self).sequences@.push(seq),
    {
        self.sequences.push(seq);
    }

    /// Number of entries.
    pub fn len(&self) -> (r: usize)
        ensures
            r == self.sequences@.len(),
    {
        self.sequences.len()
    }

    /// The sequence stored under `name`.
    pub fn get(&self, name: &String) -> (r: Option<&Sequence>)
        ensures
            match r {
                Some(s) => self.lookup(name@) == Some(*s),
                None => self.lookup(name@) is None,
            },
    {
        let mut i: usize = self.sequences.len();
        while i > 0
            invariant
                i <= self.sequences@.len(),
                forall|j: int| i <= j < self.sequences@.len() ==> (#[trigger] self.sequences@[j]).name@ != name@,
            decreases i,
        {
            i = i - 1;
            if self.sequences[i].name == *name {
                proof {
                    let k = choose|k: int| self.last_with(k, name@);
                    assert(self.last_with(i as int, name@));
                    if k != i {
                        assert(self.sequences@[k].name@ == name@);
                    }
                }
                return Some(&self.sequences[i]);
            }
        }
        None
    }
}

/// After an insertion, the new sequence answers for its name, and every other
/// name answers as before.
pub proof fn lemma_lookup_after_insert(s: SequenceStore, t: SequenceStore, seq: Sequence, name: Seq<char>)
    requires
        t.sequences@ == s.sequences@.push(seq),
    ensures
        name == seq.name@ ==> t.lookup(name) == Some(seq),
        name != seq.name@ ==> t.lookup(name) == s.lookup(name),
{
    let n = s.sequences@.len() as int;
    if name == seq.name@ {
        assert(t.last_with(n, name));
        let k = choose|k: int| t.last_with(k, name);
        if k != n {
            assert(t.sequences@[n].name@ == name);
        }
    } else {
        if exists|i: int| s.last_with(i, name) {
            let i = choose|i: int| s.last_with(i, name);
            assert(t.last_with(i, name));
            let k = choose|k: int| t.last_with(k, name);
            if k != i {
                if k < i {
                    assert(t.sequences@[i].name@ == name);
                } else {
                    assert(k < n);
                    assert(s.sequences@[k].name@ == name);
                }
            }
        } else {
            if exists|k: int| t.last_with(k, name) {
                let k = choose|k: int| t.last_with(k, name);
                assert(k != n);
                assert forall|j: int| k < j < n implies (#[trigger] s.sequences@[j]).name@ != name by {
                    assert(t.sequences@[j] == s.sequences@[j]);
                }
                assert(s.last_with(k, name));
            }
        }
    }
}

} // verus!
