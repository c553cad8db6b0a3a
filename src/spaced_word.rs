//! Spaced words: fingerprints of fixed-length windows of a sequence, read at
//! the match positions of a binary pattern.

use vstd::prelude::*;
use vstd::string::*;

verus! {

/// Two-bit code of a nucleotide in either case; `None` for any other byte.
pub open spec fn base_code(b: u8) -> Option<u64> {
    if b == 65u8 || b == 97u8 {
        Some(0u64)
    } else if b == 67u8 || b == 99u8 {
        Some(1u64)
    } else if b == 71u8 || b == 103u8 {
        Some(2u64)
    } else if b == 84u8 || b == 116u8 {
        Some(3u64)
    } else {
        None
    }
}

/// One packing step: add the code of the base, then shift by two bits
/// (the bits shifted out of the 64-bit word are lost).
pub open spec fn pack_step(acc: u64, code: u64) -> u64 {
    (((acc + code) * 4) % 0x1_0000_0000_0000_0000) as u64
}

/// Fingerprint of the first `n` positions of `word` read under `pattern`:
/// only positions where the pattern holds `'1'` contribute, and a non-nucleotide
/// byte at such a position makes the word invalid.
pub open spec fn fingerprint_prefix(word: Seq<u8>, pattern: Seq<u8>, n: nat) -> Option<u64>
    decreases n,
{
    if n == 0 {
        Some(0u64)
    } else {
        match fingerprint_prefix(word, pattern, (n - 1) as nat) {
            None => None,
            Some(acc) => {
                if pattern[n - 1] != 49u8 {
                    Some(acc)
                } else {
                    match base_code(word[n - 1]) {
                        None => None,
                        Some(c) => Some(pack_step(acc, c)),
                    }
                }
            },
        }
    }
}

/// Fingerprint of `word` under `pattern`, over the positions both of them have.
pub open spec fn fingerprint(word: Seq<u8>, pattern: Seq<u8>) -> Option<u64> {
    fingerprint_prefix(
        word,
        pattern,
        if word.len() <= pattern.len() { word.len() } else { pattern.len() },
    )
}

/// The stored position of a word found at `position`: negated on the reverse strand.
pub open spec fn strand_position(position: i64, rev_comp: bool) -> int {
    if rev_comp {
        -position
    } else {
        position as int
    }
}

/// The key by which spaced words are compared: a missing fingerprint sorts first.
pub open spec fn fp_key(fp: Option<u64>) -> int {
    match fp {
        None => -1,
        Some(v) => v as int,
    }
}

/// A spaced word: where it was found, and its fingerprint. Words compare by
/// fingerprint alone, so that sorted lists group equal fingerprints whatever
/// sequence or position they come from.
#[derive(Debug, Clone, Eq)]
pub struct SpacedWord {
    pub seq_name: String,
    /// Offset in the sequence; negative when read on the reverse strand.
    pub position: i64,
    /// The fingerprint; `None` for a word that carries none.
    pub match_positions: Option<u64>,
    pub rev_comp: bool,
}

impl SpacedWord {
    /// The word's place in fingerprint order.
    pub open spec fn key(&self) -> int {
        fp_key(self.match_positions)
    }

    /// Builds a word; its fingerprint is that of `word` under `pattern` when both
    /// are given. Returns `None` when the word holds a non-nucleotide byte at a
    /// match position. On the reverse strand the position is negated.
    pub fn new(
        seq_name: &str,
        position: i64,
        word: &Option<&str>,
        pattern: &Option<&str>,
        rev_comp: bool,
    ) -> (r: Option<SpacedWord>)
        requires
            rev_comp ==> position > i64::MIN,
        ensures
            r matches Some(sw) ==> sw.seq_name@ == seq_name@ && sw.position == strand_position(
                position,
                rev_comp,
            ) && sw.rev_comp == rev_comp,
            match (*word, *pattern) {
                (Some(w), Some(p)) => match fingerprint(w.spec_bytes(), p.spec_bytes()) {
                    None => r is None,
                    Some(fp) => r is Some && r->0.match_positions == Some(fp),
                },
                _ => r is Some && r->0.match_positions is None,
            },
    {
        let pos: i64 = if rev_comp { -position } else { position };
        let mut match_positions: Option<u64> = None;
        if let (Some(w), Some(p)) = (word, pattern) {
            match SpacedWord::match_positions(w.as_bytes(), p.as_bytes()) {
                None => return None,
                Some(fp) => match_positions = Some(fp),
            }
        }
        Some(SpacedWord { seq_name: seq_name.to_owned(), position: pos, match_positions, rev_comp })
    }

    /// Fingerprint of `word` under `pattern` (see `fingerprint`).
    pub fn match_positions(word: &[u8], pattern: &[u8]) -> (r: Option<u64>)
        ensures
            r == fingerprint(word@, pattern@),
    {
        let n: usize = if word.len() <= pattern.len() { word.len() } else { pattern.len() };
        let mut acc: u64 = 0;
        let mut i: usize = 0;
        while i < n
            invariant
                i <= n,
                n <= word@.len(),
                n <= pattern@.len(),
                n == (if word@.len() <= pattern@.len() { word@.len() } else { pattern@.len() }),
                fingerprint_prefix(word@, pattern@, i as nat) == Some(acc),
                acc % 4 == 0,
            decreases n - i,
        {
            if pattern[i] == 49u8 {
                let b = word[i];
                let code: u64 = if b == 65u8 || b == 97u8 {
                    0
                } else if b == 67u8 || b == 99u8 {
                    1
                } else if b == 71u8 || b == 103u8 {
                    2
                } else if b == 84u8 || b == 116u8 {
                    3
                } else {
                    proof {
                        lemma_invalid_stays_invalid(word@, pattern@, (i + 1) as nat, n as nat);
                    }
                    return None;
                };
                assert(acc + code <= u64::MAX);
                let next = (acc + code).wrapping_mul(4);
                assert(next % 4 == 0) by {
                    lemma_pack_step_aligned(acc, code);
                }
                acc = next;
            }
            i = i + 1;
        }
        Some(acc)
    }

    /// Distance between the positions of two words.
    pub fn gap_size(&self, other: &SpacedWord) -> (r: i64)
        requires
            i64::MIN < self.position - other.position <= i64::MAX,
        ensures
            r == (if self.position >= other.position {
                self.position - other.position
            } else {
                other.position - self.position
            }),
    {
        let d = self.position - other.position;
        if d < 0 {
            -d
        } else {
            d
        }
    }

    /// A copy of the word.
    pub fn duplicate(&self) -> (r: SpacedWord)
        ensures
            r == *self,
    {
        SpacedWord {
            seq_name: self.seq_name.clone(),
            position: self.position,
            match_positions: self.match_positions,
            rev_comp: self.rev_comp,
        }
    }
}

proof fn lemma_pack_step_aligned(acc: u64, code: u64)
    requires
        acc + code <= u64::MAX,
    ensures
        pack_step(acc, code) % 4 == 0,
{
    let x: int = acc + code;
    assert(((x * 4) % 0x1_0000_0000_0000_0000) % 4 == 0) by (nonlinear_arith)
        requires
            0 <= x,
    ;
}

/// Once a prefix is invalid, every longer prefix is invalid too.
proof fn lemma_invalid_stays_invalid(word: Seq<u8>, pattern: Seq<u8>, i: nat, n: nat)
    requires
        i <= n,
        fingerprint_prefix(word, pattern, i) is None,
    ensures
        fingerprint_prefix(word, pattern, n) is None,
    decreases n - i,
{
    if i < n {
        assert(fingerprint_prefix(word, pattern, i + 1) is None);
        lemma_invalid_stays_invalid(word, pattern, i + 1, n);
    }
}

impl PartialEq for SpacedWord {
    fn eq(&self, other: &SpacedWord) -> (r: bool)
        ensures
            r == (self.match_positions == other.match_positions),
    {
        match (self.match_positions, other.match_positions) {
            (None, None) => true,
            (Some(a), Some(b)) => a == b,
            _ => false,
        }
    }
}

impl vstd::std_specs::cmp::PartialEqSpecImpl for SpacedWord {
    open spec fn obeys_eq_spec() -> bool {
        true
    }

    open spec fn eq_spec(&self, other: &SpacedWord) -> bool {
        self.match_positions == other.match_positions
    }
}

/// Ordering of two keys.
pub open spec fn key_ordering(a: int, b: int) -> core::cmp::Ordering {
    if a < b {
        core::cmp::Ordering::Less
    } else if a == b {
        core::cmp::Ordering::Equal
    } else {
        core::cmp::Ordering::Greater
    }
}

impl PartialOrd for SpacedWord {
    fn partial_cmp(&self, other: &SpacedWord) -> (r: Option<core::cmp::Ordering>)
        ensures
            r == Some(key_ordering(self.key(), other.key())),
    {
        let a: i128 = match self.match_positions {
            None => -1,
            Some(v) => v as i128,
        };
        let b: i128 = match other.match_positions {
            None => -1,
            Some(v) => v as i128,
        };
        if a < b {
            Some(core::cmp::Ordering::Less)
        } else if a == b {
            Some(core::cmp::Ordering::Equal)
        } else {
            Some(core::cmp::Ordering::Greater)
        }
    }
}

impl vstd::std_specs::cmp::PartialOrdSpecImpl for SpacedWord {
    open spec fn obeys_partial_cmp_spec() -> bool {
        true
    }

    open spec fn partial_cmp_spec(&self, other: &SpacedWord) -> Option<core::cmp::Ordering> {
        Some(key_ordering(self.key(), other.key()))
    }
}

} // verus!
