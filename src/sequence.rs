//! Genome sequences held in memory, and the spaced words read from them.

use vstd::prelude::*;
use vstd::string::*;
use vstd::utf8::{decode_utf8, encode_utf8, encode_utf8_decode_utf8, valid_utf8};
use crate::spaced_word::{SpacedWord, fingerprint, strand_position};

verus! {

/// A named sequence with both of its strands.
#[derive(Debug)]
pub struct Sequence {
    pub name: String,
    /// The strand as read (upper case).
    pub sequence: String,
    /// The reverse complement of `sequence` (upper case).
    pub seq_rev: String,
    /// Whether `sequence` is itself the reverse strand of the genome.
    pub is_rev_comp: bool,
}

/// The complement of a base, IUPAC codes included; any other byte is its own
/// complement.
pub open spec fn complement_base(b: u8) -> u8 {
    match b {
        97u8 => 116u8,  // a -> t
        65u8 => 84u8,  // A -> T
        99u8 => 103u8,  // c -> g
        67u8 => 71u8,  // C -> G
        103u8 => 99u8,  // g -> c
        71u8 => 67u8,  // G -> C
        116u8 => 97u8,  // t -> a
        84u8 => 65u8,  // T -> A
        114u8 => 121u8,  // r -> y
        121u8 => 114u8,  // y -> r
        107u8 => 109u8,  // k -> m
        109u8 => 107u8,  // m -> k
        98u8 => 118u8,  // b -> v
        118u8 => 98u8,  // v -> b
        100u8 => 104u8,  // d -> h
        104u8 => 100u8,  // h -> d
        82u8 => 89u8,  // R -> Y
        89u8 => 82u8,  // Y -> R
        75u8 => 77u8,  // K -> M
        77u8 => 75u8,  // M -> K
        66u8 => 86u8,  // B -> V
        86u8 => 66u8,  // V -> B
        68u8 => 72u8,  // D -> H
        72u8 => 68u8,  // H -> D
        x => x,  // s, w, S, W and anything else
    }
}

/// The reverse complement of a strand.
pub open spec fn reverse_complement_of(s: Seq<u8>) -> Seq<u8> {
    Seq::new(s.len(), |i: int| complement_base(s[s.len() - 1 - i]))
}

/// Relies on `needletail::sequence::Sequence::reverse_complement` for `[u8]`:
/// the bytes in reverse order, each replaced by its complement.
#[verifier::external_body]
fn reverse_complement(seq: &[u8]) -> (r: Vec<u8>)
    ensures
        r@ == reverse_complement_of(seq@),
{
    needletail::sequence::Sequence::reverse_complement(seq)
}

/// Relies on `String::from_utf8`: it succeeds exactly on valid UTF-8, and the
/// string then holds those bytes.
#[verifier::external_body]
fn utf8_string(bytes: Vec<u8>) -> (r: Option<String>)
    ensures
        r is Some <==> valid_utf8(bytes@),
        r matches Some(s) ==> encode_utf8(s@) == bytes@,
{
    String::from_utf8(bytes).ok()
}

/// What `str::to_uppercase` makes of a string.
pub uninterp spec fn upper_of(s: Seq<char>) -> Seq<char>;

/// Relies on `str::to_uppercase`: the result depends on the characters alone.
#[verifier::external_body]
fn uppercase(s: &str) -> (r: String)
    ensures
        r@ == upper_of(s@),
{
    s.to_uppercase()
}

/// The text of valid UTF-8 bytes, upper-cased.
fn upper_text(bytes: Vec<u8>) -> (r: Option<String>)
    ensures
        r is Some <==> valid_utf8(bytes@),
        r matches Some(s) ==> s@ == upper_of(decode_utf8(bytes@)),
{
    let ghost b = bytes@;
    match utf8_string(bytes) {
        None => None,
        Some(text) => {
            proof {
                encode_utf8_decode_utf8(text@);
            }
            Some(uppercase(text.as_str()))
        },
    }
}

/// The spaced word that starts at offset `i` of `strand`, if its window holds a
/// nucleotide at every match position of `pattern`.
pub open spec fn word_at(
    name: String,
    strand: Seq<u8>,
    pattern: Seq<u8>,
    i: int,
    rev_comp: bool,
) -> Option<SpacedWord> {
    match fingerprint(strand.subrange(i, i + pattern.len()), pattern) {
        None => None,
        Some(fp) => Some(
            SpacedWord {
                seq_name: name,
                position: strand_position(i as i64, rev_comp) as i64,
                match_positions: Some(fp),
                rev_comp,
            },
        ),
    }
}

/// The valid spaced words that start at offsets `lo..hi` of `strand`, in order.
pub open spec fn words_between(
    name: String,
    strand: Seq<u8>,
    pattern: Seq<u8>,
    lo: int,
    hi: int,
    rev_comp: bool,
) -> Seq<SpacedWord>
    decreases hi - lo,
{
    if hi <= lo {
        Seq::empty()
    } else {
        let prefix = words_between(name, strand, pattern, lo, hi - 1, rev_comp);
        match word_at(name, strand, pattern, hi - 1, rev_comp) {
            None => prefix,
            Some(w) => prefix.push(w),
        }
    }
}

/// First offset of the window `[min_pos, max_pos)` once clamped to a strand of
/// `len` bytes.
pub open spec fn window_start(min_pos: int) -> int {
    if min_pos < 0 {
        0
    } else {
        min_pos
    }
}

/// End of the window `[min_pos, max_pos)` once clamped to a strand of `len` bytes.
pub open spec fn window_end(max_pos: int, len: int) -> int {
    if max_pos > len {
        len
    } else {
        max_pos
    }
}

impl Sequence {
    /// The bytes of the strand as read.
    pub open spec fn forward(&self) -> Seq<u8> {
        encode_utf8(self.sequence@)
    }

    /// The bytes of the reverse strand.
    pub open spec fn backward(&self) -> Seq<u8> {
        encode_utf8(self.seq_rev@)
    }

    /// The bytes of the strand selected by `reverse`.
    pub open spec fn strand(&self, reverse: bool) -> Seq<u8> {
        if reverse {
            self.backward()
        } else {
            self.forward()
        }
    }

    /// The spaced words of the strand selected by `reverse` whose windows lie
    /// in `[min_pos, max_pos)`, as `spaced_words` returns them.
    pub open spec fn spec_spaced_words(
        &self,
        pattern: Seq<u8>,
        min_pos: int,
        max_pos: int,
        reverse: bool,
    ) -> Seq<SpacedWord> {
        let strand = self.strand(reverse);
        let lo = window_start(min_pos);
        let hi = window_end(max_pos, strand.len() as int);
        if pattern.len() > hi - lo {
            Seq::empty()
        } else {
            words_between(
                self.name,
                strand,
                pattern,
                lo,
                hi - pattern.len() + 1,
                self.is_rev_comp != reverse,
            )
        }
    }

    /// The sequence of a FASTA record named `id` whose strand is `seq`: both
    /// strands upper-cased, the reverse one the reverse complement of `seq`.
    /// `None` when the name or a strand is not UTF-8.
    pub fn from_record(id: &[u8], seq: &[u8]) -> (r: Option<Sequence>)
        ensures
            r is Some <==> valid_utf8(id@) && valid_utf8(seq@) && valid_utf8(
                reverse_complement_of(seq@),
            ),
            r matches Some(s) ==> {
                &&& encode_utf8(s.name@) == id@
                &&& s.sequence@ == upper_of(decode_utf8(seq@))
                &&& s.seq_rev@ == upper_of(decode_utf8(reverse_complement_of(seq@)))
                &&& !s.is_rev_comp
            },
    {
        let seq_rev = match upper_text(reverse_complement(seq)) {
            None => return None,
            Some(t) => t,
        };
        let name = match utf8_string(vstd::slice::slice_to_vec(id)) {
            None => return None,
            Some(t) => t,
        };
        let sequence = match upper_text(vstd::slice::slice_to_vec(seq)) {
            None => return None,
            Some(t) => t,
        };
        Some(Sequence { name, sequence, seq_rev, is_rev_comp: false })
    }

    /// Length of the sequence in bytes.
    pub fn len(&self) -> (r: usize)
        ensures
            r == self.forward().len(),
    {
        self.sequence.as_str().as_bytes().len()
    }

    pub fn is_empty(&self) -> (r: bool)
        ensures
            r == (self.forward().len() == 0),
    {
        self.len() == 0
    }

    /// The same sequence read from its other strand.
    pub fn get_rev_comp(&self) -> (r: Sequence)
        ensures
            r.name == self.name,
            r.sequence == self.seq_rev,
            r.seq_rev == self.sequence,
            r.is_rev_comp == !self.is_rev_comp,
    {
        Sequence {
            name: self.name.clone(),
            sequence: self.seq_rev.clone(),
            seq_rev: self.sequence.clone(),
            is_rev_comp: !self.is_rev_comp,
        }
    }

    /// The valid spaced words of the strand selected by `reverse` that start at
    /// an offset `i` with `min_pos <= i` and `i + k <= max_pos`, `k` being the
    /// pattern's length, after the window is clamped to the strand. A word read
    /// on the genome's reverse strand has its position negated.
    pub fn spaced_words(&self, pattern: &str, min_pos: i64, max_pos: i64, reverse: bool) -> (r: Vec<
        SpacedWord,
    >)
        requires
            min_pos <= max_pos,
        ensures
            r@ == self.spec_spaced_words(pattern.spec_bytes(), min_pos as int, max_pos as int, reverse),
    {
        let seq: &[u8] = if reverse {
            self.seq_rev.as_str().as_bytes()
        } else {
            self.sequence.as_str().as_bytes()
        };
        let pat: &[u8] = pattern.as_bytes();
        let rev_comp: bool = self.is_rev_comp != reverse;
        let ghost strand = self.strand(reverse);
        assert(seq@ == strand);
        let mut result: Vec<SpacedWord> = Vec::new();
        let n: usize = seq.len();
        let lo: i128 = if min_pos < 0 {
            0
        } else {
            min_pos as i128
        };
        let hi: i128 = if max_pos as i128 > n as i128 {
            n as i128
        } else {
            max_pos as i128
        };
        let k: i128 = pat.len() as i128;
        if k > hi - lo {
            return result;
        }
        let end: i128 = hi - k + 1;
        let mut i: i128 = lo;
        while i < end
            invariant
                0 <= lo <= i <= end,
                end + k == hi + 1,
                k == pat@.len(),
                hi <= n,
                n == seq@.len(),
                hi <= max_pos,
                seq@ == strand,
                rev_comp == (self.is_rev_comp != reverse),
                result@ == words_between(self.name, strand, pat@, lo as int, i as int, rev_comp),
            decreases end - i,
        {
            let start: usize = i as usize;
            let stop: usize = (i + k) as usize;
            let word: &[u8] = vstd::slice::slice_subrange(seq, start, stop);
            let fp = SpacedWord::match_positions(word, pat);
            proof {
                assert(word@ == strand.subrange(i as int, i + pat@.len()));
            }
            match fp {
                None => {},
                Some(v) => {
                    let position: i64 = if rev_comp {
                        -(i as i64)
                    } else {
                        i as i64
                    };
                    result.push(
                        SpacedWord {
                            seq_name: self.name.clone(),
                            position,
                            match_positions: Some(v),
                            rev_comp,
                        },
                    );
                },
            }
            i = i + 1;
        }
        result
    }
}

} // verus!
