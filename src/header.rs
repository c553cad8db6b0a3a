//! The records of a block file: each record header names a spaced word as
//! `<sequence> <_> <position> <_> <strand>`, fields separated by single spaces,
//! where a strand field of `1)` marks the reverse strand; every four records
//! make one block.

use vstd::prelude::*;
use vstd::string::*;
use crate::order::is_perm;
use crate::names::sorted_by_name;
use crate::pblock::PBlock;
use crate::spaced_word::{SpacedWord, strand_position};

verus! {

/// Offset of the first space of `s`, or its length when it has none.
pub open spec fn first_space(s: Seq<char>) -> int
    decreases s.len(),
{
    if s.len() == 0 {
        0
    } else if s[0] == ' ' {
        0
    } else {
        1 + first_space(s.drop_first())
    }
}

/// The fields of `s` between single spaces, as `str::split(' ')` yields them.
pub open spec fn split_spaces(s: Seq<char>) -> Seq<Seq<char>>
    decreases s.len(),
{
    let p = first_space(s);
    if p < 0 || p >= s.len() {
        seq![s]
    } else {
        seq![s.subrange(0, p)] + split_spaces(s.subrange(p + 1, s.len() as int))
    }
}

proof fn lemma_first_space(s: Seq<char>, p: int)
    requires
        0 <= p <= s.len(),
        forall|j: int| 0 <= j < p ==> s[j] != ' ',
        p == s.len() || s[p] == ' ',
    ensures
        first_space(s) == p,
    decreases p,
{
    if p > 0 {
        lemma_first_space(s.drop_first(), p - 1);
    }
}

/// The fields of `s` from offset `from` on, where the next space is at `p`.
proof fn lemma_split_at_space(s: Seq<char>, from: int, p: int)
    requires
        0 <= from <= p < s.len(),
        forall|j: int| from <= j < p ==> s[j] != ' ',
        s[p] == ' ',
    ensures
        split_spaces(s.subrange(from, s.len() as int)) == seq![s.subrange(from, p)] + split_spaces(
            s.subrange(p + 1, s.len() as int),
        ),
{
    let t = s.subrange(from, s.len() as int);
    lemma_first_space(t, p - from);
    assert(t.subrange(0, p - from) =~= s.subrange(from, p));
    assert(t.subrange(p - from + 1, t.len() as int) =~= s.subrange(p + 1, s.len() as int));
}

/// The fields of `s` from offset `from` on, where no space follows.
proof fn lemma_split_no_space(s: Seq<char>, from: int)
    requires
        0 <= from <= s.len(),
        forall|j: int| from <= j < s.len() ==> s[j] != ' ',
    ensures
        split_spaces(s.subrange(from, s.len() as int)) == seq![s.subrange(from, s.len() as int)],
{
    let t = s.subrange(from, s.len() as int);
    lemma_first_space(t, t.len() as int);
}

/// The value of a string of decimal digits.
pub open spec fn digits_value(s: Seq<char>) -> int
    decreases s.len(),
{
    if s.len() == 0 {
        0
    } else {
        digits_value(s.drop_last()) * 10 + (s.last() as int - '0' as int)
    }
}

pub open spec fn all_digits(s: Seq<char>) -> bool {
    forall|i: int| 0 <= i < s.len() ==> '0' <= #[trigger] s[i] <= '9'
}

/// A decimal integer as `i64::from_str` reads it: an optional sign, then one
/// or more digits, of a value in range.
pub open spec fn parse_i64_spec(s: Seq<char>) -> Option<i64> {
    let neg = s.len() > 0 && s[0] == '-';
    let d = if s.len() > 0 && (s[0] == '-' || s[0] == '+') {
        s.drop_first()
    } else {
        s
    };
    let v = if neg {
        -digits_value(d)
    } else {
        digits_value(d)
    };
    if d.len() == 0 || !all_digits(d) || v < i64::MIN || v > i64::MAX {
        None
    } else {
        Some(v as i64)
    }
}

proof fn lemma_digits_value_nonneg(s: Seq<char>)
    requires
        all_digits(s),
    ensures
        digits_value(s) >= 0,
    decreases s.len(),
{
    if s.len() > 0 {
        assert(all_digits(s.drop_last()));
        lemma_digits_value_nonneg(s.drop_last());
    }
}

/// Reads a decimal `i64` (see `parse_i64_spec`).
pub fn parse_i64(s: &str) -> (r: Option<i64>)
    ensures
        r == parse_i64_spec(s@),
{
    let n = s.unicode_len();
    let mut i: usize = 0;
    let mut neg = false;
    if n > 0 {
        let c = s.get_char(0);
        if c == '-' || c == '+' {
            neg = c == '-';
            i = 1;
        }
    }
    let ghost d = s@.subrange(i as int, n as int);
    assert(d =~= (if s@.len() > 0 && (s@[0] == '-' || s@[0] == '+') {
        s@.drop_first()
    } else {
        s@
    }));
    if i == n {
        return None;
    }
    let start = i;
    let mut acc: i128 = 0;
    let mut big = false;
    while i < n
        invariant
            n == s@.len(),
            start <= i <= n,
            d == s@.subrange(start as int, n as int),
            d == (if s@.len() > 0 && (s@[0] == '-' || s@[0] == '+') {
                s@.drop_first()
            } else {
                s@
            }),
            neg == (s@.len() > 0 && s@[0] == '-'),
            all_digits(s@.subrange(start as int, i as int)),
            !big ==> acc == digits_value(s@.subrange(start as int, i as int)),
            big ==> digits_value(s@.subrange(start as int, i as int)) > 0x8000_0000_0000_0000,
            0 <= acc <= 0x8000_0000_0000_0000,
        decreases n - i,
    {
        let c = s.get_char(i);
        if c < '0' || c > '9' {
            assert(d[i - start] == c);
            return None;
        }
        let ghost prev = s@.subrange(start as int, i as int);
        let ghost next = s@.subrange(start as int, i + 1);
        proof {
            assert(next.drop_last() =~= prev);
            assert(next.last() == c);
            assert(all_digits(next));
            lemma_digits_value_nonneg(prev);
        }
        let digit: i128 = (c as u32 - '0' as u32) as i128;
        if !big {
            let v = acc * 10 + digit;
            if v > 0x8000_0000_0000_0000 {
                big = true;
            } else {
                acc = v;
            }
        }
        i = i + 1;
    }
    assert(s@.subrange(start as int, n as int) == d);
    if big {
        return None;
    }
    if neg {
        Some((-acc) as i64)
    } else if acc > i64::MAX as i128 {
        None
    } else {
        Some(acc as i64)
    }
}

/// Offset of the first space of `s` at or after `from`, or `None`.
fn next_space(s: &str, n: usize, from: usize) -> (r: Option<usize>)
    requires
        n == s@.len(),
        from <= n,
    ensures
        match r {
            Some(p) => from <= p < n && s@[p as int] == ' ' && forall|j: int|
                from <= j < p ==> #[trigger] s@[j] != ' ',
            None => forall|j: int| from <= j < n ==> #[trigger] s@[j] != ' ',
        },
{
    let mut i = from;
    while i < n
        invariant
            n == s@.len(),
            from <= i <= n,
            forall|j: int| from <= j < i ==> #[trigger] s@[j] != ' ',
        decreases n - i,
    {
        if s.get_char(i) == ' ' {
            return Some(i);
        }
        i = i + 1;
    }
    None
}

/// The word a block-file record header describes: the name is field 0, the
/// position field 2, and a field 4 of `1)` marks the reverse strand (the
/// position is then negated). `None` when there are fewer than five fields,
/// when field 2 is not a decimal `i64`, or when a reverse-strand position
/// cannot be negated.
pub open spec fn header_word(header: Seq<char>) -> Option<(Seq<char>, int, bool)> {
    let f = split_spaces(header);
    if f.len() < 5 {
        None
    } else {
        match parse_i64_spec(f[2]) {
            None => None,
            Some(p) => {
                let rev = f[4] == seq!['1', ')'];
                if rev && p == i64::MIN {
                    None
                } else {
                    Some((f[0], strand_position(p, rev), rev))
                }
            },
        }
    }
}

/// Reads the word a record header describes (see `header_word`).
pub fn parse_header(header: &str) -> (r: Option<SpacedWord>)
    ensures
        match header_word(header@) {
            None => r is None,
            Some((name, position, rev)) => r matches Some(w) && w.seq_name@ == name && w.position
                == position && w.rev_comp == rev && w.match_positions is None,
        },
{
    let n = header.unicode_len();
    let ghost h = header@;
    assert(h.subrange(0, n as int) =~= h);
    let space0 = match next_space(header, n, 0) {
        None => {
            proof {
                lemma_split_no_space(h, 0);
            }
            return None;
        },
        Some(p) => p,
    };
    proof {
        lemma_split_at_space(h, 0, space0 as int);
    }
    let space1 = match next_space(header, n, space0 + 1) {
        None => {
            proof {
                lemma_split_no_space(h, space0 + 1);
            }
            return None;
        },
        Some(p) => p,
    };
    proof {
        lemma_split_at_space(h, space0 + 1, space1 as int);
    }
    let space2 = match next_space(header, n, space1 + 1) {
        None => {
            proof {
                lemma_split_no_space(h, space1 + 1);
            }
            return None;
        },
        Some(p) => p,
    };
    proof {
        lemma_split_at_space(h, space1 + 1, space2 as int);
    }
    let space3 = match next_space(header, n, space2 + 1) {
        None => {
            proof {
                lemma_split_no_space(h, space2 + 1);
            }
            return None;
        },
        Some(p) => p,
    };
    proof {
        lemma_split_at_space(h, space2 + 1, space3 as int);
    }
    let space4: usize = match next_space(header, n, space3 + 1) {
        None => {
            proof {
                lemma_split_no_space(h, space3 + 1);
            }
            n
        },
        Some(p) => {
            proof {
                lemma_split_at_space(h, space3 + 1, p as int);
            }
            p
        },
    };
    proof {
        let f = split_spaces(h);
        assert(f.len() >= 5);
        assert(f[0] == h.subrange(0, space0 as int));
        assert(f[2] == h.subrange(space1 + 1, space2 as int));
        assert(f[4] == h.subrange(space3 + 1, space4 as int));
    }
    let name = header.substring_char(0, space0);
    let pos_field = header.substring_char(space1 + 1, space2);
    let strand = header.substring_char(space3 + 1, space4);
    let rev = strand.unicode_len() == 2 && strand.get_char(0) == '1' && strand.get_char(1) == ')';
    assert(rev == (strand@ == seq!['1', ')'])) by {
        if strand@.len() == 2 && strand@[0] == '1' && strand@[1] == ')' {
            assert(strand@ =~= seq!['1', ')']);
        }
    }
    match parse_i64(pos_field) {
        None => None,
        Some(p) => {
            if rev && p == i64::MIN {
                None
            } else {
                SpacedWord::new(name, p, &None, &None, rev)
            }
        },
    }
}

/// Why a list of record headers does not make blocks.
#[derive(Debug, PartialEq, Eq, Structural, Clone, Copy)]
pub enum BlockFileError {
    /// The header at this index does not describe a word.
    BadRecord(usize),
    /// The number of records is not a multiple of four.
    NotQuartets,
}

/// What a block keeps of each word read from a header.
pub open spec fn word_info(w: SpacedWord) -> (Seq<char>, int, bool) {
    (w.seq_name@, w.position as int, w.rev_comp)
}

/// Every header up to `n` describes a word.
pub open spec fn headers_ok(h: Seq<String>, n: int) -> bool {
    forall|i: int| 0 <= i < n ==> #[trigger] header_word(h[i]@) is Some
}

/// The four words of records `4k..4k+4`.
pub open spec fn quartet_words(h: Seq<String>, k: int) -> Seq<(Seq<char>, int, bool)> {
    seq![
        header_word(h[4 * k]@)->0,
        header_word(h[4 * k + 1]@)->0,
        header_word(h[4 * k + 2]@)->0,
        header_word(h[4 * k + 3]@)->0,
    ]
}

/// Reads the blocks of a block file from its record headers: every four
/// records, in order, make one block, sorted by species name. Fails on the
/// first header that does not describe a word, then when the number of
/// records is not a multiple of four.
pub fn blocks_from_headers(headers: &Vec<String>) -> (r: Result<Vec<PBlock>, BlockFileError>)
    ensures
        match r {
            Err(BlockFileError::BadRecord(i)) => i < headers@.len() && headers_ok(headers@, i as int)
                && header_word(headers@[i as int]@) is None,
            Err(BlockFileError::NotQuartets) => headers_ok(headers@, headers@.len() as int)
                && headers@.len() % 4 != 0,
            Ok(blocks) => {
                &&& headers_ok(headers@, headers@.len() as int)
                &&& headers@.len() % 4 == 0
                &&& blocks@.len() == headers@.len() / 4
                &&& forall|k: int|
                    0 <= k < blocks@.len() ==> sorted_by_name(#[trigger] blocks@[k]@) && is_perm(
                        blocks@[k]@.map_values(|w: SpacedWord| word_info(w)),
                        quartet_words(headers@, k),
                    )
            },
        },
{
    let mut words: Vec<SpacedWord> = Vec::new();
    let mut i: usize = 0;
    while i < headers.len()
        invariant
            i <= headers@.len(),
            words@.len() == i,
            headers_ok(headers@, i as int),
            forall|j: int|
                0 <= j < i ==> word_info(#[trigger] words@[j]) == header_word(headers@[j]@)->0,
        decreases headers@.len() - i,
    {
        match parse_header(headers[i].as_str()) {
            None => return Err(BlockFileError::BadRecord(i)),
            Some(w) => words.push(w),
        }
        i = i + 1;
    }
    if words.len() % 4 != 0 {
        return Err(BlockFileError::NotQuartets);
    }
    let mut blocks: Vec<PBlock> = Vec::new();
    let mut k: usize = 0;
    while k < words.len() / 4
        invariant
            words@.len() == headers@.len(),
            words@.len() % 4 == 0,
            k <= words@.len() / 4,
            blocks@.len() == k,
            forall|j: int|
                0 <= j < words@.len() ==> word_info(#[trigger] words@[j]) == header_word(headers@[j]@)->0,
            forall|q: int|
                0 <= q < k ==> sorted_by_name(#[trigger] blocks@[q]@) && is_perm(
                    blocks@[q]@.map_values(|w: SpacedWord| word_info(w)),
                    quartet_words(headers@, q),
                ),
        decreases words@.len() / 4 - k,
    {
        let mut chunk: Vec<SpacedWord> = Vec::new();
        chunk.push(words[4 * k].duplicate());
        chunk.push(words[4 * k + 1].duplicate());
        chunk.push(words[4 * k + 2].duplicate());
        chunk.push(words[4 * k + 3].duplicate());
        let ghost c = chunk@;
        let b = PBlock::from_spaced_words(chunk);
        proof {
            let f = |w: SpacedWord| word_info(w);
            let p = choose|p: Seq<int>| crate::order::perm_witness(p, b@, c);
            crate::order::lemma_perm_map(p, b@, c, f);
            assert(c.map_values(f) =~= quartet_words(headers@, k as int)) by {
                assert(word_info(words@[4 * k]) == header_word(headers@[4 * k]@)->0);
                assert(word_info(words@[4 * k + 1]) == header_word(headers@[4 * k + 1]@)->0);
                assert(word_info(words@[4 * k + 2]) == header_word(headers@[4 * k + 2]@)->0);
                assert(word_info(words@[4 * k + 3]) == header_word(headers@[4 * k + 3]@)->0);
            }
        }
        blocks.push(b);
        k = k + 1;
    }
    Ok(blocks)
}

} // verus!
