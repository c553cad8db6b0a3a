//! Plain-text renderings of blocks.

use vstd::prelude::*;
use vstd::string::*;
use crate::pblock::PBlock;
use crate::spaced_word::SpacedWord;

verus! {

/// The character of decimal digit `d`.
pub open spec fn digit_char(d: int) -> char {
    ('0' as int + d) as char
}

/// The decimal digits of `n`, without leading zeros.
pub open spec fn nat_digits(n: nat) -> Seq<char>
    decreases n,
{
    if n < 10 {
        seq![digit_char(n as int)]
    } else {
        nat_digits(n / 10).push(digit_char((n % 10) as int))
    }
}

/// `n` in decimal, with a leading `-` when negative.
pub open spec fn decimal(n: int) -> Seq<char> {
    if n < 0 {
        seq!['-'] + nat_digits((-n) as nat)
    } else {
        nat_digits(n as nat)
    }
}

fn digit_str(d: u64) -> (r: &'static str)
    requires
        d < 10,
    ensures
        r@ == seq![digit_char(d as int)],
{
    proof {
        reveal_strlit("0");
        reveal_strlit("1");
        reveal_strlit("2");
        reveal_strlit("3");
        reveal_strlit("4");
        reveal_strlit("5");
        reveal_strlit("6");
        reveal_strlit("7");
        reveal_strlit("8");
        reveal_strlit("9");
    }
    match d {
        0 => "0",
        1 => "1",
        2 => "2",
        3 => "3",
        4 => "4",
        5 => "5",
        6 => "6",
        7 => "7",
        8 => "8",
        _ => "9",
    }
}

fn push_digits(s: &mut String, m: u64)
    ensures
        final(s)@ == old(s)@ + nat_digits(m as nat),
    decreases m,
{
    if m >= 10 {
        push_digits(s, m / 10);
    }
    let ghost before = s@;
    s.append(digit_str(m % 10));
    proof {
        if m >= 10 {
            assert(nat_digits(m as nat) == nat_digits((m / 10) as nat).push(digit_char((m % 10) as int)));
        }
    }
    assert(s@ =~= old(s)@ + nat_digits(m as nat));
}

/// Appends `n` in decimal to `s`.
pub fn push_decimal(s: &mut String, n: i64)
    ensures
        final(s)@ == old(s)@ + decimal(n as int),
{
    if n < 0 {
        proof {
            reveal_strlit("-");
        }
        s.append("-");
        let m: u64 = (-(n as i128)) as u64;
        push_digits(s, m);
        assert(s@ =~= old(s)@ + decimal(n as int));
    } else {
        push_digits(s, n as u64);
    }
}

/// One line of `blocks_to_string`: `name:position; ` for the first four words,
/// the last followed by a newline instead.
pub open spec fn block_line(b: Seq<SpacedWord>) -> Seq<char> {
    b[0].seq_name@ + seq![':'] + decimal(b[0].position as int) + seq![';', ' '] + b[1].seq_name@
        + seq![':'] + decimal(b[1].position as int) + seq![';', ' '] + b[2].seq_name@ + seq![':']
        + decimal(b[2].position as int) + seq![';', ' '] + b[3].seq_name@ + seq![':'] + decimal(
        b[3].position as int,
    ) + seq!['\n']
}

/// The lines of the blocks, one after the other.
pub open spec fn blocks_text(bs: Seq<Seq<SpacedWord>>) -> Seq<char>
    decreases bs.len(),
{
    if bs.len() == 0 {
        Seq::empty()
    } else {
        blocks_text(bs.drop_last()) + block_line(bs.last())
    }
}

fn push_word(s: &mut String, w: &SpacedWord, last: bool)
    ensures
        final(s)@ == old(s)@ + w.seq_name@ + seq![':'] + decimal(w.position as int) + if last {
            seq!['\n']
        } else {
            seq![';', ' ']
        },
{
    proof {
        reveal_strlit(":");
        reveal_strlit("\n");
        reveal_strlit("; ");
    }
    s.append(w.seq_name.as_str());
    s.append(":");
    push_decimal(s, w.position);
    if last {
        s.append("\n");
    } else {
        s.append("; ");
    }
    assert(s@ =~= old(s)@ + w.seq_name@ + seq![':'] + decimal(w.position as int) + if last {
        seq!['\n']
    } else {
        seq![';', ' ']
    });
}

impl PBlock {
    /// One line per block: the first four words as `name:position`, separated
    /// by `; `.
    pub fn blocks_to_string(blocks: &[PBlock]) -> (r: String)
        requires
            forall|i: int| 0 <= i < blocks@.len() ==> (#[trigger] blocks@[i])@.len() >= 4,
        ensures
            r@ == blocks_text(blocks@.map_values(|b: PBlock| b@)),
    {
        let ghost views = blocks@.map_values(|b: PBlock| b@);
        let mut result = String::new();
        let mut i: usize = 0;
        while i < blocks.len()
            invariant
                i <= blocks@.len(),
                views == blocks@.map_values(|b: PBlock| b@),
                forall|k: int| 0 <= k < blocks@.len() ==> (#[trigger] blocks@[k])@.len() >= 4,
                result@ == blocks_text(views.subrange(0, i as int)),
            decreases blocks@.len() - i,
        {
            let b = &blocks[i];
            let ghost before = result@;
            push_word(&mut result, &b.0[0], false);
            push_word(&mut result, &b.0[1], false);
            push_word(&mut result, &b.0[2], false);
            push_word(&mut result, &b.0[3], true);
            proof {
                assert(views.subrange(0, i + 1).drop_last() =~= views.subrange(0, i as int));
                assert(views.subrange(0, i + 1).last() == b@);
                assert(result@ =~= before + block_line(b@));
            }
            i = i + 1;
        }
        assert(views.subrange(0, blocks@.len() as int) =~= views);
        result
    }
}

} // verus!
