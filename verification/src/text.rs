//! Rendering of identifiers as decimal text.

use vstd::prelude::*;

verus! {

/// The byte `,`.
pub const COMMA: u8 = 44;

/// The decimal digits of `n`, without leading zeros.
pub open spec fn decimal(n: nat) -> Seq<u8>
    decreases n,
{
    if n < 10 {
        seq![(48 + n) as u8]
    } else {
        decimal(n / 10).push((48 + n % 10) as u8)
    }
}

/// The decimal renderings of `ids`, with a comma between neighbours.
pub open spec fn joined(ids: Seq<usize>) -> Seq<u8>
    decreases ids.len(),
{
    if ids.len() == 0 {
        Seq::empty()
    } else if ids.len() == 1 {
        decimal(ids[0] as nat)
    } else {
        joined(ids.drop_last()) + seq![COMMA] + decimal(ids.last() as nat)
    }
}

/// Appends the decimal digits of `n` to `out`.
pub fn push_decimal(out: &mut Vec<u8>, n: usize)
    ensures
        final(out)@ == old(out)@ + decimal(n as nat),
    decreases n,
{
    if n >= 10 {
        push_decimal(out, n / 10);
    }
    let digit: u8 = 48 + (n % 10) as u8;
    out.push(digit);
    proof {
        if n >= 10 {
            assert(out@ =~= old(out)@ + decimal((n / 10) as nat).push(digit));
        } else {
            assert(out@ =~= old(out)@ + seq![digit]);
        }
    }
}

/// The decimal digits of `n`.
pub fn render_id(n: usize) -> (text: Vec<u8>)
    ensures
        text@ == decimal(n as nat),
{
    let mut text: Vec<u8> = Vec::new();
    push_decimal(&mut text, n);
    proof {
        assert(Seq::<u8>::empty() + decimal(n as nat) =~= decimal(n as nat));
    }
    text
}

/// The identifiers as decimal numbers with commas between them; no text for
/// no identifier.
pub fn join_ids(ids: &Vec<usize>) -> (text: Vec<u8>)
    ensures
        text@ == joined(ids@),
{
    let mut text: Vec<u8> = Vec::new();
    let mut i: usize = 0;
    while i < ids.len()
        invariant
            i <= ids@.len(),
            text@ == joined(ids@.take(i as int)),
        decreases ids@.len() - i,
    {
        let ghost before = text@;
        if i > 0 {
            text.push(COMMA);
        }
        push_decimal(&mut text, ids[i]);
        proof {
            let next = ids@.take(i + 1);
            assert(next.drop_last() =~= ids@.take(i as int));
            assert(next.last() == ids@[i as int]);
            if i > 0 {
                assert(text@ =~= before + seq![COMMA] + decimal(ids@[i as int] as nat));
            } else {
                assert(text@ =~= decimal(ids@[i as int] as nat));
            }
        }
        i += 1;
    }
    proof {
        assert(ids@.take(ids@.len() as int) =~= ids@);
    }
    text
}

} // verus!
