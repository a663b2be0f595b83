//! Numbers rendered as text.

use vstd::prelude::*;
use vstd::string::*;

verus! {

/// The character of one digit below sixteen.
pub open spec fn digit(n: nat) -> char {
    "0123456789abcdef"@[n as int]
}

/// `n` in decimal, without leading zeros.
pub open spec fn decimal(n: nat) -> Seq<char>
    decreases n,
{
    if n < 10 {
        seq![digit(n)]
    } else {
        decimal(n / 10).push(digit(n % 10))
    }
}

/// Two hexadecimal digits per byte.
pub open spec fn hex(s: Seq<u8>) -> Seq<char>
    decreases s.len(),
{
    if s.len() == 0 {
        Seq::empty()
    } else {
        hex(s.drop_last()).push(digit(s.last() as nat / 16)).push(digit(s.last() as nat % 16))
    }
}

fn push_digit(out: &mut String, n: u8)
    requires
        n < 16,
    ensures
        final(out)@ == old(out)@.push(digit(n as nat)),
{
    let digits = "0123456789abcdef";
    proof {
        reveal_strlit("0123456789abcdef");
    }
    out.append(digits.substring_ascii(n as usize, n as usize + 1));
    proof {
        assert(out@ =~= old(out)@.push(digit(n as nat)));
    }
}

/// Append `n` in decimal.
pub fn push_decimal(out: &mut String, n: u8)
    ensures
        final(out)@ == old(out)@ + decimal(n as nat),
    decreases n,
{
    if n >= 10 {
        push_decimal(out, n / 10);
    }
    push_digit(out, n % 10);
    proof {
        assert(out@ =~= old(out)@ + decimal(n as nat));
    }
}

/// `b` in hexadecimal.
pub fn to_hex(b: &[u8]) -> (out: String)
    ensures
        out@ == hex(b@),
{
    let mut out = String::new();
    let mut i: usize = 0;
    proof {
        assert(b@.take(0) =~= Seq::empty());
        assert(out@ =~= hex(b@.take(0)));
    }
    while i < b.len()
        invariant
            i <= b@.len(),
            out@ == hex(b@.take(i as int)),
        decreases b@.len() - i,
    {
        push_digit(&mut out, b[i] / 16);
        push_digit(&mut out, b[i] % 16);
        proof {
            assert(b@.take(i + 1).drop_last() =~= b@.take(i as int));
        }
        i = i + 1;
    }
    proof {
        assert(b@.take(i as int) =~= b@);
    }
    out
}

} // verus!
