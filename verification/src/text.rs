//! Building strings.
use vstd::prelude::*;

verus! {

/// Calls `String::push`: appends `c` to `s`.
#[verifier::external_body]
pub(crate) fn push_char(s: &mut String, c: char)
    ensures
        final(s)@ == old(s)@.push(c),
{
    s.push(c)
}

/// The decimal digit of `d` (below 10).
pub open spec fn decimal_digit(d: nat) -> char {
    (48 + d) as char
}

/// `n` in decimal, without leading zeros.
pub open spec fn decimal(n: nat) -> Seq<char>
    decreases n,
{
    if n < 10 {
        seq![decimal_digit(n)]
    } else {
        decimal(n / 10) + seq![decimal_digit(n % 10)]
    }
}

/// `n` written in decimal.
pub fn u64_to_decimal(n: u64) -> (s: String)
    ensures
        s@ == decimal(n as nat),
{
    // The digits, least significant first.
    let mut digits: Vec<char> = Vec::new();
    let mut v = n;
    loop
        invariant_except_break
            decimal(n as nat) == decimal(v as nat) + digits@.reverse(),
        ensures
            decimal(n as nat) == digits@.reverse(),
        decreases v,
    {
        let d = (v % 10) as u8;
        let c = (48 + d) as char;
        let ghost before = digits@;
        digits.push(c);
        if v < 10 {
            proof {
                assert(digits@.reverse() =~= seq![c] + before.reverse());
                assert(decimal(v as nat) == seq![c]);
                assert(decimal(n as nat) =~= digits@.reverse());
            }
            break;
        }
        proof {
            assert(digits@.reverse() =~= seq![c] + before.reverse());
            assert(decimal(v as nat) == decimal((v / 10) as nat) + seq![c]);
            assert(decimal(n as nat) =~= decimal((v / 10) as nat) + digits@.reverse());
        }
        v = v / 10;
    }
    let mut s = String::new();
    let mut i = digits.len();
    while i > 0
        invariant
            0 <= i <= digits@.len(),
            s@ == digits@.reverse().take((digits@.len() - i) as int),
            decimal(n as nat) =~= digits@.reverse(),
        decreases i,
    {
        i = i - 1;
        push_char(&mut s, digits[i]);
        proof {
            assert(s@ =~= digits@.reverse().take((digits@.len() - i) as int));
        }
    }
    proof {
        assert(digits@.reverse().take(digits@.len() as int) =~= digits@.reverse());
    }
    s
}

} // verus!
