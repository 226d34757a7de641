//! Numbers as decimal text, for hosts that want a sum in writing.

use vstd::prelude::*;

verus! {

/// The decimal digits of `n` as ASCII characters, the most significant
/// first, without leading zeros.
pub open spec fn decimal_digits(n: nat) -> Seq<u8>
    decreases n,
{
    if n < 10 {
        seq![(48 + n) as u8]
    } else {
        decimal_digits(n / 10).push((48 + n % 10) as u8)
    }
}

/// The decimal digits of `n`.
pub fn digits_of(n: usize) -> (d: Vec<u8>)
    ensures
        d@ == decimal_digits(n as nat),
    decreases n,
{
    if n < 10 {
        let mut d: Vec<u8> = Vec::new();
        d.push(48 + n as u8);
        assert(d@ =~= seq![(48 + n) as u8]);
        d
    } else {
        let mut d = digits_of(n / 10);
        d.push(48 + (n % 10) as u8);
        d
    }
}

/// The decimal digits of the sum of `a` and `b`.
pub fn sum_digits(a: usize, b: usize) -> (d: Vec<u8>)
    requires
        a + b <= usize::MAX,
    ensures
        d@ == decimal_digits((a + b) as nat),
{
    digits_of(a + b)
}

} // verus!
