//! Decimal notation of natural numbers, as ASCII digits.

use vstd::prelude::*;

verus! {

/// The ASCII digit for `d`, where `d < 10`.
pub open spec fn digit_byte(d: nat) -> u8 {
    (48 + d) as u8
}

/// The decimal notation of `n`: most significant digit first, no leading
/// zero except for `0` itself.
pub open spec fn decimal(n: nat) -> Seq<u8>
    decreases n,
{
    if n < 10 {
        seq![digit_byte(n)]
    } else {
        decimal(n / 10).push(digit_byte(n % 10))
    }
}

/// Whether `b` is one of the ASCII digits `0` to `9`.
pub open spec fn is_digit(b: u8) -> bool {
    48 <= b <= 57
}

/// The number that a string of ASCII digits denotes, read most significant
/// digit first.
pub open spec fn decimal_value(s: Seq<u8>) -> nat
    decreases s.len(),
{
    if s.len() == 0 {
        0
    } else {
        decimal_value(s.drop_last()) * 10 + (s.last() - 48) as nat
    }
}

/// The notation of a number consists of digits only, is never empty, and
/// starts with `0` only for the number 0.
pub proof fn lemma_decimal_shape(n: nat)
    ensures
        decimal(n).len() >= 1,
        forall|i: int| 0 <= i < decimal(n).len() ==> is_digit(#[trigger] decimal(n)[i]),
        decimal(n)[0] == 48 <==> n == 0,
    decreases n,
{
    if n >= 10 {
        lemma_decimal_shape(n / 10);
    }
}

/// Reading the notation of `n` gives `n` back.
pub proof fn lemma_decimal_value(n: nat)
    ensures
        decimal_value(decimal(n)) == n,
    decreases n,
{
    if n < 10 {
        assert(decimal(n).drop_last() =~= Seq::<u8>::empty());
        assert(decimal_value(decimal(n).drop_last()) == 0);
    } else {
        lemma_decimal_value(n / 10);
        assert(decimal(n).drop_last() =~= decimal(n / 10));
    }
}

/// Two numbers with the same notation are equal.
pub proof fn lemma_decimal_injective(a: nat, b: nat)
    requires
        decimal(a) == decimal(b),
    ensures
        a == b,
{
    lemma_decimal_value(a);
    lemma_decimal_value(b);
}

/// The notation of `n` has `k` digits exactly when `10^(k-1) <= n < 10^k`,
/// for the lengths that this library meets.
pub proof fn lemma_decimal_len(n: nat)
    ensures
        n < 10 <==> decimal(n).len() == 1,
        10 <= n < 100 <==> decimal(n).len() == 2,
        100 <= n < 1000 <==> decimal(n).len() == 3,
        n <= u64::MAX ==> decimal(n).len() <= 20,
{
    reveal_with_fuel(decimal, 21);
}

/// The decimal notation of `n`.
pub fn decimal_digits(n: u64) -> (digits: Vec<u8>)
    ensures
        digits@ == decimal(n as nat),
{
    let mut low_first: Vec<u8> = Vec::new();
    let mut m: u64 = n;
    while m >= 10
        invariant
            decimal(n as nat) == decimal(m as nat) + low_first@.reverse(),
        decreases m,
    {
        let d: u8 = (m % 10) as u8;
        proof {
            let pushed = low_first@.push((48 + d) as u8);
            assert(pushed.reverse() =~= seq![(48 + d) as u8] + low_first@.reverse());
            assert(decimal(m as nat) =~= decimal((m / 10) as nat).push(digit_byte((m % 10) as nat)));
            assert(decimal(m as nat) + low_first@.reverse() =~= decimal((m / 10) as nat)
                + pushed.reverse());
        }
        low_first.push(48 + d);
        m = m / 10;
    }
    let last: u8 = m as u8;
    low_first.push(48 + last);
    proof {
        assert(decimal(m as nat) =~= seq![digit_byte(m as nat)]);
        assert(low_first@.reverse() =~= decimal(m as nat) + low_first@.drop_last().reverse());
    }
    let mut digits: Vec<u8> = Vec::new();
    let mut i: usize = low_first.len();
    while i > 0
        invariant
            i <= low_first.len(),
            digits@ == low_first@.reverse().subrange(0, low_first.len() - i),
        decreases i,
    {
        i = i - 1;
        digits.push(low_first[i]);
        assert(digits@ =~= low_first@.reverse().subrange(0, low_first.len() - i));
    }
    assert(digits@ =~= low_first@.reverse());
    digits
}

} // verus!
