//! Unsigned LEB128: seven bits per byte, least significant group first, the
//! high bit set on every byte but the last.

use vstd::prelude::*;

verus! {

/// The unsigned LEB128 encoding of `n`.
pub open spec fn leb128(n: nat) -> Seq<u8>
    decreases n,
{
    if n < 128 {
        seq![n as u8]
    } else {
        seq![(128 + n % 128) as u8] + leb128(n / 128)
    }
}

/// Two numbers with the same encoding are equal.
pub proof fn lemma_leb128_injective(a: nat, b: nat)
    requires
        leb128(a) == leb128(b),
    ensures
        a == b,
    decreases a,
{
    if a >= 128 && b >= 128 {
        let ta = leb128(a / 128);
        let tb = leb128(b / 128);
        assert(leb128(a) == seq![(128 + a % 128) as u8] + ta);
        assert(leb128(b) == seq![(128 + b % 128) as u8] + tb);
        assert(leb128(a)[0] == (128 + a % 128) as u8);
        assert(leb128(b)[0] == (128 + b % 128) as u8);
        assert(ta =~= leb128(a).drop_first());
        assert(tb =~= leb128(b).drop_first());
        lemma_leb128_injective(a / 128, b / 128);
        assert(a % 128 == b % 128);
        assert(a == 128 * (a / 128) + a % 128);
        assert(b == 128 * (b / 128) + b % 128);
    } else if a >= 128 {
        assert(leb128(a / 128).len() >= 1) by {
            reveal_with_fuel(leb128, 2);
        }
        assert(leb128(a).len() >= 2);
    } else if b >= 128 {
        assert(leb128(b / 128).len() >= 1) by {
            reveal_with_fuel(leb128, 2);
        }
        assert(leb128(b).len() >= 2);
    } else {
        assert(leb128(a)[0] == a as u8);
        assert(leb128(b)[0] == b as u8);
    }
}

/// Encodes `value` in unsigned LEB128.
pub fn leb128_encode(value: u64) -> (bytes: Vec<u8>)
    ensures
        bytes@ == leb128(value as nat),
{
    let mut bytes: Vec<u8> = Vec::new();
    let mut n: u64 = value;
    while n >= 128
        invariant
            leb128(value as nat) == bytes@ + leb128(n as nat),
        decreases n,
    {
        let group: u8 = (128 + n % 128) as u8;
        proof {
            assert(leb128(n as nat) =~= seq![group] + leb128((n / 128) as nat));
            assert(bytes@ + leb128(n as nat) =~= bytes@.push(group) + leb128((n / 128) as nat));
        }
        bytes.push(group);
        n = n / 128;
    }
    bytes.push(n as u8);
    assert(bytes@ =~= bytes@.drop_last() + leb128(n as nat));
    bytes
}

} // verus!
