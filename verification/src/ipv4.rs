//! IPv4 addresses in dotted-decimal notation.

use vstd::prelude::*;
use crate::byte_order::same_bytes;
use crate::decimal::{
    decimal, decimal_digits, decimal_value, is_digit, lemma_decimal_len, lemma_decimal_shape,
    lemma_decimal_value,
};

verus! {

/// The byte `.`.
pub const DOT: u8 = 46;

/// The notation of the address `a.b.c.d`: four numbers in decimal, without
/// leading zeros, with a dot between them.
pub open spec fn dotted_quad(a: u8, b: u8, c: u8, d: u8) -> Seq<u8> {
    decimal(a as nat) + seq![DOT] + decimal(b as nat) + seq![DOT] + decimal(c as nat) + seq![DOT]
        + decimal(d as nat)
}

/// Whether `a.b.c.d` lies in one of the private ranges 10.0.0.0/8,
/// 172.16.0.0/12 and 192.168.0.0/16.
pub open spec fn is_private(a: u8, b: u8) -> bool {
    a == 10 || (a == 172 && 16 <= b <= 31) || (a == 192 && b == 168)
}

/// Whether `a.b.c.d` lies in the loopback range 127.0.0.0/8.
pub open spec fn is_loopback(a: u8) -> bool {
    a == 127
}

/// Whether `host` is the notation of a private or loopback IPv4 address.
pub open spec fn is_local_ipv4(host: Seq<u8>) -> bool {
    exists|a: u8, b: u8, c: u8, d: u8|
        host == #[trigger] dotted_quad(a, b, c, d) && (is_private(a, b) || is_loopback(a))
}

/// `text` stands in `s` at the position `start`.
pub open spec fn stands_at(s: Seq<u8>, start: int, text: Seq<u8>) -> bool {
    0 <= start && start + text.len() <= s.len() && s.subrange(start, start + text.len()) == text
}

/// No digit stands in `s` at the position `at`.
pub open spec fn no_digit_at(s: Seq<u8>, at: int) -> bool {
    at == s.len() || (0 <= at < s.len() && !is_digit(s[at]))
}

/// Where the parts of a dotted quad stand in it.
proof fn lemma_quad_layout(a: u8, b: u8, c: u8, d: u8)
    ensures
        ({
            let q = dotted_quad(a, b, c, d);
            let la = decimal(a as nat).len() as int;
            let lb = decimal(b as nat).len() as int;
            let lc = decimal(c as nat).len() as int;
            let ld = decimal(d as nat).len() as int;
            &&& q.len() == la + lb + lc + ld + 3
            &&& stands_at(q, 0, decimal(a as nat))
            &&& q[la] == DOT
            &&& stands_at(q, la + 1, decimal(b as nat))
            &&& q[la + lb + 1] == DOT
            &&& stands_at(q, la + lb + 2, decimal(c as nat))
            &&& q[la + lb + lc + 2] == DOT
            &&& stands_at(q, la + lb + lc + 3, decimal(d as nat))
            &&& 1 <= la <= 3
            &&& 1 <= lb <= 3
            &&& 1 <= lc <= 3
            &&& 1 <= ld <= 3
        }),
{
    let q = dotted_quad(a, b, c, d);
    let la = decimal(a as nat).len() as int;
    let lb = decimal(b as nat).len() as int;
    let lc = decimal(c as nat).len() as int;
    let ld = decimal(d as nat).len() as int;
    lemma_decimal_len(a as nat);
    lemma_decimal_len(b as nat);
    lemma_decimal_len(c as nat);
    lemma_decimal_len(d as nat);
    lemma_decimal_shape(a as nat);
    lemma_decimal_shape(b as nat);
    lemma_decimal_shape(c as nat);
    lemma_decimal_shape(d as nat);
    assert(q.subrange(0, la) =~= decimal(a as nat));
    assert(q.subrange(la + 1, la + 1 + lb) =~= decimal(b as nat));
    assert(q.subrange(la + lb + 2, la + lb + 2 + lc) =~= decimal(c as nat));
    assert(q.subrange(la + lb + lc + 3, la + lb + lc + 3 + ld) =~= decimal(d as nat));
}

/// Reads the number that stands in `s` at `start` as a run of one to three
/// digits, and returns it with the position behind the run. Every number up
/// to 255 whose notation stands there, with no digit behind it, is read.
fn read_octet(s: &[u8], start: usize) -> (read: Option<(u8, usize)>)
    requires
        start <= s@.len(),
    ensures
        read matches Some((_, next)) ==> start < next <= s@.len(),
        forall|v: u8|
            stands_at(s@, start as int, #[trigger] decimal(v as nat)) && no_digit_at(
                s@,
                start + decimal(v as nat).len(),
            ) ==> (read matches Some((number, next)) && number == v && next == start + decimal(
                v as nat,
            ).len()),
{
    let mut i: usize = start;
    let mut value: u32 = 0;
    assert(s@.subrange(start as int, i as int) =~= Seq::<u8>::empty());
    while i < s.len() && i - start < 4 && 48 <= s[i] && s[i] <= 57
        invariant
            start <= i <= s@.len(),
            i - start <= 4,
            value == decimal_value(s@.subrange(start as int, i as int)),
            i - start == 0 ==> value == 0,
            i - start == 1 ==> value < 10,
            i - start == 2 ==> value < 100,
            i - start == 3 ==> value < 1000,
            i - start == 4 ==> value < 10000,
            forall|k: int| start <= k < i ==> is_digit(#[trigger] s@[k]),
        ensures
            i == s@.len() || i - start == 4 || !is_digit(s@[i as int]),
        decreases s@.len() - i,
    {
        proof {
            let longer = s@.subrange(start as int, i + 1);
            assert(longer.drop_last() =~= s@.subrange(start as int, i as int));
            assert(longer.last() == s@[i as int]);
        }
        value = value * 10 + (s[i] - 48) as u32;
        i = i + 1;
    }
    let read = if i == start || i - start > 3 || value > 255 {
        None
    } else {
        Some((value as u8, i))
    };
    proof {
        assert forall|v: u8|
            stands_at(s@, start as int, #[trigger] decimal(v as nat)) && no_digit_at(
                s@,
                start + decimal(v as nat).len(),
            ) implies (read matches Some((number, next)) && number == v && next == start
            + decimal(v as nat).len()) by {
            let text = decimal(v as nat);
            let end = start + text.len();
            lemma_decimal_shape(v as nat);
            lemma_decimal_len(v as nat);
            lemma_decimal_value(v as nat);
            assert(forall|k: int| start <= k < end ==> s@[k] == text[k - start]);
            if i < end {
                assert(is_digit(text[i - start]));
            }
            if i > end {
                assert(is_digit(s@[end as int]));
            }
            assert(s@.subrange(start as int, i as int) =~= text);
        }
    }
    read
}

/// The notation of the address `a.b.c.d`.
fn write_quad(a: u8, b: u8, c: u8, d: u8) -> (text: Vec<u8>)
    ensures
        text@ == dotted_quad(a, b, c, d),
{
    let mut text = decimal_digits(a as u64);
    text.push(DOT);
    let second = decimal_digits(b as u64);
    text.extend_from_slice(second.as_slice());
    text.push(DOT);
    let third = decimal_digits(c as u64);
    text.extend_from_slice(third.as_slice());
    text.push(DOT);
    let fourth = decimal_digits(d as u64);
    text.extend_from_slice(fourth.as_slice());
    assert(text@ =~= dotted_quad(a, b, c, d));
    text
}

/// Reads `host` as an IPv4 address in dotted-decimal notation. The address
/// is returned exactly when `host` is its notation: four numbers up to 255
/// without leading zeros, three dots, and nothing else.
pub fn parse_ipv4(host: &[u8]) -> (quad: Option<(u8, u8, u8, u8)>)
    ensures
        forall|a: u8, b: u8, c: u8, d: u8|
            host@ == #[trigger] dotted_quad(a, b, c, d) <==> quad == Some((a, b, c, d)),
{
    proof {
        assert forall|a: u8, b: u8, c: u8, d: u8| host@ == #[trigger] dotted_quad(a, b, c, d) implies {
            let la = decimal(a as nat).len() as int;
            let lb = decimal(b as nat).len() as int;
            let lc = decimal(c as nat).len() as int;
            &&& stands_at(host@, 0, decimal(a as nat)) && no_digit_at(host@, la)
            &&& stands_at(host@, la + 1, decimal(b as nat)) && no_digit_at(host@, la + 1 + lb)
            &&& stands_at(host@, la + lb + 2, decimal(c as nat)) && no_digit_at(
                host@,
                la + lb + 2 + lc,
            )
            &&& stands_at(host@, la + lb + lc + 3, decimal(d as nat)) && no_digit_at(
                host@,
                la + lb + lc + 3 + decimal(d as nat).len(),
            )
            &&& host@[la] == DOT && host@[la + lb + 1] == DOT && host@[la + lb + lc + 2] == DOT
        } by {
            lemma_quad_layout(a, b, c, d);
        }
    }
    let first = read_octet(host, 0);
    if first.is_none() {
        return None;
    }
    let (a, after_a) = first.unwrap();
    if after_a >= host.len() || host[after_a] != DOT {
        return None;
    }
    let second = read_octet(host, after_a + 1);
    if second.is_none() {
        return None;
    }
    let (b, after_b) = second.unwrap();
    if after_b >= host.len() || host[after_b] != DOT {
        return None;
    }
    let third = read_octet(host, after_b + 1);
    if third.is_none() {
        return None;
    }
    let (c, after_c) = third.unwrap();
    if after_c >= host.len() || host[after_c] != DOT {
        return None;
    }
    let fourth = read_octet(host, after_c + 1);
    if fourth.is_none() {
        return None;
    }
    let (d, _end) = fourth.unwrap();
    let text = write_quad(a, b, c, d);
    if same_bytes(text.as_slice(), host) {
        Some((a, b, c, d))
    } else {
        None
    }
}

/// Whether `host` is the notation of a private or loopback IPv4 address.
pub fn is_local_ipv4_host(host: &[u8]) -> (local: bool)
    ensures
        local == is_local_ipv4(host@),
{
    match parse_ipv4(host) {
        Some((a, b, _c, _d)) => {
            assert(host@ == dotted_quad(a, b, _c, _d));
            a == 10 || (a == 172 && 16 <= b && b <= 31) || (a == 192 && b == 168) || a == 127
        },
        None => false,
    }
}

} // verus!
