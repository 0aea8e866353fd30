//! What the library asks of a frontend origin: that it is short enough, and
//! whether it looks like a development setup.

use vstd::prelude::*;
use vstd::slice::slice_subrange;
use vstd::utf8::encode_utf8;
use crate::ipv4::{is_local_ipv4, is_local_ipv4_host, stands_at};
use crate::types::DelegationError;

verus! {

/// The longest frontend origin that is accepted, in bytes.
pub const FRONTEND_HOSTNAME_LIMIT: usize = 255;

/// The byte `:`.
pub const COLON: u8 = 58;

/// The bytes of `http://`.
pub open spec fn insecure_scheme() -> Seq<u8> {
    seq![104u8, 116u8, 116u8, 112u8, 58u8, 47u8, 47u8]
}

/// The bytes of `https://`.
pub open spec fn secure_scheme() -> Seq<u8> {
    seq![104u8, 116u8, 116u8, 112u8, 115u8, 58u8, 47u8, 47u8]
}

/// The bytes of `localhost`.
pub open spec fn localhost() -> Seq<u8> {
    seq![108u8, 111u8, 99u8, 97u8, 108u8, 104u8, 111u8, 115u8, 116u8]
}

/// `needle` stands somewhere in `haystack`.
pub open spec fn occurs_in(needle: Seq<u8>, haystack: Seq<u8>) -> bool {
    exists|at: int| stands_at(haystack, at, needle)
}

/// The part of `s` before its first colon; all of `s` if it has none.
pub open spec fn until_colon(s: Seq<u8>) -> Seq<u8>
    decreases s.len(),
{
    if s.len() == 0 || s[0] == COLON {
        Seq::empty()
    } else {
        seq![s[0]] + until_colon(s.drop_first())
    }
}

/// Whether an origin, given as its UTF-8 bytes, most likely belongs to a
/// development setup: it is served over `http://`, or names `localhost`, or
/// is served over `https://` from a private or loopback IPv4 address. The
/// host is what stands between the scheme and the first colon behind it, so
/// an IPv6 literal, which has colons, is never recognised.
pub open spec fn is_dev_origin(origin: Seq<u8>) -> bool {
    ||| stands_at(origin, 0, insecure_scheme())
    ||| occurs_in(localhost(), origin)
    ||| (stands_at(origin, 0, secure_scheme()) && is_local_ipv4(
        until_colon(origin.skip(secure_scheme().len() as int)),
    ))
}

/// Whether `text` stands in `s` at the position `at`.
fn stands_here(s: &[u8], at: usize, text: &[u8]) -> (stands: bool)
    ensures
        stands == stands_at(s@, at as int, text@),
{
    if at > s.len() || text.len() > s.len() - at {
        return false;
    }
    let mut i: usize = 0;
    while i < text.len()
        invariant
            i <= text@.len(),
            at + text@.len() <= s@.len() <= usize::MAX,
            forall|k: int| 0 <= k < i ==> s@[at + k] == text@[k],
        decreases text@.len() - i,
    {
        if s[at + i] != text[i] {
            assert(s@.subrange(at as int, at + text@.len())[i as int] != text@[i as int]);
            return false;
        }
        i = i + 1;
    }
    assert(s@.subrange(at as int, at + text@.len()) =~= text@);
    true
}

/// Whether `needle` stands somewhere in `haystack`.
fn occurs(needle: &[u8], haystack: &[u8]) -> (found: bool)
    ensures
        found == occurs_in(needle@, haystack@),
{
    if needle.len() > haystack.len() {
        return false;
    }
    let last: usize = haystack.len() - needle.len();
    let mut at: usize = 0;
    loop
        invariant
            at <= last,
            last == haystack@.len() - needle@.len(),
            forall|k: int| 0 <= k < at ==> !stands_at(haystack@, k, needle@),
        decreases last - at,
    {
        if stands_here(haystack, at, needle) {
            return true;
        }
        if at == last {
            return false;
        }
        at = at + 1;
    }
}

/// The part of `s` before its first colon; all of `s` if it has none.
fn before_colon(s: &[u8]) -> (host: &[u8])
    ensures
        host@ == until_colon(s@),
{
    let mut i: usize = 0;
    proof {
        assert(s@.subrange(0, 0) + until_colon(s@.skip(0)) =~= until_colon(s@)) by {
            assert(s@.skip(0) =~= s@);
        }
    }
    while i < s.len() && s[i] != COLON
        invariant
            i <= s@.len(),
            until_colon(s@) == s@.subrange(0, i as int) + until_colon(s@.skip(i as int)),
        decreases s@.len() - i,
    {
        proof {
            assert(s@.skip(i as int).drop_first() =~= s@.skip(i + 1));
            assert(s@.subrange(0, i + 1) =~= s@.subrange(0, i as int) + seq![s@[i as int]]);
            assert(s@.subrange(0, i + 1) + until_colon(s@.skip(i + 1)) =~= s@.subrange(0, i as int)
                + (seq![s@[i as int]] + until_colon(s@.skip(i + 1))));
        }
        i = i + 1;
    }
    assert(until_colon(s@.skip(i as int)) =~= Seq::<u8>::empty());
    assert(s@.subrange(0, i as int) + Seq::<u8>::empty() =~= s@.subrange(0, i as int));
    slice_subrange(s, 0, i)
}

/// Accepts a frontend origin of at most `FRONTEND_HOSTNAME_LIMIT` bytes, and
/// rejects a longer one with its length and the limit.
pub fn check_frontend_length(frontend: &String) -> (checked: Result<(), DelegationError>)
    ensures
        match checked {
            Ok(_) => encode_utf8(frontend@).len() <= FRONTEND_HOSTNAME_LIMIT,
            Err(DelegationError::FrontendTooLong { length, limit }) => {
                &&& length == encode_utf8(frontend@).len()
                &&& limit == FRONTEND_HOSTNAME_LIMIT
                &&& length > limit
            },
            Err(_) => false,
        },
{
    let n = frontend.as_str().as_bytes().len();
    if n > FRONTEND_HOSTNAME_LIMIT {
        Err(DelegationError::FrontendTooLong { length: n, limit: FRONTEND_HOSTNAME_LIMIT })
    } else {
        Ok(())
    }
}

/// Whether a frontend origin most likely belongs to a development setup.
/// This is a heuristic: it decides what is recorded, never what is issued.
pub fn is_dev_frontend(frontend: &String) -> (dev: bool)
    ensures
        dev == is_dev_origin(encode_utf8(frontend@)),
{
    let origin = frontend.as_str().as_bytes();
    let http: [u8; 7] = [104, 116, 116, 112, 58, 47, 47];
    let https: [u8; 8] = [104, 116, 116, 112, 115, 58, 47, 47];
    let local: [u8; 9] = [108, 111, 99, 97, 108, 104, 111, 115, 116];
    assert(http@ =~= insecure_scheme());
    assert(https@ =~= secure_scheme());
    assert(local@ =~= localhost());
    if stands_here(origin, 0, http.as_slice()) || occurs(local.as_slice(), origin) {
        return true;
    }
    if stands_here(origin, 0, https.as_slice()) {
        let rest = slice_subrange(origin, 8, origin.len());
        assert(rest@ =~= origin@.skip(8));
        return is_local_ipv4_host(before_colon(rest));
    }
    false
}

} // verus!
