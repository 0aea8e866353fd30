//! The values that pass between the library and its callers.

use vstd::prelude::*;
use vstd::string::StringExecFns;
use crate::decimal::{decimal, decimal_digits, lemma_decimal_shape};

verus! {

/// The number of a user anchor.
pub type AnchorNumber = u64;

/// The origin of a frontend, such as `https://example.com`.
pub type FrontendHostname = String;

/// A public key, DER-encoded.
pub type PublicKey = Vec<u8>;

/// The public key of a session.
pub type SessionKey = PublicKey;

/// The public key that stands for a user towards one frontend.
pub type UserKey = PublicKey;

/// A point in time, in nanoseconds since the epoch.
pub type Timestamp = u64;

/// Which of the provider's own domains a request came in through.
#[derive(Clone, Copy, Debug, PartialEq, Eq)]
pub enum IIDomain {
    Ic0App,
    InternetComputerOrg,
}

/// Why a request was rejected before anything changed.
#[derive(Clone, Copy, Debug, PartialEq, Eq)]
pub enum DelegationError {
    /// The frontend origin is longer than the limit, both in bytes.
    FrontendTooLong { length: usize, limit: usize },
    /// The origin would be recorded, but no capacity was ever set for the
    /// registry of origins.
    OriginCapacityNotSet,
}

/// The decimal notation of `n` as a text.
pub open spec fn decimal_text(n: nat) -> Seq<char> {
    Seq::new(decimal(n).len(), |i: int| decimal(n)[i] as char)
}

/// What a caller is told when a request is rejected: for a frontend that is
/// too long, its length and the limit.
pub open spec fn rejection_message(error: DelegationError) -> Seq<char> {
    match error {
        DelegationError::FrontendTooLong { length, limit } => "frontend hostname "@ + decimal_text(
            length as nat,
        ) + " exceeds the limit of "@ + decimal_text(limit as nat) + " bytes"@,
        DelegationError::OriginCapacityNotSet =>
            "the maximum number of latest delegation origins is not set"@,
    }
}

/// Writes the decimal notation of `n` behind `text`.
fn push_decimal(text: &mut String, n: usize)
    ensures
        final(text)@ == old(text)@ + decimal_text(n as nat),
{
    let digits = decimal_digits(n as u64);
    let mut i: usize = 0;
    proof {
        lemma_decimal_shape(n as nat);
        assert(decimal_text(n as nat).subrange(0, 0) =~= Seq::<char>::empty());
        assert(text@ + Seq::<char>::empty() =~= text@);
    }
    while i < digits.len()
        invariant
            i <= digits@.len(),
            digits@ == decimal(n as nat),
            forall|k: int| 0 <= k < digits@.len() ==> 48 <= #[trigger] digits@[k] <= 57,
            text@ == old(text)@ + decimal_text(n as nat).subrange(0, i as int),
        decreases digits@.len() - i,
    {
        let digit = digits[i];
        let shown: &str = if digit == 48 {
            "0"
        } else if digit == 49 {
            "1"
        } else if digit == 50 {
            "2"
        } else if digit == 51 {
            "3"
        } else if digit == 52 {
            "4"
        } else if digit == 53 {
            "5"
        } else if digit == 54 {
            "6"
        } else if digit == 55 {
            "7"
        } else if digit == 56 {
            "8"
        } else {
            "9"
        };
        proof {
            reveal_strlit("0");
            reveal_strlit("1");
            reveal_strlit("2");
            reveal_strlit("3");
            reveal_strlit("4");
            reveal_strlit("5");
            reveal_strlit("6");
            reveal_strlit("7");
            reveal_strlit("8");
            reveal_strlit("9");
            assert(shown@ =~= seq![digit as char]);
            assert(decimal_text(n as nat).subrange(0, i + 1) =~= decimal_text(n as nat).subrange(
                0,
                i as int,
            ) + seq![digit as char]);
        }
        text.append(shown);
        i = i + 1;
        assert(text@ =~= old(text)@ + decimal_text(n as nat).subrange(0, i as int));
    }
    assert(decimal_text(n as nat).subrange(0, i as int) =~= decimal_text(n as nat));
}

impl DelegationError {
    /// What a caller is told when a request is rejected with this error.
    pub fn message(&self) -> (message: String)
        ensures
            message@ == rejection_message(*self),
    {
        match self {
            DelegationError::FrontendTooLong { length, limit } => {
                let mut message = String::from_str("frontend hostname ");
                push_decimal(&mut message, *length);
                message.append(" exceeds the limit of ");
                push_decimal(&mut message, *limit);
                message.append(" bytes");
                message
            },
            DelegationError::OriginCapacityNotSet => String::from_str(
                "the maximum number of latest delegation origins is not set",
            ),
        }
    }
}

/// A statement that lets a session key act for a user until it expires.
pub struct Delegation {
    pub pubkey: PublicKey,
    pub expiration: Timestamp,
    /// The canisters that the delegation is restricted to, each by the bytes
    /// of its principal; `None` for no restriction.
    pub targets: Option<Vec<Vec<u8>>>,
}

/// A delegation with the certified signature that proves it.
pub struct SignedDelegation {
    pub delegation: Delegation,
    pub signature: Vec<u8>,
}

/// The answer to a request for a delegation that was prepared before.
pub enum GetDelegationResponse {
    SignedDelegation(SignedDelegation),
    NoSuchDelegation,
}

} // verus!
