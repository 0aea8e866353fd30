//! Delegation issuance for an identity provider on the Internet Computer.
//!
//! For a user anchor and a frontend origin the library derives a seed, hashes
//! the delegation that binds a session key to it, keeps the hash in a
//! certified signature store until it is pruned, and hands the certified
//! signature out again on request. It also keeps a bounded registry of the
//! production origins that asked for delegations recently.
//!
//! Clock readings, the canister's own identifier and the data certificate are
//! plain arguments: the library never reads the environment.

pub mod sha256;
pub mod byte_order;
pub mod canister_sig;
pub mod certified_tree;
pub mod decimal;
pub mod delegation;
pub mod frontend;
pub mod hash;
pub mod ipv4;
pub mod leb128;
pub mod message_hash_laws;
pub mod origins;
pub mod seed;
pub mod signature_map;
pub mod types;
