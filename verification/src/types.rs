//! Plain identifiers and quantities shared by every module.

use vstd::prelude::*;

verus! {

/// Identifies an account on the ledger.
pub type AccountId = u64;

/// An amount of tokens.
pub type Balance = u64;

/// A block height.
pub type BlockNumber = u64;

/// Identifies a certificate, and thereby a slot of the root-of-trust table.
pub type CertificateId = u64;

} // verus!
