//! Domain separation tags.
//!
//! Every tag names one structure, and no two are alike. The encoding version is
//! folded into each tag, so that a change to the canonical encoding produces a
//! different hash rather than silently reinterpreting old bytes.

use vstd::prelude::*;

verus! {

/// Canonically encoded entry, encoding version 1.
pub const ENTRY_V1: &'static str = "doubleentry/entry/v1";

/// Account path.
pub const ACCOUNT_V1: &'static str = "doubleentry/account/v1";

/// Period seal.
pub const SEAL_V1: &'static str = "doubleentry/seal/v1";

/// One row of a trial-balance commitment.
pub const TRIAL_BALANCE_V1: &'static str = "doubleentry/trialbalance/v1";

/// One handle-to-account binding in the registry commitment.
pub const ACCOUNT_BINDING_V1: &'static str = "doubleentry/accountbinding/v1";

/// The root of an empty Merkle log.
pub const MERKLE_EMPTY_V1: &'static str = "doubleentry/merkle/empty/v1";

/// One leaf of a Merkle log.
pub const MERKLE_LEAF_V1: &'static str = "doubleentry/merkle/leaf/v1";

/// One interior node of a Merkle log.
pub const MERKLE_NODE_V1: &'static str = "doubleentry/merkle/node/v1";

} // verus!
