//! Plain-value interface types for the account-creation collaborator.
//! The registry library defines only the data carried across that
//! boundary; deriving keys and assembling ledger operations is the
//! surrounding application's concern.

use vstd::prelude::*;

verus! {

/// Inputs to an account-creation request: the funding wallet's secret
/// seed and the starting balance, both as entered by the user.
pub struct CreateAccountOptions {
    pub secret: String,
    pub starting_balance: String,
}

/// Failures an account-creation request can report back, each carrying
/// the offending input or a description.
pub enum CreateAccountError {
    InvalidSecretKey(String),
    GeneralError(String),
}

} // verus!
