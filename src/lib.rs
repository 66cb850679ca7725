//! A fractional-ownership ledger: assets minted in fixed supplies, balances
//! per owner, a paginated owner list per asset, and the approvals and
//! allowances that let operators move an owner's tokens. Every operation is
//! verified against an abstract model of the ledger.
pub mod error;
pub mod governance;
pub mod laws;
pub mod ledger;
pub mod model;
pub mod pages;
pub mod total;

pub use error::LedgerError;
pub use governance::{ExecutionResult, GovernanceError, GovernanceParams};
pub use ledger::FractionalizationContract;
pub use pages::{MAX_OWNERS_PER_PAGE, OwnerIndex};

use vstd::prelude::*;

verus! {

/// An account identity. The ledger only compares identities and uses them as
/// keys, so a plain integer is all it needs.
pub type Address = u64;

} // verus!
