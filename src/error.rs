use vstd::prelude::*;

verus! {

/// Why a ledger operation was refused. A refused operation changes nothing.
#[derive(Clone, Copy, Debug, PartialEq, Eq, Structural)]
pub enum LedgerError {
    /// `initialize` was called on a ledger that already has an admin.
    AlreadyInitialized,
    /// The operation needs an admin and none has been set.
    NotInitialized,
    /// A required signer did not sign.
    Unauthorized,
    /// An amount of zero was given.
    ZeroAmount,
    /// Sender and recipient are the same account.
    SelfTransfer,
    /// Two paired lists differ in length.
    LengthMismatch,
    /// The recipient list is empty.
    NoRecipients,
    /// Asset id 0 was given where an existing asset is required.
    ReservedAssetId,
    /// The asset was never minted.
    AssetNotFound,
    /// The sender holds less than the amount.
    InsufficientBalance,
    /// The operator's allowance is below the amount.
    InsufficientAllowance,
    /// A counter or an amount would leave its integer range.
    Overflow,
}

} // verus!
