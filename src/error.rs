//! Errors of the staking ledger.
use vstd::prelude::*;

verus! {

/// Kind of arithmetic operation that went out of range.
#[derive(Clone, Copy, Debug, PartialEq, Eq, Structural)]
pub enum OverflowOperation {
    Add,
    Sub,
    Mul,
}

/// An arithmetic operation whose result does not fit its type.
#[derive(Clone, Copy, Debug, PartialEq, Eq, Structural)]
pub struct OverflowError {
    pub operation: OverflowOperation,
    pub operand1: u128,
    pub operand2: u128,
}

/// Why a command of the ledger was rejected.
#[derive(Clone, Debug, PartialEq, Eq)]
pub enum ContractError {
    /// An amount went out of range; a subtraction here means too little stake.
    Overflow(OverflowError),
    /// A record that the command needs does not exist.
    NotFound,
    /// The caller is not the admin.
    NotAdmin,
    /// The observer is registered already.
    HookAlreadyRegistered,
    /// The observer is not registered.
    HookNotRegistered,
    Unauthorized,
    SameUnbondingRebond,
    NoRebondAmount,
    NothingToClaim,
    Cw20AddressesNotMatch { got: String, expected: String },
    NoFunds,
    NoData,
    NoUnbondingPeriodFound(u64),
    NoMembersToDistributeTo,
    /// An amount of zero where a positive one is needed.
    InvalidZeroAmount,
}

impl ContractError {
    /// Human-readable description of the error.
    pub fn message(&self) -> (r: String) {
        match self {
            ContractError::Overflow(_) => "Overflow".to_string(),
            ContractError::NotFound => "Not found".to_string(),
            ContractError::NotAdmin => "Caller is not admin".to_string(),
            ContractError::HookAlreadyRegistered => "Given address already registered as a hook".to_string(),
            ContractError::HookNotRegistered => "Given address not registered as a hook".to_string(),
            ContractError::Unauthorized => "Unauthorized".to_string(),
            ContractError::SameUnbondingRebond => "Cannot rebond to the same unbonding period".to_string(),
            ContractError::NoRebondAmount => "Rebond amount is invalid".to_string(),
            ContractError::NothingToClaim => "No claims that can be released currently".to_string(),
            ContractError::Cw20AddressesNotMatch { .. } => "Sender's CW20 token contract address does not match one from config".to_string(),
            ContractError::NoFunds => "No funds sent".to_string(),
            ContractError::NoData => "No data in ReceiveMsg".to_string(),
            ContractError::NoUnbondingPeriodFound(_) => "No unbonding period found".to_string(),
            ContractError::NoMembersToDistributeTo => "No members to distribute tokens to".to_string(),
            ContractError::InvalidZeroAmount => "Amount must be positive".to_string(),
        }
    }
}

} // verus!
