//! Messages of the staking ledger, in plain values.
use vstd::prelude::*;

use crate::ledger::StakeConfig;

verus! {

/// Parameters of a new ledger.
#[derive(Clone, Debug)]
pub struct InstantiateMsg {
    /// Address of the token contract whose tokens are staked.
    pub cw20_contract: String,
    pub tokens_per_power: u128,
    pub min_bond: u128,
    pub stake_config: Vec<StakeConfig>,
    /// The admin may only add and remove observers.
    pub admin: Option<String>,
}

/// What a token contract asks for when it delegates tokens to the ledger.
#[derive(Clone, Copy, Debug, PartialEq, Eq, Structural)]
pub enum ReceiveDelegationMsg {
    /// Bond the delegated tokens in the bucket of `unbonding_period` (seconds).
    Delegate { unbonding_period: u64 },
}

/// Commands of the ledger.
#[derive(Clone, Debug)]
#[allow(inconsistent_fields)]
pub enum ExecuteMsg {
    Rebond { tokens: u128, bond_from: u64, bond_to: u64 },
    Unbond { tokens: u128, unbonding_period: u64 },
    Claim,
    UpdateAdmin { admin: Option<String> },
    AddHook { addr: String },
    RemoveHook { addr: String },
    /// Tokens delegated by `sender` through the token contract.
    ReceiveDelegation { sender: String, amount: u128, msg: ReceiveDelegationMsg },
    DistributeRewards { sender: Option<String> },
    WithdrawRewards { owner: Option<String>, receiver: Option<String> },
    DelegateWithdrawal { delegated: String },
}

/// Queries of the ledger.
#[derive(Clone, Debug)]
pub enum QueryMsg {
    Claims { address: String },
    Staked { address: String, unbonding_period: u64 },
    AllStaked { address: String },
    TotalStaked,
    TotalUnbonding,
    TotalRewards,
    Rewards { address: String },
    Admin,
    Hooks,
    BondingInfo,
    VotingPowerAtHeight { address: String, height: Option<u64> },
    TotalPowerAtHeight { height: Option<u64> },
    WithdrawableRewards { owner: String },
    DistributedRewards,
    UndistributedRewards,
    Delegated { owner: String },
}

} // verus!
