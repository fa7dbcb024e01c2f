//! Messages of the pair factory that shares this network's asset types.
use vstd::prelude::*;
use crate::asset::AssetInfo;

verus! {

/// Sets a factory up.
#[derive(Debug, Clone)]
pub struct InstantiateMsg {
    /// Code id of the pair contract the factory instantiates.
    pub pair_code_id: u64,
    pub token_code_id: u64,
    pub fee_collector_addr: String,
}

/// What a factory can be asked.
pub enum QueryMsg {
    Config {},
    Pair { asset_infos: [AssetInfo; 2] },
    Pairs { start_after: Option<[AssetInfo; 2]>, limit: Option<u32> },
    NativeTokenDecimals { denom: String },
}

#[derive(Debug, Clone)]
pub struct ConfigResponse {
    pub owner: String,
    pub fee_collector_addr: String,
    pub pair_code_id: u64,
    pub token_code_id: u64,
}

/// A migration takes no arguments.
#[derive(Debug, Clone, Copy, PartialEq, Eq, Structural)]
pub struct MigrateMsg {}

#[derive(Debug, Clone, Copy, PartialEq, Eq, Structural)]
pub struct NativeTokenDecimalsResponse {
    pub decimals: u8,
}

} // verus!
