//! A multi-asset accounting ledger: a type registry for fungible and
//! non-fungible tokens, per-account balance and instance-ownership storage,
//! operator approvals at several granularities, and a safe-transfer protocol
//! that commits custody changes before consulting the recipient and rolls
//! them back if the recipient declines.

pub mod byte_map;
pub mod erc1155;
pub mod erc20;
pub mod erc721;
pub mod game_contract;
pub mod hashing;
pub mod pair_map;
