//! A token registry: a mint counter gated by an exact payment and a supply cap,
//! and an indexed ledger of owned tokens.
//!
//! The registry holds its state as plain values. Whoever embeds it reads that state
//! from a store before a transition and writes it back afterwards; a transition that
//! is rejected has changed nothing.

pub mod collection;
pub mod contract;
pub mod decimal;
pub mod error;
pub mod expiration;
pub mod index;
pub mod msg;
pub mod order;
pub mod paging;
pub mod response;
pub mod slot;
pub mod token;

pub use crate::contract::Cw721Contract;
pub use crate::error::ContractError;
pub use crate::msg::{ExecuteMsg, InstantiateMsg, NftDetailsResponse, QueryMsg};
