//! A ledger of non-fungible tokens with a fixed-price marketplace.
//!
//! The ledger tracks which account owns each token, the tokens of each
//! account in the order it acquired them, every existing token with its
//! metadata, and the tokens offered for sale with their prices. Every
//! operation takes the calling account explicitly, fails without changing
//! anything, or succeeds and records a notification for each change of
//! ownership. Payment for a purchase is made by the host between
//! `Erc721::purchase_quote` and `Erc721::buy_nft`.
use vstd::prelude::*;

pub mod types;
pub mod model;
pub mod erc721;

pub use erc721::Erc721;
pub use types::{AccountId, Balance, Error, ForSale, NftData, TokenId, Transfer};

verus! {

} // verus!
