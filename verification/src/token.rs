//! The record of one token.

use vstd::prelude::*;
use crate::expiration::{Approval, ApprovalView};
use crate::msg::opt_view;

verus! {

/// What the ledger keeps of one token.
#[derive(Clone, Debug, PartialEq, Eq)]
pub struct TokenInfo<T> {
    /// The owner of the token.
    pub owner: String,
    /// The approvals granted on the token; they are cleared when the owner changes.
    pub approvals: Vec<Approval>,
    /// Where the token's metadata is found.
    pub token_uri: Option<String>,
    /// Whatever else the caller keeps with the token.
    pub extension: T,
}

/// What a `TokenInfo` stands for.
pub struct TokenInfoView<T> {
    pub owner: Seq<char>,
    pub approvals: Seq<ApprovalView>,
    pub token_uri: Option<Seq<char>>,
    pub extension: T,
}

impl<T> View for TokenInfo<T> {
    type V = TokenInfoView<T>;

    open spec fn view(&self) -> TokenInfoView<T> {
        TokenInfoView {
            owner: self.owner@,
            approvals: self.approvals@.map_values(|a: Approval| a@),
            token_uri: opt_view(self.token_uri),
            extension: self.extension,
        }
    }
}

/// What the owner index files a token under: its owner.
pub fn token_owner_idx<T>(d: &TokenInfo<T>) -> (owner: String)
    ensures
        owner@ == d@.owner,
{
    d.owner.clone()
}

} // verus!
