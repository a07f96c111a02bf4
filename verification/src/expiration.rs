//! When an approval ends: at a block height, at a time, or never.

use vstd::prelude::*;

verus! {

/// The block against which an expiration is judged.
#[derive(Clone, Copy, Debug, PartialEq, Eq, Structural)]
pub struct BlockInfo {
    /// The number of blocks before this one.
    pub height: u64,
    /// The time of the block, in nanoseconds since the epoch.
    pub time: u64,
}

/// The end of an approval's validity.
#[derive(Clone, Copy, Debug, PartialEq, Eq, Structural)]
pub enum Expiration {
    /// Ends once the block height has reached this height.
    AtHeight(u64),
    /// Ends once the block time has reached this time, in nanoseconds since the epoch.
    AtTime(u64),
    /// Never ends.
    Never {},
}

impl Expiration {
    /// Whether the bound is finite and `block` has reached it.
    pub open spec fn expired_at(self, block: BlockInfo) -> bool {
        match self {
            Expiration::AtHeight(height) => block.height >= height,
            Expiration::AtTime(time) => block.time >= time,
            Expiration::Never {} => false,
        }
    }

    /// `cw721::Expiration::is_expired`, on the outside values that this expiration and
    /// this block stand for: true when the bound is a height or a time that the block
    /// has reached, false when it is `Never`.
    #[verifier::external_body]
    pub(crate) fn is_expired(&self, block: &BlockInfo) -> (expired: bool)
        ensures
            expired == self.expired_at(*block),
    {
        let outside = match self {
            Expiration::AtHeight(h) => cw721::Expiration::AtHeight(*h),
            Expiration::AtTime(t) => cw721::Expiration::AtTime(cosmwasm_std::Timestamp::from_nanos(*t)),
            Expiration::Never {} => cw721::Expiration::Never {},
        };
        let time = cosmwasm_std::Timestamp::from_nanos(block.time);
        outside.is_expired(&cosmwasm_std::BlockInfo { height: block.height, time, chain_id: String::new() })
    }
}

/// The right of `spender` to move a token, until `expires`.
#[derive(Clone, Debug, PartialEq, Eq)]
pub struct Approval {
    /// The account that may transfer or send the token.
    pub spender: String,
    /// When the approval ends.
    pub expires: Expiration,
}

/// What an `Approval` stands for.
pub struct ApprovalView {
    pub spender: Seq<char>,
    pub expires: Expiration,
}

impl View for Approval {
    type V = ApprovalView;

    open spec fn view(&self) -> ApprovalView {
        ApprovalView { spender: self.spender@, expires: self.expires }
    }
}

impl Approval {
    /// Whether the approval has ended at `block`. An approval that never expires has not.
    pub fn is_expired(&self, block: &BlockInfo) -> (expired: bool)
        ensures
            expired == self.expires.expired_at(*block),
    {
        self.expires.is_expired(block)
    }
}

} // verus!
