//! The values that enter and leave a transition: coins, the caller's envelope,
//! the request messages and the contract details.

use vstd::prelude::*;

verus! {

/// An amount of one denomination.
#[derive(Debug, PartialEq, Eq)]
pub struct Coin {
    pub denom: String,
    pub amount: u128,
}

/// What a `Coin` stands for.
pub struct CoinView {
    pub denom: Seq<char>,
    pub amount: u128,
}

impl View for Coin {
    type V = CoinView;

    open spec fn view(&self) -> CoinView {
        CoinView { denom: self.denom@, amount: self.amount }
    }
}

impl Clone for Coin {
    fn clone(&self) -> (copy: Self)
        ensures
            copy == *self,
    {
        Coin { denom: self.denom.clone(), amount: self.amount }
    }
}

impl Coin {
    /// A coin of `amount` units of `denom`.
    pub fn new(amount: u128, denom: &str) -> (c: Coin)
        ensures
            c@ == (CoinView { denom: denom@, amount }),
    {
        Coin { denom: denom.to_owned(), amount }
    }

    /// Whether two coins have the same denomination and the same amount.
    pub fn matches(&self, other: &Coin) -> (same: bool)
        ensures
            same == (self@ == other@),
    {
        self.amount == other.amount && self.denom == other.denom
    }
}

/// What the host tells a transition about its caller: who sent the request and
/// which funds came with it.
#[derive(Clone, Debug, PartialEq, Eq)]
pub struct MessageInfo {
    pub sender: String,
    pub funds: Vec<Coin>,
}

/// The funds of an envelope as a sequence of coin values.
pub open spec fn funds_view(funds: Seq<Coin>) -> Seq<CoinView> {
    funds.map_values(|c: Coin| c@)
}

/// The view of an optional string.
pub open spec fn opt_view(s: Option<String>) -> Option<Seq<char>> {
    match s {
        Some(t) => Some(t@),
        None => None,
    }
}

/// A copy of an optional string.
pub fn clone_opt(s: &Option<String>) -> (copy: Option<String>)
    ensures
        copy == *s,
{
    match s {
        Some(t) => Some(t.clone()),
        None => None,
    }
}

/// The request that sets a contract up. `minter` is an address that the host has
/// already brought into its canonical form.
#[derive(Clone, Debug, PartialEq, Eq)]
pub struct InstantiateMsg {
    pub name: String,
    pub symbol: String,
    pub minter: String,
    pub max_mints: u64,
    pub mint_price: Coin,
    pub token_uri: Option<String>,
}

/// The requests that change state.
#[derive(Clone, Copy, Debug, PartialEq, Eq, Structural)]
pub enum ExecuteMsg {
    Mint {},
}

/// The requests that only read.
#[derive(Clone, Copy, Debug, PartialEq, Eq, Structural)]
pub enum QueryMsg {
    NftDetails {},
}

/// The contract's details: what it was set up with, and how many tokens it has minted.
#[derive(Debug, PartialEq, Eq)]
pub struct NftDetailsResponse {
    pub name: String,
    pub symbol: String,
    pub minter: String,
    pub max_mints: u64,
    pub mint_price: Coin,
    pub token_uri: Option<String>,
    pub token_count: u64,
}

/// What an `NftDetailsResponse` stands for.
pub struct NftDetailsView {
    pub name: Seq<char>,
    pub symbol: Seq<char>,
    pub minter: Seq<char>,
    pub max_mints: u64,
    pub mint_price: CoinView,
    pub token_uri: Option<Seq<char>>,
    pub token_count: u64,
}

impl View for NftDetailsResponse {
    type V = NftDetailsView;

    open spec fn view(&self) -> NftDetailsView {
        NftDetailsView {
            name: self.name@,
            symbol: self.symbol@,
            minter: self.minter@,
            max_mints: self.max_mints,
            mint_price: self.mint_price@,
            token_uri: opt_view(self.token_uri),
            token_count: self.token_count,
        }
    }
}

impl Clone for NftDetailsResponse {
    fn clone(&self) -> (copy: Self)
        ensures
            copy == *self,
    {
        NftDetailsResponse {
            name: self.name.clone(),
            symbol: self.symbol.clone(),
            minter: self.minter.clone(),
            max_mints: self.max_mints,
            mint_price: self.mint_price.clone(),
            token_uri: clone_opt(&self.token_uri),
            token_count: self.token_count,
        }
    }
}

impl InstantiateMsg {
    /// The details of a contract that was set up with this request and has minted nothing.
    pub open spec fn details(&self) -> NftDetailsView {
        NftDetailsView {
            name: self.name@,
            symbol: self.symbol@,
            minter: self.minter@,
            max_mints: self.max_mints,
            mint_price: self.mint_price@,
            token_uri: opt_view(self.token_uri),
            token_count: 0,
        }
    }
}

/// Whether `funds` is exactly one coin, and that coin is `price`.
pub open spec fn pays_exactly(funds: Seq<CoinView>, price: CoinView) -> bool {
    funds.len() == 1 && funds[0] == price
}

/// The payment gate: the caller attached exactly one coin, of the price's
/// denomination and amount.
pub fn is_exact_payment(funds: &Vec<Coin>, price: &Coin) -> (ok: bool)
    ensures
        ok == pays_exactly(funds_view(funds@), price@),
{
    funds.len() == 1 && funds[0].matches(price)
}

} // verus!
