//! The contract: its details and its mint counter in two slots, its tokens in the
//! ledger, and the transitions that set it up, mint and answer queries.
//!
//! A mint gives the new token the next value of the counter, written in decimal, as
//! its identifier; the caller becomes its owner.

use vstd::prelude::*;
use cosmwasm_std::Response;
use crate::collection::TokenCollection;
use crate::decimal::{decimal, lemma_decimal_injective, to_decimal};
use crate::error::ContractError;
use crate::msg::{
    clone_opt, funds_view, is_exact_payment, opt_view, pays_exactly, CoinView, ExecuteMsg,
    InstantiateMsg, MessageInfo, NftDetailsResponse, NftDetailsView, QueryMsg,
};
use crate::response::{
    empty_response, mint_attributes, mint_event, response_attributes, response_is_plain,
};
use crate::slot::Slot;
use crate::token::{TokenInfo, TokenInfoView};

verus! {

/// The identifiers that the first `count` mints have given out.
pub open spec fn minted_ids(count: nat) -> Set<Seq<char>> {
    Set::new(|id: Seq<char>| exists|k: nat| 1 <= k <= count && id == #[trigger] decimal(k))
}

/// The state of one contract.
pub struct Cw721Contract<T> {
    /// The contract's details; its `token_count` mirrors the counter.
    pub contract_info: Slot<NftDetailsResponse>,
    /// The number of tokens minted.
    pub token_count: Slot<u64>,
    /// The tokens, by identifier, with the index of their owners.
    pub tokens: TokenCollection<T>,
}

impl<T> Cw721Contract<T> {
    /// The counter; zero while its slot holds nothing.
    pub open spec fn count(&self) -> u64 {
        match self.token_count.value() {
            Some(n) => n,
            None => 0,
        }
    }

    /// The keys of the two slots, of the ledger and of its owner index differ from one
    /// another.
    pub open spec fn namespaces_distinct(&self) -> bool {
        let a = self.contract_info.key();
        let b = self.token_count.key();
        let c = self.tokens.key();
        let d = self.tokens.index_key();
        a != b && a != c && a != d && b != c && b != d && c != d
    }

    /// The keys are those of `other`.
    pub open spec fn same_keys(&self, other: &Self) -> bool {
        &&& self.contract_info.key() == other.contract_info.key()
        &&& self.token_count.key() == other.token_count.key()
        &&& self.tokens.key() == other.tokens.key()
        &&& self.tokens.index_key() == other.tokens.index_key()
    }

    /// What holds of a contract that was set up and then only minted: the counter is
    /// the number of tokens and does not exceed the cap, the details mirror it, and the
    /// tokens are those that the counter has numbered.
    pub open spec fn inv(&self) -> bool {
        &&& self.contract_info.value() is Some
        &&& self.token_count.value() is Some
        &&& self.contract_info.value()->0.token_count == self.count()
        &&& self.count() <= self.contract_info.value()->0.max_mints
        &&& self.tokens@.dom() == minted_ids(self.count() as nat)
    }

    /// Why a mint with `funds` is rejected, or `None` where it is admitted. The slots
    /// are read first, then the supply gate is passed, then the payment gate.
    pub open spec fn mint_verdict(&self, funds: Seq<CoinView>) -> Option<ContractError> {
        if self.contract_info.value() is None || self.token_count.value() is None {
            Some(ContractError::NotFound {})
        } else if self.count() >= self.contract_info.value()->0.max_mints {
            Some(ContractError::MaxMintsReached {})
        } else if !pays_exactly(funds, self.contract_info.value()->0.mint_price@) {
            Some(ContractError::IncorrectPayment {})
        } else if self.tokens@.contains_key(decimal((self.count() + 1) as nat)) {
            Some(ContractError::AlreadyExists {})
        } else {
            None
        }
    }

    /// A contract with empty slots and an empty ledger under the given keys.
    pub fn new(contract_key: &str, token_count_key: &str, tokens_key: &str, tokens_owner_key: &str) -> (c:
        Self)
        ensures
            c.contract_info.key() == contract_key@,
            c.token_count.key() == token_count_key@,
            c.tokens.key() == tokens_key@,
            c.tokens.index_key() == tokens_owner_key@,
            c.contract_info.value() is None,
            c.token_count.value() is None,
            c.tokens@ == Map::<Seq<char>, TokenInfoView<T>>::empty(),
    {
        Cw721Contract {
            contract_info: Slot::new(contract_key),
            token_count: Slot::new(token_count_key),
            tokens: TokenCollection::new(tokens_key, tokens_owner_key),
        }
    }

    /// The number of tokens minted; zero before the contract is set up.
    pub fn token_count(&self) -> (n: u64)
        ensures
            n == self.count(),
    {
        match self.token_count.may_load() {
            Some(n) => *n,
            None => 0,
        }
    }

    /// Moves the counter up by one, or down by one, and returns its new value.
    pub fn update_token_count(&mut self, increment: bool) -> (n: u64)
        requires
            increment ==> old(self).count() < u64::MAX,
            !increment ==> old(self).count() > 0,
        ensures
            n == (if increment { old(self).count() + 1 } else { old(self).count() - 1 }),
            final(self).token_count.value() == Some(n),
            final(self).token_count.key() == old(self).token_count.key(),
            final(self).contract_info == old(self).contract_info,
            final(self).tokens == old(self).tokens,
    {
        let mut current_count = self.token_count();
        if increment {
            current_count += 1;
        } else {
            current_count -= 1;
        }
        self.token_count.save(current_count);
        current_count
    }

    /// Sets the contract up: the details of `msg` with no token minted, and the counter
    /// at zero. The ledger is left as it is.
    pub fn instantiate(&mut self, msg: InstantiateMsg) -> (response: Response)
        ensures
            final(self).same_keys(old(self)),
            final(self).contract_info.value() is Some,
            final(self).contract_info.value()->0@ == msg.details(),
            final(self).token_count.value() == Some(0u64),
            final(self).tokens == old(self).tokens,
            old(self).tokens@ == Map::<Seq<char>, TokenInfoView<T>>::empty() ==> final(self).inv(),
            response_attributes(response) == Seq::<(Seq<char>, Seq<char>)>::empty(),
            response_is_plain(response),
    {
        let info = NftDetailsResponse {
            name: msg.name,
            symbol: msg.symbol,
            minter: msg.minter,
            max_mints: msg.max_mints,
            mint_price: msg.mint_price,
            token_uri: msg.token_uri,
            token_count: 0,
        };
        self.contract_info.save(info);
        self.token_count.save(0u64);
        proof {
            if old(self).tokens@ == Map::<Seq<char>, TokenInfoView<T>>::empty() {
                assert(self.tokens@.dom() =~= minted_ids(0));
            }
        }
        empty_response()
    }

    /// Answers a query: the contract's details, or `NotFound` before the contract is
    /// set up.
    pub fn query(&self, msg: QueryMsg) -> (answer: Result<&NftDetailsResponse, ContractError>)
        ensures
            match self.contract_info.value() {
                Some(details) => answer == Ok::<&NftDetailsResponse, ContractError>(&details),
                None => answer == Err::<&NftDetailsResponse, ContractError>(
                    ContractError::NotFound {},
                ),
            },
    {
        match msg {
            QueryMsg::NftDetails {} => self.contract_info.load(),
        }
    }
}

impl<T> Default for Cw721Contract<T> {
    /// A contract with empty slots and an empty ledger under the usual keys.
    fn default() -> (c: Self)
        ensures
            c.contract_info.key() == "contract_info"@,
            c.token_count.key() == "token_count"@,
            c.tokens.key() == "tokens"@,
            c.tokens.index_key() == "tokens__owner"@,
            c.namespaces_distinct(),
            c.contract_info.value() is None,
            c.token_count.value() is None,
            c.tokens@ == Map::<Seq<char>, TokenInfoView<T>>::empty(),
    {
        proof {
            reveal_strlit("contract_info");
            reveal_strlit("token_count");
            reveal_strlit("tokens");
            reveal_strlit("tokens__owner");
            assert("contract_info"@.len() == 13);
            assert("token_count"@.len() == 11);
            assert("tokens"@.len() == 6);
            assert("tokens__owner"@.len() == 13);
            assert("contract_info"@[0] == 'c' && "tokens__owner"@[0] == 't');
        }
        Cw721Contract::new("contract_info", "token_count", "tokens", "tokens__owner")
    }
}

impl<T: Default> Cw721Contract<T> {
    /// What an admitted mint does to the state: the counter and its mirror in the
    /// details go up by one, and the ledger gains the token numbered by the new counter,
    /// owned by the sender, without approvals, with the contract's token URI and the
    /// default extension.
    pub open spec fn minted_state(pre: &Self, post: &Self, info: &MessageInfo) -> bool {
        let n = (pre.count() + 1) as u64;
        let id = decimal(n as nat);
        let details = pre.contract_info.value()->0;
        &&& post.same_keys(pre)
        &&& post.token_count.value() == Some(n)
        &&& post.contract_info.value() is Some
        &&& post.contract_info.value()->0@ == (NftDetailsView { token_count: n, ..details@ })
        &&& post.tokens@ == pre.tokens@.insert(
            id,
            TokenInfoView {
                owner: info.sender@,
                approvals: Seq::empty(),
                token_uri: opt_view(details.token_uri),
                extension: post.tokens@[id].extension,
            },
        )
        &&& call_ensures(T::default, (), post.tokens@[id].extension)
    }

    /// What an admitted mint does: it changes the state as `minted_state` says, and its
    /// response reports `action=mint`, the sender as `minter` and the new token's
    /// identifier as `token_id`, and carries nothing else.
    pub open spec fn minted(pre: &Self, post: &Self, info: &MessageInfo, response: Response) -> bool {
        &&& Self::minted_state(pre, post, info)
        &&& response_attributes(response) == mint_attributes(
            info.sender@,
            decimal((pre.count() + 1) as nat),
        )
        &&& response_is_plain(response)
    }

    /// What a mint request does: a rejected one changes nothing and returns the
    /// reason, an admitted one does what `minted` says.
    pub open spec fn mint_result(
        pre: &Self,
        post: &Self,
        info: &MessageInfo,
        res: Result<Response, ContractError>,
    ) -> bool {
        match pre.mint_verdict(funds_view(info.funds@)) {
            Some(e) => res == Err::<Response, ContractError>(e) && *post == *pre,
            None => res is Ok && Self::minted(pre, post, info, res->Ok_0),
        }
    }

    /// Mints one token to the sender of `info`, where the cap is not reached and the
    /// funds of `info` are exactly the mint price.
    pub fn mint(&mut self, info: MessageInfo) -> (res: Result<Response, ContractError>)
        ensures
            Self::mint_result(old(self), final(self), &info, res),
            old(self).inv() ==> final(self).inv(),
    {
        let details = match self.contract_info.load() {
            Ok(d) => d,
            Err(e) => {
                return Err(e);
            },
        };
        let count = match self.token_count.load() {
            Ok(n) => *n,
            Err(e) => {
                return Err(e);
            },
        };
        if count >= details.max_mints {
            return Err(ContractError::MaxMintsReached {});
        }
        if !is_exact_payment(&info.funds, &details.mint_price) {
            return Err(ContractError::IncorrectPayment {});
        }
        let token_count = count + 1;
        let token_id = to_decimal(token_count);
        let mut contract_info = details.clone();
        contract_info.token_count = token_count;
        let record = TokenInfo {
            owner: info.sender.clone(),
            approvals: Vec::new(),
            token_uri: clone_opt(&contract_info.token_uri),
            extension: T::default(),
        };
        let ghost extension = record.extension;
        match self.tokens.insert(token_id.as_str(), record) {
            Ok(()) => {},
            Err(e) => {
                return Err(e);
            },
        }
        self.token_count.save(token_count);
        self.contract_info.save(contract_info);
        proof {
            let id = decimal(token_count as nat);
            assert(self.tokens@[id].extension == extension);
            assert(self.tokens@[id].approvals =~= Seq::empty());
            if old(self).inv() {
                assert(self.tokens@.dom() =~= minted_ids(token_count as nat)) by {
                    assert forall|x: Seq<char>| minted_ids(token_count as nat).contains(x) implies #[trigger]
                    old(self).tokens@.dom().insert(id).contains(x) by {
                        let k = choose|k: nat| 1 <= k <= token_count && x == decimal(k);
                        if k < token_count {
                            assert(minted_ids(count as nat).contains(decimal(k)));
                        }
                    }
                }
            }
        }
        Ok(mint_event(info.sender.as_str(), token_id.as_str()))
    }

    /// Carries out a request that changes state.
    pub fn execute(&mut self, info: MessageInfo, msg: ExecuteMsg) -> (res: Result<
        Response,
        ContractError,
    >)
        ensures
            Self::mint_result(old(self), final(self), &info, res),
            old(self).inv() ==> final(self).inv(),
    {
        match msg {
            ExecuteMsg::Mint {} => self.mint(info),
        }
    }
}

/// The first `count` mints have given out `count` identifiers.
pub proof fn lemma_minted_ids_len(count: nat)
    ensures
        minted_ids(count).finite(),
        minted_ids(count).len() == count,
    decreases count,
{
    if count == 0 {
        assert(minted_ids(0) =~= Set::<Seq<char>>::empty());
    } else {
        let fewer = minted_ids((count - 1) as nat);
        let id = decimal(count);
        lemma_minted_ids_len((count - 1) as nat);
        assert(!fewer.contains(id)) by {
            if fewer.contains(id) {
                let k = choose|k: nat| 1 <= k <= count - 1 && id == decimal(k);
                lemma_decimal_injective(k, count);
            }
        }
        assert(minted_ids(count) =~= fewer.insert(id)) by {
            assert forall|x: Seq<char>| minted_ids(count).contains(x) implies #[trigger] fewer.insert(
                id,
            ).contains(x) by {
                let k = choose|k: nat| 1 <= k <= count && x == decimal(k);
                if k < count {
                    assert(fewer.contains(decimal(k)));
                }
            }
            assert forall|x: Seq<char>| #[trigger] fewer.insert(id).contains(x) implies minted_ids(
                count,
            ).contains(x) by {
                if x != id {
                    let k = choose|k: nat| 1 <= k <= count - 1 && x == decimal(k);
                    assert(1 <= k <= count && x == decimal(k));
                }
            }
        }
    }
}

impl<T> Cw721Contract<T> {
    /// In a contract that was set up and then only minted, the counter is the number
    /// of tokens in the ledger and does not exceed the cap.
    pub proof fn lemma_count_is_number_of_tokens(&self)
        requires
            self.inv(),
        ensures
            self.tokens@.dom().finite(),
            self.tokens@.dom().len() == self.count(),
            self.count() <= self.contract_info.value()->0.max_mints,
    {
        lemma_minted_ids_len(self.count() as nat);
    }

    /// In a contract that was set up and then only minted, a mint is rejected only at
    /// the cap or for its funds: the slots are filled and the next identifier is free.
    pub proof fn lemma_mint_rejections(&self, funds: Seq<CoinView>)
        requires
            self.inv(),
        ensures
            self.mint_verdict(funds) != Some(ContractError::NotFound {}),
            self.mint_verdict(funds) != Some(ContractError::AlreadyExists {}),
    {
        let next = (self.count() + 1) as nat;
        if self.tokens@.contains_key(decimal(next)) {
            let k = choose|k: nat| 1 <= k <= self.count() && decimal(next) == decimal(k);
            lemma_decimal_injective(k, next);
        }
    }
}

impl<T: Default> Cw721Contract<T> {
    /// A mint at the cap is rejected with `MaxMintsReached`, whatever its funds, and
    /// leaves the state as it was.
    pub proof fn lemma_mint_at_cap(
        pre: &Self,
        post: &Self,
        info: &MessageInfo,
        res: Result<Response, ContractError>,
    )
        requires
            Self::mint_result(pre, post, info, res),
            pre.contract_info.value() is Some,
            pre.token_count.value() == Some(pre.contract_info.value()->0.max_mints),
        ensures
            res == Err::<Response, ContractError>(ContractError::MaxMintsReached {}),
            *post == *pre,
    {
    }

    /// Below the cap, a mint whose funds are not exactly one coin of the price's
    /// denomination and amount is rejected with `IncorrectPayment` and leaves the state
    /// as it was.
    pub proof fn lemma_mint_with_wrong_funds(
        pre: &Self,
        post: &Self,
        info: &MessageInfo,
        res: Result<Response, ContractError>,
    )
        requires
            Self::mint_result(pre, post, info, res),
            pre.contract_info.value() is Some,
            pre.token_count.value() is Some,
            pre.count() < pre.contract_info.value()->0.max_mints,
            !pays_exactly(funds_view(info.funds@), pre.contract_info.value()->0.mint_price@),
        ensures
            res == Err::<Response, ContractError>(ContractError::IncorrectPayment {}),
            *post == *pre,
    {
    }

    /// `states` are the states that a contract goes through while the mints of `infos`
    /// are admitted one after the other.
    pub open spec fn is_mint_run(states: Seq<Self>, infos: Seq<MessageInfo>) -> bool {
        &&& states.len() == infos.len() + 1
        &&& forall|i: int|
            0 <= i < infos.len() ==> (#[trigger] states[i]).mint_verdict(funds_view(infos[i].funds@))
                is None && Self::minted_state(&states[i], &states[i + 1], &infos[i])
    }

    proof fn lemma_mint_run_prefix(states: Seq<Self>, infos: Seq<MessageInfo>, k: int)
        requires
            Self::is_mint_run(states, infos),
            states[0].contract_info.value() is Some,
            states[0].token_count.value() == Some(0u64),
            0 <= k <= infos.len(),
        ensures
            states[k].contract_info.value() is Some,
            states[k].contract_info.value()->0.max_mints
                == states[0].contract_info.value()->0.max_mints,
            states[k].token_count.value() is Some,
            states[k].count() == k,
            k <= states[0].contract_info.value()->0.max_mints,
        decreases k,
    {
        if k > 0 {
            Self::lemma_mint_run_prefix(states, infos, k - 1);
            assert(states[k - 1].mint_verdict(funds_view(infos[k - 1].funds@)) is None);
            assert(Self::minted_state(&states[k - 1], &states[k - 1 + 1], &infos[k - 1]));
        }
    }

    /// After a contract is set up, the counter after N admitted mints is N, and N does
    /// not exceed the cap.
    pub proof fn lemma_count_after_mints(states: Seq<Self>, infos: Seq<MessageInfo>)
        requires
            Self::is_mint_run(states, infos),
            states[0].contract_info.value() is Some,
            states[0].token_count.value() == Some(0u64),
        ensures
            states.last().count() == infos.len(),
            infos.len() <= states[0].contract_info.value()->0.max_mints,
            forall|k: int| 0 <= k <= infos.len() ==> (#[trigger] states[k]).count() == k,
    {
        Self::lemma_mint_run_prefix(states, infos, infos.len() as int);
        assert forall|k: int| 0 <= k <= infos.len() implies (#[trigger] states[k]).count() == k by {
            Self::lemma_mint_run_prefix(states, infos, k);
        }
    }
}

} // verus!
