use cosmwasm_std::Response;
use cw721_registry::contract::Cw721Contract;
use cw721_registry::error::ContractError;
use cw721_registry::msg::{Coin, ExecuteMsg, InstantiateMsg, MessageInfo, QueryMsg};

fn setup(max_mints: u64, amount: u128, denom: &str) -> Cw721Contract<u32> {
    let mut contract = Cw721Contract::<u32>::default();
    let response = contract.instantiate(InstantiateMsg {
        name: "Token".to_string(),
        symbol: "TKN".to_string(),
        minter: "creator".to_string(),
        max_mints,
        mint_price: Coin::new(amount, denom),
        token_uri: Some("ipfs://base".to_string()),
    });
    assert_eq!(response, Response::default());
    contract
}

fn pay(sender: &str, funds: Vec<Coin>) -> MessageInfo {
    MessageInfo { sender: sender.to_string(), funds }
}

fn mint_response(sender: &str, token_id: &str) -> Response {
    Response::new()
        .add_attribute("action", "mint")
        .add_attribute("minter", sender)
        .add_attribute("token_id", token_id)
}

#[test]
fn instantiate_stores_details_and_zero_count() {
    let contract = setup(2, 100, "uusd");
    assert_eq!(contract.token_count(), 0);
    assert_eq!(contract.token_count.load(), Ok(&0));
    let details = contract.query(QueryMsg::NftDetails {}).unwrap();
    assert_eq!(details.name, "Token");
    assert_eq!(details.symbol, "TKN");
    assert_eq!(details.minter, "creator");
    assert_eq!(details.max_mints, 2);
    assert_eq!(details.mint_price, Coin::new(100, "uusd"));
    assert_eq!(details.token_uri, Some("ipfs://base".to_string()));
    assert_eq!(details.token_count, 0);
    assert_eq!(contract.tokens.len(), 0);
}

#[test]
fn default_contract_uses_the_usual_keys() {
    let contract = Cw721Contract::<u32>::default();
    assert_eq!(contract.contract_info.namespace(), "contract_info");
    assert_eq!(contract.token_count.namespace(), "token_count");
    assert_eq!(contract.tokens.namespace(), "tokens");
    assert_eq!(contract.tokens.index_namespace(), "tokens__owner");
    assert_eq!(contract.contract_info.may_load(), None);
    assert_eq!(contract.token_count.may_load(), None);
}

#[test]
fn new_contract_uses_the_given_keys() {
    let contract = Cw721Contract::<u32>::new("info", "count", "ledger", "ledger__owner");
    assert_eq!(contract.contract_info.namespace(), "info");
    assert_eq!(contract.token_count.namespace(), "count");
    assert_eq!(contract.tokens.namespace(), "ledger");
    assert_eq!(contract.tokens.index_namespace(), "ledger__owner");
    assert_eq!(contract.token_count(), 0);
}

#[test]
fn mint_scenario_with_cap_of_two() {
    let mut contract = setup(2, 100, "uusd");

    let first = contract.mint(pay("alice", vec![Coin::new(100, "uusd")]));
    assert_eq!(first, Ok(mint_response("alice", "1")));
    assert_eq!(contract.token_count(), 1);

    let short = contract.mint(pay("bob", vec![Coin::new(50, "uusd")]));
    assert_eq!(short, Err(ContractError::IncorrectPayment {}));
    assert_eq!(contract.token_count(), 1);

    let second = contract.mint(pay("bob", vec![Coin::new(100, "uusd")]));
    assert_eq!(second, Ok(mint_response("bob", "2")));
    assert_eq!(contract.token_count(), 2);

    let third = contract.mint(pay("carol", vec![Coin::new(100, "uusd")]));
    assert_eq!(third, Err(ContractError::MaxMintsReached {}));
    assert_eq!(contract.token_count(), 2);
}

#[test]
fn mint_records_the_token_and_mirrors_the_count() {
    let mut contract = setup(5, 7, "ujuno");
    contract.mint(pay("alice", vec![Coin::new(7, "ujuno")])).unwrap();
    contract.mint(pay("bob", vec![Coin::new(7, "ujuno")])).unwrap();
    contract.mint(pay("alice", vec![Coin::new(7, "ujuno")])).unwrap();

    assert_eq!(contract.token_count(), 3);
    assert_eq!(contract.query(QueryMsg::NftDetails {}).unwrap().token_count, 3);
    assert_eq!(contract.tokens.len(), 3);

    let second = contract.tokens.get("2").unwrap();
    assert_eq!(second.owner, "bob");
    assert!(second.approvals.is_empty());
    assert_eq!(second.token_uri, Some("ipfs://base".to_string()));
    assert_eq!(second.extension, 0);

    let of_alice: Vec<String> =
        contract.tokens.list_by_owner("alice", None, None).into_iter().map(|e| e.0).collect();
    assert_eq!(of_alice, vec!["1".to_string(), "3".to_string()]);
    let of_bob: Vec<String> =
        contract.tokens.list_by_owner("bob", None, None).into_iter().map(|e| e.0).collect();
    assert_eq!(of_bob, vec!["2".to_string()]);
}

#[test]
fn count_after_n_mints_is_n() {
    let mut contract = setup(12, 1, "uusd");
    for n in 1..=12u64 {
        let res = contract.execute(pay("alice", vec![Coin::new(1, "uusd")]), ExecuteMsg::Mint {});
        assert_eq!(res, Ok(mint_response("alice", &n.to_string())));
        assert_eq!(contract.token_count(), n);
        assert_eq!(contract.tokens.len() as u64, n);
    }
    let res = contract.execute(pay("alice", vec![Coin::new(1, "uusd")]), ExecuteMsg::Mint {});
    assert_eq!(res, Err(ContractError::MaxMintsReached {}));
    assert_eq!(contract.token_count(), 12);
    assert!(contract.tokens.has("10"));
    assert!(contract.tokens.has("12"));
    assert!(!contract.tokens.has("13"));
}

#[test]
fn mint_with_wrong_funds_is_rejected_and_changes_nothing() {
    let mut contract = setup(3, 100, "uusd");
    contract.mint(pay("alice", vec![Coin::new(100, "uusd")])).unwrap();

    let wrong: Vec<Vec<Coin>> = vec![
        vec![],
        vec![Coin::new(100, "uusd"), Coin::new(100, "uusd")],
        vec![Coin::new(100, "uusd"), Coin::new(1, "uluna")],
        vec![Coin::new(100, "uluna")],
        vec![Coin::new(100, "UUSD")],
        vec![Coin::new(99, "uusd")],
        vec![Coin::new(101, "uusd")],
        vec![Coin::new(0, "uusd")],
    ];
    for funds in wrong {
        let res = contract.mint(pay("bob", funds));
        assert_eq!(res, Err(ContractError::IncorrectPayment {}));
        assert_eq!(contract.token_count(), 1);
        assert_eq!(contract.query(QueryMsg::NftDetails {}).unwrap().token_count, 1);
        assert_eq!(contract.tokens.len(), 1);
        assert!(contract.tokens.list_by_owner("bob", None, None).is_empty());
    }
}

#[test]
fn mint_at_the_cap_fails_even_with_wrong_funds() {
    let mut contract = setup(1, 100, "uusd");
    contract.mint(pay("alice", vec![Coin::new(100, "uusd")])).unwrap();
    let res = contract.mint(pay("bob", vec![]));
    assert_eq!(res, Err(ContractError::MaxMintsReached {}));
    assert_eq!(contract.token_count(), 1);
}

#[test]
fn mint_with_a_cap_of_zero_always_fails() {
    let mut contract = setup(0, 100, "uusd");
    let res = contract.mint(pay("alice", vec![Coin::new(100, "uusd")]));
    assert_eq!(res, Err(ContractError::MaxMintsReached {}));
    assert_eq!(contract.token_count(), 0);
    assert_eq!(contract.tokens.len(), 0);
}

#[test]
fn mint_before_setup_is_not_found() {
    let mut contract = Cw721Contract::<u32>::default();
    let res = contract.mint(pay("alice", vec![Coin::new(100, "uusd")]));
    assert_eq!(res, Err(ContractError::NotFound {}));
    assert_eq!(contract.query(QueryMsg::NftDetails {}), Err(ContractError::NotFound {}));
    assert_eq!(contract.token_count(), 0);
}

#[test]
fn mint_onto_a_taken_identifier_already_exists() {
    let mut contract = setup(3, 100, "uusd");
    let taken = cw721_registry::token::TokenInfo {
        owner: "zoe".to_string(),
        approvals: vec![],
        token_uri: None,
        extension: 9u32,
    };
    contract.tokens.insert("1", taken).unwrap();
    let res = contract.mint(pay("alice", vec![Coin::new(100, "uusd")]));
    assert_eq!(res, Err(ContractError::AlreadyExists {}));
    assert_eq!(contract.token_count(), 0);
    assert_eq!(contract.tokens.get("1").unwrap().owner, "zoe");
}

#[test]
fn update_token_count_moves_by_one() {
    let mut contract = Cw721Contract::<u32>::default();
    assert_eq!(contract.update_token_count(true), 1);
    assert_eq!(contract.update_token_count(true), 2);
    assert_eq!(contract.update_token_count(false), 1);
    assert_eq!(contract.token_count(), 1);
    assert_eq!(contract.token_count.may_load(), Some(&1));
}

#[test]
fn minted_token_carries_the_default_extension_and_no_uri_when_none_is_set() {
    let mut contract = Cw721Contract::<Option<String>>::default();
    contract.instantiate(InstantiateMsg {
        name: "Token".to_string(),
        symbol: "TKN".to_string(),
        minter: "creator".to_string(),
        max_mints: u64::MAX,
        mint_price: Coin::new(u128::MAX, ""),
        token_uri: None,
    });
    let res = contract.mint(pay("alice", vec![Coin::new(u128::MAX, "")]));
    assert_eq!(res, Ok(mint_response("alice", "1")));
    let record = contract.tokens.get("1").unwrap();
    assert_eq!(record.owner, "alice");
    assert_eq!(record.token_uri, None);
    assert_eq!(record.extension, None);
    assert!(record.approvals.is_empty());
}

#[test]
fn instantiate_again_resets_the_slots_and_keeps_the_ledger() {
    let mut contract = setup(5, 100, "uusd");
    contract.mint(pay("alice", vec![Coin::new(100, "uusd")])).unwrap();
    contract.instantiate(InstantiateMsg {
        name: "Other".to_string(),
        symbol: "OTH".to_string(),
        minter: "creator".to_string(),
        max_mints: 1,
        mint_price: Coin::new(1, "uusd"),
        token_uri: None,
    });
    assert_eq!(contract.token_count(), 0);
    assert_eq!(contract.query(QueryMsg::NftDetails {}).unwrap().name, "Other");
    assert_eq!(contract.tokens.len(), 1);
}
