use cw721_registry::decimal::to_decimal;
use cw721_registry::error::ContractError;
use cw721_registry::msg::{is_exact_payment, Coin};
use cw721_registry::order::{compare_bytes, compare_str, Rank};
use cw721_registry::paging::{page_limit, DEFAULT_LIMIT, MAX_LIMIT};
use cw721_registry::response::{empty_response, mint_event};
use cw721_registry::slot::Slot;

#[test]
fn slot_starts_empty() {
    let slot: Slot<u64> = Slot::new("num_tokens");
    assert_eq!(slot.namespace(), "num_tokens");
    assert_eq!(slot.may_load(), None);
    assert_eq!(slot.load(), Err(ContractError::NotFound {}));
}

#[test]
fn slot_save_then_load() {
    let mut slot: Slot<String> = Slot::new("minter");
    slot.save("alice".to_string());
    assert_eq!(slot.load(), Ok(&"alice".to_string()));
    assert_eq!(slot.may_load(), Some(&"alice".to_string()));
    slot.save("bob".to_string());
    assert_eq!(slot.load(), Ok(&"bob".to_string()));
    assert_eq!(slot.namespace(), "minter");
}

#[test]
fn decimal_of_small_and_large_numbers() {
    assert_eq!(to_decimal(0), "0");
    assert_eq!(to_decimal(7), "7");
    assert_eq!(to_decimal(9), "9");
    assert_eq!(to_decimal(10), "10");
    assert_eq!(to_decimal(99), "99");
    assert_eq!(to_decimal(100), "100");
    assert_eq!(to_decimal(1234567890), "1234567890");
    assert_eq!(to_decimal(u64::MAX), "18446744073709551615");
}

#[test]
fn decimal_agrees_with_the_standard_rendering() {
    for n in (0..5000u64).chain([u64::MAX - 1, 1 << 32, 999_999_999_999]) {
        assert_eq!(to_decimal(n), n.to_string());
    }
}

#[test]
fn strings_compare_by_bytes() {
    assert_eq!(compare_str("", ""), Rank::Same);
    assert_eq!(compare_str("", "a"), Rank::Before);
    assert_eq!(compare_str("a", ""), Rank::After);
    assert_eq!(compare_str("a", "b"), Rank::Before);
    assert_eq!(compare_str("b", "a"), Rank::After);
    assert_eq!(compare_str("ab", "abc"), Rank::Before);
    assert_eq!(compare_str("abc", "abc"), Rank::Same);
    assert_eq!(compare_str("10", "2"), Rank::Before);
    assert_eq!(compare_str("Z", "a"), Rank::Before);
    assert_eq!(compare_str("z", "é"), Rank::Before);
    assert_eq!(compare_bytes(&[1, 2, 3], &[1, 2, 4]), Rank::Before);
    assert_eq!(compare_bytes(&[255], &[1, 2]), Rank::After);
    assert_eq!(compare_bytes(&[], &[]), Rank::Same);
}

#[test]
fn strings_compare_as_the_standard_order_does() {
    let samples = ["", "a", "A", "ab", "b", "10", "2", "é", "e", "日本", "z", "~", "a\u{0}"];
    for a in samples {
        for b in samples {
            let expected = if a < b {
                Rank::Before
            } else if a == b {
                Rank::Same
            } else {
                Rank::After
            };
            assert_eq!(compare_str(a, b), expected);
        }
    }
}

#[test]
fn exact_payment_is_one_matching_coin() {
    let price = Coin::new(100, "uusd");
    assert!(is_exact_payment(&vec![Coin::new(100, "uusd")], &price));
    assert!(!is_exact_payment(&vec![], &price));
    assert!(!is_exact_payment(&vec![Coin::new(100, "uusd"), Coin::new(100, "uusd")], &price));
    assert!(!is_exact_payment(&vec![Coin::new(100, "usd")], &price));
    assert!(!is_exact_payment(&vec![Coin::new(99, "uusd")], &price));
    assert!(price.matches(&Coin { denom: "uusd".to_string(), amount: 100 }));
    assert!(!price.matches(&Coin::new(100, "")));
    let copy = price.clone();
    assert_eq!(copy, price);
}

#[test]
fn error_messages() {
    assert_eq!(ContractError::MaxMintsReached {}.message(), "Max mints reached");
    assert_eq!(ContractError::IncorrectPayment {}.message(), "Incorrect payment amount");
    assert_eq!(ContractError::NotFound {}.message(), "Not found");
    assert_eq!(ContractError::AlreadyExists {}.message(), "Already exists");
}

#[test]
fn mint_event_has_three_attributes_in_order() {
    let response = mint_event("alice", "42");
    assert_eq!(response.attributes.len(), 3);
    assert_eq!(response.attributes[0], cosmwasm_std::attr("action", "mint"));
    assert_eq!(response.attributes[1], cosmwasm_std::attr("minter", "alice"));
    assert_eq!(response.attributes[2], cosmwasm_std::attr("token_id", "42"));
    assert!(response.messages.is_empty());
    assert!(response.events.is_empty());
    assert_eq!(response.data, None);
}

#[test]
fn empty_response_is_the_default_response() {
    assert_eq!(empty_response(), cosmwasm_std::Response::default());
}

#[test]
fn page_limit_defaults_and_caps() {
    assert_eq!(DEFAULT_LIMIT, 30);
    assert_eq!(MAX_LIMIT, 100);
    assert_eq!(page_limit(None), 30);
    assert_eq!(page_limit(Some(0)), 0);
    assert_eq!(page_limit(Some(1)), 1);
    assert_eq!(page_limit(Some(100)), 100);
    assert_eq!(page_limit(Some(101)), 100);
    assert_eq!(page_limit(Some(u32::MAX)), 100);
}
