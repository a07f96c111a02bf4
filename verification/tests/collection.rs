use cw721_registry::collection::TokenCollection;
use cw721_registry::error::ContractError;
use cw721_registry::expiration::{Approval, BlockInfo, Expiration};
use cw721_registry::index::TokenIndexes;
use cw721_registry::token::{token_owner_idx, TokenInfo};

fn token(owner: &str) -> TokenInfo<u8> {
    TokenInfo { owner: owner.to_string(), approvals: vec![], token_uri: None, extension: 0 }
}

fn ids(listing: Vec<(String, &TokenInfo<u8>)>) -> Vec<String> {
    listing.into_iter().map(|e| e.0).collect()
}

fn strings(items: &[&str]) -> Vec<String> {
    items.iter().map(|s| s.to_string()).collect()
}

#[test]
fn insert_then_get() {
    let mut ledger = TokenCollection::<u8>::new("tokens", "tokens__owner");
    assert_eq!(ledger.insert("a", token("alice")), Ok(()));
    assert_eq!(ledger.len(), 1);
    assert!(ledger.has("a"));
    assert!(!ledger.has("b"));
    assert_eq!(ledger.get("a"), Some(&token("alice")));
    assert_eq!(ledger.get("b"), None);
}

#[test]
fn insert_of_a_taken_identifier_fails_and_changes_nothing() {
    let mut ledger = TokenCollection::<u8>::new("tokens", "tokens__owner");
    ledger.insert("a", token("alice")).unwrap();
    assert_eq!(ledger.insert("a", token("bob")), Err(ContractError::AlreadyExists {}));
    assert_eq!(ledger.len(), 1);
    assert_eq!(ledger.get("a").unwrap().owner, "alice");
    assert_eq!(ids(ledger.list_by_owner("alice", None, None)), strings(&["a"]));
    assert!(ledger.list_by_owner("bob", None, None).is_empty());
}

#[test]
fn insert_then_list_by_owner_is_ascending() {
    let mut ledger = TokenCollection::<u8>::new("tokens", "tokens__owner");
    for id in ["m", "b", "zz", "a", "10", "2", "", "b0"] {
        ledger.insert(id, token("alice")).unwrap();
    }
    ledger.insert("c", token("bob")).unwrap();
    assert_eq!(
        ids(ledger.list_by_owner("alice", None, None)),
        strings(&["", "10", "2", "a", "b", "b0", "m", "zz"])
    );
    assert_eq!(ids(ledger.list_by_owner("bob", None, None)), strings(&["c"]));
    assert!(ledger.list_by_owner("carol", None, None).is_empty());
    assert_eq!(ledger.len(), 9);
}

#[test]
fn listing_carries_the_records() {
    let mut ledger = TokenCollection::<u8>::new("tokens", "tokens__owner");
    let mut first = token("alice");
    first.extension = 7;
    first.token_uri = Some("uri".to_string());
    ledger.insert("x", first.clone()).unwrap();
    ledger.insert("y", token("alice")).unwrap();
    let listing = ledger.list_by_owner("alice", None, None);
    assert_eq!(listing.len(), 2);
    assert_eq!(listing[0], ("x".to_string(), &first));
    assert_eq!(listing[1], ("y".to_string(), &token("alice")));
}

#[test]
fn listing_orders_by_bytes_not_by_length_or_number() {
    let mut ledger = TokenCollection::<u8>::new("tokens", "tokens__owner");
    for id in ["9", "10", "100", "é", "z", "Z", "e"] {
        ledger.insert(id, token("alice")).unwrap();
    }
    assert_eq!(
        ids(ledger.list_by_owner("alice", None, None)),
        strings(&["10", "100", "9", "Z", "e", "z", "é"])
    );
}

#[test]
fn owners_that_are_prefixes_of_one_another_are_kept_apart() {
    let mut ledger = TokenCollection::<u8>::new("tokens", "tokens__owner");
    ledger.insert("1", token("al")).unwrap();
    ledger.insert("2", token("alice")).unwrap();
    ledger.insert("3", token("a")).unwrap();
    ledger.insert("4", token("al")).unwrap();
    assert_eq!(ids(ledger.list_by_owner("al", None, None)), strings(&["1", "4"]));
    assert_eq!(ids(ledger.list_by_owner("alice", None, None)), strings(&["2"]));
    assert_eq!(ids(ledger.list_by_owner("a", None, None)), strings(&["3"]));
    assert!(ledger.list_by_owner("ali", None, None).is_empty());
}

#[test]
fn pagination_walks_all_tokens_without_overlap_or_gap() {
    let mut ledger = TokenCollection::<u8>::new("tokens", "tokens__owner");
    let all = ["a", "b", "c", "d", "e", "f", "g"];
    for id in all {
        ledger.insert(id, token("alice")).unwrap();
        ledger.insert(&format!("{id}-other"), token("bob")).unwrap();
    }
    let first = ids(ledger.list_by_owner("alice", None, Some(3)));
    assert_eq!(first, strings(&["a", "b", "c"]));
    let second = ids(ledger.list_by_owner("alice", Some("c"), Some(3)));
    assert_eq!(second, strings(&["d", "e", "f"]));
    let third = ids(ledger.list_by_owner("alice", Some("f"), Some(3)));
    assert_eq!(third, strings(&["g"]));
    let fourth = ids(ledger.list_by_owner("alice", Some("g"), Some(3)));
    assert!(fourth.is_empty());

    let mut seen: Vec<String> = vec![];
    let mut cursor: Option<String> = None;
    loop {
        let page = ids(ledger.list_by_owner("alice", cursor.as_deref(), Some(2)));
        assert!(page.len() <= 2);
        if page.is_empty() {
            break;
        }
        cursor = page.last().cloned();
        seen.extend(page);
    }
    assert_eq!(seen, strings(&all));
}

#[test]
fn pagination_limits_and_cursors() {
    let mut ledger = TokenCollection::<u8>::new("tokens", "tokens__owner");
    for id in ["a", "b", "c"] {
        ledger.insert(id, token("alice")).unwrap();
    }
    assert!(ledger.list_by_owner("alice", None, Some(0)).is_empty());
    assert_eq!(ids(ledger.list_by_owner("alice", None, Some(1))), strings(&["a"]));
    assert_eq!(ids(ledger.list_by_owner("alice", None, Some(100))), strings(&["a", "b", "c"]));
    assert_eq!(ids(ledger.list_by_owner("alice", Some("a"), None)), strings(&["b", "c"]));
    assert_eq!(ids(ledger.list_by_owner("alice", Some("aa"), None)), strings(&["b", "c"]));
    assert_eq!(ids(ledger.list_by_owner("alice", Some(""), None)), strings(&["a", "b", "c"]));
    assert!(ledger.list_by_owner("alice", Some("c"), None).is_empty());
    assert!(ledger.list_by_owner("alice", Some("zzz"), Some(5)).is_empty());
}

#[test]
fn update_of_the_owner_reindexes() {
    let mut ledger = TokenCollection::<u8>::new("tokens", "tokens__owner");
    ledger.insert("1", token("alice")).unwrap();
    ledger.insert("2", token("alice")).unwrap();
    ledger.insert("3", token("bob")).unwrap();
    let res = ledger.update("2", |mut t| {
        t.owner = "bob".to_string();
        t.approvals = vec![];
        t
    });
    assert_eq!(res, Ok(()));
    assert_eq!(ids(ledger.list_by_owner("alice", None, None)), strings(&["1"]));
    assert_eq!(ids(ledger.list_by_owner("bob", None, None)), strings(&["2", "3"]));
    assert_eq!(ledger.get("2").unwrap().owner, "bob");
    assert_eq!(ledger.len(), 3);
}

#[test]
fn update_of_another_field_keeps_the_index() {
    let mut ledger = TokenCollection::<u8>::new("tokens", "tokens__owner");
    ledger.insert("1", token("alice")).unwrap();
    let approval = Approval { spender: "bob".to_string(), expires: Expiration::Never {} };
    let granted = approval.clone();
    let res = ledger.update("1", move |mut t| {
        t.approvals.push(granted);
        t.extension = 5;
        t
    });
    assert_eq!(res, Ok(()));
    let record = ledger.get("1").unwrap();
    assert_eq!(record.approvals, vec![approval]);
    assert_eq!(record.extension, 5);
    assert_eq!(ids(ledger.list_by_owner("alice", None, None)), strings(&["1"]));
}

#[test]
fn update_of_an_absent_token_is_not_found() {
    let mut ledger = TokenCollection::<u8>::new("tokens", "tokens__owner");
    ledger.insert("1", token("alice")).unwrap();
    let res = ledger.update("2", |t| t);
    assert_eq!(res, Err(ContractError::NotFound {}));
    assert_eq!(ledger.len(), 1);
}

#[test]
fn remove_deletes_the_record_and_its_index_entry() {
    let mut ledger = TokenCollection::<u8>::new("tokens", "tokens__owner");
    ledger.insert("1", token("alice")).unwrap();
    ledger.insert("2", token("alice")).unwrap();
    assert_eq!(ledger.remove("1"), Ok(()));
    assert_eq!(ledger.get("1"), None);
    assert_eq!(ids(ledger.list_by_owner("alice", None, None)), strings(&["2"]));
    assert_eq!(ledger.len(), 1);
    assert_eq!(ledger.remove("1"), Err(ContractError::NotFound {}));
    assert_eq!(ledger.remove("2"), Ok(()));
    assert_eq!(ledger.len(), 0);
    assert!(ledger.list_by_owner("alice", None, None).is_empty());
}

#[test]
fn save_inserts_or_replaces() {
    let mut ledger = TokenCollection::<u8>::new("tokens", "tokens__owner");
    ledger.save("1", token("alice"));
    assert_eq!(ledger.get("1").unwrap().owner, "alice");
    ledger.save("1", token("bob"));
    assert_eq!(ledger.len(), 1);
    assert_eq!(ledger.get("1").unwrap().owner, "bob");
    assert!(ledger.list_by_owner("alice", None, None).is_empty());
    assert_eq!(ids(ledger.list_by_owner("bob", None, None)), strings(&["1"]));
}

#[test]
fn collection_keeps_its_keys() {
    let ledger = TokenCollection::<u8>::new("tokens", "tokens__owner");
    assert_eq!(ledger.namespace(), "tokens");
    assert_eq!(ledger.index_namespace(), "tokens__owner");
    assert_eq!(ledger.len(), 0);
}

#[test]
fn owner_index_on_its_own() {
    let mut index = TokenIndexes::new("tokens__owner");
    assert_eq!(index.namespace(), "tokens__owner");
    assert!(index.insert("bob", "2"));
    assert!(index.insert("alice", "9"));
    assert!(index.insert("alice", "1"));
    assert!(!index.insert("alice", "1"));
    assert_eq!(index.len(), 3);
    assert_eq!(index.ids_of("alice", None, None), strings(&["1", "9"]));
    assert_eq!(index.ids_of("alice", Some("1"), None), strings(&["9"]));
    assert_eq!(index.ids_of("alice", None, Some(1)), strings(&["1"]));
    assert_eq!(index.ids_of("bob", None, None), strings(&["2"]));
    assert!(index.remove("alice", "1"));
    assert!(!index.remove("alice", "1"));
    assert!(!index.remove("bob", "1"));
    assert_eq!(index.ids_of("alice", None, None), strings(&["9"]));
    assert_eq!(index.len(), 2);
}

#[test]
fn token_owner_idx_is_the_owner() {
    assert_eq!(token_owner_idx(&token("alice")), "alice");
}

#[test]
fn approval_at_height_expires_once_reached() {
    let approval = Approval { spender: "alice".to_string(), expires: Expiration::AtHeight(10) };
    assert!(!approval.is_expired(&BlockInfo { height: 9, time: 1_000 }));
    assert!(approval.is_expired(&BlockInfo { height: 10, time: 0 }));
    assert!(approval.is_expired(&BlockInfo { height: 11, time: 0 }));
}

#[test]
fn approval_at_time_expires_once_reached() {
    let approval = Approval { spender: "alice".to_string(), expires: Expiration::AtTime(5_000) };
    assert!(!approval.is_expired(&BlockInfo { height: 1_000_000, time: 4_999 }));
    assert!(approval.is_expired(&BlockInfo { height: 0, time: 5_000 }));
    assert!(approval.is_expired(&BlockInfo { height: 0, time: u64::MAX }));
}

#[test]
fn approval_that_never_expires() {
    let approval = Approval { spender: "alice".to_string(), expires: Expiration::Never {} };
    assert!(!approval.is_expired(&BlockInfo { height: 0, time: 0 }));
    assert!(!approval.is_expired(&BlockInfo { height: u64::MAX, time: u64::MAX }));
}

#[test]
fn page_by_owner_uses_the_default_and_the_largest_page_size() {
    let mut ledger = TokenCollection::<u8>::new("tokens", "tokens__owner");
    let mut all: Vec<String> = vec![];
    for n in 0..120 {
        let id = format!("{n:03}");
        ledger.insert(&id, token("alice")).unwrap();
        all.push(id);
    }
    assert_eq!(ids(ledger.page_by_owner("alice", None, None)), all[..30].to_vec());
    assert_eq!(ids(ledger.page_by_owner("alice", None, Some(5))), all[..5].to_vec());
    assert_eq!(ids(ledger.page_by_owner("alice", None, Some(100))), all[..100].to_vec());
    assert_eq!(ids(ledger.page_by_owner("alice", None, Some(101))), all[..100].to_vec());
    assert_eq!(ids(ledger.page_by_owner("alice", None, Some(u32::MAX))), all[..100].to_vec());
    assert_eq!(ids(ledger.page_by_owner("alice", Some("099"), None)), all[100..].to_vec());
    assert_eq!(ids(ledger.page_by_owner("alice", Some("029"), None)), all[30..60].to_vec());
    assert!(ledger.page_by_owner("alice", None, Some(0)).is_empty());
    assert_eq!(ids(ledger.list_by_owner("alice", None, None)), all);
}

#[test]
fn many_tokens_of_many_owners_stay_in_step() {
    let mut ledger = TokenCollection::<u8>::new("tokens", "tokens__owner");
    let owners = ["dora", "al", "bob", "alice", "carol"];
    for n in 0..200u32 {
        let id = format!("t{}", (n * 7919) % 1000);
        ledger.save(&id, token(owners[(n % 5) as usize]));
    }
    for n in (0..200u32).step_by(3) {
        let id = format!("t{}", (n * 7919) % 1000);
        ledger.update(&id, |mut t| {
            t.owner = "zed".to_string();
            t
        })
        .unwrap();
    }
    for n in (0..200u32).step_by(4) {
        let id = format!("t{}", (n * 7919) % 1000);
        ledger.remove(&id).unwrap();
    }
    let mut listed = 0;
    for owner in owners.iter().chain(["zed"].iter()) {
        let page = ledger.list_by_owner(owner, None, None);
        for window in page.windows(2) {
            assert!(window[0].0 < window[1].0);
        }
        for (id, record) in &page {
            assert_eq!(&record.owner, owner);
            assert_eq!(ledger.get(id), Some(*record));
        }
        listed += page.len();
    }
    assert_eq!(listed, ledger.len());
    assert_eq!(ledger.len(), 150);
}
