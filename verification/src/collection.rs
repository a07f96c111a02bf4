//! The token ledger: records by unique identifier, with an owner index that every
//! change of the ledger keeps in step.

use vstd::prelude::*;
use crate::error::ContractError;
use crate::index::{
    lemma_insert_to_set, lemma_remove_to_set, opt_str_view, strings_view, TokenIndexes,
};
use crate::order::{compare_str, lemma_str_lt_total, lemma_str_lt_transitive, str_lt, Rank};
use crate::paging::{ascending, is_page_of, limit_view, page_limit, spec_page_limit};
use crate::token::{token_owner_idx, TokenInfo, TokenInfoView};

verus! {

/// The pairs (owner, token identifier) that a ledger gives rise to.
pub open spec fn owner_pairs<T>(ledger: Map<Seq<char>, TokenInfoView<T>>) -> Set<
    (Seq<char>, Seq<char>),
> {
    Set::new(
        |e: (Seq<char>, Seq<char>)| ledger.contains_key(e.1) && ledger[e.1].owner == e.0,
    )
}

/// The identifiers of the tokens that `owner` owns in a ledger.
pub open spec fn owned_ids<T>(ledger: Map<Seq<char>, TokenInfoView<T>>, owner: Seq<char>) -> Set<
    Seq<char>,
> {
    Set::new(|id: Seq<char>| ledger.contains_key(id) && ledger[id].owner == owner)
}

/// The identifiers of a listing, in its order.
pub open spec fn listed_ids<T>(listing: Seq<(String, &TokenInfo<T>)>) -> Seq<Seq<char>> {
    listing.map_values(|e: (String, &TokenInfo<T>)| e.0@)
}

/// The views of a vector of records.
pub open spec fn records_view<T>(records: Seq<TokenInfo<T>>) -> Seq<TokenInfoView<T>> {
    records.map_values(|r: TokenInfo<T>| r@)
}

/// The ledger that a sequence of identifiers and the sequence of their records stand for.
pub open spec fn ledger_of<T>(keys: Seq<Seq<char>>, records: Seq<TokenInfoView<T>>) -> Map<
    Seq<char>,
    TokenInfoView<T>,
> {
    Map::new(|k: Seq<char>| keys.contains(k), |k: Seq<char>| records[keys.index_of(k)])
}

proof fn lemma_keys_distinct(keys: Seq<Seq<char>>)
    requires
        ascending(keys),
    ensures
        keys.no_duplicates(),
{
    assert forall|i: int, j: int| 0 <= i < keys.len() && 0 <= j < keys.len() && i != j implies keys[i]
        != keys[j] by {
        lemma_str_lt_total(keys[i], keys[j]);
        if i < j {
            assert(str_lt(keys[i], keys[j]));
        } else {
            assert(str_lt(keys[j], keys[i]));
        }
    }
}

proof fn lemma_ledger_at<T>(keys: Seq<Seq<char>>, records: Seq<TokenInfoView<T>>, i: int)
    requires
        keys.len() == records.len(),
        ascending(keys),
        0 <= i < keys.len(),
    ensures
        ledger_of(keys, records).contains_key(keys[i]),
        ledger_of(keys, records)[keys[i]] == records[i],
        keys.index_of(keys[i]) == i,
{
    lemma_keys_distinct(keys);
    assert(keys.contains(keys[i]));
}

proof fn lemma_insert_keeps_ascending(keys: Seq<Seq<char>>, p: int, id: Seq<char>)
    requires
        ascending(keys),
        0 <= p <= keys.len(),
        forall|k: int| 0 <= k < p ==> str_lt(#[trigger] keys[k], id),
        forall|k: int| p <= k < keys.len() ==> str_lt(id, #[trigger] keys[k]),
    ensures
        ascending(keys.insert(p, id)),
{
    let now = keys.insert(p, id);
    keys.insert_ensures(p, id);
    assert forall|i: int, j: int| 0 <= i < j < now.len() implies str_lt(
        #[trigger] now[i],
        #[trigger] now[j],
    ) by {
        if j < p {
            assert(str_lt(keys[i], keys[j]));
        } else if j == p {
            assert(str_lt(keys[i], id));
        } else if i < p {
            assert(now[j] == keys[j - 1]);
            assert(str_lt(keys[i], id));
            assert(str_lt(id, keys[j - 1]));
            lemma_str_lt_transitive(keys[i], id, keys[j - 1]);
        } else if i == p {
            assert(now[j] == keys[j - 1]);
        } else {
            assert(now[i] == keys[i - 1]);
            assert(now[j] == keys[j - 1]);
            assert(str_lt(keys[i - 1], keys[j - 1]));
        }
    }
}

proof fn lemma_remove_keeps_ascending(keys: Seq<Seq<char>>, p: int)
    requires
        ascending(keys),
        0 <= p < keys.len(),
    ensures
        ascending(keys.remove(p)),
{
    let now = keys.remove(p);
    keys.remove_ensures(p);
    assert forall|i: int, j: int| 0 <= i < j < now.len() implies str_lt(
        #[trigger] now[i],
        #[trigger] now[j],
    ) by {
        let a = if i < p { i } else { i + 1 };
        let b = if j < p { j } else { j + 1 };
        assert(now[i] == keys[a]);
        assert(now[j] == keys[b]);
        assert(str_lt(keys[a], keys[b]));
    }
}

proof fn lemma_ledger_insert<T>(
    keys: Seq<Seq<char>>,
    records: Seq<TokenInfoView<T>>,
    p: int,
    id: Seq<char>,
    record: TokenInfoView<T>,
)
    requires
        keys.len() == records.len(),
        ascending(keys),
        0 <= p <= keys.len(),
        ascending(keys.insert(p, id)),
    ensures
        ledger_of(keys.insert(p, id), records.insert(p, record)) == ledger_of(keys, records).insert(
            id,
            record,
        ),
{
    let keys2 = keys.insert(p, id);
    let records2 = records.insert(p, record);
    keys.insert_ensures(p, id);
    records.insert_ensures(p, record);
    lemma_insert_to_set(keys, p, id);
    let a = ledger_of(keys2, records2);
    let b = ledger_of(keys, records).insert(id, record);
    assert forall|k: Seq<char>| a.contains_key(k) <==> b.contains_key(k) by {
        assert(keys2.to_set().contains(k) <==> keys.to_set().insert(id).contains(k));
    }
    assert forall|k: Seq<char>| a.contains_key(k) implies a[k] == b[k] by {
        let i = choose|i: int| 0 <= i < keys2.len() && keys2[i] == k;
        lemma_ledger_at(keys2, records2, i);
        lemma_keys_distinct(keys2);
        if i < p {
            lemma_ledger_at(keys, records, i);
            assert(keys2[p] == id);
        } else if i > p {
            assert(keys2[(i - 1) + 1] == keys[i - 1]);
            assert(records2[(i - 1) + 1] == records[i - 1]);
            lemma_ledger_at(keys, records, i - 1);
            assert(keys2[p] == id);
        }
    }
    assert(a =~= b);
}

proof fn lemma_ledger_remove<T>(keys: Seq<Seq<char>>, records: Seq<TokenInfoView<T>>, p: int)
    requires
        keys.len() == records.len(),
        ascending(keys),
        0 <= p < keys.len(),
    ensures
        ledger_of(keys.remove(p), records.remove(p)) == ledger_of(keys, records).remove(keys[p]),
{
    let keys2 = keys.remove(p);
    let records2 = records.remove(p);
    keys.remove_ensures(p);
    records.remove_ensures(p);
    lemma_keys_distinct(keys);
    lemma_remove_to_set(keys, p);
    lemma_remove_keeps_ascending(keys, p);
    let a = ledger_of(keys2, records2);
    let b = ledger_of(keys, records).remove(keys[p]);
    assert forall|k: Seq<char>| a.contains_key(k) <==> b.contains_key(k) by {
        assert(keys2.to_set().contains(k) <==> keys.to_set().remove(keys[p]).contains(k));
    }
    assert forall|k: Seq<char>| a.contains_key(k) implies a[k] == b[k] by {
        let i = choose|i: int| 0 <= i < keys2.len() && keys2[i] == k;
        lemma_ledger_at(keys2, records2, i);
        if i < p {
            lemma_ledger_at(keys, records, i);
        } else {
            lemma_ledger_at(keys, records, i + 1);
        }
    }
    assert(a =~= b);
}

proof fn lemma_ledger_update<T>(
    keys: Seq<Seq<char>>,
    records: Seq<TokenInfoView<T>>,
    p: int,
    record: TokenInfoView<T>,
)
    requires
        keys.len() == records.len(),
        ascending(keys),
        0 <= p < keys.len(),
    ensures
        ledger_of(keys, records.update(p, record)) == ledger_of(keys, records).insert(
            keys[p],
            record,
        ),
{
    let records2 = records.update(p, record);
    let a = ledger_of(keys, records2);
    let b = ledger_of(keys, records).insert(keys[p], record);
    assert(keys.contains(keys[p]));
    assert forall|k: Seq<char>| a.contains_key(k) implies a[k] == b[k] by {
        let i = choose|i: int| 0 <= i < keys.len() && keys[i] == k;
        lemma_ledger_at(keys, records2, i);
        lemma_ledger_at(keys, records, i);
        lemma_ledger_at(keys, records, p);
    }
    assert(a =~= b);
}

/// The tokens of a contract, by identifier, and the index of their owners.
pub struct TokenCollection<T> {
    namespace: String,
    ids: Vec<String>,
    records: Vec<TokenInfo<T>>,
    indexes: TokenIndexes,
}

impl<T> View for TokenCollection<T> {
    type V = Map<Seq<char>, TokenInfoView<T>>;

    closed spec fn view(&self) -> Map<Seq<char>, TokenInfoView<T>> {
        ledger_of(self.keys(), records_view(self.records@))
    }
}

impl<T> TokenCollection<T> {
    /// The key under which the records are kept.
    pub closed spec fn key(&self) -> Seq<char> {
        self.namespace@
    }

    /// The key under which the owner index is kept.
    pub closed spec fn index_key(&self) -> Seq<char> {
        self.indexes.key()
    }

    /// The pairs (owner, token identifier) that the owner index holds.
    pub closed spec fn index(&self) -> Set<(Seq<char>, Seq<char>)> {
        self.indexes@
    }

    /// The identifiers of the ledger in their order.
    pub closed spec fn keys(&self) -> Seq<Seq<char>> {
        strings_view(self.ids@)
    }

    /// The ledger is in order, and the owner index holds exactly the pairs that the
    /// records give rise to. This holds of every ledger at all times.
    #[verifier::type_invariant]
    pub closed spec fn wf(&self) -> bool {
        &&& self.ids@.len() == self.records@.len()
        &&& ascending(self.keys())
        &&& self.indexes.wf()
        &&& self.indexes@ == owner_pairs(self@)
    }

    /// The owner index has an entry for each record, under the record's owner, and no other.
    pub proof fn lemma_index_in_step(&self)
        requires
            self.wf(),
        ensures
            self.index() == owner_pairs(self@),
            self@.dom().finite(),
    {
        self.lemma_domain();
    }

    proof fn lemma_domain(&self)
        ensures
            self@.dom() == self.keys().to_set(),
            self@.dom().finite(),
    {
        assert(self@.dom() =~= self.keys().to_set());
    }

    proof fn lemma_lookup(&self, i: int)
        requires
            self.ids@.len() == self.records@.len(),
            ascending(self.keys()),
            0 <= i < self.keys().len(),
        ensures
            self@.contains_key(self.keys()[i]),
            self@[self.keys()[i]] == self.records@[i]@,
            self.record(self.keys()[i]) == self.records@[i],
    {
        lemma_ledger_at(self.keys(), records_view(self.records@), i);
    }

    /// The record that the ledger keeps under `id`, where it keeps one.
    pub closed spec fn record(&self, id: Seq<char>) -> TokenInfo<T> {
        self.records@[self.keys().index_of(id)]
    }

    /// What the ledger says of a token is the view of the record it keeps.
    pub proof fn lemma_record_view(&self, id: Seq<char>)
        requires
            self.wf(),
            self@.contains_key(id),
        ensures
            self@[id] == self.record(id)@,
    {
        let i = self.keys().index_of(id);
        assert(self.keys().contains(id));
        self.lemma_lookup(i);
    }

    /// An empty ledger whose records are kept under `namespace` and whose owner index
    /// is kept under `owner_index_namespace`.
    pub fn new(namespace: &str, owner_index_namespace: &str) -> (ledger: Self)
        ensures
            ledger.key() == namespace@,
            ledger.index_key() == owner_index_namespace@,
            ledger@ == Map::<Seq<char>, TokenInfoView<T>>::empty(),
    {
        let indexes = TokenIndexes::new(owner_index_namespace);
        let namespace = namespace.to_owned();
        let ids: Vec<String> = Vec::new();
        let records: Vec<TokenInfo<T>> = Vec::new();
        proof {
            use_type_invariant(&indexes);
            let ghost ledger = TokenCollection::<T> { namespace, ids, records, indexes };
            assert(ledger@ =~= Map::<Seq<char>, TokenInfoView<T>>::empty());
            assert(ledger.indexes@ =~= owner_pairs(ledger@));
        }
        TokenCollection { namespace, ids, records, indexes }
    }

    /// The key under which the records are kept.
    pub fn namespace(&self) -> (key: &str)
        ensures
            key@ == self.key(),
    {
        self.namespace.as_str()
    }

    /// The key under which the owner index is kept.
    pub fn index_namespace(&self) -> (key: &str)
        ensures
            key@ == self.index_key(),
    {
        self.indexes.namespace()
    }

    /// The number of tokens in the ledger.
    pub fn len(&self) -> (n: usize)
        ensures
            self@.dom().finite(),
            n == self@.dom().len(),
    {
        proof {
            use_type_invariant(self);
            self.lemma_domain();
            lemma_keys_distinct(self.keys());
            self.keys().unique_seq_to_set();
        }
        self.ids.len()
    }

    /// The first position whose identifier does not come before `id`.
    fn find(&self, id: &str) -> (p: usize)
        requires
            ascending(self.keys()),
        ensures
            p <= self.keys().len(),
            forall|k: int| 0 <= k < p ==> str_lt(#[trigger] self.keys()[k], id@),
            forall|k: int| p <= k < self.keys().len() ==> !str_lt(#[trigger] self.keys()[k], id@),
            p < self.keys().len() && self.keys()[p as int] == id@ <==> self.keys().contains(id@),
    {
        let mut lo: usize = 0;
        let mut hi: usize = self.ids.len();
        while lo < hi
            invariant
                ascending(self.keys()),
                lo <= hi <= self.ids.len(),
                forall|k: int| 0 <= k < lo ==> str_lt(#[trigger] self.keys()[k], id@),
                forall|k: int| hi <= k < self.keys().len() ==> !str_lt(#[trigger] self.keys()[k], id@),
            decreases hi - lo,
        {
            let mid = lo + (hi - lo) / 2;
            match compare_str(self.ids[mid].as_str(), id) {
                Rank::Before => {
                    proof {
                        assert forall|k: int| 0 <= k < mid + 1 implies str_lt(
                            #[trigger] self.keys()[k],
                            id@,
                        ) by {
                            if k < mid {
                                assert(str_lt(self.keys()[k], self.keys()[mid as int]));
                                lemma_str_lt_transitive(self.keys()[k], self.keys()[mid as int], id@);
                            }
                        }
                    }
                    lo = mid + 1;
                },
                _ => {
                    proof {
                        assert forall|k: int| mid <= k < self.keys().len() implies !str_lt(
                            #[trigger] self.keys()[k],
                            id@,
                        ) by {
                            if k > mid && str_lt(self.keys()[k], id@) {
                                assert(str_lt(self.keys()[mid as int], self.keys()[k]));
                                lemma_str_lt_transitive(self.keys()[mid as int], self.keys()[k], id@);
                            }
                        }
                    }
                    hi = mid;
                },
            }
        }
        proof {
            let keys = self.keys();
            if keys.contains(id@) {
                let j = choose|j: int| 0 <= j < keys.len() && keys[j] == id@;
                lemma_str_lt_total(id@, id@);
                assert(j >= lo);
                if j > lo {
                    assert(str_lt(keys[lo as int], keys[j]));
                }
            }
        }
        lo
    }

    /// Whether the ledger has a token under `id`.
    pub fn has(&self, id: &str) -> (found: bool)
        ensures
            found == self@.contains_key(id@),
    {
        proof {
            use_type_invariant(self);
        }
        let p = self.find(id);
        p < self.ids.len() && matches!(compare_str(self.ids[p].as_str(), id), Rank::Same)
    }

    /// The record of the token `id`, or `None` where the ledger has none.
    pub fn get(&self, id: &str) -> (found: Option<&TokenInfo<T>>)
        ensures
            match found {
                Some(record) => self@.contains_key(id@) && record@ == self@[id@] && *record
                    == self.record(id@),
                None => !self@.contains_key(id@),
            },
    {
        proof {
            use_type_invariant(self);
        }
        let p = self.find(id);
        if p < self.ids.len() && matches!(compare_str(self.ids[p].as_str(), id), Rank::Same) {
            proof {
                self.lemma_lookup(p as int);
            }
            Some(&self.records[p])
        } else {
            None
        }
    }

    /// The stand-in while another ledger's parts are worked on: no token, no pair, empty keys.
    fn vacant() -> (ledger: Self)
        ensures
            ledger@ == Map::<Seq<char>, TokenInfoView<T>>::empty(),
            ledger.index() == Set::<(Seq<char>, Seq<char>)>::empty(),
            ledger.key() == Seq::<char>::empty(),
            ledger.index_key() == Seq::<char>::empty(),
    {
        let indexes = TokenIndexes::new("");
        let namespace = String::new();
        let ids: Vec<String> = Vec::new();
        let records: Vec<TokenInfo<T>> = Vec::new();
        proof {
            reveal_strlit("");
            use_type_invariant(&indexes);
            let ghost ledger = TokenCollection::<T> { namespace, ids, records, indexes };
            assert(ledger@ =~= Map::<Seq<char>, TokenInfoView<T>>::empty());
            assert(ledger.indexes@ =~= owner_pairs(ledger@));
            assert(""@ =~= Seq::<char>::empty());
        }
        TokenCollection { namespace, ids, records, indexes }
    }

    /// Adds a token under an identifier that is free, and files it in the owner index.
    /// Where the identifier is taken, nothing changes and the error is `AlreadyExists`.
    pub fn insert(&mut self, id: &str, record: TokenInfo<T>) -> (res: Result<(), ContractError>)
        ensures
            final(self).key() == old(self).key(),
            final(self).index_key() == old(self).index_key(),
            old(self)@.contains_key(id@) ==> res == Err::<(), ContractError>(
                ContractError::AlreadyExists {},
            ) && *final(self) == *old(self),
            !old(self)@.contains_key(id@) ==> res is Ok && final(self)@ == old(self)@.insert(
                id@,
                record@,
            ) && final(self).record(id@) == record,
    {
        proof {
            use_type_invariant(&*self);
        }
        let p = self.find(id);
        if p < self.ids.len() && matches!(compare_str(self.ids[p].as_str(), id), Rank::Same) {
            return Err(ContractError::AlreadyExists {});
        }
        let ghost keys = self.keys();
        let ghost views = records_view(self.records@);
        proof {
            assert forall|k: int| p <= k < keys.len() implies str_lt(id@, #[trigger] keys[k]) by {
                lemma_str_lt_total(id@, keys[k]);
            }
            lemma_insert_keeps_ascending(keys, p as int, id@);
            lemma_ledger_insert(keys, views, p as int, id@, record@);
        }
        let mut taken = Self::vacant();
        std::mem::swap(&mut taken, self);
        let TokenCollection { namespace, mut ids, mut records, mut indexes } = taken;
        indexes.insert(token_owner_idx(&record).as_str(), id);
        ids.insert(p, id.to_owned());
        records.insert(p, record);
        proof {
            use_type_invariant(&indexes);
            let ghost next = TokenCollection::<T> { namespace, ids, records, indexes };
            assert(next.keys() =~= keys.insert(p as int, id@));
            assert(records_view(next.records@) =~= views.insert(p as int, record@));
            assert(next.indexes@ =~= owner_pairs(next@));
            keys.insert_ensures(p as int, id@);
            next.lemma_lookup(p as int);
        }
        *self = TokenCollection { namespace, ids, records, indexes };
        Ok(())
    }

    /// Puts `record` under `id`, in place of what was there, if anything, and brings
    /// the owner index in step.
    pub fn save(&mut self, id: &str, record: TokenInfo<T>)
        ensures
            final(self).key() == old(self).key(),
            final(self).index_key() == old(self).index_key(),
            final(self)@ == old(self)@.insert(id@, record@),
            final(self).record(id@) == record,
    {
        proof {
            use_type_invariant(&*self);
        }
        let p = self.find(id);
        if p < self.ids.len() && matches!(compare_str(self.ids[p].as_str(), id), Rank::Same) {
            let ghost keys = self.keys();
            let ghost views = records_view(self.records@);
            proof {
                self.lemma_lookup(p as int);
                lemma_ledger_update(keys, views, p as int, record@);
            }
            let mut taken = Self::vacant();
            std::mem::swap(&mut taken, self);
            let TokenCollection { namespace, ids, mut records, mut indexes } = taken;
            let old_owner = token_owner_idx(&records[p]);
            let new_owner = token_owner_idx(&record);
            if !matches!(compare_str(old_owner.as_str(), new_owner.as_str()), Rank::Same) {
                indexes.remove(old_owner.as_str(), id);
                indexes.insert(new_owner.as_str(), id);
            }
            let _before = records.remove(p);
            records.insert(p, record);
            proof {
                use_type_invariant(&indexes);
                let ghost next = TokenCollection::<T> { namespace, ids, records, indexes };
                assert(records_view(next.records@) =~= views.update(p as int, record@));
                assert(next.indexes@ =~= owner_pairs(next@));
                next.lemma_lookup(p as int);
            }
            *self = TokenCollection { namespace, ids, records, indexes };
        } else {
            let inserted = self.insert(id, record);
            assert(inserted is Ok);
        }
    }

    /// Changes the record of the token `id` by `action`. Where the owner changes, the
    /// token leaves the old owner's index entries and enters the new owner's. Where the
    /// ledger has no such token, nothing changes and the error is `NotFound`.
    pub fn update<F>(&mut self, id: &str, action: F) -> (res: Result<(), ContractError>) where
        F: FnOnce(TokenInfo<T>) -> TokenInfo<T>,

        requires
            old(self)@.contains_key(id@) ==> action.requires((old(self).record(id@),)),
        ensures
            final(self).key() == old(self).key(),
            final(self).index_key() == old(self).index_key(),
            !old(self)@.contains_key(id@) ==> res == Err::<(), ContractError>(
                ContractError::NotFound {},
            ) && *final(self) == *old(self),
            old(self)@.contains_key(id@) ==> res is Ok && action.ensures(
                (old(self).record(id@),),
                final(self).record(id@),
            ) && final(self)@ == old(self)@.insert(id@, final(self).record(id@)@),
    {
        proof {
            use_type_invariant(&*self);
        }
        let p = self.find(id);
        if !(p < self.ids.len() && matches!(compare_str(self.ids[p].as_str(), id), Rank::Same)) {
            return Err(ContractError::NotFound {});
        }
        let ghost keys = self.keys();
        let ghost views = records_view(self.records@);
        proof {
            self.lemma_lookup(p as int);
        }
        let mut taken = Self::vacant();
        std::mem::swap(&mut taken, self);
        let TokenCollection { namespace, ids, mut records, mut indexes } = taken;
        let before = records.remove(p);
        let old_owner = token_owner_idx(&before);
        let now = action(before);
        let new_owner = token_owner_idx(&now);
        proof {
            lemma_ledger_update(keys, views, p as int, now@);
        }
        if !matches!(compare_str(old_owner.as_str(), new_owner.as_str()), Rank::Same) {
            indexes.remove(old_owner.as_str(), id);
            indexes.insert(new_owner.as_str(), id);
        }
        records.insert(p, now);
        proof {
            use_type_invariant(&indexes);
            let ghost next = TokenCollection::<T> { namespace, ids, records, indexes };
            assert(records_view(next.records@) =~= views.update(p as int, now@));
            assert(next.indexes@ =~= owner_pairs(next@));
            next.lemma_lookup(p as int);
        }
        *self = TokenCollection { namespace, ids, records, indexes };
        Ok(())
    }

    /// Deletes the token `id` and its entry in the owner index. Where the ledger has
    /// no such token, nothing changes and the error is `NotFound`.
    pub fn remove(&mut self, id: &str) -> (res: Result<(), ContractError>)
        ensures
            final(self).key() == old(self).key(),
            final(self).index_key() == old(self).index_key(),
            !old(self)@.contains_key(id@) ==> res == Err::<(), ContractError>(
                ContractError::NotFound {},
            ) && *final(self) == *old(self),
            old(self)@.contains_key(id@) ==> res is Ok && final(self)@ == old(self)@.remove(id@),
    {
        proof {
            use_type_invariant(&*self);
        }
        let p = self.find(id);
        if !(p < self.ids.len() && matches!(compare_str(self.ids[p].as_str(), id), Rank::Same)) {
            return Err(ContractError::NotFound {});
        }
        let ghost keys = self.keys();
        let ghost views = records_view(self.records@);
        proof {
            self.lemma_lookup(p as int);
            lemma_remove_keeps_ascending(keys, p as int);
            lemma_ledger_remove(keys, views, p as int);
        }
        let mut taken = Self::vacant();
        std::mem::swap(&mut taken, self);
        let TokenCollection { namespace, mut ids, mut records, mut indexes } = taken;
        let _gone = ids.remove(p);
        let before = records.remove(p);
        indexes.remove(token_owner_idx(&before).as_str(), id);
        proof {
            use_type_invariant(&indexes);
            let ghost next = TokenCollection::<T> { namespace, ids, records, indexes };
            assert(next.keys() =~= keys.remove(p as int));
            assert(records_view(next.records@) =~= views.remove(p as int));
            assert(next.indexes@ =~= owner_pairs(next@));
        }
        *self = TokenCollection { namespace, ids, records, indexes };
        Ok(())
    }

    /// The tokens of `owner` with their records, in ascending order of identifier: those
    /// that come after `start_after`, where one is given, and at most `limit` of them,
    /// where one is given.
    pub fn list_by_owner(&self, owner: &str, start_after: Option<&str>, limit: Option<u32>) -> (listing:
        Vec<(String, &TokenInfo<T>)>)
        ensures
            is_page_of(
                owned_ids(self@, owner@),
                opt_str_view(start_after),
                limit_view(limit),
                listed_ids(listing@),
            ),
            forall|k: int|
                0 <= k < listing@.len() ==> self@.contains_key((#[trigger] listing@[k]).0@)
                    && listing@[k].1@ == self@[listing@[k].0@],
    {
        proof {
            use_type_invariant(self);
        }
        let ids = self.indexes.ids_of(owner, start_after, limit);
        proof {
            assert(self.indexes.owned_by(owner@) =~= owned_ids(self@, owner@));
        }
        let mut listing: Vec<(String, &TokenInfo<T>)> = Vec::new();
        let mut i: usize = 0;
        while i < ids.len()
            invariant
                self.wf(),
                i <= ids.len(),
                listing@.len() == i,
                forall|k: int|
                    0 <= k < ids@.len() ==> owned_ids(self@, owner@).contains(
                        #[trigger] strings_view(ids@)[k],
                    ),
                forall|k: int|
                    0 <= k < i ==> (#[trigger] listing@[k]).0@ == ids@[k]@ && self@.contains_key(
                        ids@[k]@,
                    ) && listing@[k].1@ == self@[ids@[k]@],
            decreases ids.len() - i,
        {
            proof {
                assert(owned_ids(self@, owner@).contains(strings_view(ids@)[i as int]));
            }
            let p = self.find(ids[i].as_str());
            proof {
                self.lemma_domain();
                assert(self.keys().contains(ids@[i as int]@));
                self.lemma_lookup(p as int);
            }
            listing.push((ids[i].clone(), &self.records[p]));
            i += 1;
        }
        proof {
            assert(listed_ids(listing@) =~= strings_view(ids@));
        }
        listing
    }

    /// One page of the tokens of `owner`: as `list_by_owner`, with the default page
    /// size where `limit` is absent and the largest page size where it asks for more.
    pub fn page_by_owner(&self, owner: &str, start_after: Option<&str>, limit: Option<u32>) -> (listing:
        Vec<(String, &TokenInfo<T>)>)
        ensures
            is_page_of(
                owned_ids(self@, owner@),
                opt_str_view(start_after),
                Some(spec_page_limit(limit) as nat),
                listed_ids(listing@),
            ),
            forall|k: int|
                0 <= k < listing@.len() ==> self@.contains_key((#[trigger] listing@[k]).0@)
                    && listing@[k].1@ == self@[listing@[k].0@],
    {
        self.list_by_owner(owner, start_after, Some(page_limit(limit)))
    }
}

/// The ledger after the tokens `ids` with the records `records` were inserted one
/// after the other.
pub open spec fn with_tokens<T>(
    ledger: Map<Seq<char>, TokenInfoView<T>>,
    ids: Seq<Seq<char>>,
    records: Seq<TokenInfoView<T>>,
) -> Map<Seq<char>, TokenInfoView<T>>
    decreases ids.len(),
{
    if ids.len() == 0 || records.len() != ids.len() {
        ledger
    } else {
        with_tokens(ledger, ids.drop_last(), records.drop_last()).insert(ids.last(), records.last())
    }
}

proof fn lemma_with_tokens<T>(
    ledger: Map<Seq<char>, TokenInfoView<T>>,
    ids: Seq<Seq<char>>,
    records: Seq<TokenInfoView<T>>,
    owner: Seq<char>,
)
    requires
        ids.len() == records.len(),
        ids.no_duplicates(),
        forall|i: int| 0 <= i < ids.len() ==> !ledger.contains_key(#[trigger] ids[i]),
        forall|i: int| 0 <= i < records.len() ==> (#[trigger] records[i]).owner == owner,
    ensures
        owned_ids(with_tokens(ledger, ids, records), owner) == owned_ids(ledger, owner).union(
            ids.to_set(),
        ),
    decreases ids.len(),
{
    let after = with_tokens(ledger, ids, records);
    if ids.len() == 0 {
        assert(ids.to_set() =~= Set::<Seq<char>>::empty());
        assert(owned_ids(after, owner) =~= owned_ids(ledger, owner).union(ids.to_set()));
    } else {
        let fewer = with_tokens(ledger, ids.drop_last(), records.drop_last());
        let last = ids.last();
        lemma_with_tokens(ledger, ids.drop_last(), records.drop_last(), owner);
        assert(after == fewer.insert(last, records.last()));
        assert(records.last().owner == owner);
        assert(ids[ids.len() - 1] == last);
        assert forall|x: Seq<char>|
            owned_ids(after, owner).contains(x) <==> owned_ids(ledger, owner).union(
                ids.to_set(),
            ).contains(x) by {
            if ids.contains(x) && x != last {
                let i = choose|i: int| 0 <= i < ids.len() && ids[i] == x;
                assert(ids.drop_last()[i] == x);
                assert(ids.drop_last().to_set().contains(x));
            }
            if ids.drop_last().contains(x) {
                let i = choose|i: int| 0 <= i < ids.drop_last().len() && ids.drop_last()[i] == x;
                assert(ids[i] == x);
            }
            if x != last {
                assert(owned_ids(after, owner).contains(x) <==> owned_ids(fewer, owner).contains(x));
                assert(owned_ids(fewer, owner).contains(x) <==> owned_ids(ledger, owner).contains(x)
                    || ids.drop_last().to_set().contains(x));
            }
        }
        assert(owned_ids(after, owner) =~= owned_ids(ledger, owner).union(ids.to_set()));
    }
}

/// Tokens that were inserted for an owner are listed for that owner: after k tokens
/// with new, distinct identifiers were inserted for `owner`, the unlimited listing of
/// `owner` holds, in ascending order and once each, what `owner` had before and those
/// k identifiers; where `owner` had nothing before, exactly those k.
pub proof fn lemma_inserted_tokens_are_listed<T>(
    ledger: Map<Seq<char>, TokenInfoView<T>>,
    ids: Seq<Seq<char>>,
    records: Seq<TokenInfoView<T>>,
    owner: Seq<char>,
    page: Seq<Seq<char>>,
)
    requires
        ids.len() == records.len(),
        ids.no_duplicates(),
        forall|i: int| 0 <= i < ids.len() ==> !ledger.contains_key(#[trigger] ids[i]),
        forall|i: int| 0 <= i < records.len() ==> (#[trigger] records[i]).owner == owner,
        is_page_of(owned_ids(with_tokens(ledger, ids, records), owner), None, None, page),
    ensures
        ascending(page),
        page.no_duplicates(),
        page.to_set() == owned_ids(ledger, owner).union(ids.to_set()),
        owned_ids(ledger, owner) == Set::<Seq<char>>::empty() ==> page.to_set() == ids.to_set()
            && page.len() == ids.len(),
{
    let owned = owned_ids(with_tokens(ledger, ids, records), owner);
    lemma_with_tokens(ledger, ids, records, owner);
    lemma_keys_distinct(page);
    assert(page.to_set() =~= owned) by {
        assert forall|x: Seq<char>| owned.contains(x) implies page.contains(x) by {
            if !page.contains(x) {
                assert(owned.contains(x) && crate::paging::after(None, x));
            }
        }
    }
    if owned_ids(ledger, owner) == Set::<Seq<char>>::empty() {
        assert(page.to_set() =~= ids.to_set());
        page.unique_seq_to_set();
        ids.unique_seq_to_set();
    }
}

/// Changing a token's owner moves it in the listings: once the record of `id`, owned
/// by `a`, is replaced by one owned by `b`, the unlimited listing of `a` no longer holds
/// `id`, and that of `b` holds it exactly once.
pub proof fn lemma_new_owner_is_listed<T>(
    ledger: Map<Seq<char>, TokenInfoView<T>>,
    id: Seq<char>,
    record: TokenInfoView<T>,
    a: Seq<char>,
    b: Seq<char>,
    page_a: Seq<Seq<char>>,
    page_b: Seq<Seq<char>>,
)
    requires
        ledger.contains_key(id),
        ledger[id].owner == a,
        record.owner == b,
        a != b,
        is_page_of(owned_ids(ledger.insert(id, record), a), None, None, page_a),
        is_page_of(owned_ids(ledger.insert(id, record), b), None, None, page_b),
    ensures
        !page_a.contains(id),
        page_b.contains(id),
        page_b.no_duplicates(),
        forall|x: Seq<char>| x != id ==> (page_a.contains(x) <==> ledger.contains_key(x) && ledger[x].owner == a),
        forall|x: Seq<char>| x != id ==> (page_b.contains(x) <==> ledger.contains_key(x) && ledger[x].owner == b),
{
    let after = ledger.insert(id, record);
    lemma_keys_distinct(page_b);
    if page_a.contains(id) {
        let i = choose|i: int| 0 <= i < page_a.len() && page_a[i] == id;
        assert(owned_ids(after, a).contains(page_a[i]));
    }
    if !page_b.contains(id) {
        assert(owned_ids(after, b).contains(id) && crate::paging::after(None, id));
    }
    assert forall|x: Seq<char>| x != id implies (page_a.contains(x) <==> ledger.contains_key(x)
        && ledger[x].owner == a) by {
        if page_a.contains(x) {
            let i = choose|i: int| 0 <= i < page_a.len() && page_a[i] == x;
            assert(owned_ids(after, a).contains(page_a[i]));
        }
        if ledger.contains_key(x) && ledger[x].owner == a && !page_a.contains(x) {
            assert(owned_ids(after, a).contains(x) && crate::paging::after(None, x));
        }
    }
    assert forall|x: Seq<char>| x != id implies (page_b.contains(x) <==> ledger.contains_key(x)
        && ledger[x].owner == b) by {
        if page_b.contains(x) {
            let i = choose|i: int| 0 <= i < page_b.len() && page_b[i] == x;
            assert(owned_ids(after, b).contains(page_b[i]));
        }
        if ledger.contains_key(x) && ledger[x].owner == b && !page_b.contains(x) {
            assert(owned_ids(after, b).contains(x) && crate::paging::after(None, x));
        }
    }
}

} // verus!
