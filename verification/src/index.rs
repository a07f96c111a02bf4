//! The secondary index of the token ledger: for each owner, the identifiers of the
//! tokens it owns, kept in ascending order.

use vstd::prelude::*;
use crate::order::{
    compare_str, lemma_pair_lt_total, lemma_pair_lt_transitive, lemma_str_lt_total, pair_lt,
    str_lt, Rank,
};
use crate::paging::{after, all_before, ascending, is_page_of, limit_view};

verus! {

/// The pairs (owner, token identifier) that a vector of index entries stands for.
pub open spec fn entries_view(entries: Seq<(String, String)>) -> Seq<(Seq<char>, Seq<char>)> {
    entries.map_values(|e: (String, String)| (e.0@, e.1@))
}

/// The strings of a vector as values.
pub open spec fn strings_view(strings: Seq<String>) -> Seq<Seq<char>> {
    strings.map_values(|s: String| s@)
}

/// The view of an optional string slice.
pub open spec fn opt_str_view(s: Option<&str>) -> Option<Seq<char>> {
    match s {
        Some(t) => Some(t@),
        None => None,
    }
}

/// Each pair comes strictly before the next.
pub open spec fn pairs_ascending(s: Seq<(Seq<char>, Seq<char>)>) -> bool {
    forall|i: int, j: int| 0 <= i < j < s.len() ==> pair_lt(#[trigger] s[i], #[trigger] s[j])
}

/// `e` comes before `bound`, or is `bound` where that counts.
pub open spec fn precedes(
    e: (Seq<char>, Seq<char>),
    bound: (Seq<char>, Seq<char>),
    inclusive: bool,
) -> bool {
    pair_lt(e, bound) || (inclusive && e == bound)
}

proof fn lemma_precedes_downward(
    s: Seq<(Seq<char>, Seq<char>)>,
    i: int,
    j: int,
    bound: (Seq<char>, Seq<char>),
    inclusive: bool,
)
    requires
        pairs_ascending(s),
        0 <= i < j < s.len(),
        precedes(s[j], bound, inclusive),
    ensures
        precedes(s[i], bound, inclusive),
{
    assert(pair_lt(s[i], s[j]));
    if pair_lt(s[j], bound) {
        lemma_pair_lt_transitive(s[i], s[j], bound);
    }
}

/// What inserting into a sequence does to the set of its elements.
pub proof fn lemma_insert_to_set<A>(s: Seq<A>, p: int, x: A)
    requires
        0 <= p <= s.len(),
    ensures
        s.insert(p, x).to_set() == s.to_set().insert(x),
{
    let t = s.insert(p, x);
    s.insert_ensures(p, x);
    assert forall|e: A| t.to_set().contains(e) <==> s.to_set().insert(x).contains(e) by {
        if t.contains(e) {
            let i = choose|i: int| 0 <= i < t.len() && t[i] == e;
            if i < p {
                assert(s[i] == e);
            } else if i > p {
                assert(t[(i - 1) + 1] == s[i - 1]);
                assert(s[i - 1] == e);
            }
        }
        if s.contains(e) {
            let i = choose|i: int| 0 <= i < s.len() && s[i] == e;
            if i < p {
                assert(t[i] == e);
            } else {
                assert(t[i + 1] == e);
            }
        }
        if e == x {
            assert(t[p] == e);
        }
    }
    assert(t.to_set() =~= s.to_set().insert(x));
}

/// What removing from a sequence without duplicates does to the set of its elements.
pub proof fn lemma_remove_to_set<A>(s: Seq<A>, p: int)
    requires
        0 <= p < s.len(),
        s.no_duplicates(),
    ensures
        s.remove(p).to_set() == s.to_set().remove(s[p]),
{
    let t = s.remove(p);
    s.remove_ensures(p);
    assert forall|e: A| t.to_set().contains(e) <==> s.to_set().remove(s[p]).contains(e) by {
        if t.contains(e) {
            let i = choose|i: int| 0 <= i < t.len() && t[i] == e;
            if i < p {
                assert(s[i] == e);
            } else {
                assert(s[i + 1] == e);
            }
        }
        if s.contains(e) && e != s[p] {
            let i = choose|i: int| 0 <= i < s.len() && s[i] == e;
            if i < p {
                assert(t[i] == e);
            } else {
                assert(t[i - 1] == s[(i - 1) + 1]);
            }
        }
    }
    assert(t.to_set() =~= s.to_set().remove(s[p]));
}

proof fn lemma_pairs_distinct(s: Seq<(Seq<char>, Seq<char>)>)
    requires
        pairs_ascending(s),
    ensures
        s.no_duplicates(),
{
    assert forall|i: int, j: int| 0 <= i < s.len() && 0 <= j < s.len() && i != j implies s[i]
        != s[j] by {
        lemma_pair_lt_total(s[i], s[j]);
        if i < j {
            assert(pair_lt(s[i], s[j]));
        } else {
            assert(pair_lt(s[j], s[i]));
        }
    }
}

fn entry_precedes(e: &(String, String), owner: &str, id: &str, inclusive: bool) -> (r: bool)
    ensures
        r == precedes((e.0@, e.1@), (owner@, id@), inclusive),
{
    proof {
        lemma_str_lt_total(e.0@, owner@);
        lemma_str_lt_total(e.1@, id@);
    }
    match compare_str(e.0.as_str(), owner) {
        Rank::Before => true,
        Rank::After => false,
        Rank::Same => match compare_str(e.1.as_str(), id) {
            Rank::Before => true,
            Rank::Same => inclusive,
            Rank::After => false,
        },
    }
}

/// The owner index: the pairs (owner, token identifier), in ascending order.
pub struct TokenIndexes {
    namespace: String,
    owner: Vec<(String, String)>,
}

impl View for TokenIndexes {
    type V = Set<(Seq<char>, Seq<char>)>;

    closed spec fn view(&self) -> Set<(Seq<char>, Seq<char>)> {
        self.entries().to_set()
    }
}

impl TokenIndexes {
    /// The key under which the index is kept.
    pub closed spec fn key(&self) -> Seq<char> {
        self.namespace@
    }

    /// The pairs of the index in their order.
    pub closed spec fn entries(&self) -> Seq<(Seq<char>, Seq<char>)> {
        entries_view(self.owner@)
    }

    /// The index is in order: each pair comes strictly before the next. This holds of
    /// every index at all times.
    #[verifier::type_invariant]
    pub closed spec fn wf(&self) -> bool {
        pairs_ascending(self.entries())
    }

    /// The identifiers that the index files under `owner`.
    pub open spec fn owned_by(&self, owner: Seq<char>) -> Set<Seq<char>> {
        Set::new(|id: Seq<char>| self@.contains((owner, id)))
    }

    /// An empty index under `namespace`.
    pub fn new(namespace: &str) -> (index: Self)
        ensures
            index.key() == namespace@,
            index@ == Set::<(Seq<char>, Seq<char>)>::empty(),
    {
        let index = TokenIndexes { namespace: namespace.to_owned(), owner: Vec::new() };
        assert(index@ =~= Set::<(Seq<char>, Seq<char>)>::empty());
        index
    }

    /// The key under which the index is kept.
    pub fn namespace(&self) -> (key: &str)
        ensures
            key@ == self.key(),
    {
        self.namespace.as_str()
    }

    /// The first position whose pair does not precede (`owner`, `id`).
    fn seek(&self, owner: &str, id: &str, inclusive: bool) -> (p: usize)
        ensures
            p <= self.entries().len(),
            forall|k: int|
                0 <= k < p ==> precedes(#[trigger] self.entries()[k], (owner@, id@), inclusive),
            forall|k: int|
                p <= k < self.entries().len() ==> !precedes(
                    #[trigger] self.entries()[k],
                    (owner@, id@),
                    inclusive,
                ),
    {
        proof {
            use_type_invariant(self);
        }
        let ghost bound = (owner@, id@);
        let mut lo: usize = 0;
        let mut hi: usize = self.owner.len();
        while lo < hi
            invariant
                self.wf(),
                bound == (owner@, id@),
                lo <= hi <= self.owner.len(),
                forall|k: int| 0 <= k < lo ==> precedes(#[trigger] self.entries()[k], bound, inclusive),
                forall|k: int|
                    hi <= k < self.entries().len() ==> !precedes(
                        #[trigger] self.entries()[k],
                        bound,
                        inclusive,
                    ),
            decreases hi - lo,
        {
            let mid = lo + (hi - lo) / 2;
            if entry_precedes(&self.owner[mid], owner, id, inclusive) {
                proof {
                    assert forall|k: int| 0 <= k < mid + 1 implies precedes(
                        #[trigger] self.entries()[k],
                        bound,
                        inclusive,
                    ) by {
                        if k < mid {
                            lemma_precedes_downward(self.entries(), k, mid as int, bound, inclusive);
                        }
                    }
                }
                lo = mid + 1;
            } else {
                proof {
                    assert forall|k: int| mid <= k < self.entries().len() implies !precedes(
                        #[trigger] self.entries()[k],
                        bound,
                        inclusive,
                    ) by {
                        if k > mid && precedes(self.entries()[k], bound, inclusive) {
                            lemma_precedes_downward(self.entries(), mid as int, k, bound, inclusive);
                        }
                    }
                }
                hi = mid;
            }
        }
        lo
    }

    /// Files `id` under `owner`. Returns whether the pair was new.
    pub fn insert(&mut self, owner: &str, id: &str) -> (added: bool)
        ensures
            final(self).key() == old(self).key(),
            final(self)@ == old(self)@.insert((owner@, id@)),
            added == !old(self)@.contains((owner@, id@)),
    {
        proof {
            use_type_invariant(&*self);
        }
        let ghost bound = (owner@, id@);
        let ghost before = self.entries();
        let p = self.seek(owner, id, false);
        if p < self.owner.len() && entry_precedes(&self.owner[p], owner, id, true) {
            proof {
                assert(before[p as int] == bound);
                assert(before.contains(bound));
                assert(self@ =~= self@.insert(bound));
            }
            return false;
        }
        proof {
            assert forall|k: int| p <= k < before.len() implies pair_lt(bound, #[trigger] before[k]) by {
                lemma_pair_lt_total(bound, before[k]);
                if before[k] == bound {
                    if k > p {
                        assert(pair_lt(before[p as int], before[k]));
                    }
                }
            }
            assert forall|k: int| 0 <= k < before.len() implies before[k] != bound by {
                lemma_pair_lt_total(bound, before[k]);
            }
            assert(!before.contains(bound));
        }
        let mut entries: Vec<(String, String)> = Vec::new();
        std::mem::swap(&mut entries, &mut self.owner);
        entries.insert(p, (owner.to_owned(), id.to_owned()));
        proof {
            let now = entries_view(entries@);
            before.insert_ensures(p as int, bound);
            assert(now =~= before.insert(p as int, bound));
            lemma_insert_to_set(before, p as int, bound);
            assert forall|i: int, j: int| 0 <= i < j < now.len() implies pair_lt(
                #[trigger] now[i],
                #[trigger] now[j],
            ) by {
                if j < p {
                    assert(pair_lt(before[i], before[j]));
                } else if j == p {
                    assert(precedes(before[i], bound, false));
                } else if i < p {
                    assert(now[j] == before[j - 1]);
                    if j - 1 > i {
                        assert(pair_lt(before[i], before[j - 1]));
                    } else {
                    }
                    assert(precedes(before[i], bound, false));
                    assert(pair_lt(bound, before[j - 1]));
                    lemma_pair_lt_transitive(before[i], bound, before[j - 1]);
                } else if i == p {
                    assert(now[j] == before[j - 1]);
                } else {
                    assert(now[i] == before[i - 1]);
                    assert(now[j] == before[j - 1]);
                    assert(pair_lt(before[i - 1], before[j - 1]));
                }
            }
        }
        self.owner = entries;
        true
    }

    /// Takes `id` out from under `owner`. Returns whether the pair was there.
    pub fn remove(&mut self, owner: &str, id: &str) -> (removed: bool)
        ensures
            final(self).key() == old(self).key(),
            final(self)@ == old(self)@.remove((owner@, id@)),
            removed == old(self)@.contains((owner@, id@)),
    {
        proof {
            use_type_invariant(&*self);
        }
        let ghost bound = (owner@, id@);
        let ghost before = self.entries();
        let p = self.seek(owner, id, false);
        if p < self.owner.len() && entry_precedes(&self.owner[p], owner, id, true) {
            proof {
                assert(before[p as int] == bound);
                lemma_pairs_distinct(before);
                lemma_remove_to_set(before, p as int);
                before.remove_ensures(p as int);
            }
            let mut entries: Vec<(String, String)> = Vec::new();
            std::mem::swap(&mut entries, &mut self.owner);
            let _gone = entries.remove(p);
            proof {
                let now = entries_view(entries@);
                assert(now =~= before.remove(p as int));
                assert forall|i: int, j: int| 0 <= i < j < now.len() implies pair_lt(
                    #[trigger] now[i],
                    #[trigger] now[j],
                ) by {
                    let a = if i < p { i } else { i + 1 };
                    let b = if j < p { j } else { j + 1 };
                    assert(now[i] == before[a]);
                    assert(now[j] == before[b]);
                    assert(pair_lt(before[a], before[b]));
                }
            }
            self.owner = entries;
            true
        } else {
            proof {
                assert forall|k: int| 0 <= k < before.len() implies before[k] != bound by {
                    lemma_pair_lt_total(bound, before[k]);
                    if k >= p && before[k] == bound {
                        if k > p {
                            assert(pair_lt(before[p as int], before[k]));
                        }
                    }
                }
                assert(!before.contains(bound));
                assert(self@ =~= self@.remove(bound));
            }
            false
        }
    }

    /// The number of pairs in the index.
    pub fn len(&self) -> (n: usize)
        ensures
            self@.finite(),
            n == self@.len(),
    {
        proof {
            use_type_invariant(self);
            lemma_pairs_distinct(self.entries());
            self.entries().unique_seq_to_set();
        }
        self.owner.len()
    }

    /// The identifiers filed under `owner`, in ascending order: those that come after
    /// `start_after`, where one is given, and at most `limit` of them, where one is given.
    pub fn ids_of(&self, owner: &str, start_after: Option<&str>, limit: Option<u32>) -> (page: Vec<String>)
        ensures
            is_page_of(
                self.owned_by(owner@),
                opt_str_view(start_after),
                limit_view(limit),
                strings_view(page@),
            ),
    {
        proof {
            use_type_invariant(self);
        }
        let ghost entries = self.entries();
        let ghost cursor = opt_str_view(start_after);
        let ghost owned = self.owned_by(owner@);
        let start = match start_after {
            Some(s) => self.seek(owner, s, true),
            None => {
                proof {
                    reveal_strlit("");
                }
                self.seek(owner, "", false)
            },
        };
        proof {
            reveal_strlit("");
            assert forall|k: int| start <= k < entries.len() && (#[trigger] entries[k]).0
                == owner@ implies after(cursor, entries[k].1) by {
                if let Some(s) = cursor {
                    lemma_str_lt_total(s, entries[k].1);
                    lemma_str_lt_total(owner@, owner@);
                }
            }
            assert forall|k: int| 0 <= k < start && (#[trigger] entries[k]).0 == owner@ implies !after(
                cursor,
                entries[k].1,
            ) by {
                lemma_str_lt_total(owner@, owner@);
                match cursor {
                    Some(s) => {
                        lemma_str_lt_total(s, entries[k].1);
                    },
                    None => {
                        assert(precedes(entries[k], (owner@, ""@), false));
                        assert(""@.len() == 0);
                        assert(vstd::utf8::encode_utf8(""@).len() == 0);
                    },
                }
            }
        }
        let mut page: Vec<String> = Vec::new();
        let mut k: usize = start;
        let mut done = false;
        while !done && k < self.owner.len()
            invariant
                self.wf(),
                entries == self.entries(),
                start <= k <= self.owner.len(),
                page@.len() == k - start,
                forall|j: int|
                    0 <= j < page@.len() ==> (#[trigger] page@[j])@ == entries[start + j].1
                        && entries[start + j].0 == owner@,
                limit matches Some(m) ==> page@.len() <= m,
                done ==> (limit == Some(page@.len() as u32) || (k < entries.len() && entries[k as int].0
                    != owner@)),
            decreases (if done { 0int } else { 1int }), self.owner.len() - k,
        {
            let full = match limit {
                Some(m) => page.len() >= m as usize,
                None => false,
            };
            if full {
                done = true;
            } else {
                match compare_str(self.owner[k].0.as_str(), owner) {
                    Rank::Same => {
                        page.push(self.owner[k].1.clone());
                        k += 1;
                    },
                    _ => {
                        done = true;
                    },
                }
            }
        }
        proof {
            let ids = strings_view(page@);
            assert forall|j: int| 0 <= j < ids.len() implies #[trigger] ids[j] == entries[start + j].1
                && entries[start + j].0 == owner@ by {
                assert(ids[j] == page@[j]@);
            }
            assert forall|i: int, j: int| 0 <= i < j < ids.len() implies str_lt(
                #[trigger] ids[i],
                #[trigger] ids[j],
            ) by {
                assert(pair_lt(entries[start + i], entries[start + j]));
                lemma_str_lt_total(owner@, owner@);
            }
            assert forall|j: int| 0 <= j < ids.len() implies owned.contains(#[trigger] ids[j]) && after(
                cursor,
                ids[j],
            ) by {
                assert(entries[start + j] == (owner@, ids[j]));
                assert(entries.contains((owner@, ids[j])));
            }
            assert forall|id: Seq<char>| #[trigger]
                owned.contains(id) && after(cursor, id) && !ids.contains(id) implies limit_view(limit)
                == Some(ids.len()) && all_before(ids, id) by {
                let q = choose|q: int| 0 <= q < entries.len() && entries[q] == (owner@, id);
                assert(q >= start);
                if q < k {
                    assert(ids[q - start] == id);
                }
                assert(q >= k);
                if k < entries.len() && entries[k as int].0 != owner@ {
                    lemma_str_lt_total(entries[k as int].0, owner@);
                    assert(!precedes(entries[k as int], (owner@, ""@), false)) by {
                        if let Some(s) = cursor {
                            if str_lt(entries[k as int].0, owner@) {
                                assert(precedes(entries[k as int], (owner@, s), true));
                            }
                        }
                    }
                    assert(q > k);
                    assert(pair_lt(entries[k as int], entries[q]));
                }
                assert forall|i: int| 0 <= i < ids.len() implies str_lt(#[trigger] ids[i], id) by {
                    assert(pair_lt(entries[start + i], entries[q]));
                    lemma_str_lt_total(owner@, owner@);
                }
            }
        }
        page
    }
}

} // verus!
