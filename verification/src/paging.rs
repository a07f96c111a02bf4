//! What a page of an owner's tokens is: the first identifiers, in ascending order,
//! that come after a cursor, up to a limit.

use vstd::prelude::*;
use crate::order::{lemma_str_lt_total, lemma_str_lt_transitive, str_lt};

verus! {

/// Whether `id` lies behind the cursor. Without a cursor every identifier does.
pub open spec fn after(start_after: Option<Seq<char>>, id: Seq<char>) -> bool {
    match start_after {
        Some(s) => str_lt(s, id),
        None => true,
    }
}

/// Each identifier comes strictly before the next.
pub open spec fn ascending(page: Seq<Seq<char>>) -> bool {
    forall|i: int, j: int| 0 <= i < j < page.len() ==> str_lt(#[trigger] page[i], #[trigger] page[j])
}

/// Every identifier of `page` comes strictly before `id`.
pub open spec fn all_before(page: Seq<Seq<char>>, id: Seq<char>) -> bool {
    forall|i: int| 0 <= i < page.len() ==> str_lt(#[trigger] page[i], id)
}

/// The page size where a request names none.
pub const DEFAULT_LIMIT: u32 = 30;

/// The largest page size.
pub const MAX_LIMIT: u32 = 100;

/// The page size that a request gets: what it asks for, up to the largest page size,
/// and the default where it asks for nothing.
pub open spec fn spec_page_limit(requested: Option<u32>) -> u32 {
    match requested {
        Some(m) => if m <= MAX_LIMIT {
            m
        } else {
            MAX_LIMIT
        },
        None => DEFAULT_LIMIT,
    }
}

/// The page size that a request gets.
pub fn page_limit(requested: Option<u32>) -> (limit: u32)
    ensures
        limit == spec_page_limit(requested),
{
    match requested {
        Some(m) => if m <= MAX_LIMIT {
            m
        } else {
            MAX_LIMIT
        },
        None => DEFAULT_LIMIT,
    }
}

/// The limit of a request as a number.
pub open spec fn limit_view(limit: Option<u32>) -> Option<nat> {
    match limit {
        Some(m) => Some(m as nat),
        None => None,
    }
}

/// `page` is the page of `owned` that starts behind `start_after` and holds at most
/// `limit` identifiers: it ascends, holds only owned identifiers behind the cursor,
/// respects the limit, and an owned identifier behind the cursor is left out only
/// when the page is full and the identifier comes after all of the page.
pub open spec fn is_page_of(
    owned: Set<Seq<char>>,
    start_after: Option<Seq<char>>,
    limit: Option<nat>,
    page: Seq<Seq<char>>,
) -> bool {
    &&& ascending(page)
    &&& forall|i: int|
        0 <= i < page.len() ==> owned.contains(#[trigger] page[i]) && after(start_after, page[i])
    &&& (limit matches Some(m) ==> page.len() <= m)
    &&& forall|id: Seq<char>|
        #[trigger] owned.contains(id) && after(start_after, id) && !page.contains(id) ==> limit
            == Some(page.len()) && all_before(page, id)
}

/// The limit that two consecutive pages have together.
pub open spec fn joint_limit(first: nat, second: Option<nat>) -> Option<nat> {
    match second {
        Some(m) => Some(first + m),
        None => None,
    }
}

proof fn lemma_pages_agree(
    owned: Set<Seq<char>>,
    start_after: Option<Seq<char>>,
    limit: Option<nat>,
    p: Seq<Seq<char>>,
    q: Seq<Seq<char>>,
    n: int,
)
    requires
        is_page_of(owned, start_after, limit, p),
        is_page_of(owned, start_after, limit, q),
        0 <= n <= p.len(),
        n <= q.len(),
    ensures
        forall|k: int| 0 <= k < n ==> p[k] == q[k],
    decreases n,
{
    if n > 0 {
        lemma_pages_agree(owned, start_after, limit, p, q, n - 1);
        let k = n - 1;
        if p[k] != q[k] {
            lemma_str_lt_total(p[k], q[k]);
            if str_lt(p[k], q[k]) {
                lemma_absent_below(p, q, k);
                assert(owned.contains(p[k]));
                assert(all_before(q, p[k]));
                assert(str_lt(q[k], p[k]));
            } else {
                lemma_absent_below(q, p, k);
                assert(owned.contains(q[k]));
                assert(all_before(p, q[k]));
                assert(str_lt(p[k], q[k]));
            }
        }
    }
}

/// Where two ascending pages agree below `k` and `p[k]` comes before `q[k]`,
/// `q` does not hold `p[k]`.
proof fn lemma_absent_below(p: Seq<Seq<char>>, q: Seq<Seq<char>>, k: int)
    requires
        ascending(p),
        ascending(q),
        0 <= k < p.len(),
        k < q.len(),
        forall|j: int| 0 <= j < k ==> p[j] == q[j],
        str_lt(p[k], q[k]),
    ensures
        !q.contains(p[k]),
{
    assert forall|j: int| 0 <= j < q.len() implies q[j] != p[k] by {
        lemma_str_lt_total(q[j], p[k]);
        if j < k {
            assert(str_lt(p[j], p[k]));
        } else if j > k {
            assert(str_lt(q[k], q[j]));
            lemma_str_lt_transitive(p[k], q[k], q[j]);
        }
    }
}

/// A page is determined by the owned identifiers, the cursor and the limit.
pub proof fn lemma_page_unique(
    owned: Set<Seq<char>>,
    start_after: Option<Seq<char>>,
    limit: Option<nat>,
    p: Seq<Seq<char>>,
    q: Seq<Seq<char>>,
)
    requires
        is_page_of(owned, start_after, limit, p),
        is_page_of(owned, start_after, limit, q),
    ensures
        p == q,
{
    if p.len() <= q.len() {
        lemma_pages_agree(owned, start_after, limit, p, q, p.len() as int);
        lemma_no_longer_page(owned, start_after, limit, p, q);
    } else {
        lemma_pages_agree(owned, start_after, limit, p, q, q.len() as int);
        assert forall|k: int| 0 <= k < q.len() implies q[k] == p[k] by {}
        lemma_no_longer_page(owned, start_after, limit, q, p);
    }
    assert(p =~= q);
}

/// Of two pages for one request, where the shorter is a prefix of the longer, neither
/// is longer.
proof fn lemma_no_longer_page(
    owned: Set<Seq<char>>,
    start_after: Option<Seq<char>>,
    limit: Option<nat>,
    p: Seq<Seq<char>>,
    q: Seq<Seq<char>>,
)
    requires
        is_page_of(owned, start_after, limit, p),
        is_page_of(owned, start_after, limit, q),
        p.len() <= q.len(),
        forall|k: int| 0 <= k < p.len() ==> p[k] == q[k],
    ensures
        p.len() == q.len(),
{
    if p.len() < q.len() {
        let x = q[p.len() as int];
        assert forall|j: int| 0 <= j < p.len() implies p[j] != x by {
            assert(str_lt(q[j], x));
            lemma_str_lt_total(q[j], x);
        }
        assert(!p.contains(x));
        assert(owned.contains(x));
    }
}

/// Pages follow one another without overlap and without gaps: a page, and the page
/// that starts behind its last identifier, are together the page of both limits.
pub proof fn lemma_next_page_continues(
    owned: Set<Seq<char>>,
    start_after: Option<Seq<char>>,
    first_limit: nat,
    first: Seq<Seq<char>>,
    second_limit: Option<nat>,
    second: Seq<Seq<char>>,
)
    requires
        is_page_of(owned, start_after, Some(first_limit), first),
        first.len() > 0,
        is_page_of(owned, Some(first.last()), second_limit, second),
    ensures
        is_page_of(owned, start_after, joint_limit(first_limit, second_limit), first + second),
        forall|i: int, j: int|
            0 <= i < first.len() && 0 <= j < second.len() ==> str_lt(
                #[trigger] first[i],
                #[trigger] second[j],
            ),
{
    let both = first + second;
    let last = first.last();
    assert forall|i: int, j: int| 0 <= i < first.len() && 0 <= j < second.len() implies str_lt(
        #[trigger] first[i],
        #[trigger] second[j],
    ) by {
        assert(str_lt(last, second[j]));
        if i < first.len() - 1 {
            assert(str_lt(first[i], first[first.len() - 1]));
            lemma_str_lt_transitive(first[i], last, second[j]);
        }
    }
    assert forall|i: int, j: int| 0 <= i < j < both.len() implies str_lt(
        #[trigger] both[i],
        #[trigger] both[j],
    ) by {
        if j < first.len() {
            assert(str_lt(first[i], first[j]));
        } else if i >= first.len() {
            assert(str_lt(second[i - first.len()], second[j - first.len()]));
        } else {
            assert(str_lt(first[i], second[j - first.len()]));
        }
    }
    assert forall|i: int| 0 <= i < both.len() implies owned.contains(#[trigger] both[i]) && after(
        start_after,
        both[i],
    ) by {
        if i < first.len() {
            assert(owned.contains(first[i]));
        } else {
            let x = second[i - first.len()];
            assert(owned.contains(x) && str_lt(last, x));
            assert(after(start_after, last));
            if let Some(s) = start_after {
                lemma_str_lt_transitive(s, last, x);
            }
        }
    }
    assert forall|id: Seq<char>| #[trigger]
        owned.contains(id) && after(start_after, id) && !both.contains(id) implies joint_limit(
        first_limit,
        second_limit,
    ) == Some(both.len()) && all_before(both, id) by {
        assert forall|i: int| 0 <= i < first.len() implies first[i] != id by {
            assert(both[i] == first[i]);
        }
        assert(!first.contains(id));
        assert(all_before(first, id));
        assert(str_lt(first[first.len() - 1], id));
        assert forall|j: int| 0 <= j < second.len() implies second[j] != id by {
            assert(both[first.len() + j] == second[j]);
        }
        assert(!second.contains(id));
        assert(all_before(second, id));
        assert forall|i: int| 0 <= i < both.len() implies str_lt(#[trigger] both[i], id) by {
            if i < first.len() {
                assert(str_lt(first[i], id));
            } else {
                assert(str_lt(second[i - first.len()], id));
            }
        }
    }
}

/// Paging ends: behind a page that is not full, and behind nothing at all, no
/// identifier is left, so the next page is empty.
pub proof fn lemma_short_page_is_last(
    owned: Set<Seq<char>>,
    start_after: Option<Seq<char>>,
    first_limit: nat,
    first: Seq<Seq<char>>,
    second_limit: Option<nat>,
    second: Seq<Seq<char>>,
)
    requires
        is_page_of(owned, start_after, Some(first_limit), first),
        0 < first.len() < first_limit,
        is_page_of(owned, Some(first.last()), second_limit, second),
    ensures
        second.len() == 0,
{
    if second.len() > 0 {
        lemma_next_page_continues(owned, start_after, first_limit, first, second_limit, second);
        let x = second[0];
        assert forall|i: int| 0 <= i < first.len() implies first[i] != x by {
            assert(str_lt(first[i], second[0]));
            lemma_str_lt_total(first[i], x);
        }
        assert(!first.contains(x));
        assert((first + second)[first.len() as int] == x);
        assert(owned.contains(x) && after(start_after, x));
    }
}

} // verus!
