//! The queries: a contract's rewards and a wallet's grants, a page at a time.

pub mod get_grants;
pub mod get_rewards;

use vstd::prelude::*;

verus! {

/// The page size a query asks for: 20 when none is given, and never less than
/// 1 nor more than 20.
pub open spec fn clamp_limit(l: Option<u8>) -> nat {
    let v: nat = match l {
        Some(x) => x as nat,
        None => 20,
    };
    if v < 1 {
        1
    } else if v > 20 {
        20
    } else {
        v
    }
}

pub fn limit_of(some_limit: Option<u8>) -> (r: usize)
    ensures
        r == clamp_limit(some_limit),
        1 <= r <= 20,
{
    let v: u8 = match some_limit {
        Some(x) => x,
        None => 20,
    };
    let c: u8 = if v < 1 {
        1
    } else if v > 20 {
        20
    } else {
        v
    };
    c as usize
}

/// `lt` is a strict order: irreflexive and transitive.
pub open spec fn strict_order<A>(lt: spec_fn(A, A) -> bool) -> bool {
    &&& forall|a: A| !(#[trigger] lt(a, a))
    &&& forall|a: A, b: A, c: A| #[trigger] lt(a, b) && #[trigger] lt(b, c) ==> lt(a, c)
}

/// `page` lists, from the greatest down, the greatest `limit` elements that
/// satisfy `member` under the order `lt`, or all of them where there are
/// fewer.
pub open spec fn is_desc_page<A>(page: Seq<A>, member: spec_fn(A) -> bool, lt: spec_fn(A, A) -> bool, limit: nat) -> bool {
    &&& page.len() <= limit
    &&& forall|i: int| 0 <= i < page.len() ==> member(#[trigger] page[i])
    &&& forall|i: int, j: int| 0 <= i < j < page.len() ==> lt(#[trigger] page[j], #[trigger] page[i])
    &&& forall|x: A| #[trigger]
        member(x) ==> page.contains(x) || (page.len() == limit && lt(x, page.last()))
}

/// The page of `is_desc_page`; there is exactly one under a strict total
/// order (see `lemma_page_unique`).
pub open spec fn desc_page<A>(member: spec_fn(A) -> bool, lt: spec_fn(A, A) -> bool, limit: nat) -> Seq<A> {
    choose|p: Seq<A>| is_desc_page(p, member, lt, limit)
}

proof fn lemma_page_prefix<A>(
    p1: Seq<A>,
    p2: Seq<A>,
    member: spec_fn(A) -> bool,
    lt: spec_fn(A, A) -> bool,
    limit: nat,
    i: int,
)
    requires
        strict_order(lt),
        is_desc_page(p1, member, lt, limit),
        is_desc_page(p2, member, lt, limit),
        0 <= i < p1.len(),
        i < p2.len(),
        forall|k: int| 0 <= k < i ==> p1[k] == p2[k],
    ensures
        p1[i] == p2[i],
{
    if p1[i] != p2[i] {
        lemma_page_below(p1, p2, member, lt, limit, i);
        lemma_page_below(p2, p1, member, lt, limit, i);
        assert(lt(p1[i], p2[i]) && lt(p2[i], p1[i]));
        assert(lt(p1[i], p1[i]));
    }
}

/// Where two pages first differ, the first page's element lies below the
/// second's.
proof fn lemma_page_below<A>(
    p1: Seq<A>,
    p2: Seq<A>,
    member: spec_fn(A) -> bool,
    lt: spec_fn(A, A) -> bool,
    limit: nat,
    i: int,
)
    requires
        strict_order(lt),
        is_desc_page(p1, member, lt, limit),
        is_desc_page(p2, member, lt, limit),
        0 <= i < p1.len(),
        i < p2.len(),
        forall|k: int| 0 <= k < i ==> p1[k] == p2[k],
        p1[i] != p2[i],
    ensures
        lt(p1[i], p2[i]),
{
    let x = p1[i];
    assert(member(x));
    if p2.contains(x) {
        let j = choose|j: int| 0 <= j < p2.len() && p2[j] == x;
        if j < i {
            assert(p1[j] == x);
            assert(lt(p1[i], p1[j]));
        } else {
            assert(j != i);
            assert(lt(p2[j], p2[i]));
        }
    } else {
        assert(p2.len() == limit && lt(x, p2.last()));
        if p2.len() - 1 != i {
            assert(lt(p2[p2.len() - 1], p2[i]));
        }
    }
}

/// Under a strict order there is at most one page.
pub proof fn lemma_page_unique<A>(
    p1: Seq<A>,
    p2: Seq<A>,
    member: spec_fn(A) -> bool,
    lt: spec_fn(A, A) -> bool,
    limit: nat,
)
    requires
        strict_order(lt),
        is_desc_page(p1, member, lt, limit),
        is_desc_page(p2, member, lt, limit),
    ensures
        p1 == p2,
{
    let n = if p1.len() < p2.len() {
        p1.len() as int
    } else {
        p2.len() as int
    };
    lemma_page_agree(p1, p2, member, lt, limit, n);
    lemma_page_longer(p1, p2, member, lt, limit);
    lemma_page_longer(p2, p1, member, lt, limit);
    assert(p1 =~= p2);
}

proof fn lemma_page_agree<A>(
    p1: Seq<A>,
    p2: Seq<A>,
    member: spec_fn(A) -> bool,
    lt: spec_fn(A, A) -> bool,
    limit: nat,
    n: int,
)
    requires
        strict_order(lt),
        is_desc_page(p1, member, lt, limit),
        is_desc_page(p2, member, lt, limit),
        0 <= n <= p1.len(),
        n <= p2.len(),
    ensures
        forall|k: int| 0 <= k < n ==> p1[k] == p2[k],
    decreases n,
{
    if n > 0 {
        lemma_page_agree(p1, p2, member, lt, limit, n - 1);
        lemma_page_prefix(p1, p2, member, lt, limit, n - 1);
    }
}

proof fn lemma_page_longer<A>(p1: Seq<A>, p2: Seq<A>, member: spec_fn(A) -> bool, lt: spec_fn(A, A) -> bool, limit: nat)
    requires
        strict_order(lt),
        is_desc_page(p1, member, lt, limit),
        is_desc_page(p2, member, lt, limit),
        forall|k: int| 0 <= k < p2.len() && k < p1.len() ==> p1[k] == p2[k],
    ensures
        p1.len() <= p2.len(),
{
    if p1.len() > p2.len() {
        let x = p1[p2.len() as int];
        assert(member(x));
        if p2.contains(x) {
            let j = choose|j: int| 0 <= j < p2.len() && p2[j] == x;
            assert(p1[j] == x);
            assert(lt(p1[p2.len() as int], p1[j]));
        }
    }
}

/// The page, where one exists, is the page that `desc_page` names.
pub proof fn lemma_desc_page<A>(p: Seq<A>, member: spec_fn(A) -> bool, lt: spec_fn(A, A) -> bool, limit: nat)
    requires
        strict_order(lt),
        is_desc_page(p, member, lt, limit),
    ensures
        desc_page(member, lt, limit) == p,
{
    let q = desc_page(member, lt, limit);
    assert(is_desc_page(q, member, lt, limit));
    lemma_page_unique(p, q, member, lt, limit);
}

} // verus!
