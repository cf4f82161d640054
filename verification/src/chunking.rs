//! Cutting a list into pages: the catalog takes a bounded number of
//! identifiers per request.

use vstd::prelude::*;
use vstd::arithmetic::div_mod::{lemma_fundamental_div_mod, lemma_mod_bound};

verus! {

/// The number of identifiers that the catalog takes in one request.
pub const PAGE_SIZE: usize = 50;

/// The number of pages that `len` items fill: `len / page`, rounded up.
pub open spec fn chunk_count(len: nat, page: nat) -> nat
    recommends
        page > 0,
{
    ((len + page - 1) / (page as int)) as nat
}

/// Page `i` of `items`: the items from position `i * page` up to the start of
/// the next page or the end of the list.
pub open spec fn chunk_of<A>(items: Seq<A>, page: nat, i: int) -> Seq<A>
    recommends
        page > 0,
        0 <= i < chunk_count(items.len(), page),
{
    let end = if (i + 1) * page <= items.len() {
        (i + 1) * page
    } else {
        items.len() as int
    };
    items.subrange(i * page, end)
}

/// All the pages of `items`, in order.
pub open spec fn chunks_of<A>(items: Seq<A>, page: nat) -> Seq<Seq<A>>
    recommends
        page > 0,
{
    Seq::new(chunk_count(items.len(), page), |i: int| chunk_of(items, page, i))
}

/// The pages are just enough: the last one starts inside the list, and the
/// pages together reach its end.
pub proof fn lemma_chunk_count(len: nat, page: nat)
    requires
        page > 0,
    ensures
        chunk_count(len, page) * page >= len,
        len > 0 ==> (chunk_count(len, page) - 1) * page < len,
        len == 0 <==> chunk_count(len, page) == 0,
{
    let x = len + page - 1;
    let d = page as int;
    lemma_fundamental_div_mod(x, d);
    lemma_mod_bound(x, d);
    let n = x / d;
    assert(x == d * n + x % d);
    assert(d * n == n * page) by (nonlinear_arith)
        requires
            d == page,
    ;
    assert((n - 1) * page == n * page - page) by (nonlinear_arith);
    if len == 0 {
        assert(n == 0) by (nonlinear_arith)
            requires
                d * n + x % d == d - 1,
                0 <= x % d < d,
                d > 0,
        ;
    } else {
        assert(n > 0) by (nonlinear_arith)
            requires
                d * n + x % d >= d,
                0 <= x % d < d,
                d > 0,
        ;
    }
}

/// A number of pages that covers the list, with the last page not empty, is
/// the number of pages of the list.
pub proof fn lemma_chunk_count_is(len: nat, page: nat, count: nat)
    requires
        page > 0,
        count * page >= len,
        count > 0 ==> (count - 1) * page < len,
    ensures
        chunk_count(len, page) == count,
{
    lemma_chunk_count(len, page);
    let n = chunk_count(len, page);
    assert(n == count) by (nonlinear_arith)
        requires
            page > 0,
            count * page >= len,
            count > 0 ==> (count - 1) * page < len,
            n * page >= len,
            len > 0 ==> (n - 1) * page < len,
            len == 0 <==> n == 0,
    ;
}

/// Every page but the last is full, and the last holds what is left: at least
/// one item, at most a full page.
pub proof fn lemma_chunk_lengths<A>(items: Seq<A>, page: nat, i: int)
    requires
        page > 0,
        0 <= i < chunk_count(items.len(), page),
    ensures
        i < chunk_count(items.len(), page) - 1 ==> chunk_of(items, page, i).len() == page,
        i == chunk_count(items.len(), page) - 1 ==> chunk_of(items, page, i).len() == items.len()
            - i * page,
        0 < chunk_of(items, page, i).len() <= page,
        0 <= i * page < items.len(),
        (i + 1) * page == i * page + page,
{
    let n = chunk_count(items.len(), page);
    let len = items.len();
    lemma_chunk_count(len, page);
    assert((i + 1) * page == i * page + page) by (nonlinear_arith);
    assert(0 <= i * page) by (nonlinear_arith)
        requires
            0 <= i,
    ;
    if i < n - 1 {
        assert((i + 1) * page <= (n - 1) * page) by (nonlinear_arith)
            requires
                i + 1 <= n - 1,
        ;
    } else {
        assert(i * page == (n - 1) * page);
        assert((i + 1) * page == n * page);
    }
}

/// A list shorter than a page, if it holds anything, is one page.
pub proof fn lemma_short_list_is_one_chunk<A>(items: Seq<A>, page: nat)
    requires
        0 < items.len() < page,
    ensures
        chunks_of(items, page) == seq![items],
{
    lemma_chunk_count_is(items.len(), page, 1);
    assert(chunk_of(items, page, 0) =~= items);
    assert(chunks_of(items, page) =~= seq![items]);
}

/// The first `k` pages, one after the other, are the items before page `k`.
proof fn lemma_chunks_prefix<A>(items: Seq<A>, page: nat, k: int)
    requires
        page > 0,
        0 <= k <= chunk_count(items.len(), page),
    ensures
        chunks_of(items, page).take(k).flatten_alt() == items.take(
            if k * page <= items.len() {
                k * page
            } else {
                items.len() as int
            },
        ),
    decreases k,
{
    let pages = chunks_of(items, page);
    if k == 0 {
        assert(0 * page == 0) by (nonlinear_arith);
        assert(pages.take(0).flatten_alt() =~= items.take(0));
    } else {
        lemma_chunks_prefix(items, page, k - 1);
        lemma_chunk_lengths(items, page, k - 1);
        lemma_chunk_count(items.len(), page);
        assert(k * page == (k - 1) * page + page) by (nonlinear_arith);
        assert(0 <= (k - 1) * page) by (nonlinear_arith)
            requires
                1 <= k,
        ;
        let n = chunk_count(items.len(), page);
        let head = pages.take(k);
        assert(head.drop_last() =~= pages.take(k - 1));
        assert(head.last() == chunk_of(items, page, k - 1));
        let start = (k - 1) * page;
        let end = if k * page <= items.len() {
            k * page
        } else {
            items.len() as int
        };
        assert(start <= (n - 1) * page) by (nonlinear_arith)
            requires
                start == (k - 1) * page,
                k <= n,
        ;
        assert(items.take(start) + items.subrange(start, end) =~= items.take(end));
    }
}

/// The pages, one after the other, are the list: every item is on exactly one
/// page, and the order is kept.
pub proof fn lemma_chunks_rebuild<A>(items: Seq<A>, page: nat)
    requires
        page > 0,
    ensures
        chunks_of(items, page).flatten() == items,
        chunks_of(items, page).flatten().to_multiset() == items.to_multiset(),
{
    let pages = chunks_of(items, page);
    lemma_chunks_prefix(items, page, pages.len() as int);
    lemma_chunk_count(items.len(), page);
    assert(pages.take(pages.len() as int) =~= pages);
    assert(items.take(items.len() as int) =~= items);
    pages.lemma_flatten_and_flatten_alt_are_equivalent();
}

/// Cuts `items` into pages of `page_size`: as many pages as it takes, each
/// full but the last, in the order of the items.
pub fn chunk_hashmap<A>(items: Vec<A>, page_size: usize) -> (chunks: Vec<Vec<A>>)
    requires
        page_size > 0,
    ensures
        chunks.len() == chunk_count(items.len() as nat, page_size as nat),
        forall|i: int|
            0 <= i < chunks.len() ==> (#[trigger] chunks[i])@ == chunk_of(
                items@,
                page_size as nat,
                i,
            ),
        chunks@.map_values(|chunk: Vec<A>| chunk@) == chunks_of(items@, page_size as nat),
{
    let ghost all = items@;
    let ghost page = page_size as nat;
    let mut rest = items;
    let mut chunks: Vec<Vec<A>> = Vec::new();
    let ghost mut offset: int = 0;
    assert(0 * page == 0) by (nonlinear_arith);
    assert(rest@ =~= all.subrange(0, all.len() as int));
    while rest.len() > page_size
        invariant
            page_size > 0,
            page == page_size,
            offset == chunks.len() * page,
            0 <= offset <= all.len(),
            rest@ == all.subrange(offset, all.len() as int),
            forall|i: int| 0 <= i < chunks.len() ==> (#[trigger] chunks[i])@ == chunk_of(all, page, i),
        decreases rest.len(),
    {
        let ghost k = chunks.len() as int;
        let tail = rest.split_off(page_size);
        proof {
            assert((k + 1) * page == k * page + page) by (nonlinear_arith);
            assert(rest@ =~= chunk_of(all, page, k));
            assert(tail@ =~= all.subrange(offset + page, all.len() as int));
            offset = offset + page;
        }
        chunks.push(rest);
        rest = tail;
    }
    let ghost k = chunks.len() as int;
    if rest.len() > 0 {
        proof {
            assert((k + 1) * page == k * page + page) by (nonlinear_arith);
            assert(rest@ =~= chunk_of(all, page, k));
            lemma_chunk_count_is(all.len(), page, (k + 1) as nat);
        }
        chunks.push(rest);
    } else {
        proof {
            assert((k - 1) * page == k * page - page) by (nonlinear_arith);
            lemma_chunk_count_is(all.len(), page, k as nat);
        }
    }
    assert(chunks@.map_values(|chunk: Vec<A>| chunk@) =~= chunks_of(all, page));
    chunks
}

} // verus!
