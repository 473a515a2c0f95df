use vstd::prelude::*;

use crate::collections::{
    insertion_point, lemma_insertion_point_in_range, rank_lt, sorted_by_rank,
    strictly_sorted_by_rank, Ranked, SortedVec,
};
use crate::dto::{MatchingResult, Request, RequestType, Side};
use crate::models::{AsksOrder, BidsOrder, Order, Resting};

verus! {

/// The orders held by a book, in book order.
pub open spec fn orders_of<T: Resting>(book: Seq<T>) -> Seq<Order> {
    book.map_values(|x: T| x.held())
}

/// The ids of the orders held by a book, in book order.
pub open spec fn ids_of<T: Resting>(book: Seq<T>) -> Seq<u64> {
    book.map_values(|x: T| x.held().id)
}

/// Whether a resting order's price is good enough for an incoming request:
/// an ask takes bids at or above its price, a bid takes asks at or below.
pub open spec fn acceptable(request: Request, o: Order) -> bool {
    match request.side {
        Side::Ask => o.request.price >= request.price,
        Side::Bid => o.request.price <= request.price,
    }
}

/// The orders of `book` whose price is acceptable to `request`, in book order.
pub open spec fn acceptable_orders(book: Seq<Order>, request: Request) -> Seq<Order>
    decreases book.len(),
{
    if book.len() == 0 {
        Seq::empty()
    } else {
        let rest = acceptable_orders(book.drop_last(), request);
        if acceptable(request, book.last()) {
            rest.push(book.last())
        } else {
            rest
        }
    }
}

/// The sum of the sizes of `orders`.
pub open spec fn total_size(orders: Seq<Order>) -> int
    decreases orders.len(),
{
    if orders.len() == 0 {
        0
    } else {
        total_size(orders.drop_last()) + orders.last().request.size
    }
}

/// `k` is the coverage count of `orders` for `need`: the smallest positive
/// number of leading orders whose sizes add up to at least `need`.
pub open spec fn is_cover_count(orders: Seq<Order>, need: int, k: int) -> bool {
    &&& 1 <= k <= orders.len()
    &&& total_size(orders.take(k)) >= need
    &&& forall|j: int| 1 <= j < k ==> total_size(#[trigger] orders.take(j)) < need
}

/// How many orders are drained for a coverage count `k`: all `k` when their
/// sizes add up to `need` exactly, else the last of them stays in the book
/// with its size unchanged.
pub open spec fn drain_count(orders: Seq<Order>, need: int, k: int) -> int {
    if total_size(orders.take(k)) > need {
        k - 1
    } else {
        k
    }
}

/// Acceptable orders come first in `book`: the ones that `request` may take
/// form a leading run.
pub open spec fn acceptance_is_prefix(book: Seq<Order>, request: Request) -> bool {
    forall|i: int, j: int|
        0 <= i < j < book.len() && acceptable(request, #[trigger] book[j]) ==> acceptable(
            request,
            #[trigger] book[i],
        )
}

/// What a fill-or-kill `request` does to the opposite `book`, which becomes
/// `after`, with result `r`.
pub open spec fn fill_or_kill_outcome<T: Resting>(
    book: Seq<T>,
    request: Request,
    r: MatchingResult,
    after: Seq<T>,
) -> bool {
    let f = acceptable_orders(orders_of(book), request);
    let need = request.size as int;
    if total_size(f) >= need {
        exists|k: int|
            #[trigger] is_cover_count(f, need, k) && {
                let d = drain_count(f, need, k);
                &&& after == book.skip(d)
                &&& match r {
                    MatchingResult::Executed(ids) => ids@ == ids_of(book.take(d)),
                    _ => false,
                }
            }
    } else {
        r == MatchingResult::Cancelled && after == book
    }
}

/// The acceptable orders of `a + b` are those of `a` followed by those of `b`.
proof fn lemma_acceptable_append(a: Seq<Order>, b: Seq<Order>, request: Request)
    ensures
        acceptable_orders(a + b, request) == acceptable_orders(a, request) + acceptable_orders(
            b,
            request,
        ),
    decreases b.len(),
{
    if b.len() == 0 {
        assert(a + b =~= a);
        assert(acceptable_orders(a, request) + acceptable_orders(b, request) =~= acceptable_orders(
            a,
            request,
        ));
    } else {
        assert((a + b).drop_last() =~= a + b.drop_last());
        lemma_acceptable_append(a, b.drop_last(), request);
        let fa = acceptable_orders(a, request);
        let fb = acceptable_orders(b.drop_last(), request);
        assert((fa + fb).push(b.last()) =~= fa + fb.push(b.last()));
    }
}

/// Where acceptable orders come first, they are a prefix of the book, and
/// the order right after them (if any) is not acceptable.
proof fn lemma_acceptable_prefix(book: Seq<Order>, request: Request)
    requires
        acceptance_is_prefix(book, request),
    ensures
        acceptable_orders(book, request).len() <= book.len(),
        acceptable_orders(book, request) == book.take(acceptable_orders(book, request).len() as int),
        acceptable_orders(book, request).len() < book.len() ==> !acceptable(
            request,
            book[acceptable_orders(book, request).len() as int],
        ),
    decreases book.len(),
{
    if book.len() == 0 {
        assert(book.take(0) =~= book);
    } else {
        let d = book.drop_last();
        assert(acceptance_is_prefix(d, request)) by {
            assert forall|i: int, j: int|
                0 <= i < j < d.len() && acceptable(request, #[trigger] d[j]) implies acceptable(
                request,
                #[trigger] d[i],
            ) by {
                assert(d[j] == book[j] && d[i] == book[i]);
            }
        }
        lemma_acceptable_prefix(d, request);
        let fd = acceptable_orders(d, request);
        if acceptable(request, book.last()) {
            if fd.len() < d.len() {
                let m = fd.len() as int;
                assert(book[m] == d[m]);
                assert(acceptable(request, book[book.len() - 1]));
                assert(acceptable(request, book[m]));
            }
            assert(fd.len() == d.len());
            assert(d.take(d.len() as int) =~= d);
            assert(fd.push(book.last()) =~= book.take(book.len() as int));
        } else {
            assert(d.take(fd.len() as int) =~= book.take(fd.len() as int));
            if fd.len() < d.len() {
                assert(book[fd.len() as int] == d[fd.len() as int]);
            }
        }
    }
}

/// The acceptable orders are no more than the orders.
proof fn lemma_acceptable_len(book: Seq<Order>, request: Request)
    ensures
        acceptable_orders(book, request).len() <= book.len(),
    decreases book.len(),
{
    if book.len() > 0 {
        lemma_acceptable_len(book.drop_last(), request);
    }
}

/// A leading part of `orders` has no larger total size than the whole.
proof fn lemma_total_size_take(orders: Seq<Order>, k: int)
    requires
        0 <= k <= orders.len(),
    ensures
        total_size(orders.take(k)) <= total_size(orders),
    decreases orders.len(),
{
    if k == orders.len() {
        assert(orders.take(k) =~= orders);
    } else {
        let d = orders.drop_last();
        assert(d.take(k) =~= orders.take(k));
        lemma_total_size_take(d, k);
    }
}

/// The size of the first `k + 1` orders is that of the first `k` plus the
/// size of order `k`.
proof fn lemma_total_size_step(orders: Seq<Order>, k: int)
    requires
        0 <= k < orders.len(),
    ensures
        total_size(orders.take(k + 1)) == total_size(orders.take(k)) + orders[k].request.size,
{
    assert(orders.take(k + 1).drop_last() =~= orders.take(k));
}

/// The coverage count of `request` against the acceptable orders of `book`,
/// or `None` when they cannot cover it. Sizes are summed with saturation.
fn requests_count_to_approve<T: Ranked + Resting>(book: &SortedVec<T>, request: &Request) -> (r:
    Option<usize>)
    requires
        request.size > 0,
    ensures
        match r {
            Some(k) => is_cover_count(
                acceptable_orders(orders_of(book@), *request),
                request.size as int,
                k as int,
            ),
            None => total_size(acceptable_orders(orders_of(book@), *request)) < request.size,
        },
{
    let ghost os = orders_of(book@);
    let ghost need = request.size as int;
    let n = book.len();
    let mut count: usize = 0;
    let mut sum: u64 = 0;
    let mut i: usize = 0;
    while i < n
        invariant
            n == book@.len(),
            os == orders_of(book@),
            need == request.size,
            0 <= i <= n,
            count <= i,
            count == acceptable_orders(os.take(i as int), *request).len(),
            sum == total_size(acceptable_orders(os.take(i as int), *request)),
            sum < need,
            forall|j: int|
                1 <= j <= count ==> total_size(
                    #[trigger] acceptable_orders(os.take(i as int), *request).take(j),
                ) < need,
        decreases n - i,
    {
        let o = book.index(i).order();
        let ghost f = acceptable_orders(os.take(i as int), *request);
        assert(os.take(i + 1).drop_last() =~= os.take(i as int));
        assert(os[i as int] == *o);
        let takes = match request.side {
            Side::Ask => o.request.price >= request.price,
            Side::Bid => o.request.price <= request.price,
        };
        if takes {
            let ghost f1 = f.push(*o);
            assert(acceptable_orders(os.take(i + 1), *request) == f1);
            assert(f1.drop_last() =~= f);
            sum = sum.saturating_add(o.request.size);
            count = count + 1;
            assert forall|j: int| 1 <= j < count implies #[trigger] f1.take(j) == f.take(j) by {
                assert(f1.take(j) =~= f.take(j));
            }
            assert(f1.take(count as int) =~= f1);
            assert(f.take(f.len() as int) =~= f);
            if sum >= request.size {
                proof {
                    let fall = acceptable_orders(os, *request);
                    assert(os =~= os.take(i + 1) + os.skip(i + 1));
                    lemma_acceptable_append(os.take(i + 1), os.skip(i + 1), *request);
                    assert forall|j: int| 1 <= j <= count implies #[trigger] fall.take(j)
                        == f1.take(j) by {
                        assert(fall.take(j) =~= f1.take(j));
                    }
                    assert(fall.take(count as int) == f1);
                }
                return Some(count);
            }
        } else {
            assert(acceptable_orders(os.take(i + 1), *request) == f);
        }
        i = i + 1;
    }
    proof {
        assert(os.take(n as int) =~= os);
    }
    None
}

/// Fills a fill-or-kill `request` from `book`, the opposite side's book, or
/// leaves it untouched when its acceptable orders cannot cover the request.
fn fill_or_kill<T: Ranked + Resting>(book: &mut SortedVec<T>, request: &Request) -> (r:
    MatchingResult)
    requires
        old(book).wf(),
        request.size > 0,
        acceptance_is_prefix(orders_of(old(book)@), *request),
    ensures
        final(book).wf(),
        fill_or_kill_outcome(old(book)@, *request, r, final(book)@),
        is_suffix(final(book)@, old(book)@),
{
    let ghost os = orders_of(book@);
    let ghost f = acceptable_orders(os, *request);
    let ghost need = request.size as int;
    match requests_count_to_approve(book, request) {
        None => {
            assert(is_suffix(book@, book@));
            MatchingResult::Cancelled
        },
        Some(k) => {
            proof {
                lemma_acceptable_prefix(os, *request);
                lemma_total_size_take(f, k as int);
            }
            let mut remaining: u64 = request.size;
            let mut i: usize = 0;
            while i < k - 1
                invariant
                    os == orders_of(book@),
                    f == acceptable_orders(os, *request),
                    need == request.size,
                    f.len() <= os.len(),
                    f == os.take(f.len() as int),
                    is_cover_count(f, need, k as int),
                    0 <= i <= k - 1,
                    remaining == need - total_size(f.take(i as int)),
                decreases k - 1 - i,
            {
                let size = book.index(i).order().request.size;
                proof {
                    assert(f[i as int] == os[i as int]);
                    lemma_total_size_step(f, i as int);
                    assert(total_size(f.take(i + 1)) < need);
                }
                remaining = remaining - size;
                i = i + 1;
            }
            let last = book.index(k - 1).order().request.size;
            proof {
                assert(f[k - 1] == os[k - 1]);
                lemma_total_size_step(f, k - 1);
            }
            let count = if last > remaining {
                k - 1
            } else {
                k
            };
            assert(count == drain_count(f, need, k as int));
            let ghost before = book@;
            let drained = book.drain(count);
            let mut ids: Vec<u64> = Vec::new();
            let mut j: usize = 0;
            while j < drained.len()
                invariant
                    0 <= j <= drained@.len(),
                    ids@ == ids_of(drained@.take(j as int)),
                decreases drained@.len() - j,
            {
                ids.push(drained[j].order().id);
                assert(drained@.take(j + 1) =~= drained@.take(j as int).push(drained@[j as int]));
                assert(ids@ =~= ids_of(drained@.take(j + 1)));
                j = j + 1;
            }
            assert(drained@.take(j as int) =~= drained@);
            assert(is_cover_count(f, need, k as int));
            assert(is_suffix(book@, before));
            MatchingResult::Executed(ids)
        },
    }
}

/// `a` is what remains of `b` once a leading part is removed.
pub open spec fn is_suffix<T>(a: Seq<T>, b: Seq<T>) -> bool {
    &&& a.len() <= b.len()
    &&& forall|i: int| 0 <= i < a.len() ==> #[trigger] a[i] == b[i + b.len() - a.len()]
}

/// No two orders of `book` share an id.
pub open spec fn distinct_ids<T: Resting>(book: Seq<T>) -> bool {
    forall|i: int, j: int|
        0 <= i < j < book.len() ==> (#[trigger] book[i]).held().id != (#[trigger] book[j]).held().id
}

/// Every order of `book` has an id below `n`.
pub open spec fn ids_below<T: Resting>(book: Seq<T>, n: nat) -> bool {
    forall|i: int| 0 <= i < book.len() ==> (#[trigger] book[i]).held().id < n
}

/// No order of `a` shares its id with an order of `b`.
pub open spec fn disjoint_ids<T: Resting, U: Resting>(a: Seq<T>, b: Seq<U>) -> bool {
    forall|i: int, j: int|
        0 <= i < a.len() && 0 <= j < b.len() ==> (#[trigger] a[i]).held().id != (
        #[trigger] b[j]).held().id
}

/// Inserting an order with the fresh id `n` keeps ids distinct and below `n + 1`.
proof fn lemma_insert_fresh<T: Resting, U: Resting>(s: Seq<T>, other: Seq<U>, p: int, x: T, n: nat)
    requires
        0 <= p <= s.len(),
        distinct_ids(s),
        ids_below(s, n),
        ids_below(other, n),
        disjoint_ids(s, other),
        x.held().id == n,
    ensures
        distinct_ids(s.insert(p, x)),
        ids_below(s.insert(p, x), n + 1),
        ids_below(other, n + 1),
        disjoint_ids(s.insert(p, x), other),
        disjoint_ids(other, s.insert(p, x)),
{
    let t = s.insert(p, x);
    assert forall|i: int| 0 <= i < t.len() implies #[trigger] t[i] == if i < p {
        s[i]
    } else if i == p {
        x
    } else {
        s[i - 1]
    } by {}
}

/// What remains of a book after a leading part is removed keeps the ids'
/// distinctness, bound and disjointness from the other book.
proof fn lemma_suffix_keeps_ids<T: Resting, U: Resting>(a: Seq<T>, b: Seq<T>, other: Seq<U>, n: nat)
    requires
        is_suffix(a, b),
        distinct_ids(b),
        ids_below(b, n),
        disjoint_ids(b, other) || disjoint_ids(other, b),
    ensures
        distinct_ids(a),
        ids_below(a, n),
        disjoint_ids(a, other),
        disjoint_ids(other, a),
{
    let s = b.len() - a.len();
    assert forall|i: int, j: int| 0 <= i < j < a.len() implies (#[trigger] a[i]).held().id != (
    #[trigger] a[j]).held().id by {
        assert(a[i] == b[i + s] && a[j] == b[j + s]);
    }
    assert forall|i: int| 0 <= i < a.len() implies (#[trigger] a[i]).held().id < n by {
        assert(a[i] == b[i + s]);
    }
    assert forall|i: int, j: int| 0 <= i < a.len() && 0 <= j < other.len() implies (
    #[trigger] a[i]).held().id != (#[trigger] other[j]).held().id by {
        assert(a[i] == b[i + s]);
    }
}


/// `after` is `before` with `request` resting in its own side's book under
/// the next id, which then moves on by one.
pub open spec fn rests(before: Matcher, request: Request, after: Matcher) -> bool {
    let order = Order { id: before.next_id() as u64, request };
    &&& after.next_id() == before.next_id() + 1
    &&& match request.side {
        Side::Ask => {
            &&& after.ask_book() == before.ask_book().insert(
                insertion_point(before.ask_book(), AsksOrder(order)),
                AsksOrder(order),
            )
            &&& after.bid_book() == before.bid_book()
        },
        Side::Bid => {
            &&& after.bid_book() == before.bid_book().insert(
                insertion_point(before.bid_book(), BidsOrder(order)),
                BidsOrder(order),
            )
            &&& after.ask_book() == before.ask_book()
        },
    }
}

/// Both books of a well-formed engine are in strict priority order, so each
/// is the one sorted arrangement of the orders it holds.
pub proof fn law_books_strictly_sorted(m: Matcher)
    requires
        m.wf(),
    ensures
        strictly_sorted_by_rank(m.ask_book()),
        strictly_sorted_by_rank(m.bid_book()),
{
    let a = m.ask_book();
    let b = m.bid_book();
    assert forall|i: int, j: int| 0 <= i < j < a.len() implies rank_lt(
        #[trigger] a[i].rank(),
        #[trigger] a[j].rank(),
    ) by {
        assert(!rank_lt(a[j].rank(), a[i].rank()));
    }
    assert forall|i: int, j: int| 0 <= i < j < b.len() implies rank_lt(
        #[trigger] b[i].rank(),
        #[trigger] b[j].rank(),
    ) by {
        assert(!rank_lt(b[j].rank(), b[i].rank()));
    }
}

/// A limit request adds exactly its own order, under the next id, to its
/// side's book, and leaves the other book as it was.
pub proof fn law_limit_adds_its_order(before: Matcher, request: Request, after: Matcher)
    requires
        rests(before, request, after),
    ensures
        ({
            let order = Order { id: before.next_id() as u64, request };
            match request.side {
                Side::Ask => {
                    &&& after.ask_book().to_multiset() == before.ask_book().to_multiset().insert(
                        AsksOrder(order),
                    )
                    &&& after.bid_book() == before.bid_book()
                },
                Side::Bid => {
                    &&& after.bid_book().to_multiset() == before.bid_book().to_multiset().insert(
                        BidsOrder(order),
                    )
                    &&& after.ask_book() == before.ask_book()
                },
            }
        }),
{
    broadcast use vstd::seq_lib::to_multiset_insert;

    let order = Order { id: before.next_id() as u64, request };
    lemma_insertion_point_in_range(before.ask_book(), AsksOrder(order));
    lemma_insertion_point_in_range(before.bid_book(), BidsOrder(order));
}

/// Queueing the same limit request twice rests two orders with the
/// consecutive ids `n` and `n + 1`; they are never merged.
pub proof fn law_limit_twice_rests_two_orders(
    m0: Matcher,
    m1: Matcher,
    m2: Matcher,
    request: Request,
)
    requires
        rests(m0, request, m1),
        rests(m1, request, m2),
    ensures
        m2.next_id() == m0.next_id() + 2,
        ({
            let first = Order { id: m0.next_id() as u64, request };
            let second = Order { id: (m0.next_id() + 1) as u64, request };
            &&& first.id != second.id
            &&& match request.side {
                Side::Ask => m2.ask_book().to_multiset() == m0.ask_book().to_multiset().insert(
                    AsksOrder(first),
                ).insert(AsksOrder(second)),
                Side::Bid => m2.bid_book().to_multiset() == m0.bid_book().to_multiset().insert(
                    BidsOrder(first),
                ).insert(BidsOrder(second)),
            }
        }),
{
    law_limit_adds_its_order(m0, request, m1);
    law_limit_adds_its_order(m1, request, m2);
}

/// Within a book, of two orders at one price the one drained first (nearer
/// the front) arrived first.
pub proof fn law_equal_price_in_id_order(m: Matcher)
    requires
        m.wf(),
    ensures
        forall|i: int, j: int|
            0 <= i < j < m.ask_book().len() && (#[trigger] m.ask_book()[i]).0.request.price == (
            #[trigger] m.ask_book()[j]).0.request.price ==> m.ask_book()[i].0.id < m.ask_book()[j].0.id,
        forall|i: int, j: int|
            0 <= i < j < m.bid_book().len() && (#[trigger] m.bid_book()[i]).0.request.price == (
            #[trigger] m.bid_book()[j]).0.request.price ==> m.bid_book()[i].0.id < m.bid_book()[j].0.id,
{
    law_books_strictly_sorted(m);
    assert forall|i: int, j: int|
        0 <= i < j < m.ask_book().len() && (#[trigger] m.ask_book()[i]).0.request.price == (
        #[trigger] m.ask_book()[j]).0.request.price implies m.ask_book()[i].0.id
        < m.ask_book()[j].0.id by {
        assert(rank_lt(m.ask_book()[i].rank(), m.ask_book()[j].rank()));
    }
    assert forall|i: int, j: int|
        0 <= i < j < m.bid_book().len() && (#[trigger] m.bid_book()[i]).0.request.price == (
        #[trigger] m.bid_book()[j]).0.request.price implies m.bid_book()[i].0.id
        < m.bid_book()[j].0.id by {
        assert(rank_lt(m.bid_book()[i].rank(), m.bid_book()[j].rank()));
    }
}

/// Resting orders across both books have pairwise distinct ids, all below
/// the next id; ids handed out later are therefore new.
pub proof fn law_resting_ids_distinct(m: Matcher)
    requires
        m.wf(),
    ensures
        (ids_of(m.ask_book()) + ids_of(m.bid_book())).no_duplicates(),
        forall|i: int|
            0 <= i < (ids_of(m.ask_book()) + ids_of(m.bid_book())).len() ==> (#[trigger] (ids_of(
                m.ask_book(),
            ) + ids_of(m.bid_book()))[i]) < m.next_id(),
{
    let a = m.ask_book();
    let b = m.bid_book();
    let all = ids_of(a) + ids_of(b);
    assert forall|i: int| 0 <= i < all.len() implies #[trigger] all[i] == if i < a.len() {
        a[i].held().id
    } else {
        b[i - a.len()].held().id
    } by {}
    assert forall|i: int, j: int| 0 <= i < all.len() && 0 <= j < all.len() && i != j implies all[i]
        != all[j] by {
        assert(all[i] == if i < a.len() {
            a[i].held().id
        } else {
            b[i - a.len()].held().id
        });
        assert(all[j] == if j < a.len() {
            a[j].held().id
        } else {
            b[j - a.len()].held().id
        });
    }
}

/// A fill-or-kill request is all or nothing: it is executed exactly when
/// the acceptable orders cover its size, and otherwise changes nothing.
pub proof fn law_fill_or_kill_all_or_nothing<T: Resting>(
    book: Seq<T>,
    request: Request,
    r: MatchingResult,
    after: Seq<T>,
)
    requires
        fill_or_kill_outcome(book, request, r, after),
    ensures
        r is Executed <==> total_size(acceptable_orders(orders_of(book), request)) >= request.size,
        r is Cancelled <==> total_size(acceptable_orders(orders_of(book), request)) < request.size,
        r is Cancelled ==> after == book,
{
}

/// The ids that a fill-or-kill returns are distinct, were handed out before,
/// and no longer rest in the book.
pub proof fn law_executed_ids_distinct<T: Resting>(
    book: Seq<T>,
    request: Request,
    r: MatchingResult,
    after: Seq<T>,
    n: nat,
)
    requires
        distinct_ids(book),
        ids_below(book, n),
        fill_or_kill_outcome(book, request, r, after),
    ensures
        match r {
            MatchingResult::Executed(ids) => {
                &&& ids@.no_duplicates()
                &&& forall|i: int| 0 <= i < ids@.len() ==> #[trigger] ids@[i] < n
                &&& forall|i: int, j: int|
                    0 <= i < ids@.len() && 0 <= j < after.len() ==> #[trigger] ids@[i] != (
                    #[trigger] after[j]).held().id
            },
            _ => true,
        },
{
    let f = acceptable_orders(orders_of(book), request);
    let need = request.size as int;
    if r is Executed {
        let k = choose|k: int| #[trigger] is_cover_count(f, need, k) && {
            let d = drain_count(f, need, k);
            &&& after == book.skip(d)
            &&& match r {
                MatchingResult::Executed(ids) => ids@ == ids_of(book.take(d)),
                _ => false,
            }
        };
        let d = drain_count(f, need, k);
        lemma_acceptable_len(orders_of(book), request);
        match r {
            MatchingResult::Executed(ids) => {
                assert(ids@ == ids_of(book.take(d)));
                assert forall|i: int, j: int|
                    0 <= i < ids@.len() && 0 <= j < ids@.len() && i != j implies ids@[i]
                    != ids@[j] by {
                    assert(ids@[i] == book[i].held().id);
                    assert(ids@[j] == book[j].held().id);
                }
                assert forall|i: int| 0 <= i < ids@.len() implies #[trigger] ids@[i] < n by {
                    assert(ids@[i] == book[i].held().id);
                }
                assert forall|i: int, j: int|
                    0 <= i < ids@.len() && 0 <= j < after.len() implies #[trigger] ids@[i] != (
                    #[trigger] after[j]).held().id by {
                    assert(ids@[i] == book[i].held().id);
                    assert(after[j] == book[j + d]);
                }
            },
            _ => {},
        }
    }
}

/// A price-time priority matching engine over an ask book and a bid book.
pub struct Matcher {
    asks: SortedVec<AsksOrder>,
    bids: SortedVec<BidsOrder>,
    current_request_id: u64,
}

impl Matcher {
    /// The resting sell orders, cheapest first, then earliest.
    pub closed spec fn ask_book(&self) -> Seq<AsksOrder> {
        self.asks@
    }

    /// The resting buy orders, dearest first, then earliest.
    pub closed spec fn bid_book(&self) -> Seq<BidsOrder> {
        self.bids@
    }

    /// The id the next accepted order gets.
    pub closed spec fn next_id(&self) -> nat {
        self.current_request_id as nat
    }

    /// Both books are in priority order, and resting orders have distinct ids
    /// below the next one.
    pub open spec fn wf(&self) -> bool {
        &&& sorted_by_rank(self.ask_book())
        &&& sorted_by_rank(self.bid_book())
        &&& distinct_ids(self.ask_book())
        &&& distinct_ids(self.bid_book())
        &&& disjoint_ids(self.ask_book(), self.bid_book())
        &&& ids_below(self.ask_book(), self.next_id())
        &&& ids_below(self.bid_book(), self.next_id())
    }

    /// An engine with empty books whose first order gets id 0.
    pub fn new() -> (r: Self)
        ensures
            r.wf(),
            r.ask_book() == Seq::<AsksOrder>::empty(),
            r.bid_book() == Seq::<BidsOrder>::empty(),
            r.next_id() == 0,
    {
        Self { asks: SortedVec::new(), bids: SortedVec::new(), current_request_id: 0 }
    }

    /// The ask book.
    pub fn asks(&self) -> (r: &SortedVec<AsksOrder>)
        ensures
            r@ == self.ask_book(),
    {
        &self.asks
    }

    /// The bid book.
    pub fn bids(&self) -> (r: &SortedVec<BidsOrder>)
        ensures
            r@ == self.bid_book(),
    {
        &self.bids
    }

    /// The id the next accepted order gets.
    pub fn current_request_id(&self) -> (r: u64)
        ensures
            r == self.next_id(),
    {
        self.current_request_id
    }

    /// Handles one request.
    ///
    /// A limit request always rests in its own side's book under the next
    /// id and is `Queued`; it is not matched against the opposite book.
    /// A fill-or-kill request is `Executed` against the opposite book when
    /// the acceptable orders there cover its size, and is `Cancelled` with
    /// nothing changed otherwise. The resting order that completes the
    /// coverage is drained only when the sizes add up exactly; otherwise it
    /// stays, with its size unchanged. An immediate-or-cancel request is
    /// answered `UnsupportedRequestType` with nothing changed.
    pub fn try_match(&mut self, request: Request) -> (r: MatchingResult)
        requires
            old(self).wf(),
            request.request_type == RequestType::Limit ==> old(self).next_id() < u64::MAX,
            request.request_type == RequestType::FillOrKill ==> request.size > 0,
        ensures
            final(self).wf(),
            match request.request_type {
                RequestType::Limit => {
                    &&& r == MatchingResult::Queued
                    &&& rests(*old(self), request, *final(self))
                },
                RequestType::FillOrKill => {
                    &&& final(self).next_id() == old(self).next_id()
                    &&& match request.side {
                        Side::Ask => {
                            &&& fill_or_kill_outcome(
                                old(self).bid_book(),
                                request,
                                r,
                                final(self).bid_book(),
                            )
                            &&& final(self).ask_book() == old(self).ask_book()
                        },
                        Side::Bid => {
                            &&& fill_or_kill_outcome(
                                old(self).ask_book(),
                                request,
                                r,
                                final(self).ask_book(),
                            )
                            &&& final(self).bid_book() == old(self).bid_book()
                        },
                    }
                },
                RequestType::ImmediateOrCancel => {
                    &&& r == MatchingResult::UnsupportedRequestType
                    &&& final(self).ask_book() == old(self).ask_book()
                    &&& final(self).bid_book() == old(self).bid_book()
                    &&& final(self).next_id() == old(self).next_id()
                },
            },
    {
        proof {
            lemma_insertion_point_in_range(self.asks@, AsksOrder(Order { id: self.current_request_id, request }));
            lemma_insertion_point_in_range(self.bids@, BidsOrder(Order { id: self.current_request_id, request }));
        }
        match request.request_type {
            RequestType::Limit => {
                let order = Order::new(self.current_request_id, request);
                match request.side {
                    Side::Ask => {
                        proof {
                            lemma_insertion_point_in_range(self.asks@, AsksOrder(order));
                            lemma_insert_fresh(
                                self.asks@,
                                self.bids@,
                                insertion_point(self.asks@, AsksOrder(order)),
                                AsksOrder(order),
                                self.next_id(),
                            );
                        }
                        self.asks.push(AsksOrder(order));
                    },
                    Side::Bid => {
                        proof {
                            lemma_insertion_point_in_range(self.bids@, BidsOrder(order));
                            lemma_insert_fresh(
                                self.bids@,
                                self.asks@,
                                insertion_point(self.bids@, BidsOrder(order)),
                                BidsOrder(order),
                                self.next_id(),
                            );
                        }
                        self.bids.push(BidsOrder(order));
                    },
                }
                self.current_request_id = self.current_request_id + 1;
                MatchingResult::Queued
            },
            RequestType::FillOrKill => match request.side {
                Side::Ask => {
                    proof {
                        let os = orders_of(self.bids@);
                        assert forall|i: int, j: int|
                            0 <= i < j < os.len() && acceptable(
                                request,
                                #[trigger] os[j],
                            ) implies acceptable(request, #[trigger] os[i]) by {
                            assert(!rank_lt(self.bids@[j].rank(), self.bids@[i].rank()));
                        }
                    }
                    let ghost before = self.bids@;
                    let r = fill_or_kill(&mut self.bids, &request);
                    proof {
                        lemma_suffix_keeps_ids(self.bids@, before, self.asks@, self.next_id());
                    }
                    r
                },
                Side::Bid => {
                    proof {
                        let os = orders_of(self.asks@);
                        assert forall|i: int, j: int|
                            0 <= i < j < os.len() && acceptable(
                                request,
                                #[trigger] os[j],
                            ) implies acceptable(request, #[trigger] os[i]) by {
                            assert(!rank_lt(self.asks@[j].rank(), self.asks@[i].rank()));
                        }
                    }
                    let ghost before = self.asks@;
                    let r = fill_or_kill(&mut self.asks, &request);
                    proof {
                        lemma_suffix_keeps_ids(self.asks@, before, self.bids@, self.next_id());
                    }
                    r
                },
            },
            RequestType::ImmediateOrCancel => MatchingResult::UnsupportedRequestType,
        }
    }
}

} // verus!
