use vstd::prelude::*;
use vstd::std_specs::iter::IteratorSpec;

verus! {

/// Strict lexicographic order on rank pairs.
pub open spec fn rank_lt(a: (int, int), b: (int, int)) -> bool {
    a.0 < b.0 || (a.0 == b.0 && a.1 < b.1)
}

/// A total priority on items: an item with a smaller rank comes first.
pub trait Ranked: Sized {
    /// The item's place in the order, compared lexicographically.
    spec fn rank(&self) -> (int, int);

    /// Whether `self` comes strictly before `other`.
    fn ranks_before(&self, other: &Self) -> (r: bool)
        ensures
            r == rank_lt(self.rank(), other.rank()),
    ;
}

impl Ranked for u64 {
    open spec fn rank(&self) -> (int, int) {
        (*self as int, 0)
    }

    fn ranks_before(&self, other: &u64) -> (r: bool) {
        *self < *other
    }
}

impl Ranked for i32 {
    open spec fn rank(&self) -> (int, int) {
        (*self as int, 0)
    }

    fn ranks_before(&self, other: &i32) -> (r: bool) {
        *self < *other
    }
}

/// No item of `s` ranks before one that precedes it.
pub open spec fn sorted_by_rank<T: Ranked>(s: Seq<T>) -> bool {
    forall|i: int, j: int|
        0 <= i < j < s.len() ==> !rank_lt(#[trigger] s[j].rank(), #[trigger] s[i].rank())
}

/// Every item of `s` ranks strictly before each later one.
pub open spec fn strictly_sorted_by_rank<T: Ranked>(s: Seq<T>) -> bool {
    forall|i: int, j: int|
        0 <= i < j < s.len() ==> rank_lt(#[trigger] s[i].rank(), #[trigger] s[j].rank())
}

/// A sorted arrangement is unique: two sequences in strict rank order that
/// hold the same items are the same sequence.
pub proof fn law_sorted_arrangement_is_unique<T: Ranked>(a: Seq<T>, b: Seq<T>)
    requires
        strictly_sorted_by_rank(a),
        strictly_sorted_by_rank(b),
        a.to_multiset() == b.to_multiset(),
    ensures
        a == b,
    decreases a.len(),
{
    broadcast use vstd::seq_lib::group_to_multiset_ensures;

    assert(a.to_multiset().len() == a.len());
    assert(b.to_multiset().len() == b.len());
    if a.len() == 0 {
        assert(a =~= b);
    } else {
        let n = a.len() - 1;
        let x = a[n];
        let y = b[n];
        assert(a.contains(x));
        assert(b.contains(y));
        assert(b.to_multiset().count(x) > 0);
        assert(a.to_multiset().count(y) > 0);
        let ib = choose|k: int| 0 <= k < b.len() && b[k] == x;
        let ja = choose|k: int| 0 <= k < a.len() && a[k] == y;
        if ib != n {
            assert(rank_lt(x.rank(), y.rank()));
            assert(ja != n);
            assert(rank_lt(y.rank(), x.rank()));
        }
        assert(x == y);
        assert(a.remove(n) =~= a.drop_last());
        assert(b.remove(n) =~= b.drop_last());
        let da = a.drop_last();
        let db = b.drop_last();
        assert(strictly_sorted_by_rank(da)) by {
            assert forall|i: int, j: int| 0 <= i < j < da.len() implies rank_lt(
                #[trigger] da[i].rank(),
                #[trigger] da[j].rank(),
            ) by {
                assert(da[i] == a[i] && da[j] == a[j]);
            }
        }
        assert(strictly_sorted_by_rank(db)) by {
            assert forall|i: int, j: int| 0 <= i < j < db.len() implies rank_lt(
                #[trigger] db[i].rank(),
                #[trigger] db[j].rank(),
            ) by {
                assert(db[i] == b[i] && db[j] == b[j]);
            }
        }
        law_sorted_arrangement_is_unique(da, db);
        assert(a =~= da.push(x));
        assert(b =~= db.push(y));
    }
}

/// Where `item` goes in `s`: after the last element that does not rank after it.
pub open spec fn insertion_point<T: Ranked>(s: Seq<T>, item: T) -> int
    decreases s.len(),
{
    if s.len() == 0 {
        0
    } else if rank_lt(item.rank(), s.last().rank()) {
        insertion_point(s.drop_last(), item)
    } else {
        s.len() as int
    }
}

/// The insertion point lies within the sequence's bounds.
pub proof fn lemma_insertion_point_in_range<T: Ranked>(s: Seq<T>, item: T)
    ensures
        0 <= insertion_point(s, item) <= s.len(),
    decreases s.len(),
{
    if s.len() > 0 {
        lemma_insertion_point_in_range(s.drop_last(), item);
    }
}

/// A boundary `p` that splits a sorted `s` into the elements not after `item`
/// and those after it is the insertion point.
proof fn lemma_insertion_point<T: Ranked>(s: Seq<T>, item: T, p: int)
    requires
        0 <= p <= s.len(),
        forall|k: int| 0 <= k < p ==> !rank_lt(item.rank(), #[trigger] s[k].rank()),
        forall|k: int| p <= k < s.len() ==> rank_lt(item.rank(), #[trigger] s[k].rank()),
    ensures
        insertion_point(s, item) == p,
    decreases s.len(),
{
    if s.len() > 0 && p < s.len() {
        let d = s.drop_last();
        assert forall|k: int| 0 <= k < p implies !rank_lt(item.rank(), #[trigger] d[k].rank()) by {
            assert(d[k] == s[k]);
        }
        assert forall|k: int| p <= k < d.len() implies rank_lt(item.rank(), #[trigger] d[k].rank()) by {
            assert(d[k] == s[k]);
        }
        lemma_insertion_point(d, item, p);
    }
}

/// A sequence kept sorted by the items' rank.
pub struct SortedVec<T> {
    items: Vec<T>,
}

impl<T> View for SortedVec<T> {
    type V = Seq<T>;

    closed spec fn view(&self) -> Seq<T> {
        self.items@
    }
}

impl<T: Ranked> SortedVec<T> {
    /// The items are in rank order.
    pub open spec fn wf(&self) -> bool {
        sorted_by_rank(self@)
    }

    /// An empty container.
    pub fn new() -> (r: Self)
        ensures
            r@ == Seq::<T>::empty(),
            r.wf(),
    {
        SortedVec { items: Vec::new() }
    }

    /// The number of items.
    pub fn len(&self) -> (r: usize)
        ensures
            r == self@.len(),
    {
        self.items.len()
    }

    /// Inserts `item` after every item that does not rank after it, found by
    /// binary search.
    pub fn push(&mut self, item: T)
        requires
            old(self).wf(),
        ensures
            final(self).wf(),
            final(self)@ == old(self)@.insert(insertion_point(old(self)@, item), item),
    {
        let mut lo: usize = 0;
        let mut hi: usize = self.items.len();
        while lo < hi
            invariant
                0 <= lo <= hi <= self@.len(),
                self.wf(),
                forall|k: int| 0 <= k < lo ==> !rank_lt(item.rank(), #[trigger] self@[k].rank()),
                forall|k: int|
                    hi <= k < self@.len() ==> rank_lt(item.rank(), #[trigger] self@[k].rank()),
            decreases hi - lo,
        {
            let mid: usize = lo + (hi - lo) / 2;
            if item.ranks_before(&self.items[mid]) {
                assert forall|k: int| mid <= k < self@.len() implies rank_lt(
                    item.rank(),
                    #[trigger] self@[k].rank(),
                ) by {
                    if k > mid {
                        assert(!rank_lt(self@[k].rank(), self@[mid as int].rank()));
                    }
                }
                hi = mid;
            } else {
                assert forall|k: int| 0 <= k <= mid implies !rank_lt(
                    item.rank(),
                    #[trigger] self@[k].rank(),
                ) by {
                    if k < mid {
                        assert(!rank_lt(self@[mid as int].rank(), self@[k].rank()));
                    }
                }
                lo = mid + 1;
            }
        }
        proof {
            lemma_insertion_point(self@, item, lo as int);
        }
        let ghost before = self@;
        self.items.insert(lo, item);
        assert(sorted_by_rank(self@)) by {
            assert forall|i: int, j: int| 0 <= i < j < self@.len() implies !rank_lt(
                #[trigger] self@[j].rank(),
                #[trigger] self@[i].rank(),
            ) by {
                if j < lo {
                } else if j == lo {
                    assert(self@[i] == before[i]);
                } else if i < lo {
                    assert(self@[j] == before[j - 1]);
                } else if i == lo {
                    assert(self@[j] == before[j - 1]);
                } else {
                    assert(self@[j] == before[j - 1]);
                    assert(self@[i] == before[i - 1]);
                }
            }
        }
    }

    /// The item at position `k`.
    pub fn index(&self, k: usize) -> (r: &T)
        requires
            k < self@.len(),
        ensures
            *r == self@[k as int],
    {
        &self.items[k]
    }

    /// Removes the first `count` items and returns them in order.
    pub fn drain(&mut self, count: usize) -> (r: Vec<T>)
        requires
            old(self).wf(),
            count <= old(self)@.len(),
        ensures
            final(self).wf(),
            r@ == old(self)@.take(count as int),
            final(self)@ == old(self)@.skip(count as int),
    {
        let mut front = self.items.split_off(count);
        std::mem::swap(&mut self.items, &mut front);
        assert(self@ =~= old(self)@.skip(count as int));
        assert(front@ =~= old(self)@.take(count as int));
        front
    }

    /// The items in rank order.
    pub fn iter(&self) -> (r: std::slice::Iter<'_, T>)
        ensures
            r.remaining() == self@.as_ref(),
    {
        let slice = self.items.as_slice();
        let r = slice.iter();
        proof {
            vstd::std_specs::slice::axiom_spec_slice_iter(slice);
        }
        r
    }
}

} // verus!
