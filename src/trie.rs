//! Trie layers, their cursors, and the exponential-gap scan they share.

use vstd::prelude::*;

verus! {

/// The keys strictly increase along `s`.
pub open spec fn increasing(s: Seq<u32>) -> bool {
    forall|i: int, j: int| 0 <= i < j < s.len() ==> s[i] < s[j]
}

/// The keys `lower .. upper` of a layer, in order.
pub open spec fn keys_of<T: LayerModel>(t: &T, lower: int, upper: int) -> Seq<u32> {
    Seq::new((upper - lower) as nat, |i: int| t.key_at(lower + i))
}

/// An iterator replacement for ordered sequences with random access.
///
/// A cursor yields items `(key, value)` with strictly increasing keys, and
/// can seek forward to the first key at least as large as a target.
pub trait Cursor: Sized {
    /// An arbitrary payload for each item.
    type Val;

    /// The keys of the items not yet yielded, in order.
    spec fn keys_left(&self) -> Seq<u32>;

    /// The values of the items not yet yielded, in order.
    spec fn vals_left(&self) -> Seq<Self::Val>;

    /// Internal consistency.
    spec fn wf(&self) -> bool;

    /// The remaining keys strictly increase, one value to each.
    proof fn lemma_increasing(&self)
        requires
            self.wf(),
        ensures
            increasing(self.keys_left()),
            self.vals_left().len() == self.keys_left().len(),
    ;

    /// Advances the cursor and returns the next item.
    fn next(&mut self) -> (r: Option<(u32, Self::Val)>)
        requires
            old(self).wf(),
        ensures
            final(self).wf(),
            old(self).keys_left().len() == 0 ==> r is None && final(self).keys_left() == old(self).keys_left()
                && final(self).vals_left() == old(self).vals_left(),
            old(self).keys_left().len() > 0 ==> {
                &&& r is Some
                &&& r.unwrap().0 == old(self).keys_left()[0]
                &&& r.unwrap().1 == old(self).vals_left()[0]
                &&& final(self).keys_left() == old(self).keys_left().drop_first()
                &&& final(self).vals_left() == old(self).vals_left().drop_first()
            },
    ;

    /// Advances the cursor to the first item whose key is at least `key`.
    fn seek(&mut self, key: u32)
        requires
            old(self).wf(),
        ensures
            final(self).wf(),
            final(self).keys_left().len() <= old(self).keys_left().len(),
            final(self).keys_left() == old(self).keys_left().subrange(
                old(self).keys_left().len() - final(self).keys_left().len(),
                old(self).keys_left().len() as int,
            ),
            forall|j: int|
                0 <= j < old(self).keys_left().len() - final(self).keys_left().len() ==> old(self).keys_left()[j] < key,
            final(self).keys_left().len() > 0 ==> key <= final(self).keys_left()[0],
            final(self).vals_left() == old(self).vals_left().subrange(
                old(self).keys_left().len() - final(self).keys_left().len(),
                old(self).keys_left().len() as int,
            ),
    ;

    /// Returns the key of the next item, if one exists.
    fn peek(&self) -> (r: Option<u32>)
        requires
            self.wf(),
        ensures
            self.keys_left().len() == 0 ==> r is None,
            self.keys_left().len() > 0 ==> r == Some(self.keys_left()[0]),
    ;

    /// Returns the number of items remaining.
    fn size(&self) -> (r: usize)
        requires
            self.wf(),
        ensures
            r == self.keys_left().len(),
    ;
}

/// A reference to a trie layer, capable of enumerating ranges of its keys.
pub trait TrieRef<'a>: LayerModel + 'a {
    /// The type of cursor the layer uses to navigate its keys.
    type Cursor: Cursor;

    /// The number of keys in this layer.
    fn keys_cnt(&self) -> (r: usize)
        requires
            self.wf(),
        ensures
            r == self.key_count(),
    ;

    /// The cursor over the keys `lower .. upper`.
    spec fn cursor_at(&'a self, lower: int, upper: int) -> Self::Cursor;

    /// The cursor over a sorted range of keys is well formed and has those
    /// keys left.
    proof fn lemma_cursor_at(&'a self, lower: int, upper: int)
        requires
            self.wf(),
            0 <= lower <= upper <= self.key_count(),
            upper <= usize::MAX,
            sorted(self, lower, upper),
        ensures
            self.cursor_at(lower, upper).wf(),
            self.cursor_at(lower, upper).keys_left() == keys_of(self, lower, upper),
    ;

    /// Returns a cursor over the keys `lower .. upper`.
    fn cursor(&'a self, lower: usize, upper: usize) -> (r: Self::Cursor)
        requires
            self.wf(),
            lower <= upper <= self.key_count(),
            sorted(self, lower as int, upper as int),
        ensures
            r == self.cursor_at(lower as int, upper as int),
            r.wf(),
            r.keys_left() == keys_of(self, lower as int, upper as int),
    ;

    /// Returns a cursor over all keys.
    fn enumerate(&'a self) -> (r: Self::Cursor)
        requires
            self.wf(),
            sorted(self, 0, self.key_count() as int),
        ensures
            r == self.cursor_at(0, self.key_count() as int),
            r.wf(),
            r.keys_left() == keys_of(self, 0, self.key_count() as int),
    {
        let n = self.keys_cnt();
        self.cursor(0, n)
    }
}

/// The weight that a range `[lo, hi)` of top-level keys of `t` gives the
/// key path `p`: the weight under the key `p[0]` if that key is in the range,
/// and zero otherwise.
pub open spec fn range_wt<T: LayerModel>(t: &T, lo: int, hi: int, p: Seq<u32>) -> int {
    if p.len() > 0 && exists|i: int| lo <= i < hi && t.key_at(i) == p[0] {
        t.weight(choose|i: int| lo <= i < hi && t.key_at(i) == p[0], p)
    } else {
        0
    }
}

/// The top-level keys of `t` strictly increase over `[lo, hi)`.
pub open spec fn sorted<T: LayerModel>(t: &T, lo: int, hi: int) -> bool {
    forall|i: int, j: int| lo <= i < j < hi ==> t.key_at(i) < t.key_at(j)
}

/// The weight that a sequence of items gives the path `p`: that of the last
/// item with this path, or zero.
pub open spec fn items_wt<T: LayerModel>(items: Seq<T::Item>, p: Seq<u32>) -> int
    decreases items.len(),
{
    if items.len() == 0 {
        0
    } else if T::path_of(items.last()) == p {
        T::weight_of(items.last())
    } else {
        items_wt::<T>(items.drop_last(), p)
    }
}

/// Each item is strictly less than the next one, in the order of the layer.
pub open spec fn items_ordered<T: LayerModel>(items: Seq<T::Item>) -> bool {
    forall|i: int| 0 <= i < items.len() - 1 ==> T::item_lt(items[i], #[trigger] items[i + 1])
}

/// Every item has a non-zero weight.
pub open spec fn items_nonzero<T: LayerModel>(items: Seq<T::Item>) -> bool {
    forall|i: int| 0 <= i < items.len() ==> T::weight_of(#[trigger] items[i]) != 0
}

/// The sums of the weights that two ranges give each path fit in an `i32`.
pub open spec fn summable<T: LayerModel>(
    a: &T,
    lo1: int,
    hi1: int,
    b: &T,
    lo2: int,
    hi2: int,
) -> bool {
    forall|p: Seq<u32>|
        i32::MIN <= #[trigger] range_wt(a, lo1, hi1, p) + range_wt(b, lo2, hi2, p) <= i32::MAX
}

/// A layer of a trie, holding tuples `(k1, ..., kn, w)` grouped by their
/// first key `k1`. Its top-level keys are numbered `0 .. key_count()`; under
/// key number `i` it holds the tuples that `weight(i, _)` describes.
pub trait LayerModel: Sized {
    /// One tuple, as taken by `extend_tuple`.
    type Item;

    /// Number of distinct keys at this level.
    spec fn key_count(&self) -> nat;

    /// The top-level key number `i`.
    spec fn key_at(&self, i: int) -> u32;

    /// The weight of the key path `p` among the tuples under key number `i`
    /// (zero where there is no such tuple).
    spec fn weight(&self, i: int, p: Seq<u32>) -> int;

    /// Number of tuples at the leaves.
    spec fn tuple_count(&self) -> nat;

    /// Number of tuples under the keys `lo .. hi`.
    spec fn range_tuples(&self, lo: int, hi: int) -> int;

    /// Internal consistency; it does not ask the top-level keys to be sorted,
    /// since an inner layer is sorted only within each group of its parent.
    spec fn wf(&self) -> bool;

    /// The key path of an item.
    spec fn path_of(item: Self::Item) -> Seq<u32>;

    /// The weight of an item.
    spec fn weight_of(item: Self::Item) -> int;

    /// The first key of an item.
    spec fn head_of(item: Self::Item) -> u32;

    /// `a` comes strictly before `b` in the lexicographic order of key paths.
    spec fn item_lt(a: Self::Item, b: Self::Item) -> bool;

    /// `item` may extend the last group of this layer.
    spec fn follows(&self, item: Self::Item) -> bool;

    /// The keys `0 .. n` are stored exactly as in `other` (for a trie layer,
    /// with the same end offsets).
    spec fn same_prefix(&self, other: &Self, n: int) -> bool;

    /// Keeping a prefix is transitive.
    proof fn lemma_prefix_trans(a: &Self, b: &Self, c: &Self, n: int, m: int)
        requires
            0 <= n <= m,
            a.same_prefix(b, m),
            b.same_prefix(c, n),
        ensures
            a.same_prefix(c, n),
    ;

    /// Every layer keeps its own prefixes.
    proof fn lemma_prefix_refl(a: &Self, n: int)
        requires
            0 <= n <= a.key_count(),
        ensures
            a.same_prefix(a, n),
    ;

    /// An item's key path starts with its first key.
    proof fn lemma_item(item: Self::Item)
        ensures
            Self::path_of(item).len() > 0,
            Self::path_of(item)[0] == Self::head_of(item),
    ;

    /// What the tuples under one top-level key look like.
    proof fn lemma_entry(&self, i: int)
        requires
            self.wf(),
            0 <= i < self.key_count(),
        ensures
            forall|p: Seq<u32>|
                #[trigger] self.weight(i, p) != 0 ==> p.len() > 0 && p[0] == self.key_at(i),
            forall|p: Seq<u32>| i32::MIN <= #[trigger] self.weight(i, p) <= i32::MAX,
            exists|p: Seq<u32>| #[trigger] self.weight(i, p) != 0,
    ;
}

/// Pushing `item` opens a new top-level key: the parent asks for it, the
/// layer is empty, or the item's first key differs from the last one.
pub open spec fn opens_key<T: LayerModel>(t: &T, item: T::Item, is_new: bool) -> bool {
    is_new || t.key_count() == 0 || t.key_at(t.key_count() - 1) != T::head_of(item)
}

/// A trie layer with owned data that may be pushed into.
pub trait TrieStorage: LayerModel {
    /// The tuples of the whole layer are those under all its keys.
    proof fn lemma_tuples_total(&self)
        requires
            self.wf(),
        ensures
            self.tuple_count() == self.range_tuples(0, self.key_count() as int),
    ;

    /// Tuple counts of adjacent ranges add up.
    proof fn lemma_tuples_split(&self, a: int, b: int, c: int)
        requires
            self.wf(),
            0 <= a <= b <= c <= self.key_count(),
        ensures
            self.range_tuples(a, c) == self.range_tuples(a, b) + self.range_tuples(b, c),
    ;

    /// A sorted range holds one tuple for each key path it gives a non-zero
    /// weight.
    proof fn lemma_tuples_support(&self, lo: int, hi: int)
        requires
            self.wf(),
            0 <= lo <= hi <= self.key_count(),
            sorted(self, lo, hi),
        ensures
            support(self, lo, hi).finite(),
            support(self, lo, hi).len() == self.range_tuples(lo, hi),
    ;

    /// Allocates a new empty trie.
    fn new() -> (r: Self)
        ensures
            r.wf(),
            r.key_count() == 0,
            forall|x: Self::Item| #[trigger] r.follows(x),
            r.tuple_count() == 0,
    ;

    /// Allocates a new empty trie sized to hold both `other1` and `other2`.
    fn with_capacity(other1: &Self, other2: &Self) -> (r: Self)
        ensures
            r.wf(),
            r.key_count() == 0,
            r.tuple_count() == 0,
    ;

    /// Reports the number of distinct keys at this level.
    fn keys(&self) -> (r: usize)
        requires
            self.wf(),
        ensures
            r == self.key_count(),
    ;

    /// Reports the number of tuples in the trie.
    fn tuples(&self) -> (r: usize)
        requires
            self.wf(),
        ensures
            r == self.tuple_count(),
    ;

    /// Appends the keys `lower .. upper` of `other`, with what lies under them.
    fn extend_trie(&mut self, other: &Self, lower: usize, upper: usize)
        requires
            old(self).wf(),
            other.wf(),
            lower < upper <= other.key_count(),
        ensures
            final(self).wf(),
            final(self).same_prefix(old(self), old(self).key_count() as int),
            final(self).key_count() == old(self).key_count() + (upper - lower),
            forall|i: int|
                0 <= i < old(self).key_count() ==> #[trigger] final(self).key_at(i) == old(self).key_at(i),
            forall|i: int, p: Seq<u32>|
                0 <= i < old(self).key_count() ==> #[trigger] final(self).weight(i, p) == old(self).weight(i, p),
            forall|i: int|
                old(self).key_count() <= i < final(self).key_count() ==> #[trigger] final(self).key_at(i) == other.key_at(i - old(self).key_count() + lower),
            forall|i: int, p: Seq<u32>|
                old(self).key_count() <= i < final(self).key_count() ==> #[trigger] final(self).weight(i, p) == other.weight(i - old(self).key_count() + lower, p),
    ;

    /// The top-level key number `i`.
    fn key(&self, i: usize) -> (r: u32)
        requires
            self.wf(),
            i < self.key_count(),
        ensures
            r == self.key_at(i as int),
    ;

    /// The length of the run of keys from `lower` on that are below `bound`,
    /// found with the exponential-gap scan; the key at `lower` is below it.
    fn count_below(&self, lower: usize, upper: usize, bound: u32) -> (r: usize)
        requires
            self.wf(),
            lower < upper <= self.key_count(),
            sorted(self, lower as int, upper as int),
            self.key_at(lower as int) < bound,
        ensures
            1 <= r <= upper - lower,
            forall|i: int| lower <= i < lower + r ==> self.key_at(i) < bound,
            lower + r < upper ==> bound <= self.key_at(lower + r),
    ;

    /// Appends the sum of the tuples under key `i` of `a` and key `j` of `b`,
    /// which are equal keys, under that key; appends nothing where all
    /// their weights cancel.
    fn push_merged(&mut self, a: &Self, i: usize, b: &Self, j: usize)
        requires
            old(self).wf(),
            a.wf(),
            b.wf(),
            i < a.key_count(),
            j < b.key_count(),
            a.key_at(i as int) == b.key_at(j as int),
            forall|p: Seq<u32>|
                i32::MIN <= #[trigger] a.weight(i as int, p) + b.weight(j as int, p) <= i32::MAX,
        ensures
            final(self).wf(),
            final(self).same_prefix(old(self), old(self).key_count() as int),
            forall|k: int|
                0 <= k < old(self).key_count() ==> #[trigger] final(self).key_at(k) == old(self).key_at(k),
            forall|k: int, p: Seq<u32>|
                0 <= k < old(self).key_count() ==> #[trigger] final(self).weight(k, p) == old(self).weight(k, p),
            final(self).key_count() == old(self).key_count() + 1 ==> {
                &&& final(self).key_at(old(self).key_count() as int) == a.key_at(i as int)
                &&& forall|p: Seq<u32>|
                    #[trigger] final(self).weight(old(self).key_count() as int, p) == a.weight(
                        i as int,
                        p,
                    ) + b.weight(j as int, p)
            },
            final(self).key_count() != old(self).key_count() + 1 ==> {
                &&& final(self).key_count() == old(self).key_count()
                &&& forall|p: Seq<u32>| #[trigger] a.weight(i as int, p) + b.weight(j as int, p) == 0
            },
    ;

    /// Creates a new trie from a sequence of items in strictly increasing order.
    fn from_ordered(items: Vec<Self::Item>) -> (r: Self)
        requires
            items_ordered::<Self>(items@),
            items_nonzero::<Self>(items@),
        ensures
            r.wf(),
            sorted(&r, 0, r.key_count() as int),
            forall|p: Seq<u32>| #[trigger] range_wt(&r, 0, r.key_count() as int, p) == items_wt::<Self>(items@, p),
            r.tuple_count() == items@.len(),
    {
        let ghost all = items@;
        let n = items.len();
        let mut items = items;
        // reverse the items, so that popping yields them in order
        let mut rev: Vec<Self::Item> = Vec::new();
        while items.len() > 0
            invariant
                n == all.len(),
                items@ == all.subrange(0, items@.len() as int),
                rev@.len() + items@.len() == n,
                forall|k: int| 0 <= k < rev@.len() ==> #[trigger] rev@[k] == all[n - 1 - k],
            decreases items@.len(),
        {
            let x = items.pop().unwrap();
            rev.push(x);
        }
        let mut result = Self::new();
        let mut i: usize = 0;
        while rev.len() > 0
            invariant
                n == all.len(),
                i + rev@.len() == n,
                forall|k: int| 0 <= k < rev@.len() ==> #[trigger] rev@[k] == all[n - 1 - k],
                items_ordered::<Self>(all),
                items_nonzero::<Self>(all),
                result.wf(),
                sorted(&result, 0, result.key_count() as int),
                i > 0 ==> result.key_count() > 0,
                i > 0 ==> forall|x: Self::Item| #[trigger] Self::item_lt(all[i - 1], x) ==> result.follows(x),
                i > 0 ==> result.key_at(result.key_count() - 1) == Self::head_of(all[i - 1]),
                i == 0 ==> result.key_count() == 0,
                i == 0 ==> forall|x: Self::Item| #[trigger] result.follows(x),
                result.tuple_count() == i,
                forall|p: Seq<u32>| #[trigger] range_wt(&result, 0, result.key_count() as int, p) == items_wt::<Self>(all.subrange(0, i as int), p),
            decreases rev@.len(),
        {
            let item = rev.pop().unwrap();
            proof {
                assert(item == all[i as int]);
                if i > 0 {
                    assert(Self::item_lt(all[i - 1], all[(i - 1) + 1]));
                }
                Self::lemma_item(item);
            }
            let ghost before = result;
            let ghost kc = before.key_count() as int;
            result.extend_tuple(item, false);
            proof {
                let path = Self::path_of(item);
                let prefix = all.subrange(0, i + 1);
                assert(prefix.drop_last() =~= all.subrange(0, i as int));
                assert(prefix.last() == item);
                if opens_key(&before, item, false) {
                    assert(sorted(&result, 0, result.key_count() as int)) by {
                        assert forall|x: int, y: int| 0 <= x < y < result.key_count() implies result.key_at(x) < result.key_at(y) by {
                            if y == kc && x < kc - 1 {
                                assert(before.key_at(x) < before.key_at(kc - 1));
                            }
                        }
                    }
                    lemma_range_split(&result, 0, kc, kc + 1);
                    lemma_range_single(&result, kc);
                    assert forall|x: int| 0 <= x < kc implies #[trigger] result.key_at(0 + x) == before.key_at(0 + x) by {}
                    lemma_range_copy(&result, 0, &before, 0, kc);
                    assert forall|p: Seq<u32>| #[trigger] range_wt(&result, 0, result.key_count() as int, p) == items_wt::<Self>(prefix, p) by {
                        assert(range_wt(&result, 0, 0 + kc, p) == range_wt(&before, 0, 0 + kc, p));
                        assert(range_wt(&result, kc, kc + 1, p) == result.weight(kc, p));
                        if p == path {
                            assert forall|x: int| 0 <= x < kc implies before.key_at(x) != p[0] by {
                                if x < kc - 1 {
                                    assert(before.key_at(x) < before.key_at(kc - 1));
                                }
                            }
                            lemma_range_outside(&before, 0, kc, p);
                        }
                    }
                } else {
                    lemma_range_split(&result, 0, kc - 1, kc);
                    lemma_range_split(&before, 0, kc - 1, kc);
                    lemma_range_single(&result, kc - 1);
                    lemma_range_single(&before, kc - 1);
                    assert forall|x: int| 0 <= x < kc - 1 implies #[trigger] result.key_at(0 + x) == before.key_at(0 + x) by {}
                    lemma_range_copy(&result, 0, &before, 0, kc - 1);
                    assert forall|p: Seq<u32>| #[trigger] range_wt(&result, 0, result.key_count() as int, p) == items_wt::<Self>(prefix, p) by {
                        assert(range_wt(&result, 0, 0 + (kc - 1), p) == range_wt(&before, 0, 0 + (kc - 1), p));
                        assert(range_wt(&result, kc - 1, (kc - 1) + 1, p) == result.weight(kc - 1, p));
                        assert(range_wt(&before, kc - 1, (kc - 1) + 1, p) == before.weight(kc - 1, p));
                        if p == path {
                            assert forall|x: int| 0 <= x < kc - 1 implies before.key_at(x) != p[0] by {
                                assert(before.key_at(x) < before.key_at(kc - 1));
                            }
                            lemma_range_outside(&before, 0, kc - 1, p);
                            lemma_range_outside(&result, 0, kc - 1, p);
                            assert(result.weight(kc - 1, p) == Self::weight_of(item));
                            assert(items_wt::<Self>(prefix, p) == Self::weight_of(item));
                        } else {
                            assert(result.weight(kc - 1, p) == before.weight(kc - 1, p));
                            assert(items_wt::<Self>(prefix, p) == items_wt::<Self>(all.subrange(0, i as int), p));
                            assert(range_wt(&before, 0, kc, p) == items_wt::<Self>(all.subrange(0, i as int), p));
                        }
                        assert(range_wt(&result, 0, kc, p) == range_wt(&result, 0, kc - 1, p) + result.weight(kc - 1, p));
                    }
                }
            }
            i = i + 1;
        }
        proof {
            assert(all.subrange(0, i as int) =~= all);
        }
        result
    }

    /// Pushes one tuple; used for trie construction. `is_new` says that the
    /// parent layer has just opened a new group.
    fn extend_tuple(&mut self, tuple: Self::Item, is_new: bool)
        requires
            old(self).wf(),
            Self::weight_of(tuple) != 0,
            is_new || old(self).follows(tuple),
        ensures
            final(self).wf(),
            final(self).tuple_count() == old(self).tuple_count() + 1,
            opens_key(old(self), tuple, is_new) ==> final(self).same_prefix(old(self), old(self).key_count() as int),
            !opens_key(old(self), tuple, is_new) ==> final(self).same_prefix(old(self), old(self).key_count() - 1),
            forall|x: Self::Item| #[trigger] Self::item_lt(tuple, x) ==> final(self).follows(x),
            opens_key(old(self), tuple, is_new) ==> {
                &&& final(self).key_count() == old(self).key_count() + 1
                &&& final(self).key_at(old(self).key_count() as int) == Self::head_of(tuple)
                &&& forall|p: Seq<u32>|
                    #[trigger] final(self).weight(old(self).key_count() as int, p) == if p
                        == Self::path_of(tuple) {
                        Self::weight_of(tuple)
                    } else {
                        0
                    }
                &&& !is_new && old(self).key_count() > 0 ==> old(self).key_at(old(self).key_count() - 1) < Self::head_of(tuple)
                &&& forall|i: int|
                    0 <= i < old(self).key_count() ==> #[trigger] final(self).key_at(i) == old(self).key_at(i)
                &&& forall|i: int, p: Seq<u32>|
                    0 <= i < old(self).key_count() ==> #[trigger] final(self).weight(i, p)
                        == old(self).weight(i, p)
            },
            !opens_key(old(self), tuple, is_new) ==> {
                &&& final(self).key_count() == old(self).key_count()
                &&& forall|i: int|
                    0 <= i < old(self).key_count() ==> #[trigger] final(self).key_at(i) == old(self).key_at(i)
                &&& forall|i: int, p: Seq<u32>|
                    0 <= i < old(self).key_count() - 1 ==> #[trigger] final(self).weight(i, p)
                        == old(self).weight(i, p)
                &&& forall|p: Seq<u32>|
                    #[trigger] final(self).weight(old(self).key_count() - 1, p) == if p
                        == Self::path_of(tuple) {
                        Self::weight_of(tuple)
                    } else {
                        old(self).weight(old(self).key_count() - 1, p)
                    }
            },
    ;
}


/// Splitting a sorted range splits the weights it gives.
pub proof fn lemma_range_split<T: LayerModel>(t: &T, lo: int, mid: int, hi: int)
    requires
        lo <= mid <= hi,
        sorted(t, lo, hi),
    ensures
        forall|p: Seq<u32>|
            #[trigger] range_wt(t, lo, hi, p) == range_wt(t, lo, mid, p) + range_wt(t, mid, hi, p),
{
    assert forall|p: Seq<u32>|
        #[trigger] range_wt(t, lo, hi, p) == range_wt(t, lo, mid, p) + range_wt(t, mid, hi, p) by {
        if p.len() > 0 && exists|i: int| lo <= i < hi && t.key_at(i) == p[0] {
            let i = choose|i: int| lo <= i < hi && t.key_at(i) == p[0];
            if i < mid {
                let j = choose|j: int| lo <= j < mid && t.key_at(j) == p[0];
                assert(i == j);
                assert(!exists|k: int| mid <= k < hi && t.key_at(k) == p[0]);
            } else {
                let j = choose|j: int| mid <= j < hi && t.key_at(j) == p[0];
                assert(i == j);
                assert(!exists|k: int| lo <= k < mid && t.key_at(k) == p[0]);
            }
        }
    }
}

/// Within a sorted range, a path under one of its keys has the weight that
/// this key gives it.
pub proof fn lemma_range_at<T: LayerModel>(t: &T, lo: int, hi: int, i: int, p: Seq<u32>)
    requires
        lo <= i < hi,
        sorted(t, lo, hi),
        p.len() > 0,
        p[0] == t.key_at(i),
    ensures
        range_wt(t, lo, hi, p) == t.weight(i, p),
{
    let j = choose|j: int| lo <= j < hi && t.key_at(j) == p[0];
    assert(i == j);
}

/// A path under none of the keys of a range has no weight there.
pub proof fn lemma_range_outside<T: LayerModel>(t: &T, lo: int, hi: int, p: Seq<u32>)
    requires
        forall|i: int| lo <= i < hi ==> t.key_at(i) != p[0],
    ensures
        range_wt(t, lo, hi, p) == 0,
{
}

/// A range of one key gives the weights of that key.
pub proof fn lemma_range_single<T: LayerModel>(t: &T, i: int)
    requires
        t.wf(),
        0 <= i < t.key_count(),
    ensures
        forall|p: Seq<u32>| #[trigger] range_wt(t, i, i + 1, p) == t.weight(i, p),
{
    t.lemma_entry(i);
    assert forall|p: Seq<u32>| #[trigger] range_wt(t, i, i + 1, p) == t.weight(i, p) by {
        if p.len() > 0 && p[0] == t.key_at(i) {
            lemma_range_at(t, i, i + 1, i, p);
        }
    }
}

/// Ranges of two layers that hold the same keys with the same weights give
/// the same weights.
pub proof fn lemma_range_copy<T: LayerModel>(t: &T, lo_t: int, u: &T, lo_u: int, n: int)
    requires
        0 <= n,
        sorted(t, lo_t, lo_t + n),
        forall|k: int| 0 <= k < n ==> #[trigger] t.key_at(lo_t + k) == u.key_at(lo_u + k),
        forall|k: int, p: Seq<u32>|
            0 <= k < n ==> #[trigger] t.weight(lo_t + k, p) == u.weight(lo_u + k, p),
    ensures
        forall|p: Seq<u32>|
            #[trigger] range_wt(t, lo_t, lo_t + n, p) == range_wt(u, lo_u, lo_u + n, p),
{
    assert forall|p: Seq<u32>|
        #[trigger] range_wt(t, lo_t, lo_t + n, p) == range_wt(u, lo_u, lo_u + n, p) by {
        if p.len() > 0 && exists|i: int| lo_t <= i < lo_t + n && t.key_at(i) == p[0] {
            let i = choose|i: int| lo_t <= i < lo_t + n && t.key_at(i) == p[0];
            assert(t.key_at(lo_t + (i - lo_t)) == p[0]);
            assert(u.key_at(lo_u + (i - lo_t)) == p[0]);
            let j = choose|j: int| lo_u <= j < lo_u + n && u.key_at(j) == p[0];
            assert(t.key_at(lo_t + (j - lo_u)) == p[0]);
            assert(t.weight(lo_t + (j - lo_u), p) == u.weight(j, p));
        } else if p.len() > 0 && exists|j: int| lo_u <= j < lo_u + n && u.key_at(j) == p[0] {
            let j = choose|j: int| lo_u <= j < lo_u + n && u.key_at(j) == p[0];
            assert(t.key_at(lo_t + (j - lo_u)) == p[0]);
        }
    }
}

/// Every weight that a range of a well-formed layer gives fits in an `i32`.
pub proof fn lemma_range_bounded<T: LayerModel>(t: &T, lo: int, hi: int)
    requires
        t.wf(),
        0 <= lo,
        hi <= t.key_count(),
    ensures
        forall|p: Seq<u32>| i32::MIN <= #[trigger] range_wt(t, lo, hi, p) <= i32::MAX,
{
    assert forall|p: Seq<u32>| i32::MIN <= #[trigger] range_wt(t, lo, hi, p) <= i32::MAX by {
        if p.len() > 0 && exists|i: int| lo <= i < hi && t.key_at(i) == p[0] {
            let i = choose|i: int| lo <= i < hi && t.key_at(i) == p[0];
            t.lemma_entry(i);
            assert(i32::MIN <= t.weight(i, p) <= i32::MAX);
        }
    }
}


/// A non-empty range gives some path a non-zero weight.
pub proof fn lemma_range_nonempty<T: LayerModel>(t: &T, lo: int, hi: int)
    requires
        t.wf(),
        0 <= lo < hi <= t.key_count(),
        sorted(t, lo, hi),
    ensures
        exists|p: Seq<u32>| #[trigger] range_wt(t, lo, hi, p) != 0,
{
    t.lemma_entry(lo);
    let p = choose|p: Seq<u32>| #[trigger] t.weight(lo, p) != 0;
    lemma_range_at(t, lo, hi, lo, p);
    assert(range_wt(t, lo, hi, p) != 0);
}

/// After `after` appended to `before` the keys `s_mid .. s_mid + n` of `src`
/// with their tuples, a sorted range of it from `base` gives the weights of
/// the old part plus those of the appended block.
pub proof fn lemma_append_block<T: LayerModel>(
    before: &T,
    after: &T,
    base: int,
    src: &T,
    s_mid: int,
    n: int,
)
    requires
        0 <= base <= before.key_count(),
        0 <= n,
        after.key_count() == before.key_count() + n,
        forall|i: int| 0 <= i < before.key_count() ==> #[trigger] after.key_at(i) == before.key_at(i),
        forall|i: int, p: Seq<u32>|
            0 <= i < before.key_count() ==> #[trigger] after.weight(i, p) == before.weight(i, p),
        forall|i: int|
            before.key_count() <= i < after.key_count() ==> #[trigger] after.key_at(i)
                == src.key_at(i - before.key_count() + s_mid),
        forall|i: int, p: Seq<u32>|
            before.key_count() <= i < after.key_count() ==> #[trigger] after.weight(i, p)
                == src.weight(i - before.key_count() + s_mid, p),
        sorted(after, base, after.key_count() as int),
    ensures
        forall|p: Seq<u32>|
            #[trigger] range_wt(after, base, after.key_count() as int, p) == range_wt(
                before,
                base,
                before.key_count() as int,
                p,
            ) + range_wt(src, s_mid, s_mid + n, p),
{
    let m = before.key_count() as int;
    lemma_range_split(after, base, m, m + n);
    assert forall|k: int| 0 <= k < m - base implies #[trigger] after.key_at(base + k) == before.key_at(base + k) by {}
    lemma_range_copy(after, base, before, base, m - base);
    assert forall|k: int| 0 <= k < n implies #[trigger] after.key_at(m + k) == src.key_at(s_mid + k) by {
        assert(after.key_at(m + k) == src.key_at((m + k) - m + s_mid));
    }
    assert forall|k: int, p: Seq<u32>| 0 <= k < n implies #[trigger] after.weight(m + k, p)
        == src.weight(s_mid + k, p) by {
        assert(after.weight(m + k, p) == src.weight((m + k) - m + s_mid, p));
    }
    lemma_range_copy(after, m, src, s_mid, n);
    assert forall|p: Seq<u32>|
        #[trigger] range_wt(after, base, after.key_count() as int, p) == range_wt(
            before,
            base,
            m,
            p,
        ) + range_wt(src, s_mid, s_mid + n, p) by {
        assert(range_wt(after, base, base + (m - base), p) == range_wt(before, base, base + (m - base), p));
        assert(range_wt(after, m, m + n, p) == range_wt(src, s_mid, s_mid + n, p));
        assert(range_wt(after, base, m + n, p) == range_wt(after, base, m, p) + range_wt(after, m, m + n, p));
    }
}

/// The state of `extend_merge` between steps: what has been appended to
/// `target` since it held `kc0` keys is the merge of the consumed parts.
pub open spec fn merge_progress<T: LayerModel>(
    target: &T,
    kc0: int,
    a: &T,
    lo1: int,
    lower1: int,
    hi1: int,
    b: &T,
    lo2: int,
    lower2: int,
    hi2: int,
) -> bool {
    &&& sorted(target, kc0, target.key_count() as int)
    &&& forall|i: int|
        kc0 <= i < target.key_count() ==> (lower1 < hi1 ==> #[trigger] target.key_at(i)
            < a.key_at(lower1)) && (lower2 < hi2 ==> target.key_at(i) < b.key_at(lower2))
    &&& forall|p: Seq<u32>|
        #[trigger] range_wt(target, kc0, target.key_count() as int, p) == range_wt(
            a,
            lo1,
            lower1,
            p,
        ) + range_wt(b, lo2, lower2, p)
}

/// Appends to `target` the merge of the keys `lo1 .. hi1` of `a` and
/// `lo2 .. hi2` of `b`, given as `(a, lo1, hi1)` and `(b, lo2, hi2)`: the
/// weights of equal key paths are summed, and a path whose sum is zero is left
/// out. Runs of keys that only one side holds are copied whole; equal keys are
/// combined by `push_merged`.
pub fn extend_merge<T: TrieStorage>(target: &mut T, other1: (&T, usize, usize), other2: (&T, usize, usize))
    requires
        old(target).wf(),
        other1.0.wf(),
        other2.0.wf(),
        other1.1 <= other1.2 <= other1.0.key_count(),
        other2.1 <= other2.2 <= other2.0.key_count(),
        sorted(other1.0, other1.1 as int, other1.2 as int),
        sorted(other2.0, other2.1 as int, other2.2 as int),
        summable(other1.0, other1.1 as int, other1.2 as int, other2.0, other2.1 as int, other2.2 as int),
    ensures
        final(target).wf(),
        old(target).key_count() <= final(target).key_count(),
        forall|i: int|
            0 <= i < old(target).key_count() ==> #[trigger] final(target).key_at(i) == old(target).key_at(i),
        forall|i: int, p: Seq<u32>|
            0 <= i < old(target).key_count() ==> #[trigger] final(target).weight(i, p) == old(target).weight(i, p),
        sorted(final(target), old(target).key_count() as int, final(target).key_count() as int),
        final(target).same_prefix(old(target), old(target).key_count() as int),
        forall|p: Seq<u32>|
            #[trigger] range_wt(final(target), old(target).key_count() as int, final(target).key_count() as int, p)
                == range_wt(other1.0, other1.1 as int, other1.2 as int, p) + range_wt(other2.0, other2.1 as int, other2.2 as int, p),
{
    let (a, lo1, hi1) = other1;
    let (b, lo2, hi2) = other2;
    let ghost t0 = *target;
    let ghost kc0 = t0.key_count() as int;
    proof {
        T::lemma_prefix_refl(&t0, kc0);
    }
    let mut lower1 = lo1;
    let mut lower2 = lo2;
    while lower1 < hi1 && lower2 < hi2
        invariant
            target.wf(),
            a.wf(),
            b.wf(),
            lo1 <= lower1 <= hi1 <= a.key_count(),
            lo2 <= lower2 <= hi2 <= b.key_count(),
            sorted(a, lo1 as int, hi1 as int),
            sorted(b, lo2 as int, hi2 as int),
            summable(a, lo1 as int, hi1 as int, b, lo2 as int, hi2 as int),
            kc0 == t0.key_count(),
            kc0 <= target.key_count(),
            target.same_prefix(&t0, kc0),
            forall|i: int| 0 <= i < kc0 ==> #[trigger] target.key_at(i) == t0.key_at(i),
            forall|i: int, p: Seq<u32>|
                0 <= i < kc0 ==> #[trigger] target.weight(i, p) == t0.weight(i, p),
            merge_progress(
                target,
                kc0,
                a,
                lo1 as int,
                lower1 as int,
                hi1 as int,
                b,
                lo2 as int,
                lower2 as int,
                hi2 as int,
            ),
        decreases hi1 - lower1 + hi2 - lower2,
    {
        let k1 = a.key(lower1);
        let k2 = b.key(lower2);
        let ghost before = *target;
        if k1 < k2 {
            let step = a.count_below(lower1, hi1, k2);
            target.extend_trie(a, lower1, lower1 + step);
        proof {
            T::lemma_prefix_trans(target, &before, &t0, kc0, before.key_count() as int);
        }
            proof {
                assert forall|i: int, j: int| kc0 <= i < j < target.key_count() implies target.key_at(i)
                    < target.key_at(j) by {
                    if j >= before.key_count() {
                        assert(target.key_at(j) == a.key_at(j - before.key_count() + lower1));
                        if i >= before.key_count() {
                            assert(target.key_at(i) == a.key_at(i - before.key_count() + lower1));
                        } else {
                            assert(target.key_at(i) == before.key_at(i));
                        }
                    } else {
                        assert(target.key_at(i) == before.key_at(i));
                        assert(target.key_at(j) == before.key_at(j));
                    }
                }
                lemma_append_block(&before, target, kc0, a, lower1 as int, step as int);
                lemma_range_split(a, lo1 as int, lower1 as int, lower1 + step);
                assert forall|i: int| kc0 <= i < target.key_count() implies (lower1 + step < hi1
                    ==> #[trigger] target.key_at(i) < a.key_at(lower1 + step)) && (lower2 < hi2
                    ==> target.key_at(i) < b.key_at(lower2 as int)) by {
                    if i >= before.key_count() {
                        assert(target.key_at(i) == a.key_at(i - before.key_count() + lower1));
                    } else {
                        assert(target.key_at(i) == before.key_at(i));
                    }
                }
            }
            lower1 = lower1 + step;
        } else if k1 == k2 {
            proof {
                a.lemma_entry(lower1 as int);
                b.lemma_entry(lower2 as int);
                assert forall|p: Seq<u32>|
                    i32::MIN <= #[trigger] a.weight(lower1 as int, p) + b.weight(lower2 as int, p)
                        <= i32::MAX by {
                    if p.len() > 0 && p[0] == k1 {
                        lemma_range_at(a, lo1 as int, hi1 as int, lower1 as int, p);
                        lemma_range_at(b, lo2 as int, hi2 as int, lower2 as int, p);
                        assert(summable(a, lo1 as int, hi1 as int, b, lo2 as int, hi2 as int));
                        assert(i32::MIN <= range_wt(a, lo1 as int, hi1 as int, p) + range_wt(
                            b,
                            lo2 as int,
                            hi2 as int,
                            p,
                        ) <= i32::MAX);
                    }
                }
            }
            target.push_merged(a, lower1, b, lower2);
        proof {
            T::lemma_prefix_trans(target, &before, &t0, kc0, before.key_count() as int);
        }
            proof {
                lemma_range_split(a, lo1 as int, lower1 as int, lower1 + 1);
                lemma_range_split(b, lo2 as int, lower2 as int, lower2 + 1);
                lemma_range_single(a, lower1 as int);
                lemma_range_single(b, lower2 as int);
                assert forall|i: int| kc0 <= i < before.key_count() implies #[trigger] target.key_at(i)
                    < k1 && (lower1 + 1 < hi1 ==> k1 < a.key_at(lower1 + 1)) && (lower2 + 1 < hi2
                    ==> k1 < b.key_at(lower2 + 1)) by {
                    assert(target.key_at(i) == before.key_at(i));
                }
                if target.key_count() == before.key_count() + 1 {
                    assert(sorted(target, kc0, target.key_count() as int));
                    lemma_range_split(target, kc0, before.key_count() as int, target.key_count() as int);
                    lemma_range_single(target, before.key_count() as int);
                    assert forall|k: int| 0 <= k < before.key_count() - kc0 implies #[trigger] target.key_at(kc0 + k)
                        == before.key_at(kc0 + k) by {}
                    lemma_range_copy(target, kc0, &before, kc0, before.key_count() - kc0);
                } else {
                    assert forall|k: int| 0 <= k < before.key_count() - kc0 implies #[trigger] target.key_at(kc0 + k)
                        == before.key_at(kc0 + k) by {}
                    lemma_range_copy(target, kc0, &before, kc0, before.key_count() - kc0);
                }
                assert(sorted(target, kc0, target.key_count() as int));
                assert forall|i: int| kc0 <= i < target.key_count() implies (lower1 + 1 < hi1
                    ==> #[trigger] target.key_at(i) < a.key_at(lower1 + 1)) && (lower2 + 1 < hi2
                    ==> target.key_at(i) < b.key_at(lower2 + 1)) by {
                    if i < before.key_count() {
                        assert(target.key_at(i) == before.key_at(i));
                    }
                }
                assert forall|p: Seq<u32>| #[trigger] range_wt(target, kc0, target.key_count() as int, p)
                    == range_wt(a, lo1 as int, lower1 + 1, p) + range_wt(b, lo2 as int, lower2 + 1, p) by {
                    let m = before.key_count() as int;
                    assert(range_wt(&before, kc0, m, p) == range_wt(a, lo1 as int, lower1 as int, p) + range_wt(b, lo2 as int, lower2 as int, p));
                    assert(range_wt(target, kc0, kc0 + (m - kc0), p) == range_wt(&before, kc0, kc0 + (m - kc0), p));
                    assert(range_wt(target, kc0, m, p) == range_wt(&before, kc0, m, p));
                    assert(range_wt(a, lo1 as int, lower1 + 1, p) == range_wt(a, lo1 as int, lower1 as int, p) + a.weight(lower1 as int, p));
                    assert(range_wt(b, lo2 as int, lower2 + 1, p) == range_wt(b, lo2 as int, lower2 as int, p) + b.weight(lower2 as int, p));
                    if target.key_count() == m + 1 {
                        assert(range_wt(target, kc0, m + 1, p) == range_wt(target, kc0, m, p) + target.weight(m, p));
                    }
                }
            }
            lower1 = lower1 + 1;
            lower2 = lower2 + 1;
        } else {
            let step = b.count_below(lower2, hi2, k1);
            target.extend_trie(b, lower2, lower2 + step);
        proof {
            T::lemma_prefix_trans(target, &before, &t0, kc0, before.key_count() as int);
        }
            proof {
                assert forall|i: int, j: int| kc0 <= i < j < target.key_count() implies target.key_at(i)
                    < target.key_at(j) by {
                    if j >= before.key_count() {
                        assert(target.key_at(j) == b.key_at(j - before.key_count() + lower2));
                        if i >= before.key_count() {
                            assert(target.key_at(i) == b.key_at(i - before.key_count() + lower2));
                        } else {
                            assert(target.key_at(i) == before.key_at(i));
                        }
                    } else {
                        assert(target.key_at(i) == before.key_at(i));
                        assert(target.key_at(j) == before.key_at(j));
                    }
                }
                lemma_append_block(&before, target, kc0, b, lower2 as int, step as int);
                lemma_range_split(b, lo2 as int, lower2 as int, lower2 + step);
                assert forall|i: int| kc0 <= i < target.key_count() implies (lower2 + step < hi2
                    ==> #[trigger] target.key_at(i) < b.key_at(lower2 + step)) && (lower1 < hi1
                    ==> target.key_at(i) < a.key_at(lower1 as int)) by {
                    if i >= before.key_count() {
                        assert(target.key_at(i) == b.key_at(i - before.key_count() + lower2));
                    } else {
                        assert(target.key_at(i) == before.key_at(i));
                    }
                }
            }
            lower2 = lower2 + step;
        }
    }
    if lower1 < hi1 {
        let ghost before = *target;
        target.extend_trie(a, lower1, hi1);
        proof {
            T::lemma_prefix_trans(target, &before, &t0, kc0, before.key_count() as int);
        }
        proof {
            lemma_append_block(&before, target, kc0, a, lower1 as int, (hi1 - lower1) as int);
            lemma_range_split(a, lo1 as int, lower1 as int, hi1 as int);
        }
    }
    if lower2 < hi2 {
        let ghost before = *target;
        target.extend_trie(b, lower2, hi2);
        proof {
            T::lemma_prefix_trans(target, &before, &t0, kc0, before.key_count() as int);
        }
        proof {
            lemma_append_block(&before, target, kc0, b, lower2 as int, (hi2 - lower2) as int);
            lemma_range_split(b, lo2 as int, lower2 as int, hi2 as int);
        }
    }
}

/// Merges two tries into a new trie: the weights of equal
/// key paths are summed, and a path whose sum is zero is left out.
pub fn merge<T: TrieStorage>(this: &T, other: &T) -> (r: T)
    requires
        this.wf(),
        other.wf(),
        sorted(this, 0, this.key_count() as int),
        sorted(other, 0, other.key_count() as int),
        summable(this, 0, this.key_count() as int, other, 0, other.key_count() as int),
    ensures
        r.wf(),
        sorted(&r, 0, r.key_count() as int),
        forall|p: Seq<u32>|
            #[trigger] range_wt(&r, 0, r.key_count() as int, p) == range_wt(this, 0, this.key_count() as int, p)
                + range_wt(other, 0, other.key_count() as int, p),
{
    let mut result = T::with_capacity(this, other);
    let n1 = this.keys();
    let n2 = other.keys();
    extend_merge(&mut result, (this, 0, n1), (other, 0, n2));
    result
}

/// A path to which a sorted layer gives weight zero has no tuple under any
/// of its keys: a merge that cancels a path leaves no entry for it.
pub proof fn lemma_zero_weight_absent<T: LayerModel>(t: &T, p: Seq<u32>)
    requires
        t.wf(),
        sorted(t, 0, t.key_count() as int),
        range_wt(t, 0, t.key_count() as int, p) == 0,
    ensures
        forall|i: int| 0 <= i < t.key_count() ==> #[trigger] t.weight(i, p) == 0,
{
    assert forall|i: int| 0 <= i < t.key_count() implies #[trigger] t.weight(i, p) == 0 by {
        t.lemma_entry(i);
        if t.weight(i, p) != 0 {
            lemma_range_at(t, 0, t.key_count() as int, i, p);
        }
    }
}

/// The key paths to which the range `[lo, hi)` of `t` gives a non-zero weight.
pub open spec fn support<T: LayerModel>(t: &T, lo: int, hi: int) -> Set<Seq<u32>> {
    Set::new(|p: Seq<u32>| range_wt(t, lo, hi, p) != 0)
}

/// The key paths to which a whole trie gives a non-zero weight.
pub open spec fn paths<T: LayerModel>(t: &T) -> Set<Seq<u32>> {
    support(t, 0, t.key_count() as int)
}

/// A well-formed, sorted trie holds one tuple for each key path that it
/// gives a non-zero weight: its tuple count is fixed by its weights.
pub proof fn lemma_tuple_count<T: TrieStorage>(t: &T)
    requires
        t.wf(),
        sorted(t, 0, t.key_count() as int),
    ensures
        paths(t).finite(),
        t.tuple_count() == paths(t).len(),
{
    t.lemma_tuples_total();
    t.lemma_tuples_support(0, t.key_count() as int);
}

/// A path with non-zero weight in a range lies under one of its keys.
pub proof fn lemma_support_key<T: LayerModel>(t: &T, lo: int, hi: int, p: Seq<u32>)
    requires
        range_wt(t, lo, hi, p) != 0,
    ensures
        p.len() > 0,
        exists|i: int| lo <= i < hi && t.key_at(i) == p[0],
{
}

/// `n` is a power of two.
pub open spec fn is_pow2(n: int) -> bool
    decreases n,
{
    if n <= 1 {
        n == 1
    } else {
        n % 2 == 0 && is_pow2(n / 2)
    }
}

/// Reports the number of leading elements of `slice` that satisfy `function`.
///
/// The predicate must be monotone over the slice: true on a prefix and false
/// after it. The scan probes positions at exponentially growing and then
/// shrinking distances, taking a number of steps logarithmic in the result.
pub fn advance<T, F: Fn(&T) -> bool>(slice: &[T], function: F) -> (r: usize)
    requires
        forall|i: int| 0 <= i < slice@.len() ==> function.requires((&slice@[i],)),
        forall|i: int, j: int|
            0 <= i <= j < slice@.len() && function.ensures((&slice@[j],), true)
                ==> !function.ensures((&slice@[i],), false),
    ensures
        r <= slice@.len(),
        forall|i: int| 0 <= i < r ==> !function.ensures((&slice@[i],), false),
        forall|j: int| r <= j < slice@.len() ==> !function.ensures((&slice@[j],), true),
        r > 0 ==> function.ensures((&slice@[r - 1],), true),
        r < slice@.len() ==> function.ensures((&slice@[r as int],), false),
{
    let mut index: usize = 0;
    if index < slice.len() && function(&slice[index]) {
        // advance in exponentially growing steps.
        let mut step: usize = 1;
        while step < slice.len() - index && function(&slice[index + step])
            invariant
                index + 1 == step,
                index < slice@.len(),
                step <= slice@.len(),
                is_pow2(step as int),
                forall|i: int| 0 <= i < slice@.len() ==> function.requires((&slice@[i],)),
                forall|i: int, j: int|
                    0 <= i <= j < slice@.len() && function.ensures((&slice@[j],), true)
                        ==> !function.ensures((&slice@[i],), false),
                function.ensures((&slice@[index as int],), true),
            decreases slice@.len() - step,
        {
            index = index + step;
            step = step * 2;
            assert(is_pow2(step as int)) by {
                assert((step as int) / 2 == step / 2);
            }
        }
        let ghost mut hi: int = index + step;
        assert(hi < slice@.len() ==> function.ensures((&slice@[hi],), false));
        // advance in exponentially shrinking steps.
        step = step / 2;
        while step > 0
            invariant
                index < hi <= index + slice@.len() + 1,
                index < slice@.len(),
                step == 0 || is_pow2(step as int),
                step == 0 ==> hi == index + 1,
                step > 0 ==> hi == index + 2 * step,
                forall|i: int| 0 <= i < slice@.len() ==> function.requires((&slice@[i],)),
                forall|i: int, j: int|
                    0 <= i <= j < slice@.len() && function.ensures((&slice@[j],), true)
                        ==> !function.ensures((&slice@[i],), false),
                function.ensures((&slice@[index as int],), true),
                forall|j: int| hi <= j < slice@.len() ==> !function.ensures((&slice@[j],), true),
                hi < slice@.len() ==> function.ensures((&slice@[hi],), false),
            decreases step,
        {
            if step < slice.len() - index && function(&slice[index + step]) {
                index = index + step;
            } else {
                proof {
                    hi = index + step;
                }
            }
            step = step / 2;
        }
        index = index + 1;
    }
    index
}

} // verus!
