//! The leaf layer: a vector of `(key, weight)` pairs.

use vstd::prelude::*;
use vstd::slice::slice_subrange;

use crate::trie::{
    advance, increasing, keys_of, lemma_range_outside, lemma_range_single, lemma_range_split, range_wt, sorted,
    support, Cursor, LayerModel, TrieRef, TrieStorage,
};

verus! {

impl LayerModel for Vec<(u32, i32)> {
    type Item = (u32, i32);

    open spec fn key_count(&self) -> nat {
        self@.len()
    }

    open spec fn key_at(&self, i: int) -> u32 {
        self@[i].0
    }

    open spec fn weight(&self, i: int, p: Seq<u32>) -> int {
        if p == seq![self@[i].0] {
            self@[i].1 as int
        } else {
            0
        }
    }

    open spec fn tuple_count(&self) -> nat {
        self@.len()
    }

    open spec fn range_tuples(&self, lo: int, hi: int) -> int {
        hi - lo
    }

    open spec fn wf(&self) -> bool {
        forall|i: int| 0 <= i < self@.len() ==> #[trigger] self@[i].1 != 0
    }

    open spec fn path_of(item: (u32, i32)) -> Seq<u32> {
        seq![item.0]
    }

    open spec fn weight_of(item: (u32, i32)) -> int {
        item.1 as int
    }

    open spec fn head_of(item: (u32, i32)) -> u32 {
        item.0
    }

    open spec fn item_lt(a: (u32, i32), b: (u32, i32)) -> bool {
        a.0 < b.0
    }

    open spec fn follows(&self, item: (u32, i32)) -> bool {
        self@.len() == 0 || self@.last().0 < item.0
    }

    open spec fn same_prefix(&self, other: &Self, n: int) -> bool {
        &&& n <= self@.len()
        &&& n <= other@.len()
        &&& forall|i: int| 0 <= i < n ==> #[trigger] self@[i] == other@[i]
    }

    proof fn lemma_prefix_trans(a: &Self, b: &Self, c: &Self, n: int, m: int) {
    }

    proof fn lemma_prefix_refl(a: &Self, n: int) {
    }

    proof fn lemma_item(item: (u32, i32)) {
    }

    proof fn lemma_entry(&self, i: int) {
        assert(self.weight(i, seq![self@[i].0]) != 0);
    }
}

impl TrieStorage for Vec<(u32, i32)> {
    proof fn lemma_tuples_total(&self) {
    }

    proof fn lemma_tuples_split(&self, a: int, b: int, c: int) {
    }

    proof fn lemma_tuples_support(&self, lo: int, hi: int)
        decreases hi - lo,
    {
        if hi == lo {
            assert(support(self, lo, hi) =~= Set::<Seq<u32>>::empty());
        } else {
            let h = hi - 1;
            self.lemma_tuples_support(lo, h);
            let k = self@[h].0;
            let p0 = seq![k];
            lemma_range_split(self, lo, h, hi);
            lemma_range_single(self, h);
            assert forall|x: int| lo <= x < h implies self.key_at(x) != p0[0] by {
                assert(self.key_at(x) < self.key_at(h));
            }
            lemma_range_outside(self, lo, h, p0);
            assert(support(self, lo, hi) =~= support(self, lo, h).insert(p0)) by {
                assert forall|p: Seq<u32>| support(self, lo, hi).contains(p) implies support(self, lo, h).insert(p0).contains(p) by {
                    if p != p0 {
                        assert(self.weight(h, p) == 0);
                    }
                }
                assert(range_wt(self, h, h + 1, p0) == self@[h].1);
            }
            assert(!support(self, lo, h).contains(p0));
        }
    }

    fn new() -> (r: Self) {
        Vec::new()
    }

    fn with_capacity(other1: &Self, other2: &Self) -> (r: Self) {
        Vec::with_capacity(other1.len().saturating_add(other2.len()))
    }

    fn keys(&self) -> (r: usize) {
        self.len()
    }

    fn tuples(&self) -> (r: usize) {
        self.len()
    }

    fn key(&self, i: usize) -> (r: u32) {
        self[i].0
    }

    fn extend_trie(&mut self, other: &Self, lower: usize, upper: usize) {
        let ghost start = self@;
        let mut i = lower;
        while i < upper
            invariant
                lower <= i <= upper <= other@.len(),
                other.wf(),
                self@.len() == start.len() + (i - lower),
                forall|k: int| 0 <= k < start.len() ==> #[trigger] self@[k] == start[k],
                forall|k: int|
                    start.len() <= k < self@.len() ==> #[trigger] self@[k] == other@[k - start.len()
                        + lower],
                forall|k: int| 0 <= k < start.len() ==> #[trigger] start[k].1 != 0,
            decreases upper - i,
        {
            self.push(other[i]);
            i = i + 1;
        }
    }

    fn count_below(&self, lower: usize, upper: usize, bound: u32) -> (r: usize) {
        let rest = slice_subrange(self.as_slice(), lower + 1, upper);
        let below = |x: &(u32, i32)| -> (b: bool) ensures b == (bound > x.0) { bound > x.0 };
        proof {
            assert forall|i: int, j: int|
                0 <= i <= j < rest@.len() && below.ensures((&rest@[j],), true) implies !below.ensures(
                (&rest@[i],),
                false,
            ) by {
                assert(rest@[i] == self@[lower + 1 + i]);
                assert(rest@[j] == self@[lower + 1 + j]);
                if i < j {
                    assert(self.key_at(lower + 1 + i) < self.key_at(lower + 1 + j));
                }
            }
        }
        let n = advance(rest, below);
        proof {
            if n > 0 {
                assert(rest@[n - 1] == self@[lower + n]);
                assert(self@[lower + n].0 < bound);
            }
            assert forall|i: int| lower <= i < lower + 1 + n implies self.key_at(i) < bound by {
                if i > lower {
                    assert(self.key_at(i) <= self.key_at(lower + n as int));
                }
            }
            if lower + 1 + n < upper {
                assert(rest@[n as int] == self@[lower + 1 + n]);
            }
        }
        1 + n
    }

    fn push_merged(&mut self, a: &Self, i: usize, b: &Self, j: usize) {
        proof {
            let p = seq![a@[i as int].0];
            assert(a.weight(i as int, p) + b.weight(j as int, p) == a@[i as int].1 + b@[j as int].1);
        }
        let count = a[i].1 + b[j].1;
        if count != 0 {
            self.push((a[i].0, count));
        }
    }

    fn extend_tuple(&mut self, tuple: (u32, i32), is_new: bool) {
        self.push(tuple);
    }
}

impl<'a> TrieRef<'a> for Vec<(u32, i32)> {
    type Cursor = SliceCursor<'a>;

    open spec fn cursor_at(&'a self, lower: int, upper: int) -> SliceCursor<'a> {
        SliceCursor { index: lower as usize, upper: upper as usize, data: self }
    }

    proof fn lemma_cursor_at(&'a self, lower: int, upper: int) {
        let c = self.cursor_at(lower, upper);
        assert(c.keys_left() =~= keys_of(self, lower, upper));
        assert forall|i: int, j: int| lower <= i < j < upper implies self@[i].0 < self@[j].0 by {
            assert(self.key_at(i) < self.key_at(j));
        }
    }

    fn keys_cnt(&self) -> (r: usize) {
        self.len()
    }

    fn cursor(&'a self, lower: usize, upper: usize) -> (r: SliceCursor<'a>) {
        let r = SliceCursor { index: lower, upper, data: self };
        proof {
            self.lemma_cursor_at(lower as int, upper as int);
        }
        r
    }
}

/// A cursor over a range of a vector of `(key, weight)` pairs sorted by key.
#[derive(Clone, Copy)]
pub struct SliceCursor<'a> {
    pub index: usize,
    pub upper: usize,
    pub data: &'a Vec<(u32, i32)>,
}

impl<'a> SliceCursor<'a> {
    /// A cursor over all of `data`, whose keys strictly increase.
    pub fn new(data: &'a Vec<(u32, i32)>) -> (r: SliceCursor<'a>)
        requires
            forall|i: int, j: int| 0 <= i < j < data@.len() ==> data@[i].0 < data@[j].0,
        ensures
            r.wf(),
            r.keys_left() == Seq::new(data@.len(), |i: int| data@[i].0),
            r.vals_left() == Seq::new(data@.len(), |i: int| data@[i].1),
    {
        let r = SliceCursor { index: 0, upper: data.len(), data };
        assert(r.keys_left() =~= Seq::new(data@.len(), |i: int| data@[i].0));
        assert(r.vals_left() =~= Seq::new(data@.len(), |i: int| data@[i].1));
        r
    }
}

impl<'a> Cursor for SliceCursor<'a> {
    type Val = i32;

    open spec fn keys_left(&self) -> Seq<u32> {
        Seq::new((self.upper - self.index) as nat, |i: int| self.data@[self.index + i].0)
    }

    open spec fn vals_left(&self) -> Seq<i32> {
        Seq::new((self.upper - self.index) as nat, |i: int| self.data@[self.index + i].1)
    }

    open spec fn wf(&self) -> bool {
        &&& self.index <= self.upper <= self.data@.len()
        &&& forall|i: int, j: int|
            self.index <= i < j < self.upper ==> self.data@[i].0 < self.data@[j].0
    }

    proof fn lemma_increasing(&self) {
    }

    fn next(&mut self) -> (r: Option<(u32, i32)>)
        ensures
            old(self).index < old(self).upper ==> final(self).index == old(self).index + 1,
            old(self).index >= old(self).upper ==> final(self).index == old(self).index,
            final(self).upper == old(self).upper,
            final(self).data == old(self).data,
    {
        if self.index < self.upper {
            let result = (self.data[self.index].0, self.data[self.index].1);
            self.index = self.index + 1;
            assert(self.keys_left() =~= old(self).keys_left().drop_first());
            assert(self.vals_left() =~= old(self).vals_left().drop_first());
            Some(result)
        } else {
            None
        }
    }

    fn seek(&mut self, key: u32)
        ensures
            old(self).index <= final(self).index,
            final(self).index == old(self).index + (old(self).keys_left().len() - final(self).keys_left().len()),
            final(self).upper == old(self).upper,
            final(self).data == old(self).data,
    {
        let rest = slice_subrange(self.data.as_slice(), self.index, self.upper);
        let below = |x: &(u32, i32)| -> (b: bool) ensures b == (key > x.0) { key > x.0 };
        proof {
            assert forall|i: int, j: int|
                0 <= i <= j < rest@.len() && below.ensures((&rest@[j],), true) implies !below.ensures(
                (&rest@[i],),
                false,
            ) by {
                assert(rest@[i] == self.data@[self.index + i]);
                assert(rest@[j] == self.data@[self.index + j]);
            }
        }
        let n = advance(rest, below);
        let ghost old_index = self.index as int;
        proof {
            if n > 0 {
                assert(rest@[n - 1] == self.data@[old_index + n - 1]);
            }
            if n < rest@.len() {
                assert(rest@[n as int] == self.data@[old_index + n]);
            }
        }
        self.index = self.index + n;
        proof {
            let len = (self.upper - old_index) as int;
            assert(self.keys_left() =~= old(self).keys_left().subrange(n as int, len));
            assert(self.vals_left() =~= old(self).vals_left().subrange(n as int, len));
            assert forall|j: int| 0 <= j < n implies old(self).keys_left()[j] < key by {
                assert(old(self).keys_left()[j] == self.data@[old_index + j].0);
                if j < n - 1 {
                    assert(self.data@[old_index + j].0 < self.data@[old_index + n - 1].0);
                }
            }
        }
    }

    fn peek(&self) -> (r: Option<u32>) {
        if self.index < self.upper {
            Some(self.data[self.index].0)
        } else {
            None
        }
    }

    fn size(&self) -> (r: usize) {
        self.upper - self.index
    }
}

} // verus!
