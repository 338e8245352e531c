//! A trie layer wrapped around an inner layer.

use vstd::prelude::*;

use vstd::relations::injective_on;
use vstd::set_lib::{lemma_map_size, lemma_set_disjoint_lens};
use vstd::slice::slice_subrange;

use crate::trie::{
    lemma_support_key, support, keys_of, Cursor, TrieRef, advance, extend_merge, lemma_range_bounded, lemma_range_outside, lemma_range_single, lemma_range_split, lemma_range_copy, lemma_range_nonempty, range_wt, sorted, LayerModel,
    TrieStorage,
};

verus! {

/// A layer of a trie wrapped around another layer.
///
/// `keys` holds `(key, end)` pairs: the tuples under key number `i` are those
/// under the inner keys `start(i) .. end`, where `start(i)` is the end of the
/// preceding key, or zero for the first.
pub struct TrieLayer<L> {
    pub keys: Vec<(u32, usize)>,
    pub vals: L,
}

impl<L: TrieStorage> TrieLayer<L> {
    /// Where the inner range of key number `i` starts.
    pub open spec fn start(&self, i: int) -> int {
        if i == 0 {
            0
        } else {
            self.keys@[i - 1].1 as int
        }
    }

    /// Where the inner range of key number `i` ends.
    pub open spec fn end(&self, i: int) -> int {
        self.keys@[i].1 as int
    }


    /// What `extend_trie` leaves: the keys `lower .. upper` of `other` appended
    /// with their ends moved from base `ob` of `other` to base `sb`.
    pub proof fn lemma_extend_trie(
        old_self: &Self,
        new_self: &Self,
        other: &Self,
        lower: int,
        upper: int,
        ob: int,
        sb: int,
    )
        requires
            old_self.wf(),
            other.wf(),
            0 <= lower < upper <= other.keys@.len(),
            lower == 0 ==> ob == 0,
            lower > 0 ==> ob == other.keys@[lower - 1].1,
            sb == old_self.vals.key_count(),
            new_self.vals.wf(),
            new_self.vals.key_count() == sb + (other.keys@[upper - 1].1 - ob),
            forall|x: int| 0 <= x < sb ==> #[trigger] new_self.vals.key_at(x) == old_self.vals.key_at(x),
            forall|x: int, q: Seq<u32>|
                0 <= x < sb ==> #[trigger] new_self.vals.weight(x, q) == old_self.vals.weight(x, q),
            forall|x: int|
                sb <= x < new_self.vals.key_count() ==> #[trigger] new_self.vals.key_at(x)
                    == other.vals.key_at(x - sb + ob),
            forall|x: int, q: Seq<u32>|
                sb <= x < new_self.vals.key_count() ==> #[trigger] new_self.vals.weight(x, q)
                    == other.vals.weight(x - sb + ob, q),
            new_self.keys@.len() == old_self.keys@.len() + (upper - lower),
            forall|i: int| 0 <= i < old_self.keys@.len() ==> #[trigger] new_self.keys@[i] == old_self.keys@[i],
            forall|i: int|
                #![trigger new_self.keys@[i]]
                old_self.keys@.len() <= i < new_self.keys@.len() ==> new_self.keys@[i].0
                    == other.keys@[i - old_self.keys@.len() + lower].0 && new_self.keys@[i].1
                    == other.keys@[i - old_self.keys@.len() + lower].1 - ob + sb,
        ensures
            new_self.wf(),
            forall|i: int, p: Seq<u32>|
                0 <= i < old_self.keys@.len() ==> #[trigger] new_self.weight(i, p) == old_self.weight(i, p),
            forall|i: int, p: Seq<u32>|
                old_self.keys@.len() <= i < new_self.keys@.len() ==> #[trigger] new_self.weight(i, p)
                    == other.weight(i - old_self.keys@.len() + lower, p),
    {
        let old_len = old_self.keys@.len() as int;
        let other_end = other.keys@[upper - 1].1 as int;
        assert(ob < other_end) by {
            if lower > 0 {
                assert(other.keys@[lower - 1].1 < other.keys@[lower].1);
            }
            if lower < upper - 1 {
                assert(other.keys@[lower].1 < other.keys@[upper - 1].1);
            }
        }
                                    let new_len = new_self.keys@.len() as int;
        // the old ends stay below the new ones
        assert forall|i: int, j: int| 0 <= i < j < new_len implies new_self.keys@[i].1
            < new_self.keys@[j].1 by {
            if j >= old_len {
                let oj = j - old_len + lower;
                assert(other.keys@[oj].1 > ob) by {
                    if lower > 0 && oj > lower - 1 {
                        assert(other.keys@[lower - 1].1 < other.keys@[oj].1);
                    }
                }
                if i >= old_len {
                    let oi = i - old_len + lower;
                    assert(other.keys@[oi].1 < other.keys@[oj].1);
                } else {
                    assert(new_self.keys@[i].1 <= old_self.vals.key_count()) by {
                        if i < old_len - 1 {
                            assert(old_self.keys@[i].1 < old_self.keys@[old_len - 1].1);
                        }
                    }
                }
            } else {
                assert(old_self.keys@[i].1 < old_self.keys@[j].1);
            }
        }
        if new_len > 0 {
            assert(new_self.keys@[0].1 > 0) by {
                if old_len == 0 {
                    assert(other.keys@[lower as int].1 > ob) by {
                        if lower > 0 {
                            assert(other.keys@[lower - 1].1 < other.keys@[lower as int].1);
                        }
                    }
                } else {
                    assert(old_self.keys@[0].1 > 0);
                }
            }
        }
        // groups of the old keys lie below `(sb as usize)`, where the inner
        // layer did not change
        assert forall|i: int| 0 <= i < old_len implies new_self.start(i) >= 0 && new_self.end(i)
            <= sb && new_self.start(i) == old_self.start(i) && new_self.end(i) == old_self.end(i) by {
            if i < old_len - 1 {
                assert(old_self.keys@[i].1 < old_self.keys@[old_len - 1].1);
            }
            if i > 0 {
                assert(old_self.keys@[i - 1].1 < old_self.keys@[i].1);
            }
        }
        // each new group is a shifted copy of a group of `other`
        assert forall|i: int| old_len <= i < new_len implies new_self.start(i) - sb == other.start(
            i - old_len + lower,
        ) - ob && new_self.end(i) - sb == other.end(i - old_len + lower) - ob && ob <= other.start(
            i - old_len + lower,
        ) && other.end(i - old_len + lower) <= other_end by {
            let oi = i - old_len + lower;
            if i > old_len {
                assert(new_self.keys@[i - 1].1 == other.keys@[(i - 1) - old_len + lower].1 - ob + sb);
                assert(other.keys@[(i - 1) - old_len + lower].1 > ob) by {
                    if lower > 0 {
                        assert(other.keys@[lower - 1].1 < other.keys@[(i - 1) - old_len + lower].1);
                    }
                }
            } else if old_len > 0 {
                assert(old_self.keys@.last().1 == old_self.vals.key_count());
            }
            if oi > lower {
                assert(other.keys@[lower as int].1 <= other.keys@[oi - 1].1) by {
                    if oi - 1 > lower {
                        assert(other.keys@[lower as int].1 < other.keys@[oi - 1].1);
                    }
                }
                if lower > 0 {
                    assert(other.keys@[lower - 1].1 < other.keys@[lower as int].1);
                }
            }
            if oi < upper - 1 {
                assert(other.keys@[oi].1 < other.keys@[upper - 1].1);
            }
        }
        assert forall|i: int| 0 <= i < new_len implies sorted(
            &new_self.vals,
            new_self.start(i),
            #[trigger] new_self.end(i),
        ) by {
            if i < old_len {
                assert(sorted(&old_self.vals, old_self.start(i), old_self.end(i)));
            } else {
                let oi = i - old_len + lower;
                assert(sorted(&other.vals, other.start(oi), other.end(oi)));
                assert forall|x: int, y: int|
                    new_self.start(i) <= x < y < new_self.end(i) implies new_self.vals.key_at(x)
                    < new_self.vals.key_at(y) by {
                    assert(new_self.vals.key_at(x) == other.vals.key_at(x - sb + ob));
                    assert(new_self.vals.key_at(y) == other.vals.key_at(y - sb + ob));
                }
            }
        }
        assert(new_self.wf());
        assert forall|i: int, p: Seq<u32>| 0 <= i < old_len implies #[trigger] new_self.weight(i, p)
            == old_self.weight(i, p) by {
            if p.len() > 0 && p[0] == new_self.keys@[i].0 {
                let s0 = new_self.start(i);
                let n = new_self.end(i) - s0;
                assert forall|x: int| 0 <= x < n implies #[trigger] new_self.vals.key_at(s0 + x)
                    == old_self.vals.key_at(s0 + x) by {}
                lemma_range_copy(&new_self.vals, s0, &old_self.vals, s0, n);
                assert(range_wt(&new_self.vals, s0, s0 + n, p.drop_first()) == range_wt(
                    &old_self.vals,
                    s0,
                    s0 + n,
                    p.drop_first(),
                ));
            }
        }
        assert forall|i: int, p: Seq<u32>| old_len <= i < new_len implies #[trigger] new_self.weight(
            i,
            p,
        ) == other.weight(i - old_len + lower, p) by {
            let oi = i - old_len + lower;
            if p.len() > 0 && p[0] == new_self.keys@[i].0 {
                let s0 = new_self.start(i);
                let n = new_self.end(i) - s0;
                let o0 = other.start(oi);
                assert forall|x: int| 0 <= x < n implies #[trigger] new_self.vals.key_at(s0 + x)
                    == other.vals.key_at(o0 + x) by {
                    assert(new_self.vals.key_at(s0 + x) == other.vals.key_at(s0 + x - sb + ob));
                }
                assert forall|x: int, q: Seq<u32>| 0 <= x < n implies #[trigger] new_self.vals.weight(
                    s0 + x,
                    q,
                ) == other.vals.weight(o0 + x, q) by {
                    assert(new_self.vals.weight(s0 + x, q) == other.vals.weight(s0 + x - sb + ob, q));
                }
                lemma_range_copy(&new_self.vals, s0, &other.vals, o0, n);
                assert(range_wt(&new_self.vals, s0, s0 + n, p.drop_first()) == range_wt(
                    &other.vals,
                    o0,
                    o0 + n,
                    p.drop_first(),
                ));
            }
        }
        
    }

    /// The inner ranges of keys `a .. b` lie in order within the inner layer.
    pub proof fn lemma_bounds(t: &Self, a: int, b: int)
        requires
            t.wf(),
            0 <= a <= b < t.keys@.len(),
        ensures
            0 <= t.start(a) < t.end(a) <= t.end(b) <= t.vals.key_count(),
    {
        if a > 0 {
            assert(t.keys@[a - 1].1 < t.keys@[a].1);
        }
        if a < b {
            assert(t.keys@[a].1 < t.keys@[b].1);
        }
        if b < t.keys@.len() - 1 {
            assert(t.keys@[b].1 < t.keys@[t.keys@.len() - 1].1);
        }
    }

    /// Keys `0 .. n` of a layer whose inner layer changed only from `m` on,
    /// where their groups end, keep their groups and weights.
    pub proof fn lemma_keep_groups(old_self: &Self, new_self: &Self, n: int, m: int)
        requires
            old_self.wf(),
            0 <= n <= old_self.keys@.len(),
            n <= new_self.keys@.len(),
            forall|i: int| 0 <= i < n ==> #[trigger] new_self.keys@[i] == old_self.keys@[i],
            n > 0 ==> old_self.keys@[n - 1].1 <= m,
            m <= old_self.vals.key_count(),
            m <= new_self.vals.key_count(),
            forall|x: int| 0 <= x < m ==> #[trigger] new_self.vals.key_at(x) == old_self.vals.key_at(x),
            forall|x: int, q: Seq<u32>|
                0 <= x < m ==> #[trigger] new_self.vals.weight(x, q) == old_self.vals.weight(x, q),
        ensures
            forall|i: int|
                0 <= i < n ==> 0 <= #[trigger] new_self.start(i) < new_self.end(i) <= m
                    && new_self.start(i) == old_self.start(i) && new_self.end(i) == old_self.end(i)
                    && sorted(&new_self.vals, new_self.start(i), new_self.end(i)),
            forall|i: int, p: Seq<u32>|
                0 <= i < n ==> #[trigger] new_self.weight(i, p) == old_self.weight(i, p),
    {
        assert forall|i: int|
            0 <= i < n implies 0 <= #[trigger] new_self.start(i) < new_self.end(i) <= m
                && new_self.start(i) == old_self.start(i) && new_self.end(i) == old_self.end(i)
                && sorted(&new_self.vals, new_self.start(i), new_self.end(i)) by {
            if i > 0 {
                assert(old_self.keys@[i - 1].1 < old_self.keys@[i].1);
                assert(new_self.keys@[i - 1] == old_self.keys@[i - 1]);
            }
            if i < n - 1 {
                assert(old_self.keys@[i].1 < old_self.keys@[n - 1].1);
            }
            assert(sorted(&old_self.vals, old_self.start(i), old_self.end(i)));
        }
        assert forall|i: int, p: Seq<u32>| 0 <= i < n implies #[trigger] new_self.weight(i, p)
            == old_self.weight(i, p) by {
            if p.len() > 0 && p[0] == new_self.keys@[i].0 {
                let s0 = new_self.start(i);
                let len = new_self.end(i) - s0;
                assert(0 <= s0 && s0 + len <= m);
                assert forall|x: int| 0 <= x < len implies #[trigger] new_self.vals.key_at(s0 + x)
                    == old_self.vals.key_at(s0 + x) by {}
                lemma_range_copy(&new_self.vals, s0, &old_self.vals, s0, len);
                assert(range_wt(&new_self.vals, s0, s0 + len, p.drop_first()) == range_wt(
                    &old_self.vals,
                    s0,
                    s0 + len,
                    p.drop_first(),
                ));
            }
        }
    }
}

impl<L: TrieStorage> LayerModel for TrieLayer<L> {
    type Item = (u32, L::Item);

    open spec fn key_count(&self) -> nat {
        self.keys@.len()
    }

    open spec fn key_at(&self, i: int) -> u32 {
        self.keys@[i].0
    }

    open spec fn weight(&self, i: int, p: Seq<u32>) -> int {
        if p.len() > 0 && p[0] == self.keys@[i].0 {
            range_wt(&self.vals, self.start(i), self.end(i), p.drop_first())
        } else {
            0
        }
    }

    open spec fn tuple_count(&self) -> nat {
        self.vals.tuple_count()
    }

    open spec fn range_tuples(&self, lo: int, hi: int) -> int {
        if lo < hi {
            self.vals.range_tuples(self.start(lo), self.end(hi - 1))
        } else {
            0
        }
    }

    open spec fn wf(&self) -> bool {
        &&& self.vals.wf()
        &&& self.keys@.len() == 0 ==> self.vals.key_count() == 0
        &&& self.keys@.len() > 0 ==> self.keys@.last().1 == self.vals.key_count()
        &&& forall|i: int, j: int|
            0 <= i < j < self.keys@.len() ==> self.keys@[i].1 < self.keys@[j].1
        &&& self.keys@.len() > 0 ==> self.keys@[0].1 > 0
        &&& forall|i: int|
            0 <= i < self.keys@.len() ==> sorted(&self.vals, self.start(i), #[trigger] self.end(i))
    }

    open spec fn path_of(item: (u32, L::Item)) -> Seq<u32> {
        seq![item.0] + L::path_of(item.1)
    }

    open spec fn weight_of(item: (u32, L::Item)) -> int {
        L::weight_of(item.1)
    }

    open spec fn head_of(item: (u32, L::Item)) -> u32 {
        item.0
    }

    open spec fn item_lt(a: (u32, L::Item), b: (u32, L::Item)) -> bool {
        a.0 < b.0 || (a.0 == b.0 && L::item_lt(a.1, b.1))
    }

    open spec fn follows(&self, item: (u32, L::Item)) -> bool {
        self.keys@.len() == 0 || self.keys@.last().0 < item.0 || (self.keys@.last().0 == item.0
            && self.vals.follows(item.1))
    }

    open spec fn same_prefix(&self, other: &Self, n: int) -> bool {
        &&& n <= self.keys@.len()
        &&& n <= other.keys@.len()
        &&& forall|i: int| 0 <= i < n ==> #[trigger] self.keys@[i] == other.keys@[i]
    }

    proof fn lemma_prefix_trans(a: &Self, b: &Self, c: &Self, n: int, m: int) {
    }

    proof fn lemma_prefix_refl(a: &Self, n: int) {
    }

    proof fn lemma_item(item: (u32, L::Item)) {
    }

    proof fn lemma_entry(&self, i: int) {
        assert(self.start(i) < self.end(i)) by {
            if i > 0 {
                assert(self.keys@[i - 1].1 < self.keys@[i].1);
            }
        }
        assert(self.end(i) <= self.vals.key_count()) by {
            if i < self.keys@.len() - 1 {
                assert(self.keys@[i].1 < self.keys@[self.keys@.len() - 1].1);
            }
        }
        lemma_range_bounded(&self.vals, self.start(i), self.end(i));
        assert forall|p: Seq<u32>| i32::MIN <= #[trigger] self.weight(i, p) <= i32::MAX by {
            if p.len() > 0 && p[0] == self.keys@[i].0 {
                assert(i32::MIN <= range_wt(&self.vals, self.start(i), self.end(i), p.drop_first())
                    <= i32::MAX);
            }
        }
        assert(sorted(&self.vals, self.start(i), self.end(i)));
        lemma_range_nonempty(&self.vals, self.start(i), self.end(i));
        let q = choose|q: Seq<u32>| #[trigger] range_wt(&self.vals, self.start(i), self.end(i), q) != 0;
        let p = seq![self.keys@[i].0] + q;
        assert(p.drop_first() =~= q);
        assert(self.weight(i, p) != 0);
    }
}

/// Trie offset invariant: in a well-formed, sorted trie layer the keys
/// strictly increase, the end offsets do not decrease, and the last end is
/// the number of inner keys.
pub proof fn lemma_offsets<L: TrieStorage>(t: TrieLayer<L>)
    requires
        t.wf(),
        sorted(&t, 0, t.key_count() as int),
    ensures
        forall|i: int, j: int| 0 <= i < j < t.keys@.len() ==> t.keys@[i].0 < t.keys@[j].0,
        forall|i: int, j: int| 0 <= i < j < t.keys@.len() ==> t.keys@[i].1 <= t.keys@[j].1,
        t.keys@.len() > 0 ==> t.keys@[t.keys@.len() - 1].1 == t.vals.key_count(),
{
    assert forall|i: int, j: int| 0 <= i < j < t.keys@.len() implies t.keys@[i].0 < t.keys@[j].0 by {
        assert(t.key_at(i) < t.key_at(j));
    }
}

/// Appends to `keys` the entries `lower .. upper` of `src`, each end moved
/// from base `ob` to base `sb`; `total` bounds the moved ends.
fn push_shifted(
    keys: &mut Vec<(u32, usize)>,
    src: &Vec<(u32, usize)>,
    lower: usize,
    upper: usize,
    ob: usize,
    sb: usize,
    total: usize,
)
    requires
        lower < upper <= src@.len(),
        forall|i: int, j: int| 0 <= i < j < src@.len() ==> src@[i].1 < src@[j].1,
        lower > 0 ==> ob == src@[lower - 1].1,
        lower == 0 ==> ob == 0,
        lower == 0 ==> src@[0].1 > 0,
        total == sb + (src@[upper - 1].1 - ob),
    ensures
        final(keys)@.len() == old(keys)@.len() + (upper - lower),
        forall|i: int| 0 <= i < old(keys)@.len() ==> #[trigger] final(keys)@[i] == old(keys)@[i],
        forall|i: int|
            #![trigger final(keys)@[i]]
            old(keys)@.len() <= i < final(keys)@.len() ==> final(keys)@[i].0 == src@[i
                - old(keys)@.len() + lower].0 && final(keys)@[i].1 == src@[i - old(keys)@.len()
                + lower].1 - ob + sb,
{
    let mut k = lower;
    while k < upper
        invariant
            lower <= k <= upper <= src@.len(),
            forall|i: int, j: int| 0 <= i < j < src@.len() ==> src@[i].1 < src@[j].1,
            lower > 0 ==> ob == src@[lower - 1].1,
            lower == 0 ==> ob == 0,
            lower == 0 ==> src@[0].1 > 0,
            total == sb + (src@[upper - 1].1 - ob),
            keys@.len() == old(keys)@.len() + (k - lower),
            forall|i: int| 0 <= i < old(keys)@.len() ==> #[trigger] keys@[i] == old(keys)@[i],
            forall|i: int|
                #![trigger keys@[i]]
                old(keys)@.len() <= i < keys@.len() ==> keys@[i].0 == src@[i - old(keys)@.len()
                    + lower].0 && keys@[i].1 == src@[i - old(keys)@.len() + lower].1 - ob + sb,
        decreases upper - k,
    {
        proof {
            if lower > 0 {
                assert(src@[lower - 1].1 < src@[k as int].1);
            } else if k > 0 {
                assert(src@[0].1 < src@[k as int].1);
            }
            if k < upper - 1 {
                assert(src@[k as int].1 < src@[upper - 1].1);
            }
        }
        let end = src[k].1;
        keys.push((src[k].0, end - ob + sb));
        assert(keys@[keys@.len() - 1].0 == src@[(keys@.len() - 1) - old(keys)@.len() + lower].0);
        k = k + 1;
    }
}

impl<L: TrieStorage> TrieStorage for TrieLayer<L> {
    proof fn lemma_tuples_total(&self) {
        self.vals.lemma_tuples_total();
        if self.keys@.len() == 0 {
            self.vals.lemma_tuples_split(0, 0, 0);
        }
    }

    proof fn lemma_tuples_split(&self, a: int, b: int, c: int) {
        if a < b && b < c {
            Self::lemma_bounds(self, a, b - 1);
            Self::lemma_bounds(self, b, c - 1);
            self.vals.lemma_tuples_split(self.start(a), self.end(b - 1), self.end(c - 1));
            assert(self.start(b) == self.end(b - 1));
        }
    }

    proof fn lemma_tuples_support(&self, lo: int, hi: int)
        decreases hi - lo,
    {
        if hi == lo {
            assert(support(self, lo, hi) =~= Set::<Seq<u32>>::empty());
        } else {
            let h = hi - 1;
            self.lemma_tuples_support(lo, h);
            let k = self.keys@[h].0;
            Self::lemma_bounds(self, h, h);
            assert(sorted(&self.vals, self.start(h), self.end(h)));
            self.vals.lemma_tuples_support(self.start(h), self.end(h));
            let inner = support(&self.vals, self.start(h), self.end(h));
            let f = |q: Seq<u32>| seq![k] + q;
            let here = inner.map(f);
            assert(injective_on(f, inner)) by {
                assert forall|q1: Seq<u32>, q2: Seq<u32>|
                    inner.contains(q1) && inner.contains(q2) && #[trigger] f(q1) == #[trigger] f(q2) implies q1 == q2 by {
                    assert(f(q1).drop_first() =~= q1);
                    assert(f(q2).drop_first() =~= q2);
                }
            }
            lemma_map_size(inner, here, f);
            lemma_range_split(self, lo, h, hi);
            lemma_range_single(self, h);
            assert(support(self, lo, hi) =~= support(self, lo, h) + here) by {
                assert forall|p: Seq<u32>| support(self, lo, hi).contains(p) implies (support(self, lo, h) + here).contains(p) by {
                    if range_wt(self, lo, h, p) == 0 {
                        assert(self.weight(h, p) != 0);
                        assert(p.len() > 0 && p[0] == k);
                        assert(p =~= f(p.drop_first()));
                        assert(inner.contains(p.drop_first()));
                    }
                }
                assert forall|p: Seq<u32>| (support(self, lo, h) + here).contains(p) implies support(self, lo, hi).contains(p) by {
                    if here.contains(p) {
                        let q = choose|q: Seq<u32>| inner.contains(q) && f(q) == p;
                        assert(p.drop_first() =~= q);
                        assert(forall|x: int| lo <= x < h ==> self.key_at(x) < self.key_at(h));
                        lemma_range_outside(self, lo, h, p);
                    } else {
                        lemma_support_key(self, lo, h, p);
                        let x = choose|x: int| lo <= x < h && self.key_at(x) == p[0];
                        assert(self.key_at(x) < self.key_at(h));
                        assert(self.weight(h, p) == 0);
                    }
                }
            }
            assert(support(self, lo, h).disjoint(here)) by {
                assert forall|p: Seq<u32>| support(self, lo, h).contains(p) implies !here.contains(p) by {
                    lemma_support_key(self, lo, h, p);
                    let x = choose|x: int| lo <= x < h && self.key_at(x) == p[0];
                    assert(self.key_at(x) < self.key_at(h));
                    if here.contains(p) {
                        let q = choose|q: Seq<u32>| inner.contains(q) && f(q) == p;
                        assert(p[0] == k);
                    }
                }
            }
            lemma_set_disjoint_lens(support(self, lo, h), here);
            if lo < h {
                self.lemma_tuples_split(lo, h, hi);
                assert(self.range_tuples(h, hi) == self.vals.range_tuples(self.start(h), self.end(h)));
            }
        }
    }

    fn new() -> (r: Self) {
        TrieLayer { keys: Vec::new(), vals: L::new() }
    }

    fn with_capacity(other1: &Self, other2: &Self) -> (r: Self) {
        TrieLayer {
            keys: Vec::with_capacity(other1.keys.len().saturating_add(other2.keys.len())),
            vals: L::with_capacity(&other1.vals, &other2.vals),
        }
    }

    fn keys(&self) -> (r: usize) {
        self.keys.len()
    }

    fn tuples(&self) -> (r: usize) {
        self.vals.tuples()
    }

    fn key(&self, i: usize) -> (r: u32) {
        self.keys[i].0
    }

    fn extend_trie(&mut self, other: &Self, lower: usize, upper: usize)
        ensures
            forall|i: int|
                #![trigger final(self).keys@[i]]
                old(self).keys@.len() <= i < final(self).keys@.len() ==> final(self).keys@[i].0
                    == other.keys@[i - old(self).keys@.len() + lower].0 && final(self).keys@[i].1
                    == other.keys@[i - old(self).keys@.len() + lower].1 - other.start(lower as int)
                    + old(self).vals.key_count(),
            final(self).vals.key_count() == old(self).vals.key_count() + other.end(upper - 1) - other.start(lower as int),
    {
        let ghost old_self = *self;
        let ghost old_len = self.keys@.len() as int;
        proof {
            if lower > 0 {
                assert(other.keys@[lower - 1].1 < other.keys@[lower as int].1);
            }
            if lower < upper - 1 {
                assert(other.keys@[lower as int].1 < other.keys@[upper - 1].1);
            }
            if upper < other.keys@.len() {
                assert(other.keys@[upper - 1].1 < other.keys@[other.keys@.len() - 1].1);
            }
        }
        let other_basis = if lower == 0 {
            0
        } else {
            other.keys[lower - 1].1
        };
        let other_end = other.keys[upper - 1].1;
        let self_basis = self.vals.keys();
        self.vals.extend_trie(&other.vals, other_basis, other_end);
        let new_count = self.vals.keys();
        push_shifted(&mut self.keys, &other.keys, lower, upper, other_basis, self_basis, new_count);
        proof {
            Self::lemma_extend_trie(&old_self, self, other, lower as int, upper as int, other_basis as int, self_basis as int);
        }
    }

    fn count_below(&self, lower: usize, upper: usize, bound: u32) -> (r: usize) {
        let rest = slice_subrange(self.keys.as_slice(), lower + 1, upper);
        let below = |x: &(u32, usize)| -> (b: bool) ensures b == (bound > x.0) { bound > x.0 };
        proof {
            assert forall|i: int, j: int|
                0 <= i <= j < rest@.len() && below.ensures((&rest@[j],), true) implies !below.ensures(
                (&rest@[i],),
                false,
            ) by {
                assert(rest@[i] == self.keys@[lower + 1 + i]);
                assert(rest@[j] == self.keys@[lower + 1 + j]);
                if i < j {
                    assert(self.key_at(lower + 1 + i) < self.key_at(lower + 1 + j));
                }
            }
        }
        let n = advance(rest, below);
        proof {
            if n > 0 {
                assert(rest@[n - 1] == self.keys@[lower + n]);
                assert(self.keys@[lower + n].0 < bound);
            }
            assert forall|i: int| lower <= i < lower + 1 + n implies self.key_at(i) < bound by {
                if i > lower {
                    assert(self.key_at(i) <= self.key_at(lower + n as int));
                }
            }
            if lower + 1 + n < upper {
                assert(rest@[n as int] == self.keys@[lower + 1 + n]);
            }
        }
        1 + n
    }

    fn push_merged(&mut self, a: &Self, i: usize, b: &Self, j: usize) {
        let ghost old_self = *self;
        let ghost key = a.keys@[i as int].0;
        proof {
            a.lemma_entry(i as int);
            b.lemma_entry(j as int);
            assert(a.start(i as int) < a.end(i as int) <= a.vals.key_count()) by {
                if i > 0 {
                    assert(a.keys@[i - 1].1 < a.keys@[i as int].1);
                }
                if i < a.keys@.len() - 1 {
                    assert(a.keys@[i as int].1 < a.keys@[a.keys@.len() - 1].1);
                }
            }
            assert(b.start(j as int) < b.end(j as int) <= b.vals.key_count()) by {
                if j > 0 {
                    assert(b.keys@[j - 1].1 < b.keys@[j as int].1);
                }
                if j < b.keys@.len() - 1 {
                    assert(b.keys@[j as int].1 < b.keys@[b.keys@.len() - 1].1);
                }
            }
            assert(sorted(&a.vals, a.start(i as int), a.end(i as int)));
            assert(sorted(&b.vals, b.start(j as int), b.end(j as int)));
            assert forall|q: Seq<u32>|
                i32::MIN <= #[trigger] range_wt(&a.vals, a.start(i as int), a.end(i as int), q)
                    + range_wt(&b.vals, b.start(j as int), b.end(j as int), q) <= i32::MAX by {
                let p = seq![key] + q;
                assert(p.drop_first() =~= q);
                assert(i32::MIN <= a.weight(i as int, p) + b.weight(j as int, p) <= i32::MAX);
            }
        }
        let a_lo = if i == 0 {
            0
        } else {
            a.keys[i - 1].1
        };
        let b_lo = if j == 0 {
            0
        } else {
            b.keys[j - 1].1
        };
        let v_len = self.vals.keys();
        extend_merge(&mut self.vals, (&a.vals, a_lo, a.keys[i].1), (&b.vals, b_lo, b.keys[j].1));
        let n = self.vals.keys();
        if n > v_len {
            self.keys.push((a.keys[i].0, n));
        }
        proof {
            let old_len = old_self.keys@.len() as int;
            Self::lemma_keep_groups(&old_self, self, old_len, v_len as int);
            if n > v_len {
                let new_len = self.keys@.len() as int;
                assert(self.start(old_len) == v_len) by {
                    if old_len > 0 {
                        assert(old_self.keys@.last().1 == old_self.vals.key_count());
                    }
                }
                assert forall|x: int, y: int| 0 <= x < y < new_len implies self.keys@[x].1
                    < self.keys@[y].1 by {
                    if y < old_len {
                        assert(old_self.keys@[x].1 < old_self.keys@[y].1);
                    }
                }
                assert forall|p: Seq<u32>| #[trigger] self.weight(old_len, p) == a.weight(i as int, p)
                    + b.weight(j as int, p) by {
                    if p.len() > 0 && p[0] == key {
                        assert(range_wt(&self.vals, v_len as int, n as int, p.drop_first()) == range_wt(
                            &a.vals,
                            a.start(i as int),
                            a.end(i as int),
                            p.drop_first(),
                        ) + range_wt(&b.vals, b.start(j as int), b.end(j as int), p.drop_first()));
                    }
                }
                assert(self.wf());
            } else {
                assert forall|p: Seq<u32>| #[trigger] a.weight(i as int, p) + b.weight(j as int, p)
                    == 0 by {
                    if p.len() > 0 && p[0] == key {
                        assert(range_wt(&self.vals, v_len as int, n as int, p.drop_first()) == range_wt(
                            &a.vals,
                            a.start(i as int),
                            a.end(i as int),
                            p.drop_first(),
                        ) + range_wt(&b.vals, b.start(j as int), b.end(j as int), p.drop_first()));
                    }
                }
                assert(self.wf());
            }
        }
    }
    fn extend_tuple(&mut self, tuple: (u32, L::Item), is_new: bool)
        ensures
            final(self).keys@.last() == (tuple.0, final(self).vals.key_count() as usize),
    {
        let ghost old_self = *self;
        let ghost old_len = self.keys@.len() as int;
        let ghost kc = self.vals.key_count() as int;
        let (key, inner) = tuple;
        let len = self.keys.len();
        let open = is_new || len == 0 || self.keys[len - 1].0 != key;
        proof {
            L::lemma_item(inner);
            if old_len > 0 {
                assert(old_self.keys@.last().1 == kc);
                assert(old_self.start(old_len - 1) < kc) by {
                    if old_len > 1 {
                        assert(old_self.keys@[old_len - 2].1 < old_self.keys@[old_len - 1].1);
                    }
                }
            }
        }
        self.vals.extend_tuple(inner, open);
        let n = self.vals.keys();
        if open {
            self.keys.push((key, n));
        } else {
            self.keys.set(len - 1, (key, n));
        }
        proof {
            let path = Self::path_of(tuple);
            assert(path.drop_first() =~= L::path_of(inner));
            let new_len = self.keys@.len() as int;
            if open {
                Self::lemma_keep_groups(&old_self, self, old_len, kc);
                assert(self.start(old_len) == kc);
                assert forall|x: int, y: int| 0 <= x < y < new_len implies self.keys@[x].1
                    < self.keys@[y].1 by {
                    if y < old_len {
                        assert(old_self.keys@[x].1 < old_self.keys@[y].1);
                    } else if x < old_len - 1 {
                        assert(old_self.keys@[x].1 < old_self.keys@[old_len - 1].1);
                    }
                }
                lemma_range_single(&self.vals, kc);
                assert forall|p: Seq<u32>| #[trigger] self.weight(old_len, p) == if p == path {
                    L::weight_of(inner)
                } else {
                    0
                } by {
                    if p.len() > 0 && p[0] == key {
                        if p.drop_first() == L::path_of(inner) {
                            assert(p =~= path);
                        } else {
                            assert(p != path);
                        }
                    } else {
                        assert(p != path);
                    }
                }
                assert(self.wf());
            } else {
                let last = old_len - 1;
                let s0 = old_self.start(last);
                Self::lemma_keep_groups(&old_self, self, last, s0);
                assert(self.start(last) == s0) by {
                    if last > 0 {
                        assert(self.keys@[last - 1] == old_self.keys@[last - 1]);
                    }
                }
                assert(old_self.end(last) == kc);
                assert(sorted(&old_self.vals, s0, kc));
                assert forall|x: int, y: int| 0 <= x < y < new_len implies self.keys@[x].1
                    < self.keys@[y].1 by {
                    if y < last {
                        assert(old_self.keys@[x].1 < old_self.keys@[y].1);
                    } else if x < last - 1 {
                        assert(old_self.keys@[x].1 < old_self.keys@[last - 1].1);
                    }
                }
                if n == kc {
                    // the last inner key took the tuple
                    assert forall|x: int, y: int| s0 <= x < y < kc implies self.vals.key_at(x)
                        < self.vals.key_at(y) by {
                        assert(old_self.vals.key_at(x) < old_self.vals.key_at(y));
                    }
                    lemma_range_split(&self.vals, s0, kc - 1, kc);
                    lemma_range_split(&old_self.vals, s0, kc - 1, kc);
                    lemma_range_single(&self.vals, kc - 1);
                    lemma_range_single(&old_self.vals, kc - 1);
                    assert forall|x: int| 0 <= x < kc - 1 - s0 implies #[trigger] self.vals.key_at(
                        s0 + x,
                    ) == old_self.vals.key_at(s0 + x) by {}
                    lemma_range_copy(&self.vals, s0, &old_self.vals, s0, kc - 1 - s0);
                    assert forall|p: Seq<u32>| #[trigger] self.weight(last, p) == if p == path {
                        L::weight_of(inner)
                    } else {
                        old_self.weight(last, p)
                    } by {
                        if p.len() > 0 && p[0] == key {
                            let q = p.drop_first();
                            assert(range_wt(&self.vals, s0, s0 + (kc - 1 - s0), q) == range_wt(&old_self.vals, s0, s0 + (kc - 1 - s0), q));
                            assert(range_wt(&self.vals, s0, kc - 1, q) == range_wt(&old_self.vals, s0, kc - 1, q));
                            assert(self.end(last) == kc);
                            assert(old_self.end(last) == kc);
                            if q == L::path_of(inner) {
                                assert(p =~= path);
                                assert forall|x: int| s0 <= x < kc - 1 implies old_self.vals.key_at(x)
                                    != q[0] by {
                                    assert(old_self.vals.key_at(x) < old_self.vals.key_at(kc - 1));
                                }
                                lemma_range_outside(&old_self.vals, s0, kc - 1, q);
                                assert(self.vals.weight(kc - 1, q) == L::weight_of(inner));
                            } else {
                                assert(p != path);
                                assert(self.vals.weight(kc - 1, q) == old_self.vals.weight(kc - 1, q));
                            }
                            assert(range_wt(&self.vals, kc - 1, (kc - 1) + 1, q) == self.vals.weight(kc - 1, q));
                            assert(range_wt(&self.vals, s0, kc, q) == range_wt(&self.vals, s0, kc - 1, q) + self.vals.weight(kc - 1, q));
                            assert(range_wt(&old_self.vals, s0, kc, q) == range_wt(&old_self.vals, s0, kc - 1, q) + old_self.vals.weight(kc - 1, q));
                            assert(self.weight(last, p) == range_wt(&self.vals, s0, kc, q));
                            assert(old_self.weight(last, p) == range_wt(&old_self.vals, s0, kc, q));
                        } else {
                            assert(p != path);
                        }
                    }
                } else {
                    // a new inner key opened the tuple's place
                    assert forall|x: int, y: int| s0 <= x < y < n implies self.vals.key_at(x)
                        < self.vals.key_at(y) by {
                        if y < kc {
                            assert(old_self.vals.key_at(x) < old_self.vals.key_at(y));
                        } else if x < kc - 1 {
                            assert(old_self.vals.key_at(x) < old_self.vals.key_at(kc - 1));
                        }
                    }
                    lemma_range_split(&self.vals, s0, kc, kc + 1);
                    lemma_range_single(&self.vals, kc);
                    assert forall|x: int| 0 <= x < kc - s0 implies #[trigger] self.vals.key_at(
                        s0 + x,
                    ) == old_self.vals.key_at(s0 + x) by {}
                    lemma_range_copy(&self.vals, s0, &old_self.vals, s0, kc - s0);
                    assert forall|p: Seq<u32>| #[trigger] self.weight(last, p) == if p == path {
                        L::weight_of(inner)
                    } else {
                        old_self.weight(last, p)
                    } by {
                        if p.len() > 0 && p[0] == key {
                            let q = p.drop_first();
                            assert(range_wt(&self.vals, s0, s0 + (kc - s0), q) == range_wt(&old_self.vals, s0, s0 + (kc - s0), q));
                            assert(range_wt(&self.vals, s0, kc, q) == range_wt(&old_self.vals, s0, kc, q));
                            if q == L::path_of(inner) {
                                assert(p =~= path);
                                assert forall|x: int| s0 <= x < kc implies old_self.vals.key_at(x)
                                    != q[0] by {
                                    if x < kc - 1 {
                                        assert(old_self.vals.key_at(x) < old_self.vals.key_at(kc - 1));
                                    }
                                }
                                lemma_range_outside(&old_self.vals, s0, kc, q);
                            } else {
                                assert(p != path);
                            }
                        } else {
                            assert(p != path);
                        }
                    }
                }
                assert(self.wf());
            }
        }
    }
}

impl<'a, L: TrieStorage + TrieRef<'a>> TrieRef<'a> for TrieLayer<L> {
    type Cursor = TrieCursor<'a, L>;

    open spec fn cursor_at(&'a self, lower: int, upper: int) -> TrieCursor<'a, L> {
        TrieCursor { index: lower as usize, upper: upper as usize, layer: self }
    }

    proof fn lemma_cursor_at(&'a self, lower: int, upper: int) {
        let c = self.cursor_at(lower, upper);
        assert(c.keys_left() =~= keys_of(self, lower, upper));
    }

    fn keys_cnt(&self) -> (r: usize) {
        self.keys.len()
    }

    fn cursor(&'a self, lower: usize, upper: usize) -> (r: TrieCursor<'a, L>) {
        TrieCursor::new(self, lower, upper)
    }
}

/// A cursor over a range of the keys of a trie layer. Each item carries a
/// cursor over the inner keys under its key.
pub struct TrieCursor<'a, L> {
    pub index: usize,
    pub upper: usize,
    pub layer: &'a TrieLayer<L>,
}

impl<'a, L: TrieStorage + TrieRef<'a>> TrieCursor<'a, L> {
    /// A cursor over the keys `lower .. upper` of `layer`.
    pub fn new(layer: &'a TrieLayer<L>, lower: usize, upper: usize) -> (r: TrieCursor<'a, L>)
        requires
            layer.wf(),
            lower <= upper <= layer.key_count(),
            sorted(layer, lower as int, upper as int),
        ensures
            r == layer.cursor_at(lower as int, upper as int),
            r.wf(),
            r.keys_left() == keys_of(layer, lower as int, upper as int),
    {
        let r = TrieCursor { index: lower, upper, layer };
        assert(r.keys_left() =~= keys_of(layer, lower as int, upper as int));
        r
    }
}

impl<'a, L: TrieStorage + TrieRef<'a>> Cursor for TrieCursor<'a, L> {
    type Val = <L as TrieRef<'a>>::Cursor;

    open spec fn keys_left(&self) -> Seq<u32> {
        Seq::new((self.upper - self.index) as nat, |i: int| self.layer.keys@[self.index + i].0)
    }

    open spec fn vals_left(&self) -> Seq<<L as TrieRef<'a>>::Cursor> {
        Seq::new(
            (self.upper - self.index) as nat,
            |i: int|
                self.layer.vals.cursor_at(
                    self.layer.start(self.index + i),
                    self.layer.end(self.index + i),
                ),
        )
    }

    open spec fn wf(&self) -> bool {
        &&& self.index <= self.upper <= self.layer.keys@.len()
        &&& self.layer.wf()
        &&& sorted(self.layer, self.index as int, self.upper as int)
    }

    proof fn lemma_increasing(&self) {
        assert forall|i: int, j: int| 0 <= i < j < self.keys_left().len() implies self.keys_left()[i]
            < self.keys_left()[j] by {
            assert(self.layer.key_at(self.index + i) < self.layer.key_at(self.index + j));
        }
    }

    fn next(&mut self) -> (r: Option<(u32, <L as TrieRef<'a>>::Cursor)>)
        ensures
            old(self).index < old(self).upper ==> final(self).index == old(self).index + 1,
            old(self).index >= old(self).upper ==> final(self).index == old(self).index,
            final(self).upper == old(self).upper,
            final(self).layer == old(self).layer,
    {
        if self.index < self.upper {
            let current = self.index;
            self.index = self.index + 1;
            proof {
                self.layer.lemma_entry(current as int);
                if current > 0 {
                    assert(self.layer.keys@[current - 1].1 < self.layer.keys@[current as int].1);
                }
                if current < self.layer.keys@.len() - 1 {
                    assert(self.layer.keys@[current as int].1 < self.layer.keys@[self.layer.keys@.len() - 1].1);
                }
                assert(sorted(&self.layer.vals, self.layer.start(current as int), self.layer.end(current as int)));
            }
            let v_lower = if current == 0 {
                0
            } else {
                self.layer.keys[current - 1].1
            };
            let v_upper = self.layer.keys[current].1;
            let inner = self.layer.vals.cursor(v_lower, v_upper);
            assert(self.keys_left() =~= old(self).keys_left().drop_first());
            assert(self.vals_left() =~= old(self).vals_left().drop_first());
            Some((self.layer.keys[current].0, inner))
        } else {
            None
        }
    }

    fn seek(&mut self, key: u32)
        ensures
            old(self).index <= final(self).index,
            final(self).index == old(self).index + (old(self).keys_left().len() - final(self).keys_left().len()),
            final(self).upper == old(self).upper,
            final(self).layer == old(self).layer,
    {
        let rest = slice_subrange(self.layer.keys.as_slice(), self.index, self.upper);
        let below = |x: &(u32, usize)| -> (b: bool) ensures b == (key > x.0) { key > x.0 };
        proof {
            assert forall|i: int, j: int|
                0 <= i <= j < rest@.len() && below.ensures((&rest@[j],), true) implies !below.ensures(
                (&rest@[i],),
                false,
            ) by {
                assert(rest@[i] == self.layer.keys@[self.index + i]);
                assert(rest@[j] == self.layer.keys@[self.index + j]);
                if i < j {
                    assert(self.layer.key_at(self.index + i) < self.layer.key_at(self.index + j));
                }
            }
        }
        let n = advance(rest, below);
        let ghost old_index = self.index as int;
        proof {
            if n > 0 {
                assert(rest@[n - 1] == self.layer.keys@[old_index + n - 1]);
            }
            if n < rest@.len() {
                assert(rest@[n as int] == self.layer.keys@[old_index + n]);
            }
        }
        self.index = self.index + n;
        proof {
            assert(self.keys_left() =~= old(self).keys_left().subrange(
                n as int,
                old(self).keys_left().len() as int,
            ));
            assert(self.vals_left() =~= old(self).vals_left().subrange(
                n as int,
                old(self).keys_left().len() as int,
            ));
            assert forall|j: int| 0 <= j < n implies old(self).keys_left()[j] < key by {
                if j < n - 1 {
                    assert(self.layer.key_at(old_index + j) < self.layer.key_at(old_index + n - 1));
                }
            }
        }
    }

    fn peek(&self) -> (r: Option<u32>) {
        if self.index < self.upper {
            Some(self.layer.keys[self.index].0)
        } else {
            None
        }
    }

    fn size(&self) -> (r: usize) {
        self.upper - self.index
    }
}

} // verus!
