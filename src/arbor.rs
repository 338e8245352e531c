//! A stack of tries of geometrically decreasing sizes.

use vstd::prelude::*;

use crate::merge::{items_of_cursors, keys_of_cursors, CursorMerger};
use crate::trie::{
    lemma_tuple_count, paths,
    items_nonzero, items_ordered, items_wt, keys_of, merge, range_wt, sorted, Cursor, LayerModel,
    TrieRef, TrieStorage,
};

verus! {

/// The weight that a whole trie gives the key path `p`.
pub open spec fn full_wt<T: LayerModel>(t: T, p: Seq<u32>) -> int {
    range_wt(&t, 0, t.key_count() as int, p)
}

/// The weight that a sequence of tries gives `p`, summed over the tries.
pub open spec fn sum_wt<T: LayerModel>(s: Seq<T>, p: Seq<u32>) -> int
    decreases s.len(),
{
    if s.len() == 0 {
        0
    } else {
        full_wt(s[0], p) + sum_wt(s.drop_first(), p)
    }
}

/// The number of tuples held by a sequence of tries.
pub open spec fn sum_tuples<T: LayerModel>(s: Seq<T>) -> int
    decreases s.len(),
{
    if s.len() == 0 {
        0
    } else {
        s[0].tuple_count() + sum_tuples(s.drop_first())
    }
}

/// Summing over a concatenation sums the parts.
pub proof fn lemma_sum_concat<T: LayerModel>(a: Seq<T>, b: Seq<T>, p: Seq<u32>)
    ensures
        sum_wt(a + b, p) == sum_wt(a, p) + sum_wt(b, p),
    decreases a.len(),
{
    if a.len() > 0 {
        assert((a + b).drop_first() =~= a.drop_first() + b);
        lemma_sum_concat(a.drop_first(), b, p);
    } else {
        assert(a + b =~= b);
    }
}

/// `fin` is the stack that appending `trie` to the stack `old` leaves, with
/// `runs` the successive running tries: the running trie starts as `trie`;
/// while `merges` holds of its tuple count and that of the last trie left
/// on the stack, that trie is taken off and merged into it (the weights of
/// the merge are the sums of the two); then the running trie is pushed.
pub open spec fn merge_chain<T: LayerModel>(
    old: Seq<T>,
    trie: T,
    merges: spec_fn(nat, nat) -> bool,
    runs: Seq<T>,
    fin: Seq<T>,
) -> bool {
    let n = old.len() as int;
    let d = runs.len() - 1;
    &&& 0 <= d <= n
    &&& runs[0] == trie
    &&& forall|i: int|
        0 <= i < d ==> merges(#[trigger] runs[i].tuple_count(), old[n - 1 - i].tuple_count())
            && runs[i + 1].wf() && sorted(&runs[i + 1], 0, runs[i + 1].key_count() as int)
                        && runs[i + 1].tuple_count() == paths(&runs[i + 1]).len()
            && forall|p: Seq<u32>| #[trigger] full_wt(runs[i + 1], p) == full_wt(runs[i], p) + full_wt(old[n - 1 - i], p)
    &&& d == n || !merges(runs[d].tuple_count(), old[n - 1 - d].tuple_count())
    &&& fin == old.subrange(0, n - d).push(runs[d])
}

/// The arbor's rule: merge while the running trie holds more than half the
/// tuples of the last trie.
pub open spec fn more_than_half(running: nat, last: nat) -> bool {
    last / 2 < running
}

/// The arbor's rule as a function.
pub open spec fn arbor_rule() -> spec_fn(nat, nat) -> bool {
    |c: nat, l: nat| more_than_half(c, l)
}

/// `t` is a well-formed, sorted trie that holds exactly the tuples of `items`.
pub open spec fn holds_batch<T: LayerModel>(t: T, items: Seq<T::Item>) -> bool {
    &&& t.wf()
    &&& sorted(&t, 0, t.key_count() as int)
    &&& t.tuple_count() == items.len()
    &&& forall|p: Seq<u32>| #[trigger] full_wt(t, p) == items_wt::<T>(items, p)
}

/// A collection of tuples kept as a stack of tries.
///
/// Each trie holds more than twice the tuples of the next one, so that the
/// stack stays logarithmic in the number of tuples; a trie that arrives
/// within a factor of two of the last one is merged with it.
pub struct Arbor<T: TrieStorage> {
    pub tries: Vec<T>,
}

impl<T: TrieStorage> Arbor<T> {
    /// The tries, from the largest to the smallest.
    pub open spec fn tries(&self) -> Seq<T> {
        self.tries@
    }

    /// The total weight that the tuples of all tries give the key path `p`.
    pub open spec fn weight(&self, p: Seq<u32>) -> int {
        sum_wt(self.tries(), p)
    }

    /// Each trie is well formed and sorted, and holds at most half the
    /// tuples of the trie before it.
    pub open spec fn wf(&self) -> bool {
        &&& forall|i: int|
            0 <= i < self.tries().len() ==> (#[trigger] self.tries()[i]).wf() && sorted(
                &self.tries()[i],
                0,
                self.tries()[i].key_count() as int,
            )
        &&& forall|i: int|
            0 <= i < self.tries().len() - 1 ==> #[trigger] self.tries()[i + 1].tuple_count()
                <= self.tries()[i].tuple_count() / 2
    }

    /// Adding a trie with these weights keeps every weight that a merge can
    /// compute within an `i32`: those of each run of tries at the end of the
    /// stack together with the new trie.
    pub open spec fn can_take(&self, weights: spec_fn(Seq<u32>) -> int) -> bool {
        forall|j: int, p: Seq<u32>|
            0 <= j <= self.tries().len() ==> i32::MIN <= #[trigger] sum_wt(
                self.tries().subrange(j, self.tries().len() as int),
                p,
            ) + weights(p) <= i32::MAX
    }

    /// Allocates a new empty arbor.
    pub fn new() -> (r: Self)
        ensures
            r.wf(),
            r.tries().len() == 0,
            forall|p: Seq<u32>| r.weight(p) == 0,
    {
        Arbor { tries: Vec::new() }
    }

    /// Reports the number of tuples across all tries. Merges cancel no
    /// tuples of tries that are not merged yet, so this may exceed the number
    /// of distinct tuples that `cursor` enumerates.
    pub fn size(&self) -> (r: usize)
        requires
            self.wf(),
            sum_tuples(self.tries()) <= usize::MAX,
        ensures
            r == sum_tuples(self.tries()),
    {
        let mut count: usize = 0;
        let mut i = self.tries.len();
        proof {
            assert(self.tries@.subrange(i as int, i as int).len() == 0);
        }
        while i > 0
            invariant
                i <= self.tries@.len(),
                self.wf(),
                count == sum_tuples(self.tries@.subrange(i as int, self.tries@.len() as int)),
                sum_tuples(self.tries()) <= usize::MAX,
            decreases i,
        {
            let ghost rest = self.tries@.subrange(i as int, self.tries@.len() as int);
            let ghost more = self.tries@.subrange(i - 1, self.tries@.len() as int);
            proof {
                assert(more.drop_first() =~= rest);
                assert(self.tries@ =~= self.tries@.subrange(0, i - 1) + more);
                lemma_tuples_concat(self.tries@.subrange(0, i - 1), more);
                lemma_tuples_nonneg(self.tries@.subrange(0, i - 1));
                lemma_tuples_nonneg(rest);
            }
            count = count + self.tries[i - 1].tuples();
            i = i - 1;
        }
        proof {
            assert(self.tries@.subrange(0, self.tries@.len() as int) =~= self.tries@);
        }
        count
    }

    /// The number of tuples of each trie, from the largest trie to the
    /// smallest.
    pub fn sizes(&self) -> (r: Vec<usize>)
        requires
            self.wf(),
        ensures
            r@.len() == self.tries().len(),
            forall|i: int| 0 <= i < r@.len() ==> #[trigger] r@[i] == self.tries()[i].tuple_count(),
    {
        let mut r: Vec<usize> = Vec::new();
        let mut i: usize = 0;
        while i < self.tries.len()
            invariant
                i <= self.tries@.len(),
                self.wf(),
                r@.len() == i,
                forall|j: int| 0 <= j < i ==> #[trigger] r@[j] == self.tries@[j].tuple_count(),
            decreases self.tries@.len() - i,
        {
            proof {
                assert(self.tries@[i as int] == self.tries()[i as int]);
            }
            r.push(self.tries[i].tuples());
            i = i + 1;
        }
        r
    }

    /// Adds a sequence of tuples, in strictly increasing order, to the
    /// collection.
    pub fn extend_ordered(&mut self, items: Vec<T::Item>)
        requires
            old(self).wf(),
            items_ordered::<T>(items@),
            items_nonzero::<T>(items@),
            old(self).can_take(|p: Seq<u32>| items_wt::<T>(items@, p)),
        ensures
            final(self).wf(),
            forall|p: Seq<u32>| #[trigger] final(self).weight(p) == old(self).weight(p) + items_wt::<T>(items@, p),
            exists|t: T, runs: Seq<T>|
                #![trigger holds_batch::<T>(t, items@), merge_chain(old(self).tries(), t, arbor_rule(), runs, final(self).tries())]
                holds_batch::<T>(t, items@) && merge_chain(old(self).tries(), t, arbor_rule(), runs, final(self).tries()),
    {
        let ghost seq = items@;
        let ghost before = self.tries();
        let trie = T::from_ordered(items);
        proof {
            assert forall|j: int, p: Seq<u32>| 0 <= j <= self.tries().len() implies i32::MIN
                <= #[trigger] sum_wt(self.tries().subrange(j, self.tries().len() as int), p) + full_wt(
                trie,
                p,
            ) <= i32::MAX by {
                assert(full_wt(trie, p) == items_wt::<T>(seq, p));
                assert(i32::MIN <= sum_wt(self.tries().subrange(j, self.tries().len() as int), p)
                    + items_wt::<T>(seq, p) <= i32::MAX);
            }
        }
        self.append(trie);
        proof {
            assert(holds_batch::<T>(trie, seq));
            let runs = choose|runs: Seq<T>| #[trigger] merge_chain(before, trie, arbor_rule(), runs, self.tries());
            assert(holds_batch::<T>(trie, seq) && merge_chain(before, trie, arbor_rule(), runs, self.tries()));
        }
    }

    /// Adds a single tuple to the collection. Each call allocates a trie;
    /// `extend_ordered` and `append` add many tuples at once.
    pub fn push(&mut self, tuple: T::Item)
        requires
            old(self).wf(),
            T::weight_of(tuple) != 0,
            old(self).can_take(|p: Seq<u32>| items_wt::<T>(seq![tuple], p)),
        ensures
            final(self).wf(),
            forall|p: Seq<u32>| #[trigger] final(self).weight(p) == old(self).weight(p) + items_wt::<T>(seq![tuple], p),
            exists|t: T, runs: Seq<T>|
                #![trigger holds_batch::<T>(t, seq![tuple]), merge_chain(old(self).tries(), t, arbor_rule(), runs, final(self).tries())]
                holds_batch::<T>(t, seq![tuple]) && merge_chain(old(self).tries(), t, arbor_rule(), runs, final(self).tries()),
    {
        let mut items: Vec<T::Item> = Vec::new();
        items.push(tuple);
        proof {
            assert(items@ =~= seq![tuple]);
        }
        self.extend_ordered(items);
    }

    /// Provides a merging cursor over the top-level keys of all tries.
    pub fn cursor<'a>(&'a self) -> (r: CursorMerger<<T as TrieRef<'a>>::Cursor>)
        where T: TrieRef<'a>,
        requires
            self.wf(),
        ensures
            r.wf(),
            r.keys_ahead() == Set::new(|k: u32| exists|i: int| 0 <= i < self.tries().len() && #[trigger] keys_of(
                &self.tries()[i],
                0,
                self.tries()[i].key_count() as int,
            ).contains(k)),
            r.items_ahead() == items_of_cursors(
                Seq::new(self.tries().len(), |i: int| self.tries()[i].cursor_at(0, self.tries()[i].key_count() as int)),
            ),
    {
        let mut cursors: Vec<<T as TrieRef<'a>>::Cursor> = Vec::new();
        let mut i: usize = 0;
        while i < self.tries.len()
            invariant
                i <= self.tries@.len(),
                self.wf(),
                cursors@.len() == i,
                forall|j: int| 0 <= j < i ==> (#[trigger] cursors@[j]).wf() && cursors@[j].keys_left()
                    == keys_of(&self.tries@[j], 0, self.tries@[j].key_count() as int) && cursors@[j]
                    == self.tries@[j].cursor_at(0, self.tries@[j].key_count() as int),
            decreases self.tries@.len() - i,
        {
            proof {
                assert(self.tries@[i as int] == self.tries()[i as int]);
            }
            let c = self.tries[i].enumerate();
            cursors.push(c);
            i = i + 1;
        }
        let ghost cs = cursors@;
        let r = CursorMerger::from(cursors);
        proof {
            assert(cs =~= Seq::new(self.tries().len(), |i: int| self.tries()[i].cursor_at(0, self.tries()[i].key_count() as int)));
            assert(r.keys_ahead() =~= Set::new(|k: u32| exists|i: int| 0 <= i < self.tries().len() && #[trigger] keys_of(
                &self.tries()[i],
                0,
                self.tries()[i].key_count() as int,
            ).contains(k))) by {
                assert forall|k: u32| r.keys_ahead().contains(k) implies exists|i: int| 0 <= i < self.tries().len()
                    && #[trigger] keys_of(&self.tries()[i], 0, self.tries()[i].key_count() as int).contains(k) by {
                    let i = choose|i: int| 0 <= i < cs.len() && #[trigger] cs[i].keys_left().contains(k);
                    assert(keys_of(&self.tries()[i], 0, self.tries()[i].key_count() as int).contains(k));
                }
                assert forall|k: u32| (exists|i: int| 0 <= i < self.tries().len()
                    && #[trigger] keys_of(&self.tries()[i], 0, self.tries()[i].key_count() as int).contains(k))
                    implies r.keys_ahead().contains(k) by {
                    let i = choose|i: int| 0 <= i < self.tries().len()
                        && #[trigger] keys_of(&self.tries()[i], 0, self.tries()[i].key_count() as int).contains(k);
                    assert(cs[i].keys_left().contains(k));
                }
            }
        }
        r
    }

    /// Adds an entire trie into the collection, merging it with the tries at
    /// the end of the stack while it holds more than half the tuples of the
    /// last one.
    pub fn append(&mut self, trie: T)
        requires
            old(self).wf(),
            trie.wf(),
            sorted(&trie, 0, trie.key_count() as int),
            old(self).can_take(|p: Seq<u32>| full_wt(trie, p)),
        ensures
            final(self).wf(),
            forall|p: Seq<u32>| #[trigger] final(self).weight(p) == old(self).weight(p) + full_wt(trie, p),
            final(self).tries().len() <= old(self).tries().len() + 1,
            exists|runs: Seq<T>| #[trigger] merge_chain(old(self).tries(), trie, arbor_rule(), runs, final(self).tries()),
    {
        let ghost all = self.tries@;
        let ghost n = all.len() as int;
        let mut current = trie;
        let ghost mut runs: Seq<T> = seq![trie];
        proof {
            assert(self.tries@.subrange(0, n) =~= self.tries@);
            assert forall|p: Seq<u32>| #[trigger] full_wt(current, p) == sum_wt(all.subrange(n, n), p)
                + full_wt(trie, p) by {
                assert(all.subrange(n, n).len() == 0);
            }
        }
        while self.tries.len() > 0 && current.tuples() > self.tries[self.tries.len() - 1].tuples() / 2
            invariant
                self.tries@.len() <= n,
                n == all.len(),
                self.tries@ == all.subrange(0, self.tries@.len() as int),
                old(self).wf(),
                all == old(self).tries(),
                old(self).can_take(|p: Seq<u32>| full_wt(trie, p)),
                current.wf(),
                sorted(&current, 0, current.key_count() as int),
                forall|p: Seq<u32>| #[trigger] full_wt(current, p) == sum_wt(
                    all.subrange(self.tries@.len() as int, n),
                    p,
                ) + full_wt(trie, p),
                runs.len() == n - self.tries@.len() + 1,
                runs[0] == trie,
                runs.last() == current,
                forall|i: int|
                    0 <= i < runs.len() - 1 ==> more_than_half(#[trigger] runs[i].tuple_count(), all[n - 1 - i].tuple_count())
                        && runs[i + 1].wf() && sorted(&runs[i + 1], 0, runs[i + 1].key_count() as int)
                        && runs[i + 1].tuple_count() == paths(&runs[i + 1]).len()
                        && forall|p: Seq<u32>| #[trigger] full_wt(runs[i + 1], p) == full_wt(runs[i], p) + full_wt(all[n - 1 - i], p),
            decreases self.tries@.len(),
        {
            let ghost m = self.tries@.len() as int;
            let other = self.tries.pop().unwrap();
            proof {
                assert(other == all[m - 1]);
                assert(all.subrange(m - 1, n).drop_first() =~= all.subrange(m, n));
                assert(all.subrange(m - 1, n)[0] == other);
                assert forall|p: Seq<u32>| #[trigger] full_wt(current, p) + full_wt(other, p)
                    == sum_wt(all.subrange(m - 1, n), p) + full_wt(trie, p) by {}
                assert forall|p: Seq<u32>|
                    i32::MIN <= #[trigger] range_wt(&current, 0, current.key_count() as int, p)
                        + range_wt(&other, 0, other.key_count() as int, p) <= i32::MAX by {
                    assert(i32::MIN <= sum_wt(
                        old(self).tries().subrange(m - 1, old(self).tries().len() as int),
                        p,
                    ) + full_wt(trie, p) <= i32::MAX);
                    assert(full_wt(current, p) + full_wt(other, p) == sum_wt(all.subrange(m - 1, n), p)
                        + full_wt(trie, p));
                }
                assert(self.tries@ =~= all.subrange(0, m - 1));
            }
            let ghost prev = current;
            current = merge(&current, &other);
            proof {
                lemma_tuple_count(&current);
                assert forall|p: Seq<u32>| #[trigger] full_wt(current, p) == sum_wt(
                    all.subrange(m - 1, n),
                    p,
                ) + full_wt(trie, p) by {
                    assert(full_wt(prev, p) + full_wt(other, p) == sum_wt(all.subrange(m - 1, n), p)
                        + full_wt(trie, p));
                    assert(range_wt(&current, 0, current.key_count() as int, p) == range_wt(&prev, 0, prev.key_count() as int, p)
                        + range_wt(&other, 0, other.key_count() as int, p));
                }
                let old_runs = runs;
                runs = runs.push(current);
                assert forall|i: int|
                    0 <= i < runs.len() - 1 implies more_than_half(#[trigger] runs[i].tuple_count(), all[n - 1 - i].tuple_count())
                        && runs[i + 1].wf() && sorted(&runs[i + 1], 0, runs[i + 1].key_count() as int)
                        && runs[i + 1].tuple_count() == paths(&runs[i + 1]).len()
                        && forall|p: Seq<u32>| #[trigger] full_wt(runs[i + 1], p) == full_wt(runs[i], p) + full_wt(all[n - 1 - i], p) by {
                    assert(runs[i] == old_runs[i]);
                    if i < old_runs.len() - 1 {
                        assert(runs[i + 1] == old_runs[i + 1]);
                    } else {
                        assert(i == n - m);
                        assert(runs[i] == prev);
                        assert(all[n - 1 - i] == other);
                        assert forall|p: Seq<u32>| #[trigger] full_wt(runs[i + 1], p) == full_wt(runs[i], p) + full_wt(all[n - 1 - i], p) by {
                            assert(range_wt(&current, 0, current.key_count() as int, p) == range_wt(&prev, 0, prev.key_count() as int, p)
                                + range_wt(&other, 0, other.key_count() as int, p));
                        }
                    }
                }
            }
        }
        let ghost len = self.tries@.len() as int;
        self.tries.push(current);
        proof {
            let t = self.tries@;
            let rule = arbor_rule();
            assert(t =~= all.subrange(0, n - (runs.len() - 1)).push(runs[runs.len() - 1]));
            assert forall|i: int|
                0 <= i < runs.len() - 1 implies rule(#[trigger] runs[i].tuple_count(), all[n - 1 - i].tuple_count())
                    && runs[i + 1].wf() && sorted(&runs[i + 1], 0, runs[i + 1].key_count() as int)
                        && runs[i + 1].tuple_count() == paths(&runs[i + 1]).len()
                    && forall|p: Seq<u32>| #[trigger] full_wt(runs[i + 1], p) == full_wt(runs[i], p) + full_wt(all[n - 1 - i], p) by {}
            assert(merge_chain(all, trie, rule, runs, self.tries()));
            assert(t =~= all.subrange(0, len).push(current));
            assert forall|i: int| 0 <= i < t.len() implies (#[trigger] t[i]).wf() && sorted(
                &t[i],
                0,
                t[i].key_count() as int,
            ) by {
                if i < len {
                    assert(t[i] == all[i]);
                }
            }
            assert forall|i: int| 0 <= i < t.len() - 1 implies #[trigger] t[i + 1].tuple_count()
                <= t[i].tuple_count() / 2 by {
                if i + 1 < len {
                    assert(t[i] == all[i] && t[i + 1] == all[i + 1]);
                }
            }
            assert forall|p: Seq<u32>| #[trigger] self.weight(p) == old(self).weight(p) + full_wt(
                trie,
                p,
            ) by {
                assert(all =~= all.subrange(0, len) + all.subrange(len, n));
                lemma_sum_concat(all.subrange(0, len), all.subrange(len, n), p);
                assert(t =~= all.subrange(0, len) + seq![current]);
                lemma_sum_concat(all.subrange(0, len), seq![current], p);
                assert(seq![current].drop_first() =~= Seq::<T>::empty());
                assert(seq![current][0] == current);
                assert(sum_wt(seq![current].drop_first(), p) == 0);
                assert(sum_wt(seq![current], p) == full_wt(current, p));
                assert(full_wt(current, p) == sum_wt(all.subrange(len, n), p) + full_wt(trie, p));
                assert(old(self).weight(p) == sum_wt(all, p));
                assert(self.weight(p) == sum_wt(t, p));
            }
        }
    }
}

/// The weight that a sequence of batches gives the path `p`, summed over
/// the batches.
pub open spec fn batches_wt<T: LayerModel>(batches: Seq<Seq<T::Item>>, p: Seq<u32>) -> int
    decreases batches.len(),
{
    if batches.len() == 0 {
        0
    } else {
        batches_wt::<T>(batches.drop_last(), p) + items_wt::<T>(batches.last(), p)
    }
}

/// Faithful representation: after a run of `extend_ordered` calls on an
/// empty arbor, passing through `states`, each path carries the sum of the
/// weights that the batches gave it.
pub proof fn lemma_batches_accumulate<T: TrieStorage>(
    states: Seq<Arbor<T>>,
    batches: Seq<Seq<T::Item>>,
    p: Seq<u32>,
)
    requires
        states.len() == batches.len() + 1,
        states[0].tries().len() == 0,
        forall|i: int, q: Seq<u32>|
            0 <= i < batches.len() ==> #[trigger] states[i + 1].weight(q) == states[i].weight(q)
                + items_wt::<T>(batches[i], q),
    ensures
        states.last().weight(p) == batches_wt::<T>(batches, p),
    decreases batches.len(),
{
    if batches.len() == 0 {
        assert(states[0].weight(p) == sum_wt(states[0].tries(), p));
    } else {
        let n = batches.len() as int;
        let s0 = states.drop_last();
        let b0 = batches.drop_last();
        assert forall|i: int, q: Seq<u32>| 0 <= i < b0.len() implies #[trigger] s0[i + 1].weight(q)
            == s0[i].weight(q) + items_wt::<T>(b0[i], q) by {
            assert(s0[i + 1] == states[i + 1] && s0[i] == states[i] && b0[i] == batches[i]);
        }
        lemma_batches_accumulate(s0, b0, p);
        assert(states[n].weight(p) == states[n - 1].weight(p) + items_wt::<T>(batches[n - 1], p));
    }
}

/// Merge cancellation: a tuple inserted with weight `+1` in one batch and
/// `-1` in a later one leaves the path with the weight it had before.
pub proof fn lemma_cancellation<T: TrieStorage>(
    s0: Arbor<T>,
    s1: Arbor<T>,
    s2: Arbor<T>,
    b1: Seq<T::Item>,
    b2: Seq<T::Item>,
    p: Seq<u32>,
)
    requires
        forall|q: Seq<u32>| #[trigger] s1.weight(q) == s0.weight(q) + items_wt::<T>(b1, q),
        forall|q: Seq<u32>| #[trigger] s2.weight(q) == s1.weight(q) + items_wt::<T>(b2, q),
        items_wt::<T>(b1, p) == 1,
        items_wt::<T>(b2, p) == -1,
    ensures
        s2.weight(p) == s0.weight(p),
{
    assert(s1.weight(p) == s0.weight(p) + 1);
}

/// Size invariant: each trie of a well-formed arbor holds at most half the
/// tuples of the trie before it.
pub proof fn lemma_size_invariant<T: TrieStorage>(a: Arbor<T>, i: int)
    requires
        a.wf(),
        0 <= i < a.tries().len() - 1,
    ensures
        a.tries()[i + 1].tuple_count() <= a.tries()[i].tuple_count() / 2,
{
}

/// The tuple count of a concatenation is the sum of those of the parts.
pub proof fn lemma_tuples_concat<T: LayerModel>(a: Seq<T>, b: Seq<T>)
    ensures
        sum_tuples(a + b) == sum_tuples(a) + sum_tuples(b),
    decreases a.len(),
{
    if a.len() > 0 {
        assert((a + b).drop_first() =~= a.drop_first() + b);
        lemma_tuples_concat(a.drop_first(), b);
    } else {
        assert(a + b =~= b);
    }
}

/// Tuple counts are not negative.
pub proof fn lemma_tuples_nonneg<T: LayerModel>(a: Seq<T>)
    ensures
        sum_tuples(a) >= 0,
    decreases a.len(),
{
    if a.len() > 0 {
        lemma_tuples_nonneg(a.drop_first());
    }
}

} // verus!
