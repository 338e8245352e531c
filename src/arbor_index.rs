//! A stack of tries with a hash index from top-level keys to the places of
//! their ranges in the tries.

use vstd::multiset::Multiset;
use vstd::prelude::*;

use crate::arbor::{merge_chain, holds_batch, full_wt, lemma_sum_concat, lemma_tuples_concat, lemma_tuples_nonneg, sum_tuples, sum_wt};
use crate::layer::{TrieCursor, TrieLayer};
use crate::merge::{items_left, items_of_cursors, CursorMerger};
use crate::trie::{
    lemma_tuple_count, paths,
    items_nonzero, items_ordered, items_wt, keys_of, merge, range_wt, sorted, Cursor, LayerModel, TrieRef,
    TrieStorage,
};

verus! {

/// Where one top-level key sits: trie number `index`, key number `offset`
/// in it, and the slot of the spill vector that holds the next place of the
/// same key, in an older trie.
#[derive(Clone, Copy)]
pub struct KeyLocation {
    pub index: usize,
    pub offset: usize,
    pub next: Option<usize>,
}

impl KeyLocation {
    pub fn new(index: usize, offset: usize, next: Option<usize>) -> (r: KeyLocation)
        ensures
            r.index == index,
            r.offset == offset,
            r.next == next,
    {
        KeyLocation { index, offset, next }
    }

    /// The location as a plain triple.
    pub open spec fn triple(self) -> (usize, usize, Option<usize>) {
        (self.index, self.offset, self.next)
    }
}

/// What the key index maps each key to: the place of the key in the newest
/// trie that holds it.
pub uninterp spec fn index_contents(ix: KeyIndex) -> Map<u32, (usize, usize, Option<usize>)>;

/// A hash map from top-level keys to their newest place, hashed with FNV.
#[verifier::external_body]
pub struct KeyIndex {
    map: fnv::FnvHashMap<u32, (usize, usize, Option<usize>)>,
}

impl KeyIndex {
    /// Relies on `Default` for `HashMap` with fnv's `FnvBuildHasher`: a new
    /// map is empty.
    #[verifier::external_body]
    pub(crate) fn new() -> (r: KeyIndex)
        ensures
            index_contents(r).dom() == Set::<u32>::empty(),
    {
        KeyIndex { map: fnv::FnvHashMap::default() }
    }

    /// Relies on `HashMap::get`: the value stored under `k`, if any.
    #[verifier::external_body]
    pub(crate) fn get(&self, k: u32) -> (r: Option<(usize, usize, Option<usize>)>)
        ensures
            index_contents(*self).contains_key(k) ==> r == Some(index_contents(*self)[k]),
            !index_contents(*self).contains_key(k) ==> r is None,
    {
        self.map.get(&k).copied()
    }

    /// Relies on `HashMap::insert`: `k` maps to `v` afterwards, and no other
    /// key changes.
    #[verifier::external_body]
    pub(crate) fn insert(&mut self, k: u32, v: (usize, usize, Option<usize>))
        ensures
            index_contents(*final(self)) == index_contents(*old(self)).insert(k, v),
    {
        self.map.insert(k, v);
    }

    /// Relies on `HashMap::remove`: `k` maps to nothing afterwards, and no
    /// other key changes.
    #[verifier::external_body]
    pub(crate) fn remove(&mut self, k: u32)
        ensures
            index_contents(*final(self)) == index_contents(*old(self)).remove(k),
    {
        self.map.remove(&k);
    }
}

/// The first spill slot of the tries from number `t` on: the tries before
/// it spilled that many entries.
pub open spec fn block_start<L>(tries: Seq<(TrieLayer<L>, usize)>, t: int) -> int
    decreases t,
{
    if t <= 0 {
        0
    } else {
        block_start(tries, t - 1) + tries[t - 1].1
    }
}

/// Trie number `t` holds the top-level key `k`.
pub open spec fn holds<L>(tries: Seq<(TrieLayer<L>, usize)>, t: int, k: u32) -> bool {
    exists|o: int| 0 <= o < tries[t].0.keys@.len() && tries[t].0.keys@[o].0 == k
}

/// The tries that hold `k`.
pub open spec fn tries_with<L>(tries: Seq<(TrieLayer<L>, usize)>, k: u32) -> Set<int> {
    Set::new(|t: int| 0 <= t < tries.len() && holds(tries, t, k))
}

/// The link of `e` leads to a spill entry of the block of `e`'s trie, placed
/// in an older trie.
pub open spec fn link_ok<L>(
    tries: Seq<(TrieLayer<L>, usize)>,
    spill: Seq<KeyLocation>,
    e: (usize, usize, Option<usize>),
) -> bool {
    match e.2 {
        None => false,
        Some(s) => block_start(tries, e.0 as int) <= s < block_start(tries, e.0 + 1) && s
            < spill.len() && spill[s as int].index < e.0,
    }
}

/// The chain of places that starts at `e` is a list of places of `k`, in
/// tries of decreasing number.
pub open spec fn chain_ok<L>(
    tries: Seq<(TrieLayer<L>, usize)>,
    spill: Seq<KeyLocation>,
    e: (usize, usize, Option<usize>),
    k: u32,
) -> bool
    decreases e.0,
{
    &&& e.0 < tries.len()
    &&& e.1 < tries[e.0 as int].0.keys@.len()
    &&& tries[e.0 as int].0.keys@[e.1 as int].0 == k
    &&& e.2 is Some ==> link_ok(tries, spill, e) && chain_ok(
        tries,
        spill,
        spill[e.2.unwrap() as int].triple(),
        k,
    )
}

/// The tries of the places on the chain that starts at `e`.
pub open spec fn chain_tries<L>(
    tries: Seq<(TrieLayer<L>, usize)>,
    spill: Seq<KeyLocation>,
    e: (usize, usize, Option<usize>),
) -> Set<int>
    decreases e.0,
{
    if link_ok(tries, spill, e) {
        chain_tries(tries, spill, spill[e.2.unwrap() as int].triple()).insert(e.0 as int)
    } else {
        set![e.0 as int]
    }
}

/// Block starts grow with the trie number.
pub proof fn lemma_block_mono<L>(tries: Seq<(TrieLayer<L>, usize)>, a: int, b: int)
    requires
        a <= b,
    ensures
        block_start(tries, a) <= block_start(tries, b),
    decreases b - a,
{
    if a < b {
        lemma_block_mono(tries, a, b - 1);
    }
}

/// A chain lists tries no newer than its head, each holding the key.
pub proof fn lemma_chain_below<L>(
    tries: Seq<(TrieLayer<L>, usize)>,
    spill: Seq<KeyLocation>,
    e: (usize, usize, Option<usize>),
    k: u32,
)
    requires
        chain_ok(tries, spill, e, k),
    ensures
        chain_tries(tries, spill, e).contains(e.0 as int),
        forall|t: int| #[trigger] chain_tries(tries, spill, e).contains(t) ==> t <= e.0 && 0 <= t && holds(tries, t, k),
    decreases e.0,
{
    assert(tries[e.0 as int].0.keys@[e.1 as int].0 == k);
    assert(holds(tries, e.0 as int, k));
    if link_ok(tries, spill, e) {
        let n = spill[e.2.unwrap() as int].triple();
        assert(e.2.unwrap() < spill.len());
        assert(n.0 == spill[e.2.unwrap() as int].index);
        assert(n.0 < e.0);
        lemma_chain_below(tries, spill, n, k);
        assert(chain_tries(tries, spill, e) == chain_tries(tries, spill, n).insert(e.0 as int));
        assert forall|t: int| chain_tries(tries, spill, e).contains(t) implies t <= e.0 && 0 <= t
            && holds(tries, t, k) by {
            if t != e.0 {
                assert(chain_tries(tries, spill, n).contains(t));
            }
        }
    } else {
        assert(chain_tries(tries, spill, e) == set![e.0 as int]);
    }
}

/// A chain stays valid, with the same tries, when the tries up to its head
/// keep their layers and block starts (the head's block may grow) and the
/// spill slots of those blocks keep their entries.
pub proof fn lemma_chain_grow<L>(
    tries1: Seq<(TrieLayer<L>, usize)>,
    spill1: Seq<KeyLocation>,
    tries2: Seq<(TrieLayer<L>, usize)>,
    spill2: Seq<KeyLocation>,
    e: (usize, usize, Option<usize>),
    k: u32,
)
    requires
        chain_ok(tries1, spill1, e, k),
        e.0 < tries2.len(),
        forall|t: int| 0 <= t <= e.0 ==> #[trigger] tries2[t].0 == tries1[t].0,
        forall|t: int| 0 <= t <= e.0 ==> #[trigger] block_start(tries2, t) == block_start(tries1, t),
        block_start(tries1, e.0 + 1) <= block_start(tries2, e.0 + 1),
        block_start(tries1, e.0 + 1) <= spill2.len(),
        forall|x: int| 0 <= x < block_start(tries1, e.0 + 1) && x < spill1.len() ==> #[trigger] spill2[x] == spill1[x],
    ensures
        chain_ok(tries2, spill2, e, k),
        chain_tries(tries2, spill2, e) == chain_tries(tries1, spill1, e),
    decreases e.0,
{
    if e.2 is Some {
        let slot = e.2.unwrap() as int;
        let n = spill1[slot].triple();
        lemma_block_mono(tries1, n.0 + 1, e.0 as int);
        assert(block_start(tries1, e.0 + 1) == block_start(tries1, e.0 as int) + tries1[e.0 as int].1);
        assert(block_start(tries1, n.0 + 1) == block_start(tries2, n.0 + 1));
        assert forall|x: int| 0 <= x < block_start(tries1, n.0 + 1) && x < spill1.len() implies #[trigger] spill2[x] == spill1[x] by {
            assert(block_start(tries1, n.0 + 1) <= block_start(tries1, e.0 as int));
            assert(x < block_start(tries1, e.0 + 1));
            assert(spill2[x] == spill1[x]);
        }
        lemma_chain_grow(tries1, spill1, tries2, spill2, n, k);
    }
}

/// Block starts depend only on the counts of the tries before.
pub proof fn lemma_block_prefix<L>(a: Seq<(TrieLayer<L>, usize)>, b: Seq<(TrieLayer<L>, usize)>, t: int)
    requires
        0 <= t <= a.len(),
        t <= b.len(),
        forall|j: int| 0 <= j < t ==> #[trigger] a[j].1 == b[j].1,
    ensures
        block_start(a, t) == block_start(b, t),
    decreases t,
{
    if t > 0 {
        lemma_block_prefix(a, b, t - 1);
    }
}

/// The inner keys under the places of the chain that starts at `e`.
pub open spec fn chain_inner<L: TrieStorage>(
    tries: Seq<(TrieLayer<L>, usize)>,
    spill: Seq<KeyLocation>,
    e: (usize, usize, Option<usize>),
) -> Set<u32>
    decreases e.0,
{
    let layer = tries[e.0 as int].0;
    let here = keys_of(&layer.vals, layer.start(e.1 as int), layer.end(e.1 as int)).to_set();
    if link_ok(tries, spill, e) {
        here.union(chain_inner(tries, spill, spill[e.2.unwrap() as int].triple()))
    } else {
        here
    }
}

/// The inner keys under `k` in all the tries.
pub open spec fn inner_keys<L: TrieStorage>(tries: Seq<(TrieLayer<L>, usize)>, k: u32) -> Set<u32> {
    Set::new(
        |k2: u32|
            exists|t: int, o: int|
                0 <= t < tries.len() && 0 <= o < tries[t].0.keys@.len() && tries[t].0.keys@[o].0 == k
                    && #[trigger] keys_of(&tries[t].0.vals, tries[t].0.start(o), tries[t].0.end(o)).contains(k2),
    )
}

/// The inner keys along a chain are those under its key in the tries of the
/// chain.
pub proof fn lemma_chain_inner<L: TrieStorage>(
    tries: Seq<(TrieLayer<L>, usize)>,
    spill: Seq<KeyLocation>,
    e: (usize, usize, Option<usize>),
    k: u32,
)
    requires
        chain_ok(tries, spill, e, k),
        forall|t: int| 0 <= t < tries.len() ==> sorted(&(#[trigger] tries[t]).0, 0, tries[t].0.key_count() as int),
    ensures
        chain_inner(tries, spill, e) == Set::new(
            |k2: u32|
                exists|t: int, o: int|
                    #![trigger chain_tries(tries, spill, e).contains(t), tries[t].0.keys@[o]]
                    chain_tries(tries, spill, e).contains(t) && 0 <= o < tries[t].0.keys@.len()
                        && tries[t].0.keys@[o].0 == k && keys_of(
                        &tries[t].0.vals,
                        tries[t].0.start(o),
                        tries[t].0.end(o),
                    ).contains(k2),
        ),
    decreases e.0,
{
    let target = Set::new(
        |k2: u32|
            exists|t: int, o: int|
                #![trigger chain_tries(tries, spill, e).contains(t), tries[t].0.keys@[o]]
                chain_tries(tries, spill, e).contains(t) && 0 <= o < tries[t].0.keys@.len()
                    && tries[t].0.keys@[o].0 == k && keys_of(
                    &tries[t].0.vals,
                    tries[t].0.start(o),
                    tries[t].0.end(o),
                ).contains(k2),
    );
    let layer = tries[e.0 as int].0;
    let here = keys_of(&layer.vals, layer.start(e.1 as int), layer.end(e.1 as int)).to_set();
    lemma_chain_below(tries, spill, e, k);
    if link_ok(tries, spill, e) {
        let n = spill[e.2.unwrap() as int].triple();
        lemma_chain_inner(tries, spill, n, k);
        lemma_chain_below(tries, spill, n, k);
    }
    assert forall|k2: u32| chain_inner(tries, spill, e).contains(k2) <==> target.contains(k2) by {
        if chain_inner(tries, spill, e).contains(k2) {
            if here.contains(k2) {
                assert(chain_tries(tries, spill, e).contains(e.0 as int));
                assert(keys_of(&layer.vals, layer.start(e.1 as int), layer.end(e.1 as int)).contains(k2));
            } else {
                let n = spill[e.2.unwrap() as int].triple();
                assert(chain_inner(tries, spill, n).contains(k2));
                let (t, o) = choose|t: int, o: int|
                    #![trigger chain_tries(tries, spill, n).contains(t), tries[t].0.keys@[o]]
                    chain_tries(tries, spill, n).contains(t) && 0 <= o < tries[t].0.keys@.len()
                        && tries[t].0.keys@[o].0 == k && keys_of(
                        &tries[t].0.vals,
                        tries[t].0.start(o),
                        tries[t].0.end(o),
                    ).contains(k2);
                assert(chain_tries(tries, spill, e).contains(t));
            }
        }
        if target.contains(k2) {
            let (t, o) = choose|t: int, o: int|
                #![trigger chain_tries(tries, spill, e).contains(t), tries[t].0.keys@[o]]
                chain_tries(tries, spill, e).contains(t) && 0 <= o < tries[t].0.keys@.len()
                    && tries[t].0.keys@[o].0 == k && keys_of(
                    &tries[t].0.vals,
                    tries[t].0.start(o),
                    tries[t].0.end(o),
                ).contains(k2);
            if t == e.0 {
                // the key sits once in a sorted trie
                if o != e.1 {
                    assert(sorted(&tries[t].0, 0, tries[t].0.key_count() as int));
                    assert(tries[t].0.key_at(o) != tries[t].0.key_at(e.1 as int));
                }
                assert(here.contains(k2));
            } else {
                let n = spill[e.2.unwrap() as int].triple();
                assert(link_ok(tries, spill, e));
                assert(chain_tries(tries, spill, n).contains(t));
                assert(chain_inner(tries, spill, n).contains(k2));
            }
        }
    }
    assert(chain_inner(tries, spill, e) =~= target);
}

/// One of the keys `0 .. o` of `layer` is `k`.
pub open spec fn seen<L>(layer: &TrieLayer<L>, o: int, k: u32) -> bool {
    exists|j: int| 0 <= j < o && layer.keys@[j].0 == k
}

/// The offset at which trie number `t` holds the top-level key `k`.
pub open spec fn offset_of<L>(tries: Seq<(TrieLayer<L>, usize)>, t: int, k: u32) -> int {
    choose|o: int| 0 <= o < tries[t].0.keys@.len() && tries[t].0.keys@[o].0 == k
}

/// The items of one cursor per trie among the first `upto` that holds `k`:
/// the cursor over the inner keys under `k` in that trie.
pub open spec fn holder_items<'a, L: TrieStorage + TrieRef<'a>>(
    tries: Seq<(TrieLayer<L>, usize)>,
    k: u32,
    upto: int,
) -> Multiset<(u32, <<L as TrieRef<'a>>::Cursor as Cursor>::Val)>
    decreases upto,
{
    if upto <= 0 {
        Multiset::empty()
    } else {
        let t = upto - 1;
        let layer = tries[t].0;
        let o = offset_of(tries, t, k);
        holder_items(tries, k, t).add(
            if holds(tries, t, k) {
                items_left(layer.vals.cursor_at(layer.start(o), layer.end(o))).to_multiset()
            } else {
                Multiset::empty()
            },
        )
    }
}

/// Tries that do not hold `k` add no items.
pub proof fn lemma_holders_gap<'a, L: TrieStorage + TrieRef<'a>>(
    tries: Seq<(TrieLayer<L>, usize)>,
    k: u32,
    lo: int,
    hi: int,
)
    requires
        0 <= lo <= hi,
        forall|t: int| lo <= t < hi ==> !holds(tries, t, k),
    ensures
        holder_items::<'a, L>(tries, k, hi) =~= holder_items::<'a, L>(tries, k, lo),
    decreases hi - lo,
{
    if lo < hi {
        lemma_holders_gap::<'a, L>(tries, k, lo, hi - 1);
    }
}

/// The index agrees with the tries: a key has a head exactly when some trie
/// holds it, and the chain from the head lists the places of the key in
/// every trie that holds it, one per trie.
pub open spec fn index_ok<L>(
    tries: Seq<(TrieLayer<L>, usize)>,
    spill: Seq<KeyLocation>,
    heads: Map<u32, (usize, usize, Option<usize>)>,
) -> bool {
    &&& block_start(tries, tries.len() as int) == spill.len()
    &&& forall|k: u32| #[trigger] heads.contains_key(k) <==> exists|t: int| 0 <= t < tries.len() && holds(tries, t, k)
    &&& forall|k: u32|
        #[trigger] heads.contains_key(k) ==> chain_ok(tries, spill, heads[k], k) && chain_tries(
            tries,
            spill,
            heads[k],
        ) == tries_with(tries, k)
}

/// The indexed arbor's rule: merge while the last trie holds at most twice
/// the tuples of the running trie.
pub open spec fn at_most_twice(running: nat, last: nat) -> bool {
    last <= 2 * running
}

/// The indexed arbor's rule as a function.
pub open spec fn index_rule() -> spec_fn(nat, nat) -> bool {
    |c: nat, l: nat| at_most_twice(c, l)
}

/// `last` is at most twice `c`.
fn within_twice(last: usize, c: usize) -> (r: bool)
    ensures
        r == (last <= 2 * c),
{
    last <= c || last - c <= c
}

/// A stack of tries like `Arbor`, with an index from each top-level key to
/// its places in the tries.
///
/// The index keeps, for each key, its place in the newest trie that holds
/// it; the places in older tries are chained through the spill vector. The
/// spill entries that a trie added when it came in lie together, in the
/// order of the tries, and the count of them is kept beside the trie.
pub struct ArborIndex<L: TrieStorage> {
    pub tries: Vec<(TrieLayer<L>, usize)>,
    pub index: KeyIndex,
    pub spill: Vec<KeyLocation>,
}

impl<L: TrieStorage> ArborIndex<L> {
    /// The tries, from the largest to the smallest, each with the number of
    /// spill entries it added.
    pub open spec fn tries(&self) -> Seq<(TrieLayer<L>, usize)> {
        self.tries@
    }

    /// The spill vector.
    pub open spec fn spill(&self) -> Seq<KeyLocation> {
        self.spill@
    }

    /// The head place of each key.
    pub open spec fn heads(&self) -> Map<u32, (usize, usize, Option<usize>)> {
        index_contents(self.index)
    }

    /// The trie layers alone.
    pub open spec fn layers(&self) -> Seq<TrieLayer<L>> {
        self.tries().map_values(|x: (TrieLayer<L>, usize)| x.0)
    }

    /// The total weight that all tries give the key path `p`.
    pub open spec fn weight(&self, p: Seq<u32>) -> int {
        sum_wt(self.layers(), p)
    }

    /// Each trie is well formed and sorted and holds less than half the
    /// tuples of the trie before it, and the index agrees with the tries.
    pub open spec fn wf(&self) -> bool {
        &&& forall|i: int|
            0 <= i < self.tries().len() ==> (#[trigger] self.tries()[i]).0.wf() && sorted(
                &self.tries()[i].0,
                0,
                self.tries()[i].0.key_count() as int,
            )
        &&& forall|i: int|
            0 <= i < self.tries().len() - 1 ==> 2 * #[trigger] self.tries()[i + 1].0.tuple_count()
                < self.tries()[i].0.tuple_count()
        &&& index_ok(self.tries(), self.spill(), self.heads())
    }

    /// Adding a trie with these weights keeps every weight that a merge can
    /// compute within an `i32`.
    pub open spec fn can_take(&self, weights: spec_fn(Seq<u32>) -> int) -> bool {
        forall|j: int, p: Seq<u32>|
            0 <= j <= self.layers().len() ==> i32::MIN <= #[trigger] sum_wt(
                self.layers().subrange(j, self.layers().len() as int),
                p,
            ) + weights(p) <= i32::MAX
    }

    /// Takes the keys of `other`, the newest trie of `full`, out of the index:
    /// each head in `other` gives way to the next place of its key, or
    /// leaves the index when there is none.
    fn evict(&mut self, other: &TrieLayer<L>, Ghost(full): Ghost<Seq<(TrieLayer<L>, usize)>>)
        requires
            full.len() > 0,
            old(self).tries() == full.subrange(0, full.len() - 1),
            full[full.len() - 1].0 == *other,
            forall|i: int| 0 <= i < full.len() ==> sorted(&(#[trigger] full[i]).0, 0, full[i].0.key_count() as int),
            index_ok(full, old(self).spill(), old(self).heads()),
        ensures
            final(self).tries() == old(self).tries(),
            final(self).spill() == old(self).spill(),
            forall|k: u32| #[trigger] final(self).heads().contains_key(k) <==> exists|t: int|
                0 <= t < full.len() - 1 && holds(full, t, k),
            forall|k: u32|
                #[trigger] final(self).heads().contains_key(k) ==> chain_ok(full, old(self).spill(), final(self).heads()[k], k)
                    && chain_tries(full, old(self).spill(), final(self).heads()[k]) == tries_with(full, k).remove(
                    full.len() - 1,
                ) && final(self).heads()[k].0 < full.len() - 1,
    {
        let ghost last = full.len() - 1;
        let ghost sp = self.spill();
        let ghost h0 = self.heads();
        let n = other.keys.len();
        let mut o: usize = 0;
        while o < n
            invariant
                0 <= last,
                last == full.len() - 1,
                n == other.keys@.len(),
                o <= n,
                full[last].0 == *other,
                self.tries() == old(self).tries(),
                self.spill() == sp,
                sp == old(self).spill(),
                h0 == old(self).heads(),
                forall|i: int| 0 <= i < full.len() ==> sorted(&(#[trigger] full[i]).0, 0, full[i].0.key_count() as int),
                index_ok(full, sp, h0),
                forall|k: u32|
                    #![trigger self.heads().contains_key(k)]
                    #![trigger h0.contains_key(k)]
                    seen(other, o as int, k) ==> {
                        &&& (self.heads().contains_key(k) <==> exists|t: int| 0 <= t < last && holds(full, t, k))
                        &&& self.heads().contains_key(k) ==> chain_ok(full, sp, self.heads()[k], k) && chain_tries(
                            full,
                            sp,
                            self.heads()[k],
                        ) == tries_with(full, k).remove(last) && self.heads()[k].0 < last
                    },
                forall|k: u32|
                    #![trigger self.heads().contains_key(k)]
                    #![trigger h0.contains_key(k)]
                    !seen(other, o as int, k) ==> self.heads().contains_key(k)
                        == h0.contains_key(k) && (h0.contains_key(k) ==> self.heads()[k] == h0[k]),
            decreases n - o,
        {
            let k = other.keys[o].0;
            proof {
                assert(!seen(other, o as int, k)) by {
                    if exists|j: int| 0 <= j < o && other.keys@[j].0 == k {
                        let j = choose|j: int| 0 <= j < o && other.keys@[j].0 == k;
                        assert(sorted(&full[last].0, 0, full[last].0.key_count() as int));
                        assert(other.key_at(j) < other.key_at(o as int));
                    }
                }
                assert(holds(full, last, k)) by {
                    assert(full[last].0.keys@[o as int].0 == k);
                }
                assert(h0.contains_key(k));
                lemma_chain_below(full, sp, h0[k], k);
                assert(tries_with(full, k).contains(last));
                assert(h0[k].0 == last);
            }
            let ghost before = self.heads();
            let head = self.index.get(k);
            let h = head.unwrap();
            match h.2 {
                Some(s) => {
                    proof {
                        assert(link_ok(full, sp, h));
                    }
                    let nxt = self.spill[s];
                    self.index.insert(k, (nxt.index, nxt.offset, nxt.next));
                    proof {
                        let t = nxt.triple();
                        assert(t == sp[s as int].triple());
                        lemma_chain_below(full, sp, t, k);
                        assert(chain_tries(full, sp, h) == chain_tries(full, sp, t).insert(last));
                        assert(!chain_tries(full, sp, t).contains(last));
                        assert(chain_tries(full, sp, t) =~= tries_with(full, k).remove(last));
                        assert(holds(full, t.0 as int, k));
                    }
                },
                None => {
                    self.index.remove(k);
                    proof {
                        assert(chain_tries(full, sp, h) == set![last]);
                        assert forall|t: int| 0 <= t < last implies !holds(full, t, k) by {
                            if holds(full, t, k) {
                                assert(tries_with(full, k).contains(t));
                            }
                        }
                    }
                },
            }
            proof {
                assert forall|x: u32| x != k implies #[trigger] self.heads().contains_key(x) == before.contains_key(x)
                    && (before.contains_key(x) ==> self.heads()[x] == before[x]) by {}
                assert forall|x: u32|
                    seen(other, o + 1, x) implies {
                        &&& (self.heads().contains_key(x) <==> exists|t: int| 0 <= t < last && holds(full, t, x))
                        &&& self.heads().contains_key(x) ==> chain_ok(full, sp, self.heads()[x], x) && chain_tries(
                            full,
                            sp,
                            self.heads()[x],
                        ) == tries_with(full, x).remove(last) && self.heads()[x].0 < last
                    } by {
                    if x != k {
                        let j = choose|j: int| 0 <= j < o + 1 && other.keys@[j].0 == x;
                        assert(j < o);
                        assert(seen(other, o as int, x));
                    }
                }
                assert forall|x: u32|
                    !seen(other, o + 1, x) implies self.heads().contains_key(x)
                        == h0.contains_key(x) && (h0.contains_key(x) ==> self.heads()[x] == h0[x]) by {
                    assert(other.keys@[o as int].0 == k);
                    assert(x != k);
                    assert(!seen(other, o as int, x)) by {
                        if exists|j: int| 0 <= j < o && other.keys@[j].0 == x {
                            let j = choose|j: int| 0 <= j < o && other.keys@[j].0 == x;
                            assert(0 <= j < o + 1 && other.keys@[j].0 == x);
                        }
                    }
                }
            }
            o = o + 1;
        }
        proof {
            assert forall|k: u32| #[trigger] self.heads().contains_key(k) <==> exists|t: int|
                0 <= t < last && holds(full, t, k) by {
                if !seen(other, n as int, k) {
                    assert(!holds(full, last, k)) by {
                        if holds(full, last, k) {
                            let j = choose|j: int| 0 <= j < full[last].0.keys@.len() && full[last].0.keys@[j].0 == k;
                            assert(other.keys@[j].0 == k);
                        }
                    }
                    if self.heads().contains_key(k) {
                        let t = choose|t: int| 0 <= t < full.len() && holds(full, t, k);
                        assert(t != last);
                    }
                }
            }
            assert forall|k: u32| #[trigger] self.heads().contains_key(k) implies chain_ok(full, sp, self.heads()[k], k)
                && chain_tries(full, sp, self.heads()[k]) == tries_with(full, k).remove(last)
                && self.heads()[k].0 < last by {
                if !seen(other, n as int, k) {
                    assert(!holds(full, last, k)) by {
                        if holds(full, last, k) {
                            let j = choose|j: int| 0 <= j < full[last].0.keys@.len() && full[last].0.keys@[j].0 == k;
                            assert(other.keys@[j].0 == k);
                        }
                    }
                    assert(tries_with(full, k).remove(last) =~= tries_with(full, k));
                    lemma_chain_below(full, sp, h0[k], k);
                    assert(h0[k].0 != last);
                }
            }
        }
    }

    /// Enters the keys of `current`, about to become the newest trie, into
    /// the index: each key gets its place in `current` as head, and an old
    /// head moves to the spill vector, linked from the new one. Returns the
    /// number of spill entries added.
    fn insert_keys(&mut self, current: &TrieLayer<L>) -> (count: usize)
        requires
            index_ok(old(self).tries(), old(self).spill(), old(self).heads()),
            current.wf(),
            sorted(current, 0, current.key_count() as int),
        ensures
            final(self).tries() == old(self).tries(),
            final(self).spill().len() == old(self).spill().len() + count,
            index_ok(old(self).tries().push((*current, count)), final(self).spill(), final(self).heads()),
    {
        let ghost tries = self.tries();
        let ghost base = self.spill();
        let ghost h0 = self.heads();
        let ghost big_n = tries.len() as int;
        let sp0 = self.spill.len();
        let n_new = self.tries.len();
        let n = current.keys.len();
        let mut pos: usize = 0;
        while pos < n
            invariant
                n == current.keys@.len(),
                pos <= n,
                n_new == big_n,
                big_n == tries.len(),
                sp0 == base.len(),
                tries == old(self).tries(),
                base == old(self).spill(),
                h0 == old(self).heads(),
                self.tries() == tries,
                current.wf(),
                sorted(current, 0, current.key_count() as int),
                index_ok(tries, base, h0),
                self.spill().len() >= sp0,
                forall|x: int| 0 <= x < sp0 ==> #[trigger] self.spill()[x] == base[x],
                forall|k: u32|
                    #![trigger self.heads().contains_key(k)]
                    seen(current, pos as int, k) ==> {
                        &&& self.heads().contains_key(k)
                        &&& chain_ok(
                            tries.push((*current, (self.spill().len() - sp0) as usize)),
                            self.spill(),
                            self.heads()[k],
                            k,
                        )
                        &&& chain_tries(
                            tries.push((*current, (self.spill().len() - sp0) as usize)),
                            self.spill(),
                            self.heads()[k],
                        ) == tries_with(tries.push((*current, (self.spill().len() - sp0) as usize)), k)
                    },
                forall|k: u32|
                    #![trigger self.heads().contains_key(k)]
                    #![trigger h0.contains_key(k)]
                    !seen(current, pos as int, k) ==> self.heads().contains_key(k) == h0.contains_key(k) && (
                    h0.contains_key(k) ==> self.heads()[k] == h0[k]),
            decreases n - pos,
        {
            let k = current.keys[pos].0;
            let ghost spill_old = self.spill();
            let ghost heads_old = self.heads();
            let ghost virt_old = tries.push((*current, (spill_old.len() - sp0) as usize));
            proof {
                assert(!seen(current, pos as int, k)) by {
                    if seen(current, pos as int, k) {
                        let j = choose|j: int| 0 <= j < pos && current.keys@[j].0 == k;
                        assert(current.key_at(j) < current.key_at(pos as int));
                    }
                }
                assert(heads_old.contains_key(k) == h0.contains_key(k));
            }
            match self.index.get(k) {
                Some(h) => {
                    self.spill.push(KeyLocation::new(h.0, h.1, h.2));
                    let slot = self.spill.len() - 1;
                    self.index.insert(k, (n_new, pos, Some(slot)));
                    proof {
                        let sp = self.spill();
                        let virt = tries.push((*current, (sp.len() - sp0) as usize));
                        assert(h == h0[k]);
                        lemma_chain_below(tries, base, h, k);
                        assert(h.0 < big_n);
                        Self::lemma_grow_virt(tries, base, virt, sp, h, k, *current);
                        // the new head
                        lemma_block_prefix(virt, tries, big_n);
                        assert(block_start(virt, big_n + 1) == block_start(virt, big_n) + virt[big_n].1);
                        assert(sp[slot as int].triple() == h);
                        let e = (n_new, pos, Some(slot));
                        assert(current.keys@[pos as int].0 == k);
                        assert(virt[big_n].0 == *current);
                        assert(link_ok(virt, sp, e));
                        assert(chain_ok(virt, sp, e, k));
                        assert(chain_tries(virt, sp, e) == chain_tries(virt, sp, h).insert(big_n));
                        assert(holds(virt, big_n, k)) by {
                            assert(virt[big_n].0.keys@[pos as int].0 == k);
                        }
                        assert(chain_tries(virt, sp, e) =~= tries_with(virt, k)) by {
                            assert forall|t: int| 0 <= t < big_n implies holds(virt, t, k) == holds(tries, t, k) by {
                                assert(virt[t] == tries[t]);
                            }
                        }
                        // the keys entered before keep their chains
                        assert forall|x: u32| #[trigger] self.heads().contains_key(x) && seen(current, pos + 1, x)
                            implies chain_ok(virt, sp, self.heads()[x], x) && chain_tries(virt, sp, self.heads()[x])
                            == tries_with(virt, x) by {
                            if x != k {
                                let j = choose|j: int| 0 <= j < pos + 1 && current.keys@[j].0 == x;
                                assert(j < pos);
                                assert(seen(current, pos as int, x));
                                assert(heads_old.contains_key(x));
                                let hx = heads_old[x];
                                lemma_block_prefix(virt_old, tries, big_n);
                                assert(block_start(virt_old, big_n + 1) == block_start(virt_old, big_n) + virt_old[big_n].1);
                                Self::lemma_grow_step(virt_old, spill_old, virt, sp, hx, x, big_n);
                                assert(tries_with(virt, x) =~= tries_with(virt_old, x)) by {
                                    assert forall|t: int| 0 <= t < virt.len() implies holds(virt, t, x) == holds(virt_old, t, x) by {
                                        assert(virt[t].0 == virt_old[t].0);
                                    }
                                }
                            }
                        }
                    }
                },
                None => {
                    self.index.insert(k, (n_new, pos, None));
                    proof {
                        let sp = self.spill();
                        let virt = virt_old;
                        let e = (n_new, pos, None::<usize>);
                        assert(virt[big_n].0 == *current);
                        assert(current.keys@[pos as int].0 == k);
                        assert(chain_ok(virt, sp, e, k));
                        assert(chain_tries(virt, sp, e) =~= tries_with(virt, k)) by {
                            assert(!h0.contains_key(k));
                            assert forall|t: int| 0 <= t < big_n implies !holds(virt, t, k) by {
                                assert(virt[t] == tries[t]);
                                if holds(tries, t, k) {
                                    assert(exists|t2: int| 0 <= t2 < tries.len() && holds(tries, t2, k));
                                }
                            }
                            assert(holds(virt, big_n, k)) by {
                                assert(virt[big_n].0.keys@[pos as int].0 == k);
                            }
                        }
                        assert forall|x: u32| #[trigger] self.heads().contains_key(x) && seen(current, pos + 1, x)
                            implies chain_ok(virt, sp, self.heads()[x], x) && chain_tries(virt, sp, self.heads()[x])
                            == tries_with(virt, x) by {
                            if x != k {
                                let j = choose|j: int| 0 <= j < pos + 1 && current.keys@[j].0 == x;
                                assert(j < pos);
                                assert(seen(current, pos as int, x));
                            }
                        }
                    }
                },
            }
            proof {
                assert forall|x: u32|
                    #![trigger self.heads().contains_key(x)]
                    seen(current, pos + 1, x) implies self.heads().contains_key(x) by {
                    if x != k {
                        let j = choose|j: int| 0 <= j < pos + 1 && current.keys@[j].0 == x;
                        assert(j < pos);
                        assert(seen(current, pos as int, x));
                    }
                }
                assert forall|x: u32|
                    #![trigger self.heads().contains_key(x)]
                    #![trigger h0.contains_key(x)]
                    !seen(current, pos + 1, x) implies self.heads().contains_key(x) == h0.contains_key(x) && (
                    h0.contains_key(x) ==> self.heads()[x] == h0[x]) by {
                    assert(current.keys@[pos as int].0 == k);
                    assert(x != k);
                    assert(!seen(current, pos as int, x)) by {
                        if seen(current, pos as int, x) {
                            let j = choose|j: int| 0 <= j < pos && current.keys@[j].0 == x;
                            assert(0 <= j < pos + 1 && current.keys@[j].0 == x);
                        }
                    }
                    assert(heads_old.contains_key(x) == h0.contains_key(x));
                }
                let virt = tries.push((*current, (self.spill().len() - sp0) as usize));
                assert forall|x: u32|
                    #![trigger self.heads().contains_key(x)]
                    seen(current, pos + 1, x) implies chain_ok(virt, self.spill(), self.heads()[x], x) by {
                    assert(self.heads().contains_key(x));
                }
                assert forall|x: u32|
                    #![trigger self.heads().contains_key(x)]
                    seen(current, pos + 1, x) implies chain_tries(virt, self.spill(), self.heads()[x]) == tries_with(virt, x) by {
                    assert(self.heads().contains_key(x));
                }
            }
            let ghost old_pos = pos as int;
            pos = pos + 1;
            assert(pos as int == old_pos + 1);
            assert(forall|x: u32| seen(current, pos as int, x) == seen(current, old_pos + 1, x));
        }
        let count = self.spill.len() - sp0;
        proof {
            let sp = self.spill();
            let virt = tries.push((*current, count));
            lemma_block_prefix(virt, tries, big_n);
            assert(block_start(virt, big_n + 1) == block_start(virt, big_n) + virt[big_n].1);
            assert(block_start(virt, virt.len() as int) == sp.len());
            assert forall|k: u32| #[trigger] self.heads().contains_key(k) <==> exists|t: int|
                0 <= t < virt.len() && holds(virt, t, k) by {
                if seen(current, n as int, k) {
                    let j = choose|j: int| 0 <= j < n && current.keys@[j].0 == k;
                    assert(virt[big_n].0.keys@[j].0 == k);
                    assert(holds(virt, big_n, k));
                } else {
                    assert(!holds(virt, big_n, k)) by {
                        if holds(virt, big_n, k) {
                            let j = choose|j: int| 0 <= j < virt[big_n].0.keys@.len() && virt[big_n].0.keys@[j].0 == k;
                            assert(current.keys@[j].0 == k);
                        }
                    }
                    if self.heads().contains_key(k) {
                        let t = choose|t: int| 0 <= t < tries.len() && holds(tries, t, k);
                        assert(virt[t] == tries[t]);
                        assert(holds(virt, t, k));
                    }
                    if exists|t: int| 0 <= t < virt.len() && holds(virt, t, k) {
                        let t = choose|t: int| 0 <= t < virt.len() && holds(virt, t, k);
                        assert(t != big_n);
                        assert(virt[t] == tries[t]);
                        assert(holds(tries, t, k));
                    }
                }
            }
            assert forall|k: u32| #[trigger] self.heads().contains_key(k) implies chain_ok(virt, sp, self.heads()[k], k)
                && chain_tries(virt, sp, self.heads()[k]) == tries_with(virt, k) by {
                if !seen(current, n as int, k) {
                    assert(!holds(virt, big_n, k)) by {
                        if holds(virt, big_n, k) {
                            let j = choose|j: int| 0 <= j < virt[big_n].0.keys@.len() && virt[big_n].0.keys@[j].0 == k;
                            assert(current.keys@[j].0 == k);
                        }
                    }
                    let h = h0[k];
                    lemma_chain_below(tries, base, h, k);
                    Self::lemma_grow_virt(tries, base, virt, sp, h, k, *current);
                    assert(tries_with(virt, k) =~= tries_with(tries, k)) by {
                        assert forall|t: int| 0 <= t < big_n implies holds(virt, t, k) == holds(tries, t, k) by {
                            assert(virt[t] == tries[t]);
                        }
                    }
                }
            }
        }
        count
    }

    /// A chain of the tries before the new one stays valid once the new
    /// trie and its spill entries are added.
    proof fn lemma_grow_virt(
        tries: Seq<(TrieLayer<L>, usize)>,
        base: Seq<KeyLocation>,
        virt: Seq<(TrieLayer<L>, usize)>,
        sp: Seq<KeyLocation>,
        h: (usize, usize, Option<usize>),
        k: u32,
        current: TrieLayer<L>,
    )
        requires
            chain_ok(tries, base, h, k),
            h.0 < tries.len(),
            block_start(tries, tries.len() as int) == base.len(),
            virt.len() == tries.len() + 1,
            forall|t: int| 0 <= t < tries.len() ==> #[trigger] virt[t] == tries[t],
            sp.len() >= base.len(),
            forall|x: int| 0 <= x < base.len() ==> #[trigger] sp[x] == base[x],
        ensures
            chain_ok(virt, sp, h, k),
            chain_tries(virt, sp, h) == chain_tries(tries, base, h),
    {
        assert forall|t: int| 0 <= t <= h.0 implies #[trigger] block_start(virt, t) == block_start(tries, t) by {
            lemma_block_prefix(virt, tries, t);
        }
        lemma_block_prefix(virt, tries, h.0 + 1);
        lemma_block_mono(tries, h.0 + 1, tries.len() as int);
        lemma_chain_grow(tries, base, virt, sp, h, k);
    }

    /// A chain of the tries up to the new one stays valid when the new trie
    /// gains a spill entry.
    proof fn lemma_grow_step(
        virt_old: Seq<(TrieLayer<L>, usize)>,
        spill_old: Seq<KeyLocation>,
        virt: Seq<(TrieLayer<L>, usize)>,
        sp: Seq<KeyLocation>,
        h: (usize, usize, Option<usize>),
        k: u32,
        big_n: int,
    )
        requires
            chain_ok(virt_old, spill_old, h, k),
            virt_old.len() == big_n + 1,
            virt.len() == big_n + 1,
            forall|t: int| 0 <= t < big_n ==> #[trigger] virt[t] == virt_old[t],
            virt[big_n].0 == virt_old[big_n].0,
            virt_old[big_n].1 <= virt[big_n].1,
            block_start(virt_old, big_n + 1) == spill_old.len(),
            sp.len() >= spill_old.len(),
            forall|x: int| 0 <= x < spill_old.len() ==> #[trigger] sp[x] == spill_old[x],
        ensures
            chain_ok(virt, sp, h, k),
            chain_tries(virt, sp, h) == chain_tries(virt_old, spill_old, h),
    {
        assert forall|t: int| 0 <= t <= h.0 implies #[trigger] block_start(virt, t) == block_start(virt_old, t) by {
            lemma_block_prefix(virt, virt_old, t);
        }
        assert(virt[h.0 as int].0 == virt_old[h.0 as int].0);
        assert(block_start(virt_old, h.0 + 1) <= block_start(virt, h.0 + 1)) by {
            lemma_block_prefix(virt, virt_old, h.0 as int);
        }
        lemma_block_mono(virt_old, h.0 + 1, big_n + 1);
        lemma_chain_grow(virt_old, spill_old, virt, sp, h, k);
    }

    /// Adds an entire trie into the collection, merging it with the tries at
    /// the end of the stack while the last one holds at most twice its
    /// tuples, and keeps the index in step.
    pub fn append(&mut self, trie: TrieLayer<L>)
        requires
            old(self).wf(),
            trie.wf(),
            sorted(&trie, 0, trie.key_count() as int),
            old(self).can_take(|p: Seq<u32>| full_wt(trie, p)),
        ensures
            final(self).wf(),
            forall|p: Seq<u32>| #[trigger] final(self).weight(p) == old(self).weight(p) + full_wt(trie, p),
            exists|runs: Seq<TrieLayer<L>>| #[trigger] merge_chain(old(self).layers(), trie, index_rule(), runs, final(self).layers()),
    {
        let ghost all = self.layers();
        let ghost n = all.len() as int;
        let mut current = trie;
        let ghost mut runs: Seq<TrieLayer<L>> = seq![trie];
        proof {
            assert(all.subrange(0, n) =~= all);
            assert forall|p: Seq<u32>| #[trigger] full_wt(current, p) == sum_wt(all.subrange(n, n), p)
                + full_wt(trie, p) by {
                assert(all.subrange(n, n).len() == 0);
            }
        }
        while self.tries.len() > 0 && within_twice(self.tries[self.tries.len() - 1].0.tuples(), current.tuples())
            invariant
                self.wf(),
                self.tries@.len() <= n,
                n == all.len(),
                self.layers() == all.subrange(0, self.tries@.len() as int),
                all == old(self).layers(),
                old(self).can_take(|p: Seq<u32>| full_wt(trie, p)),
                current.wf(),
                sorted(&current, 0, current.key_count() as int),
                forall|p: Seq<u32>| #[trigger] full_wt(current, p) == sum_wt(
                    all.subrange(self.tries@.len() as int, n),
                    p,
                ) + full_wt(trie, p),
                runs.len() == n - self.tries@.len() + 1,
                runs[0] == trie,
                runs.last() == current,
                forall|i: int|
                    0 <= i < runs.len() - 1 ==> at_most_twice(#[trigger] runs[i].tuple_count(), all[n - 1 - i].tuple_count())
                        && runs[i + 1].wf() && sorted(&runs[i + 1], 0, runs[i + 1].key_count() as int)
                        && runs[i + 1].tuple_count() == paths(&runs[i + 1]).len()
                        && forall|p: Seq<u32>| #[trigger] full_wt(runs[i + 1], p) == full_wt(runs[i], p) + full_wt(all[n - 1 - i], p),
            decreases self.tries@.len(),
        {
            let ghost m = self.tries@.len() as int;
            let ghost full = self.tries();
            let ghost sp = self.spill();
            let (other, count) = self.tries.pop().unwrap();
            proof {
                assert(self.tries() =~= full.subrange(0, m - 1));
                assert(full[m - 1] == (other, count));
                assert(all[m - 1] == other) by {
                    assert(self.layers().len() == m - 1);
                    assert(old(self).layers()[m - 1] == all.subrange(0, m)[m - 1]);
                }
            }
            self.evict(&other, Ghost(full));
            // release the spill entries that `other` added
            proof {
                assert(block_start(full, m) == block_start(full, m - 1) + count);
                lemma_block_prefix(full, self.tries(), m - 1);
                lemma_block_mono(full, 0, m - 1);
            }
            let ghost h_ev = self.heads();
            let mut c: usize = 0;
            while c < count
                invariant
                    c <= count,
                    sp.len() == block_start(full, m - 1) + count,
                    block_start(full, m - 1) >= 0,
                    self.spill().len() == sp.len() - c,
                    forall|x: int| 0 <= x < self.spill().len() ==> #[trigger] self.spill()[x] == sp[x],
                    self.tries() == full.subrange(0, m - 1),
                    self.heads() == h_ev,
                decreases count - c,
            {
                self.spill.pop();
                c = c + 1;
            }
            proof {
                let prefix = self.tries();
                let sp2 = self.spill();
                lemma_block_mono(full, 0, m - 1);
                assert forall|k: u32| #[trigger] self.heads().contains_key(k) implies chain_ok(prefix, sp2, self.heads()[k], k)
                    && chain_tries(prefix, sp2, self.heads()[k]) == tries_with(prefix, k) by {
                    let h = self.heads()[k];
                    assert forall|t: int| 0 <= t <= h.0 implies #[trigger] block_start(prefix, t) == block_start(full, t) by {
                        lemma_block_prefix(prefix, full, t);
                    }
                    lemma_block_prefix(prefix, full, h.0 + 1);
                    lemma_block_mono(full, h.0 + 1, m - 1);
                    lemma_chain_grow(full, sp, prefix, sp2, h, k);
                    assert(tries_with(prefix, k) =~= tries_with(full, k).remove(m - 1)) by {
                        assert forall|t: int| 0 <= t < m - 1 implies holds(prefix, t, k) == holds(full, t, k) by {
                            assert(prefix[t] == full[t]);
                        }
                    }
                }
                assert forall|k: u32| #[trigger] self.heads().contains_key(k) <==> exists|t: int|
                    0 <= t < prefix.len() && holds(prefix, t, k) by {
                    assert(full.len() - 1 == m - 1);
                    if self.heads().contains_key(k) {
                        assert(exists|t: int| 0 <= t < full.len() - 1 && holds(full, t, k));
                        let t = choose|t: int| 0 <= t < full.len() - 1 && holds(full, t, k);
                        assert(prefix[t] == full[t]);
                        assert(holds(prefix, t, k));
                    }
                    if exists|t: int| 0 <= t < prefix.len() && holds(prefix, t, k) {
                        let t = choose|t: int| 0 <= t < prefix.len() && holds(prefix, t, k);
                        assert(prefix[t] == full[t]);
                        assert(holds(full, t, k));
                        assert(exists|t: int| 0 <= t < full.len() - 1 && holds(full, t, k));
                    }
                }
                assert(index_ok(prefix, sp2, self.heads()));
                assert forall|i: int| 0 <= i < prefix.len() implies (#[trigger] prefix[i]).0.wf() && sorted(
                    &prefix[i].0,
                    0,
                    prefix[i].0.key_count() as int,
                ) by {
                    assert(prefix[i] == full[i]);
                }
                assert forall|i: int| 0 <= i < prefix.len() - 1 implies 2 * #[trigger] prefix[i + 1].0.tuple_count()
                    < prefix[i].0.tuple_count() by {
                    assert(prefix[i] == full[i] && prefix[i + 1] == full[i + 1]);
                }
                assert(self.wf());
                assert(self.layers() =~= all.subrange(0, m - 1));
                // the merge stays within `i32`
                assert(all.subrange(m - 1, n).drop_first() =~= all.subrange(m, n));
                assert(all.subrange(m - 1, n)[0] == other);
                assert forall|p: Seq<u32>|
                    i32::MIN <= #[trigger] range_wt(&current, 0, current.key_count() as int, p)
                        + range_wt(&other, 0, other.key_count() as int, p) <= i32::MAX by {
                    assert(i32::MIN <= sum_wt(
                        old(self).layers().subrange(m - 1, old(self).layers().len() as int),
                        p,
                    ) + full_wt(trie, p) <= i32::MAX);
                    assert(full_wt(current, p) + full_wt(other, p) == sum_wt(all.subrange(m - 1, n), p)
                        + full_wt(trie, p));
                }
            }
            let ghost prev = current;
            current = merge(&current, &other);
            proof {
                lemma_tuple_count(&current);
                assert forall|p: Seq<u32>| #[trigger] full_wt(current, p) == sum_wt(
                    all.subrange(m - 1, n),
                    p,
                ) + full_wt(trie, p) by {
                    assert(full_wt(prev, p) + full_wt(other, p) == sum_wt(all.subrange(m - 1, n), p)
                        + full_wt(trie, p));
                    assert(range_wt(&current, 0, current.key_count() as int, p) == range_wt(&prev, 0, prev.key_count() as int, p)
                        + range_wt(&other, 0, other.key_count() as int, p));
                }
                let old_runs = runs;
                runs = runs.push(current);
                assert forall|i: int|
                    0 <= i < runs.len() - 1 implies at_most_twice(#[trigger] runs[i].tuple_count(), all[n - 1 - i].tuple_count())
                        && runs[i + 1].wf() && sorted(&runs[i + 1], 0, runs[i + 1].key_count() as int)
                        && runs[i + 1].tuple_count() == paths(&runs[i + 1]).len()
                        && forall|p: Seq<u32>| #[trigger] full_wt(runs[i + 1], p) == full_wt(runs[i], p) + full_wt(all[n - 1 - i], p) by {
                    assert(runs[i] == old_runs[i]);
                    if i < old_runs.len() - 1 {
                        assert(runs[i + 1] == old_runs[i + 1]);
                    } else {
                        assert(i == n - m);
                        assert(runs[i] == prev);
                        assert(all[n - 1 - i] == other);
                        assert forall|p: Seq<u32>| #[trigger] full_wt(runs[i + 1], p) == full_wt(runs[i], p) + full_wt(all[n - 1 - i], p) by {
                            assert(range_wt(&current, 0, current.key_count() as int, p) == range_wt(&prev, 0, prev.key_count() as int, p)
                                + range_wt(&other, 0, other.key_count() as int, p));
                        }
                    }
                }
            }
        }
        let ghost len = self.tries@.len() as int;
        let ghost before = self.tries();
        let count = self.insert_keys(&current);
        self.tries.push((current, count));
        proof {
            let t = self.tries();
            assert(t =~= before.push((current, count)));
            assert forall|i: int| 0 <= i < t.len() implies (#[trigger] t[i]).0.wf() && sorted(
                &t[i].0,
                0,
                t[i].0.key_count() as int,
            ) by {
                if i < len {
                    assert(t[i] == before[i]);
                }
            }
            assert forall|i: int| 0 <= i < t.len() - 1 implies 2 * #[trigger] t[i + 1].0.tuple_count()
                < t[i].0.tuple_count() by {
                if i + 1 < len {
                    assert(t[i] == before[i] && t[i + 1] == before[i + 1]);
                }
            }
            assert(self.wf());
            let ls = self.layers();
            assert(ls =~= all.subrange(0, len) + seq![current]);
            let rule = index_rule();
            assert(ls =~= all.subrange(0, n - (runs.len() - 1)).push(runs[runs.len() - 1]));
            assert forall|i: int|
                0 <= i < runs.len() - 1 implies rule(#[trigger] runs[i].tuple_count(), all[n - 1 - i].tuple_count())
                    && runs[i + 1].wf() && sorted(&runs[i + 1], 0, runs[i + 1].key_count() as int)
                        && runs[i + 1].tuple_count() == paths(&runs[i + 1]).len()
                    && forall|p: Seq<u32>| #[trigger] full_wt(runs[i + 1], p) == full_wt(runs[i], p) + full_wt(all[n - 1 - i], p) by {}
            assert(merge_chain(all, trie, rule, runs, ls));
            assert forall|p: Seq<u32>| #[trigger] self.weight(p) == old(self).weight(p) + full_wt(trie, p) by {
                assert(all =~= all.subrange(0, len) + all.subrange(len, n));
                lemma_sum_concat(all.subrange(0, len), all.subrange(len, n), p);
                lemma_sum_concat(all.subrange(0, len), seq![current], p);
                assert(seq![current][0] == current);
                assert(sum_wt(seq![current].drop_first(), p) == 0);
                assert(sum_wt(seq![current], p) == full_wt(current, p));
                assert(old(self).weight(p) == sum_wt(all, p));
                assert(self.weight(p) == sum_wt(ls, p));
            }
        }
    }

    /// Adds a sequence of tuples, in strictly increasing order, to the
    /// collection.
    pub fn extend_ordered(&mut self, items: Vec<(u32, L::Item)>)
        requires
            old(self).wf(),
            items_ordered::<TrieLayer<L>>(items@),
            items_nonzero::<TrieLayer<L>>(items@),
            old(self).can_take(|p: Seq<u32>| items_wt::<TrieLayer<L>>(items@, p)),
        ensures
            final(self).wf(),
            forall|p: Seq<u32>| #[trigger] final(self).weight(p) == old(self).weight(p) + items_wt::<TrieLayer<L>>(items@, p),
            exists|t: TrieLayer<L>, runs: Seq<TrieLayer<L>>|
                #![trigger holds_batch::<TrieLayer<L>>(t, items@), merge_chain(old(self).layers(), t, index_rule(), runs, final(self).layers())]
                holds_batch::<TrieLayer<L>>(t, items@) && merge_chain(old(self).layers(), t, index_rule(), runs, final(self).layers()),
    {
        let ghost seq = items@;
        let ghost before = self.layers();
        let trie = TrieLayer::<L>::from_ordered(items);
        proof {
            assert forall|j: int, p: Seq<u32>| 0 <= j <= self.layers().len() implies i32::MIN
                <= #[trigger] sum_wt(self.layers().subrange(j, self.layers().len() as int), p) + full_wt(
                trie,
                p,
            ) <= i32::MAX by {
                assert(full_wt(trie, p) == items_wt::<TrieLayer<L>>(seq, p));
                assert(i32::MIN <= sum_wt(self.layers().subrange(j, self.layers().len() as int), p)
                    + items_wt::<TrieLayer<L>>(seq, p) <= i32::MAX);
            }
        }
        self.append(trie);
        proof {
            assert(holds_batch::<TrieLayer<L>>(trie, seq));
            let runs = choose|runs: Seq<TrieLayer<L>>| #[trigger] merge_chain(before, trie, index_rule(), runs, self.layers());
            assert(holds_batch::<TrieLayer<L>>(trie, seq) && merge_chain(before, trie, index_rule(), runs, self.layers()));
        }
    }

    /// Allocates a new empty arbor.
    pub fn new() -> (r: Self)
        ensures
            r.wf(),
            r.tries().len() == 0,
            forall|p: Seq<u32>| r.weight(p) == 0,
    {
        let r = ArborIndex { tries: Vec::new(), index: KeyIndex::new(), spill: Vec::new() };
        proof {
            assert forall|k: u32| #[trigger] r.heads().contains_key(k) <==> exists|t: int|
                0 <= t < r.tries().len() && holds(r.tries(), t, k) by {
                assert(!r.heads().dom().contains(k));
            }
            assert(r.layers() =~= Seq::<TrieLayer<L>>::empty());
        }
        r
    }

    /// Reports the number of tuples across all tries.
    pub fn size(&self) -> (r: usize)
        requires
            self.wf(),
            sum_tuples(self.layers()) <= usize::MAX,
        ensures
            r == sum_tuples(self.layers()),
    {
        let mut count: usize = 0;
        let mut i = self.tries.len();
        let ghost ls = self.layers();
        proof {
            assert(ls.subrange(i as int, i as int).len() == 0);
        }
        while i > 0
            invariant
                i <= self.tries@.len(),
                ls == self.layers(),
                ls.len() == self.tries@.len(),
                self.wf(),
                count == sum_tuples(ls.subrange(i as int, ls.len() as int)),
                sum_tuples(ls) <= usize::MAX,
            decreases i,
        {
            let ghost rest = ls.subrange(i as int, ls.len() as int);
            let ghost more = ls.subrange(i - 1, ls.len() as int);
            proof {
                assert(more.drop_first() =~= rest);
                assert(ls =~= ls.subrange(0, i - 1) + more);
                lemma_tuples_concat(ls.subrange(0, i - 1), more);
                lemma_tuples_nonneg(ls.subrange(0, i - 1));
                lemma_tuples_nonneg(rest);
                assert(more[0] == self.tries@[i - 1].0);
            }
            count = count + self.tries[i - 1].0.tuples();
            i = i - 1;
        }
        proof {
            assert(ls.subrange(0, ls.len() as int) =~= ls);
        }
        count
    }

    /// Provides a merging cursor over the top-level keys of all tries.
    pub fn cursor<'a>(&'a self) -> (r: CursorMerger<TrieCursor<'a, L>>)
        where L: TrieRef<'a>,
        requires
            self.wf(),
        ensures
            r.wf(),
            r.keys_ahead() == Set::new(|k: u32| exists|t: int| 0 <= t < self.tries().len() && holds(self.tries(), t, k)),
            r.items_ahead() == items_of_cursors(
                Seq::new(self.tries().len(), |i: int| self.tries()[i].0.cursor_at(0, self.tries()[i].0.key_count() as int)),
            ),
    {
        let mut cursors: Vec<TrieCursor<'a, L>> = Vec::new();
        let mut i: usize = 0;
        while i < self.tries.len()
            invariant
                i <= self.tries@.len(),
                self.wf(),
                cursors@.len() == i,
                forall|j: int| 0 <= j < i ==> (#[trigger] cursors@[j]).wf() && cursors@[j].keys_left()
                    == keys_of(&self.tries@[j].0, 0, self.tries@[j].0.key_count() as int) && cursors@[j]
                    == self.tries@[j].0.cursor_at(0, self.tries@[j].0.key_count() as int),
            decreases self.tries@.len() - i,
        {
            proof {
                assert(self.tries@[i as int] == self.tries()[i as int]);
            }
            let c = self.tries[i].0.enumerate();
            cursors.push(c);
            i = i + 1;
        }
        let ghost cs = cursors@;
        let r = CursorMerger::from(cursors);
        proof {
            assert(cs =~= Seq::new(self.tries().len(), |i: int| self.tries()[i].0.cursor_at(0, self.tries()[i].0.key_count() as int)));
            let target = Set::new(|k: u32| exists|t: int| 0 <= t < self.tries().len() && holds(self.tries(), t, k));
            assert forall|k: u32| r.keys_ahead().contains(k) <==> target.contains(k) by {
                if r.keys_ahead().contains(k) {
                    let t = choose|t: int| 0 <= t < cs.len() && #[trigger] cs[t].keys_left().contains(k);
                    let o = choose|o: int| 0 <= o < cs[t].keys_left().len() && cs[t].keys_left()[o] == k;
                    assert(self.tries()[t].0.keys@[o].0 == k);
                    assert(holds(self.tries(), t, k));
                }
                if target.contains(k) {
                    let t = choose|t: int| 0 <= t < self.tries().len() && holds(self.tries(), t, k);
                    let o = choose|o: int| 0 <= o < self.tries()[t].0.keys@.len() && self.tries()[t].0.keys@[o].0 == k;
                    assert(cs[t].keys_left()[o] == k);
                    assert(cs[t].keys_left().contains(k));
                }
            }
            assert(r.keys_ahead() =~= target);
        }
        r
    }

    /// Fills `merger` with cursors over the inner keys under `key`, one per
    /// trie that holds it; leaves it empty if no trie does.
    pub fn get_into<'a>(&'a self, key: u32, merger: &mut CursorMerger<<L as TrieRef<'a>>::Cursor>)
        where L: TrieRef<'a>,
        requires
            self.wf(),
        ensures
            final(merger).wf(),
            final(merger).keys_ahead() == inner_keys(self.tries(), key),
            final(merger).items_ahead() == holder_items::<'a, L>(self.tries(), key, self.tries().len() as int),
    {
        merger.clear();
        let mut next = self.index.get(key);
        let ghost tries = self.tries();
        let ghost spill = self.spill();
        proof {
            assert(merger.keys_ahead() =~= Set::<u32>::empty());
            if next is Some {
                lemma_chain_inner(tries, spill, next.unwrap(), key);
            }
        }
        let ghost all = if next is Some {
            chain_inner(tries, spill, next.unwrap())
        } else {
            Set::<u32>::empty()
        };
        let ghost total = holder_items::<'a, L>(tries, key, tries.len() as int);
        proof {
            let heads = index_contents(self.index);
            if next is Some {
                let h = next.unwrap();
                lemma_chain_below(tries, spill, h, key);
                assert forall|t: int| h.0 + 1 <= t < tries.len() implies !holds(tries, t, key) by {
                    if holds(tries, t, key) {
                        assert(tries_with(tries, key).contains(t));
                    }
                }
                lemma_holders_gap::<'a, L>(tries, key, h.0 + 1, tries.len() as int);
            } else {
                assert forall|t: int| 0 <= t < tries.len() implies !holds(tries, t, key) by {
                    if holds(tries, t, key) {
                        assert(exists|t2: int| 0 <= t2 < tries.len() && holds(tries, t2, key));
                    }
                }
                lemma_holders_gap::<'a, L>(tries, key, 0, tries.len() as int);
            }
            assert(merger.items_ahead().add(holder_items::<'a, L>(tries, key, if next is Some { next.unwrap().0 + 1 } else { 0 })) =~= total);
        }
        while next.is_some()
            invariant
                self.wf(),
                tries == self.tries(),
                spill == self.spill(),
                merger.wf(),
                next is Some ==> chain_ok(tries, spill, next.unwrap(), key),
                next is Some ==> merger.keys_ahead().union(chain_inner(tries, spill, next.unwrap())) == all,
                next is None ==> merger.keys_ahead() == all,
                total == holder_items::<'a, L>(tries, key, tries.len() as int),
                merger.items_ahead().add(holder_items::<'a, L>(tries, key, if next is Some { next.unwrap().0 + 1 } else { 0 })) == total,
                next is Some ==> forall|t: int| #[trigger] chain_tries(tries, spill, next.unwrap()).contains(t) <==> (
                    tries_with(tries, key).contains(t) && t <= next.unwrap().0),
            decreases if next is Some { next.unwrap().0 + 1 } else { 0 },
        {
            let (index, offset, link) = next.unwrap();
            let ghost e = next.unwrap();
            proof {
                let layer = tries[index as int].0;
                assert(layer.wf());
                assert(layer.start(offset as int) < layer.end(offset as int) <= layer.vals.key_count()) by {
                    if offset > 0 {
                        assert(layer.keys@[offset - 1].1 < layer.keys@[offset as int].1);
                    }
                    if offset < layer.keys@.len() - 1 {
                        assert(layer.keys@[offset as int].1 < layer.keys@[layer.keys@.len() - 1].1);
                    }
                }
                assert(sorted(&layer.vals, layer.start(offset as int), layer.end(offset as int)));
            }
            let layer = &self.tries[index].0;
            let lower = if offset == 0 {
                0
            } else {
                layer.keys[offset - 1].1
            };
            let upper = layer.keys[offset].1;
            let c = layer.vals.cursor(lower, upper);
            let ghost before = merger.keys_ahead();
            let ghost before_items = merger.items_ahead();
            merger.push(c);
            next = match link {
                Some(s) => {
                    proof {
                        assert(link_ok(tries, spill, e));
                    }
                    Some((self.spill[s].index, self.spill[s].offset, self.spill[s].next))
                },
                None => None,
            };
            proof {
                let here = keys_of(&tries[index as int].0.vals, tries[index as int].0.start(offset as int), tries[index as int].0.end(offset as int)).to_set();
                if next is Some {
                    assert(next.unwrap() == spill[e.2.unwrap() as int].triple());
                    assert(chain_inner(tries, spill, e) == here.union(chain_inner(tries, spill, next.unwrap())));
                    assert(merger.keys_ahead().union(chain_inner(tries, spill, next.unwrap())) =~= before.union(chain_inner(tries, spill, e)));
                }
                // the items: this trie's cursor joins, and no trie between here and the next place holds the key
                let t0 = index as int;
                lemma_chain_below(tries, spill, e, key);
                assert(holds(tries, t0, key)) by {
                    assert(tries[t0].0.keys@[offset as int].0 == key);
                }
                let o = offset_of(tries, t0, key);
                assert(o == offset) by {
                    assert(sorted(&tries[t0].0, 0, tries[t0].0.key_count() as int));
                    if o != offset {
                        assert(tries[t0].0.key_at(o) != tries[t0].0.key_at(offset as int));
                    }
                }
                assert(holder_items::<'a, L>(tries, key, t0 + 1) == holder_items::<'a, L>(tries, key, t0).add(items_left(c).to_multiset()));
                if next is Some {
                    let nx = next.unwrap();
                    assert(nx == spill[e.2.unwrap() as int].triple());
                    assert(link_ok(tries, spill, e));
                    lemma_chain_below(tries, spill, nx, key);
                    assert(chain_tries(tries, spill, e) == chain_tries(tries, spill, nx).insert(t0));
                    assert forall|t: int| nx.0 + 1 <= t < t0 implies !holds(tries, t, key) by {
                        if holds(tries, t, key) {
                            assert(tries_with(tries, key).contains(t));
                            assert(chain_tries(tries, spill, e).contains(t));
                        }
                    }
                    lemma_holders_gap::<'a, L>(tries, key, nx.0 + 1, t0);
                    assert forall|t: int| #[trigger] chain_tries(tries, spill, nx).contains(t) <==> (
                        tries_with(tries, key).contains(t) && t <= nx.0) by {
                        if tries_with(tries, key).contains(t) && t <= nx.0 {
                            assert(chain_tries(tries, spill, e).contains(t));
                        }
                    }
                } else {
                    assert(chain_tries(tries, spill, e) == set![t0]);
                    assert forall|t: int| 0 <= t < t0 implies !holds(tries, t, key) by {
                        if holds(tries, t, key) {
                            assert(tries_with(tries, key).contains(t));
                            assert(chain_tries(tries, spill, e).contains(t));
                        }
                    }
                    lemma_holders_gap::<'a, L>(tries, key, 0, t0);
                }
                assert(merger.items_ahead().add(holder_items::<'a, L>(tries, key, if next is Some { next.unwrap().0 + 1 } else { 0 })) =~= total);
                if next is Some {
                } else {
                    assert(chain_inner(tries, spill, e) == here);
                    assert(merger.keys_ahead() =~= before.union(chain_inner(tries, spill, e)));
                }
            }
        }
        proof {
            let head = index_contents(self.index);
            if head.contains_key(key) {
                let h = head[key];
                assert(chain_tries(tries, spill, h) == tries_with(tries, key));
                assert forall|k2: u32| all.contains(k2) <==> inner_keys(tries, key).contains(k2) by {
                    if inner_keys(tries, key).contains(k2) {
                        let (t, o) = choose|t: int, o: int|
                            0 <= t < tries.len() && 0 <= o < tries[t].0.keys@.len() && tries[t].0.keys@[o].0 == key
                                && #[trigger] keys_of(&tries[t].0.vals, tries[t].0.start(o), tries[t].0.end(o)).contains(k2);
                        assert(holds(tries, t, key));
                        assert(tries_with(tries, key).contains(t));
                        assert(chain_tries(tries, spill, h).contains(t));
                    }
                }
                assert(all =~= inner_keys(tries, key));
            } else {
                assert forall|k2: u32| !inner_keys(tries, key).contains(k2) by {
                    if inner_keys(tries, key).contains(k2) {
                        let (t, o) = choose|t: int, o: int|
                            0 <= t < tries.len() && 0 <= o < tries[t].0.keys@.len() && tries[t].0.keys@[o].0 == key
                                && #[trigger] keys_of(&tries[t].0.vals, tries[t].0.start(o), tries[t].0.end(o)).contains(k2);
                        assert(holds(tries, t, key));
                    }
                }
                assert(all =~= inner_keys(tries, key));
            }
        }
    }
}

} // verus!
