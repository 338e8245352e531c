//! A k-way merge of cursors that share a key type.

use vstd::prelude::*;

use vstd::multiset::Multiset;
use vstd::seq_lib::lemma_multiset_commutative;

use crate::trie::Cursor;

verus! {

/// The keys that one merger entry still stands for: its front key, then the
/// keys left in its cursor.
pub open spec fn entry_keys<C: Cursor>(e: ((u32, C::Val), C)) -> Seq<u32> {
    seq![e.0.0] + e.1.keys_left()
}

/// A merger entry is consistent: its cursor is, and the front key comes
/// before every key left in the cursor.
pub open spec fn entry_ok<C: Cursor>(e: ((u32, C::Val), C)) -> bool {
    &&& e.1.wf()
    &&& e.1.vals_left().len() == e.1.keys_left().len()
    &&& forall|j: int| 0 <= j < e.1.keys_left().len() ==> e.0.0 < #[trigger] e.1.keys_left()[j]
}

/// The keys that some entry of `entries` stands for.
pub open spec fn keys_of_entries<C: Cursor>(entries: Seq<((u32, C::Val), C)>) -> Set<u32> {
    Set::new(|k: u32| exists|i: int| 0 <= i < entries.len() && #[trigger] entry_keys(entries[i]).contains(k))
}

/// The keys that some cursor of `cursors` has left.
pub open spec fn keys_of_cursors<C: Cursor>(cursors: Seq<C>) -> Set<u32> {
    Set::new(|k: u32| exists|i: int| 0 <= i < cursors.len() && #[trigger] cursors[i].keys_left().contains(k))
}

/// The items `(key, value)` that a cursor has left, in order.
pub open spec fn items_left<C: Cursor>(c: C) -> Seq<(u32, C::Val)> {
    Seq::new(c.keys_left().len(), |i: int| (c.keys_left()[i], c.vals_left()[i]))
}

/// The items that one merger entry stands for: its front item and the items
/// left in its cursor.
pub open spec fn entry_items<C: Cursor>(e: ((u32, C::Val), C)) -> Multiset<(u32, C::Val)> {
    items_left(e.1).to_multiset().insert((e.0.0, e.0.1))
}

/// The items that the entries of `entries` stand for.
pub open spec fn items_of_entries<C: Cursor>(entries: Seq<((u32, C::Val), C)>) -> Multiset<(u32, C::Val)>
    decreases entries.len(),
{
    if entries.len() == 0 {
        Multiset::empty()
    } else {
        items_of_entries(entries.drop_last()).add(entry_items(entries.last()))
    }
}

/// The items that the cursors of `cursors` have left.
pub open spec fn items_of_cursors<C: Cursor>(cursors: Seq<C>) -> Multiset<(u32, C::Val)>
    decreases cursors.len(),
{
    if cursors.len() == 0 {
        Multiset::empty()
    } else {
        items_of_cursors(cursors.drop_last()).add(items_left(cursors.last()).to_multiset())
    }
}

/// The items of a group of values that share `key`.
pub open spec fn group_items<V>(key: u32, vals: Seq<V>) -> Multiset<(u32, V)> {
    Seq::new(vals.len(), |i: int| (key, vals[i])).to_multiset()
}

/// Inserting an entry anywhere adds its items.
pub proof fn lemma_items_insert<C: Cursor>(s: Seq<((u32, C::Val), C)>, j: int, e: ((u32, C::Val), C))
    requires
        0 <= j <= s.len(),
    ensures
        items_of_entries(s.insert(j, e)) =~= items_of_entries(s).add(entry_items(e)),
    decreases s.len(),
{
    let t = s.insert(j, e);
    if j == s.len() {
        assert(t.drop_last() =~= s);
        assert(t.last() == e);
    } else {
        assert(t.drop_last() =~= s.drop_last().insert(j, e));
        assert(t.last() == s.last());
        lemma_items_insert(s.drop_last(), j, e);
    }
}

/// An item counted among the entries has its key among their keys.
pub proof fn lemma_items_keys<C: Cursor>(s: Seq<((u32, C::Val), C)>, x: (u32, C::Val))
    requires
        items_of_entries(s).count(x) > 0,
    ensures
        keys_of_entries(s).contains(x.0),
    decreases s.len(),
{
    if entry_items(s.last()).count(x) > 0 {
        lemma_entry_items_keys(s.last(), x);
        assert(s[s.len() - 1] == s.last());
    } else {
        lemma_items_keys(s.drop_last(), x);
        let i = choose|i: int| 0 <= i < s.drop_last().len() && #[trigger] entry_keys(s.drop_last()[i]).contains(x.0);
        assert(s[i] == s.drop_last()[i]);
    }
}

/// An item of an entry has its key among the entry's keys.
pub proof fn lemma_entry_items_keys<C: Cursor>(e: ((u32, C::Val), C), x: (u32, C::Val))
    requires
        entry_items(e).count(x) > 0,
    ensures
        entry_keys(e).contains(x.0),
{
    let l = items_left(e.1);
    l.to_multiset_ensures();
    if x == (e.0.0, e.0.1) {
        assert(entry_keys(e)[0] == x.0);
    } else {
        assert(l.contains(x));
        let i = choose|i: int| 0 <= i < l.len() && l[i] == x;
        assert(entry_keys(e)[i + 1] == x.0);
    }
}

/// The multiset of a non-empty sequence is its first element added to the
/// multiset of the rest.
pub proof fn lemma_multiset_first<A>(s: Seq<A>)
    requires
        s.len() > 0,
    ensures
        s.to_multiset() =~= s.drop_first().to_multiset().insert(s[0]),
{
    let one = seq![s[0]];
    assert(s =~= one + s.drop_first());
    lemma_multiset_commutative(one, s.drop_first());
    assert(one =~= Seq::<A>::empty().push(s[0]));
    Seq::<A>::empty().to_multiset_ensures();
    assert(Seq::<A>::empty().to_multiset() =~= Multiset::empty()) by {
        Seq::<A>::empty().to_multiset_ensures();
        assert forall|a: A| Seq::<A>::empty().to_multiset().count(a) == 0 by {
            assert(!Seq::<A>::empty().contains(a));
        }
    }
}

/// Putting a cursor in front adds the items it has left.
pub proof fn lemma_cursors_prepend<C: Cursor>(c: C, rest: Seq<C>)
    ensures
        items_of_cursors(seq![c] + rest) =~= items_of_cursors(rest).add(items_left(c).to_multiset()),
    decreases rest.len(),
{
    let s = seq![c] + rest;
    if rest.len() == 0 {
        assert(s.drop_last() =~= Seq::<C>::empty());
        assert(s.last() == c);
        assert(rest =~= Seq::<C>::empty());
        assert(items_of_cursors(s) == items_of_cursors(Seq::<C>::empty()).add(items_left(c).to_multiset()));
    } else {
        assert(s.drop_last() =~= seq![c] + rest.drop_last());
        assert(s.last() == rest.last());
        lemma_cursors_prepend(c, rest.drop_last());
        assert(items_of_cursors(s) == items_of_cursors(s.drop_last()).add(items_left(rest.last()).to_multiset()));
        assert(items_of_cursors(rest) == items_of_cursors(rest.drop_last()).add(items_left(rest.last()).to_multiset()));
    }
}

/// The items of a group grow by one with each value.
pub proof fn lemma_group_push<V>(key: u32, vals: Seq<V>, v: V)
    ensures
        group_items(key, vals.push(v)) =~= group_items(key, vals).insert((key, v)),
{
    let a = Seq::new(vals.len(), |i: int| (key, vals[i]));
    let b = Seq::new(vals.push(v).len(), |i: int| (key, vals.push(v)[i]));
    assert(b =~= a.push((key, v)));
    a.to_multiset_ensures();
}

/// Value `v` is the front value of the entry `i` places from the end of
/// `entries`, whose front key is `key`.
pub open spec fn in_group<C: Cursor>(entries: Seq<((u32, C::Val), C)>, i: int, key: u32, v: C::Val) -> bool {
    &&& entries[entries.len() - 1 - i].0.0 == key
    &&& entries[entries.len() - 1 - i].0.1 == v
}

/// The number of cursors of `cursors` that have items left.
pub open spec fn nonempty_count<C: Cursor>(cursors: Seq<C>) -> nat
    decreases cursors.len(),
{
    if cursors.len() == 0 {
        0
    } else {
        nonempty_count(cursors.drop_last()) + if cursors.last().keys_left().len() > 0 { 1nat } else { 0nat }
    }
}

/// Putting a cursor in front adds one to the count if it has items left.
pub proof fn lemma_nonempty_prepend<C: Cursor>(c: C, rest: Seq<C>)
    ensures
        nonempty_count(seq![c] + rest) == nonempty_count(rest) + if c.keys_left().len() > 0 { 1nat } else { 0nat },
    decreases rest.len(),
{
    let s = seq![c] + rest;
    if rest.len() == 0 {
        assert(s.drop_last() =~= Seq::<C>::empty());
        assert(s.last() == c);
        assert(rest =~= Seq::<C>::empty());
        assert(nonempty_count(s) == nonempty_count(Seq::<C>::empty()) + if c.keys_left().len() > 0 { 1nat } else { 0nat });
    } else {
        assert(s.drop_last() =~= seq![c] + rest.drop_last());
        assert(s.last() == rest.last());
        lemma_nonempty_prepend(c, rest.drop_last());
        assert(nonempty_count(s) == nonempty_count(s.drop_last()) + if rest.last().keys_left().len() > 0 { 1nat } else { 0nat });
    }
}

/// The entry `g` places from the end of `entries`.
pub open spec fn group_entry<C: Cursor>(entries: Seq<((u32, C::Val), C)>, g: int) -> ((u32, C::Val), C) {
    entries[entries.len() - 1 - g]
}

/// Every one of the last `c` entries whose cursor has keys left moves to a
/// front below `f`.
pub open spec fn moves_below<C: Cursor>(entries: Seq<((u32, C::Val), C)>, c: int, f: u32) -> bool {
    forall|g: int|
        0 <= g < c && (#[trigger] group_entry(entries, g)).1.keys_left().len() > 0 ==> group_entry(entries, g).1.keys_left()[0] < f
}

/// `k` is the least element of `s`.
pub open spec fn is_least(s: Set<u32>, k: u32) -> bool {
    s.contains(k) && forall|x: u32| s.contains(x) ==> k <= x
}

/// Adding an entry adds its keys.
pub proof fn lemma_entries_push<C: Cursor>(s: Seq<((u32, C::Val), C)>, e: ((u32, C::Val), C))
    ensures
        keys_of_entries(s.push(e)) == keys_of_entries(s).union(entry_keys(e).to_set()),
{
    let t = s.push(e);
    assert forall|k: u32| #[trigger] keys_of_entries(t).contains(k) == keys_of_entries(s).union(
        entry_keys(e).to_set(),
    ).contains(k) by {
        if keys_of_entries(t).contains(k) {
            let i = choose|i: int| 0 <= i < t.len() && #[trigger] entry_keys(t[i]).contains(k);
            if i < s.len() {
                assert(t[i] == s[i]);
            }
        }
        if keys_of_entries(s).contains(k) {
            let i = choose|i: int| 0 <= i < s.len() && #[trigger] entry_keys(s[i]).contains(k);
            assert(t[i] == s[i]);
        }
        if entry_keys(e).contains(k) {
            assert(t[s.len() as int] == e);
        }
    }
    assert(keys_of_entries(t) =~= keys_of_entries(s).union(entry_keys(e).to_set()));
}

/// A full traversal yields keys in strictly increasing order: the least key
/// that one `next` hands out is below the least key left for the next call.
pub proof fn lemma_next_increasing(s: Set<u32>, k1: u32, k2: u32)
    requires
        is_least(s, k1),
        is_least(s.remove(k1), k2),
    ensures
        k1 < k2,
{
    assert(s.contains(k2));
}

/// A cursor-like merge of several cursors.
///
/// Each entry holds the front item of one source cursor, already taken out
/// of it, and the cursor itself. Entries are ordered by decreasing front
/// key, so that the sources holding the least key sit at the end.
pub struct CursorMerger<C: Cursor> {
    pub cursors: Vec<((u32, C::Val), C)>,
}

/// The values of the sources that share one key, as the merger hands them
/// out: `vals[i]` is the front value of the entry `i` places from the end
/// of the merger, and `next` hands them out from the last one back, that is
/// in the order of their entries in the merger.
pub struct CursorView<C: Cursor> {
    pub key: u32,
    pub vals: Vec<C::Val>,
}

impl<C: Cursor> CursorView<C> {
    /// Returns the key being merged, unless all values have been consumed.
    pub fn key(&self) -> (r: Option<u32>)
        ensures
            self.vals@.len() > 0 ==> r == Some(self.key),
            self.vals@.len() == 0 ==> r is None,
    {
        if self.vals.len() > 0 {
            Some(self.key)
        } else {
            None
        }
    }

    /// Returns the number of values not yet consumed.
    pub fn len(&self) -> (r: usize)
        ensures
            r == self.vals@.len(),
    {
        self.vals.len()
    }

    /// Takes out the next value, if any: the last one of `vals`.
    pub fn next(&mut self) -> (r: Option<C::Val>)
        ensures
            old(self).vals@.len() == 0 ==> r is None && final(self).vals@ == old(self).vals@,
            old(self).vals@.len() > 0 ==> r == Some(old(self).vals@.last()) && final(self).vals@
                == old(self).vals@.drop_last(),
            final(self).key == old(self).key,
    {
        self.vals.pop()
    }
}

impl<C: Cursor> CursorMerger<C> {
    /// The front key of entry `i`.
    pub open spec fn front(&self, i: int) -> u32 {
        self.cursors@[i].0.0
    }

    /// The keys that the merger will still yield.
    pub open spec fn keys_ahead(&self) -> Set<u32> {
        keys_of_entries(self.cursors@)
    }

    /// The items `(key, value)` that the merger will still hand out.
    pub open spec fn items_ahead(&self) -> Multiset<(u32, C::Val)> {
        items_of_entries(self.cursors@)
    }

    /// Every entry is consistent, and fronts decrease along the entries.
    pub open spec fn wf(&self) -> bool {
        &&& forall|i: int| 0 <= i < self.cursors@.len() ==> entry_ok(#[trigger] self.cursors@[i])
        &&& forall|i: int, j: int| 0 <= i < j < self.cursors@.len() ==> self.front(j) <= self.front(i)
    }

    /// The least key ahead is the front of the last entry.
    pub proof fn lemma_least(&self)
        requires
            self.wf(),
            self.cursors@.len() > 0,
        ensures
            is_least(self.keys_ahead(), self.front(self.cursors@.len() - 1)),
    {
        let n = self.cursors@.len() as int;
        assert(entry_keys(self.cursors@[n - 1])[0] == self.front(n - 1));
        assert(entry_keys(self.cursors@[n - 1]).contains(self.front(n - 1)));
        assert(self.keys_ahead().contains(self.front(n - 1)));
        assert forall|x: u32| self.keys_ahead().contains(x) implies self.front(n - 1) <= x by {
            let i = choose|i: int| 0 <= i < n && #[trigger] entry_keys(self.cursors@[i]).contains(x);
            let s = entry_keys(self.cursors@[i]);
            let j = choose|j: int| 0 <= j < s.len() && s[j] == x;
            assert(entry_ok(self.cursors@[i]));
            if i < n - 1 {
                assert(self.front(n - 1) <= self.front(i));
            }
            if j > 0 {
                assert(s[j] == self.cursors@[i].1.keys_left()[j - 1]);
                assert(self.front(i) < self.cursors@[i].1.keys_left()[j - 1]);
            }
        }
    }

    /// Creates a new, empty merger.
    pub fn new() -> (r: Self)
        ensures
            r.wf(),
            r.cursors@.len() == 0,
            r.keys_ahead() == Set::<u32>::empty(),
            r.items_ahead() == Multiset::<(u32, C::Val)>::empty(),
    {
        let r = CursorMerger { cursors: Vec::new() };
        assert(r.keys_ahead() =~= Set::<u32>::empty());
        r
    }

    /// Clears the merger.
    pub fn clear(&mut self)
        ensures
            final(self).wf(),
            final(self).cursors@.len() == 0,
            final(self).keys_ahead() == Set::<u32>::empty(),
            final(self).items_ahead() == Multiset::<(u32, C::Val)>::empty(),
    {
        self.cursors.clear();
        assert(self.keys_ahead() =~= Set::<u32>::empty());
    }

    /// Reveals the next key, if one exists: the least key ahead.
    pub fn peek(&self) -> (r: Option<u32>)
        requires
            self.wf(),
        ensures
            r is None <==> self.keys_ahead() == Set::<u32>::empty(),
            r is Some ==> is_least(self.keys_ahead(), r.unwrap()),
    {
        let n = self.cursors.len();
        if n > 0 {
            proof {
                self.lemma_least();
            }
            Some(self.cursors[n - 1].0.0)
        } else {
            assert(self.keys_ahead() =~= Set::<u32>::empty());
            None
        }
    }

    /// Adds a cursor to the merge.
    pub fn push(&mut self, cursor: C)
        requires
            old(self).wf(),
            cursor.wf(),
        ensures
            final(self).wf(),
            final(self).keys_ahead() == old(self).keys_ahead().union(cursor.keys_left().to_set()),
            final(self).items_ahead() == old(self).items_ahead().add(items_left(cursor).to_multiset()),
            final(self).cursors@.len() == old(self).cursors@.len() + if cursor.keys_left().len() > 0 { 1int } else { 0int },
    {
        let mut cursor = cursor;
        let ghost its = items_left(cursor);
        let ghost ks = cursor.keys_left();
        proof {
            cursor.lemma_increasing();
        }
        match cursor.next() {
            Some(next) => {
                let entry = (next, cursor);
                proof {
                    assert(entry_keys(entry) =~= ks);
                    assert forall|j: int| 0 <= j < entry.1.keys_left().len() implies entry.0.0
                        < #[trigger] entry.1.keys_left()[j] by {
                        assert(entry.1.keys_left()[j] == ks[j + 1]);
                    }
                    lemma_multiset_first(its);
                    assert(items_left(entry.1) =~= its.drop_first());
                    assert(entry_items(entry) =~= its.to_multiset());
                }
                self.insert_sorted(entry);
            },
            None => {
                assert(ks.to_set() =~= Set::<u32>::empty());
                assert(self.keys_ahead() =~= old(self).keys_ahead().union(ks.to_set()));
                proof {
                    assert(its =~= Seq::<(u32, C::Val)>::empty());
                    its.to_multiset_ensures();
                    assert(its.to_multiset() =~= Multiset::<(u32, C::Val)>::empty());
                }
                assert(self.items_ahead() =~= old(self).items_ahead().add(its.to_multiset()));
            },
        }
    }

    /// Refills the merger from cursors, re-using allocated memory.
    pub fn refill_from(&mut self, cursors: Vec<C>)
        requires
            forall|i: int| 0 <= i < cursors@.len() ==> (#[trigger] cursors@[i]).wf(),
        ensures
            final(self).wf(),
            final(self).keys_ahead() == keys_of_cursors(cursors@),
            final(self).items_ahead() == items_of_cursors(cursors@),
            final(self).cursors@.len() == nonempty_count(cursors@),
    {
        self.clear();
        let ghost all = cursors@;
        let mut cursors = cursors;
        proof {
            assert(keys_of_cursors(all.subrange(0, 0)) =~= Set::<u32>::empty());
            assert(all.subrange(all.len() as int, all.len() as int) =~= Seq::<C>::empty());
        }
        while cursors.len() > 0
            invariant
                self.wf(),
                cursors@.len() <= all.len(),
                cursors@ == all.subrange(0, cursors@.len() as int),
                forall|i: int| 0 <= i < all.len() ==> (#[trigger] all[i]).wf(),
                self.keys_ahead() == keys_of_cursors(
                    all.subrange(cursors@.len() as int, all.len() as int),
                ),
                self.items_ahead() == items_of_cursors(
                    all.subrange(cursors@.len() as int, all.len() as int),
                ),
                self.cursors@.len() == nonempty_count(all.subrange(cursors@.len() as int, all.len() as int)),
            decreases cursors@.len(),
        {
            let ghost m = cursors@.len() as int;
            let c = cursors.pop().unwrap();
            assert(c == all[m - 1]);
            self.push(c);
            proof {
                let rest = all.subrange(m, all.len() as int);
                let more = all.subrange(m - 1, all.len() as int);
                assert(more =~= seq![c] + rest);
                assert forall|k: u32| #[trigger] keys_of_cursors(more).contains(k) == keys_of_cursors(
                    rest,
                ).union(c.keys_left().to_set()).contains(k) by {
                    if keys_of_cursors(more).contains(k) {
                        let i = choose|i: int| 0 <= i < more.len() && #[trigger] more[i].keys_left().contains(k);
                        if i > 0 {
                            assert(more[i] == rest[i - 1]);
                        }
                    }
                    if keys_of_cursors(rest).contains(k) {
                        let i = choose|i: int| 0 <= i < rest.len() && #[trigger] rest[i].keys_left().contains(k);
                        assert(more[i + 1] == rest[i]);
                    }
                    if c.keys_left().contains(k) {
                        assert(more[0] == c);
                    }
                }
                assert(keys_of_cursors(more) =~= keys_of_cursors(rest).union(c.keys_left().to_set()));
                lemma_cursors_prepend(c, rest);
                lemma_nonempty_prepend(c, rest);
            }
        }
        proof {
            assert(all.subrange(0, all.len() as int) =~= all);
        }
    }

    /// Constructs a new merger from cursors.
    pub fn from(cursors: Vec<C>) -> (r: Self)
        requires
            forall|i: int| 0 <= i < cursors@.len() ==> (#[trigger] cursors@[i]).wf(),
        ensures
            r.wf(),
            r.keys_ahead() == keys_of_cursors(cursors@),
            r.items_ahead() == items_of_cursors(cursors@),
            r.cursors@.len() == nonempty_count(cursors@),
    {
        let mut result = Self::new();
        result.refill_from(cursors);
        result
    }

    /// Takes an entry whose front was consumed, advances its cursor, and
    /// keeps it in `moved` unless the cursor is drained.
    fn advance_entry(moved: &mut Vec<((u32, C::Val), C)>, cursor: C, bound: u32)
        requires
            cursor.wf(),
            forall|i: int| 0 <= i < old(moved)@.len() ==> entry_ok(#[trigger] old(moved)@[i]) && bound
                <= old(moved)@[i].0.0,
            forall|j: int| 0 <= j < cursor.keys_left().len() ==> bound <= #[trigger] cursor.keys_left()[j],
        ensures
            forall|i: int| 0 <= i < final(moved)@.len() ==> entry_ok(#[trigger] final(moved)@[i]) && bound
                <= final(moved)@[i].0.0,
            keys_of_entries(final(moved)@) == keys_of_entries(old(moved)@).union(cursor.keys_left().to_set()),
            items_of_entries(final(moved)@) == items_of_entries(old(moved)@).add(items_left(cursor).to_multiset()),
            cursor.keys_left().len() > 0 ==> final(moved)@.len() == old(moved)@.len() + 1 && final(moved)@.drop_last()
                == old(moved)@ && final(moved)@.last().0.0 == cursor.keys_left()[0],
            cursor.keys_left().len() == 0 ==> final(moved)@ == old(moved)@,
    {
        let mut cursor = cursor;
        let ghost its = items_left(cursor);
        let ghost ks = cursor.keys_left();
        proof {
            cursor.lemma_increasing();
        }
        match cursor.next() {
            Some(next) => {
                let entry = (next, cursor);
                proof {
                    assert(entry_keys(entry) =~= ks);
                    assert forall|j: int| 0 <= j < entry.1.keys_left().len() implies entry.0.0
                        < #[trigger] entry.1.keys_left()[j] by {
                        assert(entry.1.keys_left()[j] == ks[j + 1]);
                    }
                    lemma_entries_push(old(moved)@, entry);
                    lemma_multiset_first(its);
                    assert(items_left(entry.1) =~= its.drop_first());
                    assert(entry_items(entry) =~= its.to_multiset());
                }
                moved.push(entry);
                proof {
                    assert(moved@.drop_last() =~= old(moved)@);
                }
            },
            None => {
                assert(ks.to_set() =~= Set::<u32>::empty());
                assert(keys_of_entries(old(moved)@).union(ks.to_set()) =~= keys_of_entries(old(moved)@));
                proof {
                    assert(its =~= Seq::<(u32, C::Val)>::empty());
                    its.to_multiset_ensures();
                    assert(its.to_multiset() =~= Multiset::<(u32, C::Val)>::empty());
                }
                assert(items_of_entries(old(moved)@).add(its.to_multiset()) =~= items_of_entries(old(moved)@));
            },
        }
    }

    /// Puts the entries of `moved` back in order.
    fn reinsert(&mut self, moved: Vec<((u32, C::Val), C)>)
        requires
            old(self).wf(),
            forall|i: int| 0 <= i < moved@.len() ==> entry_ok(#[trigger] moved@[i]),
        ensures
            final(self).wf(),
            final(self).keys_ahead() == old(self).keys_ahead().union(keys_of_entries(moved@)),
            final(self).items_ahead() == old(self).items_ahead().add(items_of_entries(moved@)),
            final(self).cursors@.len() == old(self).cursors@.len() + moved@.len(),
            forall|i: int|
                0 <= i < old(self).cursors@.len() && (forall|k: int| 0 <= k < moved@.len() ==> #[trigger] moved@[k].0.0
                    < old(self).front(i)) ==> #[trigger] final(self).cursors@[i] == old(self).cursors@[i],
    {
        let ghost all = moved@;
        let mut moved = moved;
        proof {
            assert(all.subrange(0, all.len() as int) =~= all);
        }
        while moved.len() > 0
            invariant
                self.wf(),
                moved@.len() <= all.len(),
                moved@ == all.subrange(0, moved@.len() as int),
                forall|i: int| 0 <= i < all.len() ==> entry_ok(#[trigger] all[i]),
                old(self).keys_ahead().union(keys_of_entries(all)) == self.keys_ahead().union(
                    keys_of_entries(moved@),
                ),
                old(self).items_ahead().add(items_of_entries(all)) == self.items_ahead().add(
                    items_of_entries(moved@),
                ),
                self.cursors@.len() == old(self).cursors@.len() + (all.len() - moved@.len()),
                forall|i: int|
                    0 <= i < old(self).cursors@.len() && (forall|k: int| 0 <= k < all.len() ==> #[trigger] all[k].0.0
                        < old(self).front(i)) ==> #[trigger] self.cursors@[i] == old(self).cursors@[i],
            decreases moved@.len(),
        {
            let ghost m = moved@.len() as int;
            let e = moved.pop().unwrap();
            proof {
                assert(moved@.push(e) =~= all.subrange(0, m));
                lemma_entries_push(moved@, e);
            }
            let ghost before = self.keys_ahead();
            let ghost before_items = self.items_ahead();
            let ghost before_entries = self.cursors@;
            let ghost sb = *self;
            self.insert_sorted(e);
            proof {
                let j = choose|j: int|
                    0 <= j <= sb.cursors@.len() && self.cursors@ == sb.cursors@.insert(j, e)
                        && (forall|i: int| 0 <= i < j ==> e.0.0 <= #[trigger] sb.front(i))
                        && (forall|i: int| j <= i < sb.cursors@.len() ==> #[trigger] sb.front(i) < e.0.0);
                assert forall|i: int|
                    0 <= i < old(self).cursors@.len() && (forall|k: int| 0 <= k < all.len() ==> #[trigger] all[k].0.0
                        < old(self).front(i)) implies #[trigger] self.cursors@[i] == old(self).cursors@[i] by {
                    assert(all[m - 1] == e);
                    assert(e.0.0 < old(self).front(i));
                    assert(before_entries[i] == old(self).cursors@[i]);
                    assert(sb.front(i) == old(self).front(i));
                    if j <= i {
                        assert(sb.front(i) < e.0.0);
                    }
                }
                assert(self.keys_ahead().union(keys_of_entries(moved@)) =~= before.union(
                    keys_of_entries(all.subrange(0, m)),
                ));
                assert(all.subrange(0, m).drop_last() =~= moved@);
                assert(all.subrange(0, m).last() == e);
                assert(self.items_ahead().add(items_of_entries(moved@)) =~= before_items.add(
                    items_of_entries(all.subrange(0, m)),
                ));
            }
        }
        proof {
            assert(keys_of_entries(moved@) =~= Set::<u32>::empty());
            assert(self.keys_ahead().union(keys_of_entries(moved@)) =~= self.keys_ahead());
            assert(self.items_ahead().add(items_of_entries(moved@)) =~= self.items_ahead());
        }
    }

    /// Hands out the values of the sources that hold the least key ahead,
    /// and advances past that key.
    pub fn next(&mut self) -> (r: Option<CursorView<C>>)
        requires
            old(self).wf(),
        ensures
            final(self).wf(),
            r is None <==> old(self).keys_ahead() == Set::<u32>::empty(),
            r is None ==> final(self).keys_ahead() == Set::<u32>::empty(),
            r is Some ==> {
                &&& is_least(old(self).keys_ahead(), r.unwrap().key)
                &&& final(self).keys_ahead() == old(self).keys_ahead().remove(r.unwrap().key)
                &&& r.unwrap().vals@.len() > 0
                &&& old(self).items_ahead() == final(self).items_ahead().add(group_items(r.unwrap().key, r.unwrap().vals@))
                &&& forall|v: C::Val| #[trigger] final(self).items_ahead().count((r.unwrap().key, v)) == 0
                &&& r.unwrap().vals@.len() <= old(self).cursors@.len()
                &&& forall|i: int| 0 <= i < r.unwrap().vals@.len() ==> #[trigger] in_group(old(self).cursors@, i, r.unwrap().key, r.unwrap().vals@[i])
                &&& forall|i: int|
                    0 <= i < old(self).cursors@.len() - r.unwrap().vals@.len() && moves_below(old(self).cursors@, r.unwrap().vals@.len() as int, old(self).front(i))
                        ==> #[trigger] final(self).cursors@[i] == old(self).cursors@[i]
                &&& r.unwrap().vals@.len() < old(self).cursors@.len() ==> old(self).front(
                    old(self).cursors@.len() - 1 - r.unwrap().vals@.len(),
                ) != r.unwrap().key
            },
    {
        let n = self.cursors.len();
        if n == 0 {
            assert(self.keys_ahead() =~= Set::<u32>::empty());
            return None;
        }
        proof {
            self.lemma_least();
        }
        let key = self.cursors[n - 1].0.0;
        let mut vals: Vec<C::Val> = Vec::new();
        let mut moved: Vec<((u32, C::Val), C)> = Vec::new();
        proof {
            assert(self.cursors@.subrange(0, n as int) =~= self.cursors@);
            assert(keys_of_entries(moved@) =~= Set::<u32>::empty());
            assert(self.keys_ahead().union(keys_of_entries(moved@)) =~= self.keys_ahead());
            assert(group_items(key, vals@) =~= Multiset::<(u32, C::Val)>::empty()) by {
                let g = Seq::new(vals@.len(), |i: int| (key, vals@[i]));
                assert(g =~= Seq::<(u32, C::Val)>::empty());
                g.to_multiset_ensures();
            }
            assert(old(self).items_ahead() =~= self.items_ahead().add(items_of_entries(moved@)).add(group_items(key, vals@)));
        }
        while self.cursors.len() > 0 && self.cursors[self.cursors.len() - 1].0.0 == key
            invariant
                self.cursors@.len() <= n,
                self.cursors@ == old(self).cursors@.subrange(0, self.cursors@.len() as int),
                old(self).wf(),
                n == old(self).cursors@.len(),
                key == old(self).front(n - 1),
                vals@.len() == n - self.cursors@.len(),
                forall|i: int| 0 <= i < moved@.len() ==> entry_ok(#[trigger] moved@[i]) && key
                    <= moved@[i].0.0,
                forall|k: u32| #[trigger] keys_of_entries(moved@).contains(k) ==> key < k,
                old(self).keys_ahead().remove(key) == self.keys_ahead().union(keys_of_entries(moved@)).remove(key),
                old(self).items_ahead() == self.items_ahead().add(items_of_entries(moved@)).add(group_items(key, vals@)),
                forall|i: int| 0 <= i < vals@.len() ==> #[trigger] in_group(old(self).cursors@, i, key, vals@[i]),
                forall|k: int| 0 <= k < moved@.len() ==> exists|g: int| 0 <= g < vals@.len() && (#[trigger] group_entry(old(self).cursors@, g)).1.keys_left().len() > 0
                    && #[trigger] moved@[k].0.0 == group_entry(old(self).cursors@, g).1.keys_left()[0],
            decreases self.cursors@.len(),
        {
            let ghost m = self.cursors@.len() as int;
            let ghost prev = self.cursors@;
            let ghost moved_before = moved@;
            let ghost vals_before = vals@;
            let ghost items_before = self.items_ahead();
            let ghost moved_items_before = items_of_entries(moved@);
            let ((front, val), cursor) = self.cursors.pop().unwrap();
            proof {
                assert(prev[m - 1] == old(self).cursors@[m - 1]);
                assert(entry_ok(old(self).cursors@[m - 1]));
                assert(self.cursors@.push(prev[m - 1]) =~= prev);
                lemma_entries_push(self.cursors@, prev[m - 1]);
                assert(self.cursors@ =~= old(self).cursors@.subrange(0, self.cursors@.len() as int));
            }
            vals.push(val);
            let ghost ks = cursor.keys_left();
            let ghost src = cursor;
            Self::advance_entry(&mut moved, cursor, key);
            proof {
                let g0 = vals_before.len() as int;
                assert(group_entry(old(self).cursors@, g0) == old(self).cursors@[m - 1]);
                assert(old(self).cursors@[m - 1].1 == src);
                assert forall|k: int| 0 <= k < moved@.len() implies exists|g: int| 0 <= g < vals@.len() && (#[trigger] group_entry(old(self).cursors@, g)).1.keys_left().len() > 0
                    && #[trigger] moved@[k].0.0 == group_entry(old(self).cursors@, g).1.keys_left()[0] by {
                    if k < moved_before.len() {
                        assert(moved@[k] == moved_before[k]);
                        let g = choose|g: int| 0 <= g < vals_before.len() && (#[trigger] group_entry(old(self).cursors@, g)).1.keys_left().len() > 0
                            && moved_before[k].0.0 == group_entry(old(self).cursors@, g).1.keys_left()[0];
                        assert(0 <= g < vals@.len());
                    } else {
                        assert(moved@[k] == moved@.last());
                        assert(0 <= g0 < vals@.len());
                    }
                }
            }
            proof {
                let e = entry_keys(prev[m - 1]);
                assert(e =~= seq![key] + ks);
                assert forall|k: u32| #[trigger] e.contains(k) <==> (k == key || ks.contains(k)) by {
                    if e.contains(k) {
                        let j = choose|j: int| 0 <= j < e.len() && e[j] == k;
                        if j > 0 {
                            assert(ks[j - 1] == k);
                        }
                    }
                    if ks.contains(k) {
                        let j = choose|j: int| 0 <= j < ks.len() && ks[j] == k;
                        assert(e[j + 1] == k);
                    }
                    if k == key {
                        assert(e[0] == k);
                    }
                }
                assert forall|k: u32| #[trigger] keys_of_entries(moved@).contains(k) implies key < k by {
                    if !keys_of_entries(moved_before).contains(k) {
                        assert(ks.to_set().contains(k));
                        let j = choose|j: int| 0 <= j < ks.len() && ks[j] == k;
                        assert(key < ks[j]);
                    }
                }
                assert(old(self).keys_ahead().remove(key) =~= self.keys_ahead().union(
                    keys_of_entries(moved@),
                ).remove(key));
                // the popped entry's items: its front goes to the group, the rest moves
                assert(prev.drop_last() =~= self.cursors@);
                assert(items_before == self.items_ahead().add(entry_items(prev[m - 1])));
                assert(prev[m - 1].0.0 == key);
                assert(prev[m - 1].0.1 == val);
                lemma_group_push(key, vals_before, val);
                assert forall|i: int| 0 <= i < vals@.len() implies #[trigger] in_group(old(self).cursors@, i, key, vals@[i]) by {
                    if i < vals_before.len() {
                        assert(vals@[i] == vals_before[i]);
                    } else {
                        assert(i == n - m);
                        assert(vals@[i] == val);
                    }
                }
                assert(old(self).items_ahead() =~= self.items_ahead().add(items_of_entries(moved@)).add(
                    group_items(key, vals@),
                ));
            }
            assert(vals@.len() == n - self.cursors@.len());
            assert(vals@[vals@.len() - 1] == old(self).cursors@[self.cursors@.len() as int].0.1);
            assert(old(self).front(self.cursors@.len() as int) == key);
            assert(vals@.drop_last() == vals_before);
        }
        proof {
            // what stays in place lies above the key
            let len = self.cursors@.len() as int;
            assert forall|i: int| 0 <= i < len implies entry_ok(#[trigger] self.cursors@[i]) by {
                assert(self.cursors@[i] == old(self).cursors@[i]);
            }
            assert forall|i: int, j: int| 0 <= i < j < len implies self.front(j) <= self.front(i) by {
                assert(self.cursors@[i] == old(self).cursors@[i]);
                assert(self.cursors@[j] == old(self).cursors@[j]);
                assert(old(self).front(j) <= old(self).front(i));
            }
            if len > 0 {
                assert(self.cursors@[len - 1] == old(self).cursors@[len - 1]);
                assert(key <= old(self).front(len - 1));
                self.lemma_least();
            }
            assert(!self.keys_ahead().contains(key));
            assert(!keys_of_entries(moved@).contains(key));
            assert(len == n - vals@.len());
            if len > 0 {
                assert(self.cursors@[len - 1] == old(self).cursors@[len - 1]);
                assert(self.front(len - 1) != key);
                assert(old(self).front(n - 1 - vals@.len()) != key);
            }
        }
        let ghost mv = moved@;
        let ghost pre = self.cursors@;
        self.reinsert(moved);
        proof {
            assert forall|i: int|
                0 <= i < old(self).cursors@.len() - vals@.len() && moves_below(old(self).cursors@, vals@.len() as int, old(self).front(i))
                    implies #[trigger] self.cursors@[i] == old(self).cursors@[i] by {
                assert(pre[i] == old(self).cursors@[i]);
                assert forall|k: int| 0 <= k < mv.len() implies #[trigger] mv[k].0.0 < pre[i].0.0 by {
                    let g = choose|g: int| 0 <= g < vals@.len() && (#[trigger] group_entry(old(self).cursors@, g)).1.keys_left().len() > 0
                        && mv[k].0.0 == group_entry(old(self).cursors@, g).1.keys_left()[0];
                }
            }
            assert(self.keys_ahead() =~= old(self).keys_ahead().remove(key));
            assert forall|v: C::Val| #[trigger] self.items_ahead().count((key, v)) == 0 by {
                if self.items_ahead().count((key, v)) > 0 {
                    lemma_items_keys(self.cursors@, (key, v));
                }
            }
        }
        Some(CursorView { key, vals })
    }

    /// Advances the merger to the first key at least as large as `key`.
    pub fn seek(&mut self, key: u32)
        requires
            old(self).wf(),
        ensures
            final(self).wf(),
            final(self).keys_ahead() == old(self).keys_ahead().filter(|k: u32| key <= k),
            forall|x: (u32, C::Val)| #[trigger] final(self).items_ahead().count(x) == if key <= x.0 {
                old(self).items_ahead().count(x)
            } else {
                0
            },
    {
        let ghost n = self.cursors@.len();
        let mut moved: Vec<((u32, C::Val), C)> = Vec::new();
        proof {
            assert(self.cursors@.subrange(0, n as int) =~= self.cursors@);
            assert(keys_of_entries(moved@) =~= Set::<u32>::empty());
            assert(self.keys_ahead().union(keys_of_entries(moved@)) =~= self.keys_ahead());
        }
        while self.cursors.len() > 0 && self.cursors[self.cursors.len() - 1].0.0 < key
            invariant
                self.cursors@.len() <= n,
                self.cursors@ == old(self).cursors@.subrange(0, self.cursors@.len() as int),
                old(self).wf(),
                n == old(self).cursors@.len(),
                forall|i: int| 0 <= i < moved@.len() ==> entry_ok(#[trigger] moved@[i]) && key
                    <= moved@[i].0.0,
                forall|k: u32| #[trigger] keys_of_entries(moved@).contains(k) ==> key <= k,
                old(self).keys_ahead().filter(|k: u32| key <= k) == self.keys_ahead().union(
                    keys_of_entries(moved@),
                ).filter(|k: u32| key <= k),
                forall|x: (u32, C::Val)| key <= x.0 ==> #[trigger] old(self).items_ahead().count(x)
                    == self.items_ahead().add(items_of_entries(moved@)).count(x),
                forall|x: (u32, C::Val)| #[trigger] items_of_entries(moved@).count(x) > 0 ==> key <= x.0,
            decreases self.cursors@.len(),
        {
            let ghost m = self.cursors@.len() as int;
            let ghost prev = self.cursors@;
            let ghost moved_before = moved@;
            let ghost items_before = self.items_ahead();
            let (front, mut cursor) = self.cursors.pop().unwrap();
            let ghost its = items_left(cursor);
            proof {
                assert(prev[m - 1] == old(self).cursors@[m - 1]);
                assert(entry_ok(old(self).cursors@[m - 1]));
                assert(self.cursors@.push(prev[m - 1]) =~= prev);
                lemma_entries_push(self.cursors@, prev[m - 1]);
                assert(self.cursors@ =~= old(self).cursors@.subrange(0, self.cursors@.len() as int));
            }
            let ghost ks = cursor.keys_left();
            cursor.seek(key);
            proof {
                cursor.lemma_increasing();
                let kept = cursor.keys_left();
                assert forall|j: int| 0 <= j < kept.len() implies key <= #[trigger] kept[j] by {
                    if j > 0 {
                        assert(kept[0] < kept[j]);
                    }
                }
                let skipped = ks.len() - kept.len();
                assert forall|k: u32| #[trigger] entry_keys(prev[m - 1]).contains(k) && key <= k
                    implies kept.contains(k) by {
                    let s = entry_keys(prev[m - 1]);
                    let j = choose|j: int| 0 <= j < s.len() && s[j] == k;
                    assert(j > 0);
                    assert(s[j] == ks[j - 1]);
                    assert(j - 1 >= skipped);
                    assert(kept[j - 1 - skipped] == k);
                }
                assert forall|k: u32| kept.contains(k) implies #[trigger] entry_keys(prev[m - 1]).contains(k) by {
                    let j = choose|j: int| 0 <= j < kept.len() && kept[j] == k;
                    assert(entry_keys(prev[m - 1])[j + skipped + 1] == k);
                }
                // the items that stay are those from the key on
                let its2 = items_left(cursor);
                let pre = its.subrange(0, skipped);
                let post = its.subrange(skipped, its.len() as int);
                assert(its2 =~= post);
                assert(its =~= pre + post);
                lemma_multiset_commutative(pre, post);
                pre.to_multiset_ensures();
                post.to_multiset_ensures();
                assert forall|x: (u32, C::Val)| key <= x.0 implies #[trigger] entry_items(prev[m - 1]).count(x)
                    == its2.to_multiset().count(x) by {
                    if pre.to_multiset().count(x) > 0 {
                        assert(pre.contains(x));
                        let j = choose|j: int| 0 <= j < pre.len() && pre[j] == x;
                        assert(ks[j] < key);
                    }
                    assert(prev[m - 1].0.0 == front.0);
                    assert(front.0 < key);
                }
                assert forall|x: (u32, C::Val)| #[trigger] its2.to_multiset().count(x) > 0 implies key <= x.0 by {
                    assert(its2.contains(x));
                    let j = choose|j: int| 0 <= j < its2.len() && its2[j] == x;
                    assert(x.0 == kept[j]);
                }
                assert(prev.drop_last() =~= self.cursors@);
                assert(items_before == self.items_ahead().add(entry_items(prev[m - 1])));
            }
            Self::advance_entry(&mut moved, cursor, key);
            proof {
                assert(old(self).keys_ahead().filter(|k: u32| key <= k) =~= self.keys_ahead().union(
                    keys_of_entries(moved@),
                ).filter(|k: u32| key <= k));
            }
        }
        proof {
            let len = self.cursors@.len() as int;
            assert forall|i: int| 0 <= i < len implies entry_ok(#[trigger] self.cursors@[i]) by {
                assert(self.cursors@[i] == old(self).cursors@[i]);
            }
            assert forall|i: int, j: int| 0 <= i < j < len implies self.front(j) <= self.front(i) by {
                assert(self.cursors@[i] == old(self).cursors@[i]);
                assert(self.cursors@[j] == old(self).cursors@[j]);
                assert(old(self).front(j) <= old(self).front(i));
            }
            if len > 0 {
                assert(self.cursors@[len - 1] == old(self).cursors@[len - 1]);
                self.lemma_least();
            }
        }
        let ghost stay = self.keys_ahead();
        let ghost gone = keys_of_entries(moved@);
        self.reinsert(moved);
        proof {
            assert(stay.union(gone).filter(|k: u32| key <= k) =~= stay.union(gone));
            assert(self.keys_ahead() =~= old(self).keys_ahead().filter(|k: u32| key <= k));
            assert forall|x: (u32, C::Val)| #[trigger] self.items_ahead().count(x) == if key <= x.0 {
                old(self).items_ahead().count(x)
            } else {
                0
            } by {
                if x.0 < key && self.items_ahead().count(x) > 0 {
                    lemma_items_keys(self.cursors@, x);
                }
            }
        }
    }

    /// Inserts an entry where its front key keeps the order.
    fn insert_sorted(&mut self, entry: ((u32, C::Val), C))
        requires
            old(self).wf(),
            entry_ok(entry),
        ensures
            final(self).wf(),
            final(self).keys_ahead() == old(self).keys_ahead().union(entry_keys(entry).to_set()),
            final(self).items_ahead() == old(self).items_ahead().add(entry_items(entry)),
            exists|j: int|
                0 <= j <= old(self).cursors@.len() && final(self).cursors@ == old(self).cursors@.insert(j, entry)
                    && (forall|i: int| 0 <= i < j ==> entry.0.0 <= #[trigger] old(self).front(i))
                    && (forall|i: int| j <= i < old(self).cursors@.len() ==> #[trigger] old(self).front(i) < entry.0.0),
    {
        let mut j = self.cursors.len();
        while j > 0 && self.cursors[j - 1].0.0 < entry.0.0
            invariant
                self.wf(),
                self.cursors@ == old(self).cursors@,
                j <= self.cursors@.len(),
                forall|i: int| j <= i < self.cursors@.len() ==> self.front(i) < entry.0.0,
            decreases j,
        {
            j = j - 1;
        }
        let ghost before = self.cursors@;
        self.cursors.insert(j, entry);
        proof {
            let after = self.cursors@;
            assert(after == before.insert(j as int, entry));
            assert forall|i: int| 0 <= i < after.len() implies entry_ok(#[trigger] after[i]) by {
                if i < j {
                    assert(after[i] == before[i]);
                } else if i > j {
                    assert(after[i] == before[i - 1]);
                }
            }
            assert forall|x: int, y: int| 0 <= x < y < after.len() implies self.front(y) <= self.front(x) by {
                if y < j {
                    assert(old(self).front(y) <= old(self).front(x));
                } else if y == j {
                    assert(old(self).front(j - 1) <= old(self).front(x) || x == j - 1);
                    assert(entry.0.0 <= old(self).front(j - 1));
                } else if x < j {
                    assert(old(self).front(y - 1) <= old(self).front(x));
                } else if x == j {
                    assert(old(self).front(y - 1) < entry.0.0);
                } else {
                    assert(old(self).front(y - 1) <= old(self).front(x - 1));
                }
            }
            assert forall|k: u32| #[trigger] self.keys_ahead().contains(k) == old(self).keys_ahead().union(
                entry_keys(entry).to_set(),
            ).contains(k) by {
                if self.keys_ahead().contains(k) {
                    let i = choose|i: int| 0 <= i < after.len() && #[trigger] entry_keys(after[i]).contains(k);
                    if i < j {
                        assert(after[i] == before[i]);
                    } else if i > j {
                        assert(after[i] == before[i - 1]);
                    }
                }
                if old(self).keys_ahead().contains(k) {
                    let i = choose|i: int| 0 <= i < before.len() && #[trigger] entry_keys(before[i]).contains(k);
                    if i < j {
                        assert(after[i] == before[i]);
                    } else {
                        assert(after[i + 1] == before[i]);
                    }
                }
                if entry_keys(entry).to_set().contains(k) {
                    assert(after[j as int] == entry);
                }
            }
            assert(self.keys_ahead() =~= old(self).keys_ahead().union(entry_keys(entry).to_set()));
            lemma_items_insert(before, j as int, entry);
            assert forall|i: int| 0 <= i < j implies entry.0.0 <= #[trigger] old(self).front(i) by {
                assert(old(self).front(j - 1) <= old(self).front(i) || i == j - 1);
            }
            assert(0 <= j <= old(self).cursors@.len() && self.cursors@ == old(self).cursors@.insert(j as int, entry));
        }
    }
}

} // verus!
