use trie::{Arbor, CursorMerger, Cursor, TrieLayer};

type Leaf = Vec<(u32, i32)>;

/// Walks a leaf arbor and sums the weights of each key.
fn scan_leaf(arbor: &Arbor<Leaf>) -> Vec<(u32, i32)> {
    let mut out = Vec::new();
    let mut merger = arbor.cursor();
    while let Some(mut view) = merger.next() {
        let key = view.key;
        let mut sum = 0;
        while let Some(w) = view.next() {
            sum += w;
        }
        if sum != 0 {
            out.push((key, sum));
        }
    }
    out
}

/// Walks a two-level arbor, merging the inner cursors of each key.
fn scan_pairs(arbor: &Arbor<TrieLayer<Leaf>>) -> Vec<(u32, u32, i32)> {
    let mut out = Vec::new();
    let mut outer = arbor.cursor();
    let mut inner = CursorMerger::new();
    while let Some(view) = outer.next() {
        let key = view.key;
        inner.refill_from(view.vals);
        while let Some(mut group) = inner.next() {
            let mut sum = 0;
            while let Some(w) = group.next() {
                sum += w;
            }
            if sum != 0 {
                out.push((key, group.key, sum));
            }
        }
    }
    out
}

#[test]
fn basic_ordered_insert() {
    let mut arbor: Arbor<Leaf> = Arbor::new();
    arbor.extend_ordered(vec![(1, 1), (2, 1), (3, 1)]);
    assert_eq!(scan_leaf(&arbor), vec![(1, 1), (2, 1), (3, 1)]);
    assert_eq!(arbor.size(), 3);
}

#[test]
fn two_batches_merge() {
    let mut arbor: Arbor<Leaf> = Arbor::new();
    arbor.extend_ordered(vec![(1, 1), (3, 1)]);
    arbor.extend_ordered(vec![(2, 1), (4, 1)]);
    assert_eq!(scan_leaf(&arbor), vec![(1, 1), (2, 1), (3, 1), (4, 1)]);
    assert_eq!(arbor.sizes().len(), 1);
    assert_eq!(arbor.size(), 4);
}

#[test]
fn cancellation() {
    let mut arbor: Arbor<Leaf> = Arbor::new();
    arbor.extend_ordered(vec![(1, 1), (2, 1)]);
    arbor.extend_ordered(vec![(1, -1), (3, 1)]);
    assert_eq!(scan_leaf(&arbor), vec![(2, 1), (3, 1)]);
    // both batches hold two tuples, so they merged and the pair cancelled
    assert_eq!(arbor.size(), 2);
    let mut keys = Vec::new();
    let mut merger = arbor.cursor();
    while let Some(view) = merger.next() {
        keys.push(view.key);
    }
    assert_eq!(keys, vec![2, 3]);
}

#[test]
fn geometric_stack() {
    let mut arbor: Arbor<Leaf> = Arbor::new();
    for k in [5u32, 3, 7, 1, 6, 2, 4] {
        arbor.extend_ordered(vec![(k, 1)]);
    }
    let sizes = arbor.sizes();
    for i in 1..sizes.len() {
        assert!(2 * sizes[i] < sizes[i - 1] + 1);
        assert!(sizes[i] <= sizes[i - 1] / 2);
    }
    assert_eq!(sizes.iter().sum::<usize>(), 7);
    assert_eq!(
        scan_leaf(&arbor),
        vec![(1, 1), (2, 1), (3, 1), (4, 1), (5, 1), (6, 1), (7, 1)]
    );
}

#[test]
fn geometric_stack_with_push() {
    let mut arbor: Arbor<Leaf> = Arbor::new();
    for k in 0u32..7 {
        arbor.push((k, 1));
    }
    let sizes = arbor.sizes();
    assert_eq!(sizes.iter().sum::<usize>(), 7);
    for i in 1..sizes.len() {
        assert!(sizes[i] <= sizes[i - 1] / 2);
    }
    assert_eq!(scan_leaf(&arbor).len(), 7);
}

#[test]
fn size_invariant_after_each_append() {
    let mut arbor: Arbor<Leaf> = Arbor::new();
    for round in 0u32..40 {
        let batch: Vec<(u32, i32)> = (0..(round % 5 + 1)).map(|i| (round * 10 + i, 1)).collect();
        arbor.extend_ordered(batch);
        let sizes = arbor.sizes();
        for i in 1..sizes.len() {
            assert!(sizes[i] <= sizes[i - 1] / 2);
        }
    }
}

#[test]
fn merge_cancellation_of_pairs() {
    let mut arbor: Arbor<TrieLayer<Leaf>> = Arbor::new();
    arbor.extend_ordered(vec![(1, (5, 1)), (2, (6, 1))]);
    arbor.extend_ordered(vec![(1, (5, -1)), (2, (7, 1))]);
    assert_eq!(scan_pairs(&arbor), vec![(2, 6, 1), (2, 7, 1)]);
    // key 1 lost its only tuple, so the merged trie has no entry for it
    let mut keys = Vec::new();
    let mut merger = arbor.cursor();
    while let Some(view) = merger.next() {
        keys.push(view.key);
    }
    assert_eq!(keys, vec![2]);
}

#[test]
fn faithful_representation() {
    let batches: Vec<Vec<(u32, (u32, i32))>> = vec![
        vec![(1, (1, 2)), (1, (4, 1)), (3, (2, 1))],
        vec![(1, (1, -2)), (2, (2, 1))],
        vec![(3, (2, 1)), (3, (3, 5))],
        vec![(0, (9, 1))],
        vec![(1, (4, 1)), (3, (3, -5))],
    ];
    let mut arbor: Arbor<TrieLayer<Leaf>> = Arbor::new();
    let mut expected: std::collections::BTreeMap<(u32, u32), i32> = std::collections::BTreeMap::new();
    for batch in batches {
        for &(k, (v, w)) in &batch {
            *expected.entry((k, v)).or_insert(0) += w;
        }
        arbor.extend_ordered(batch);
    }
    let expected: Vec<(u32, u32, i32)> =
        expected.into_iter().filter(|&(_, w)| w != 0).map(|((k, v), w)| (k, v, w)).collect();
    assert_eq!(scan_pairs(&arbor), expected);
}

#[test]
fn merger_seek_on_arbor() {
    let mut arbor: Arbor<Leaf> = Arbor::new();
    arbor.extend_ordered(vec![(1, 1), (5, 1), (9, 1)]);
    arbor.extend_ordered(vec![(4, 1)]);
    let mut merger = arbor.cursor();
    merger.seek(4);
    assert_eq!(merger.peek(), Some(4));
    merger.seek(6);
    assert_eq!(merger.peek(), Some(9));
    let view = merger.next().unwrap();
    assert_eq!(view.key, 9);
    assert_eq!(view.len(), 1);
    assert!(merger.next().is_none());
}

#[test]
fn three_level_tries() {
    let mut arbor: Arbor<TrieLayer<TrieLayer<Leaf>>> = Arbor::new();
    arbor.extend_ordered(vec![(1, (1, (1, 1))), (1, (2, (1, 1))), (2, (1, (3, 1)))]);
    arbor.extend_ordered(vec![(1, (2, (2, 1))), (2, (1, (3, 1)))]);
    let mut out = Vec::new();
    let mut top = arbor.cursor();
    while let Some(view) = top.next() {
        let mut mid = CursorMerger::from(view.vals);
        while let Some(mv) = mid.next() {
            let mut low = CursorMerger::from(mv.vals);
            while let Some(mut lv) = low.next() {
                let mut sum = 0;
                while let Some(w) = lv.next() {
                    sum += w;
                }
                out.push((view.key, mv.key, lv.key, sum));
            }
        }
    }
    assert_eq!(out, vec![(1, 1, 1, 1), (1, 2, 1, 1), (1, 2, 2, 1), (2, 1, 3, 2)]);
}

#[test]
fn trie_cursor_seek() {
    let mut arbor: Arbor<TrieLayer<Leaf>> = Arbor::new();
    arbor.extend_ordered(vec![(10, (1, 1)), (20, (1, 1)), (30, (2, 1)), (40, (1, 1))]);
    let mut merger = arbor.cursor();
    merger.seek(25);
    let view = merger.next().unwrap();
    assert_eq!(view.key, 30);
    let mut inner = view.vals;
    let mut c = inner.pop().unwrap();
    assert_eq!(c.size(), 1);
    assert_eq!(c.peek(), Some(2));
    assert_eq!(c.next(), Some((2, 1)));
}

#[test]
fn merge_rule_fixes_sizes() {
    let mut arbor: Arbor<Leaf> = Arbor::new();
    for k in 1u32..=7 {
        arbor.extend_ordered(vec![(k, 1)]);
    }
    assert_eq!(arbor.sizes(), vec![4, 2, 1]);
    let mut arbor: Arbor<Leaf> = Arbor::new();
    arbor.extend_ordered(vec![(1, 1), (3, 1)]);
    arbor.extend_ordered(vec![(2, 1), (4, 1)]);
    assert_eq!(arbor.sizes(), vec![4]);
    // a batch at most half the size of the last trie stays apart
    arbor.extend_ordered(vec![(9, 1), (10, 1)]);
    assert_eq!(arbor.sizes(), vec![4, 2]);
}

#[test]
fn merger_group_values_in_order() {
    let a = vec![(5u32, 10i32)];
    let b = vec![(5u32, 20i32)];
    let c = vec![(5u32, 30i32), (6, 1)];
    let mut m = CursorMerger::from(vec![
        trie::SliceCursor::new(&a),
        trie::SliceCursor::new(&b),
        trie::SliceCursor::new(&c),
    ]);
    let mut view = m.next().unwrap();
    assert_eq!(view.len(), 3);
    let mut got = Vec::new();
    while let Some(v) = view.next() {
        got.push(v);
    }
    got.sort();
    assert_eq!(got, vec![10, 20, 30]);
    assert_eq!(m.cursors.len(), 1);
    assert_eq!(m.peek(), Some(6));
}
