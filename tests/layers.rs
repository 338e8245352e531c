use trie::trie::{extend_merge, merge};
use trie::{advance, Cursor, CursorMerger, SliceCursor, TrieLayer, TrieRef, TrieStorage};

type Leaf = Vec<(u32, i32)>;

#[test]
fn seek_in_leaf_layer() {
    let layer: Leaf = Leaf::from_ordered(vec![(10, 1), (20, 1), (30, 1), (40, 1), (50, 1)]);
    let mut cursor = layer.cursor(0, layer.keys_cnt());
    cursor.seek(25);
    assert_eq!(cursor.peek(), Some(30));
    assert_eq!(cursor.next(), Some((30, 1)));
    assert_eq!(cursor.size(), 2);
}

#[test]
fn seek_yields_the_tail() {
    let data = vec![(2, 1), (4, 2), (6, 3), (8, 4), (10, 5)];
    for target in 0u32..12 {
        let mut cursor = SliceCursor::new(&data);
        cursor.seek(target);
        let mut rest = Vec::new();
        while let Some(item) = cursor.next() {
            rest.push(item);
        }
        let expected: Vec<(u32, i32)> = data.iter().copied().filter(|&(k, _)| k >= target).collect();
        assert_eq!(rest, expected);
    }
}

#[test]
fn seek_past_the_end() {
    let data = vec![(2, 1), (4, 2)];
    let mut cursor = SliceCursor::new(&data);
    cursor.seek(5);
    assert_eq!(cursor.peek(), None);
    assert_eq!(cursor.next(), None);
}

#[test]
fn trie_offsets() {
    let layer: TrieLayer<Leaf> =
        TrieLayer::from_ordered(vec![(1, (1, 1)), (1, (3, 1)), (2, (2, 1)), (4, (1, 1)), (4, (2, 1)), (4, (9, 1))]);
    assert_eq!(layer.keys, vec![(1, 2), (2, 3), (4, 6)]);
    assert_eq!(layer.vals.keys(), 6);
    for i in 1..layer.keys.len() {
        assert!(layer.keys[i - 1].0 < layer.keys[i].0);
        assert!(layer.keys[i - 1].1 <= layer.keys[i].1);
    }
    assert_eq!(layer.keys.last().unwrap().1, layer.vals.keys());
    assert_eq!(layer.tuples(), 6);
}

#[test]
fn trie_offsets_after_merge() {
    let a: TrieLayer<Leaf> = TrieLayer::from_ordered(vec![(1, (1, 1)), (2, (2, 1)), (5, (1, 1))]);
    let b: TrieLayer<Leaf> = TrieLayer::from_ordered(vec![(1, (1, -1)), (2, (3, 1)), (3, (1, 1))]);
    let m = merge(&a, &b);
    assert_eq!(m.keys, vec![(2, 2), (3, 3), (5, 4)]);
    assert_eq!(m.vals, vec![(2, 1), (3, 1), (1, 1), (1, 1)]);
    assert_eq!(m.keys.last().unwrap().1, m.vals.keys());
}

#[test]
fn leaf_merge_sums_and_drops_zeros() {
    let a: Leaf = vec![(1, 2), (3, 1), (5, 1), (6, 1), (7, 1)];
    let b: Leaf = vec![(1, -2), (2, 4), (3, 1), (8, 1)];
    let mut out: Leaf = Vec::new();
    extend_merge(&mut out, (&a, 0, a.len()), (&b, 0, b.len()));
    assert_eq!(out, vec![(2, 4), (3, 2), (5, 1), (6, 1), (7, 1), (8, 1)]);
}

#[test]
fn extend_trie_moves_offsets() {
    let src: TrieLayer<Leaf> = TrieLayer::from_ordered(vec![(1, (1, 1)), (2, (1, 1)), (2, (2, 1)), (3, (5, 1))]);
    let mut dst: TrieLayer<Leaf> = TrieLayer::from_ordered(vec![(0, (7, 1))]);
    dst.extend_trie(&src, 1, 3);
    assert_eq!(dst.keys, vec![(0, 1), (2, 3), (3, 4)]);
    assert_eq!(dst.vals, vec![(7, 1), (1, 1), (2, 1), (5, 1)]);
}

#[test]
fn advance_matches_linear_count() {
    let data: Vec<u32> = vec![1, 3, 3, 5, 8, 13, 21, 34, 55, 89, 144];
    for bound in 0u32..150 {
        let fast = advance(&data, |x: &u32| *x < bound);
        let slow = data.iter().take_while(|&&x| x < bound).count();
        assert_eq!(fast, slow);
    }
    let empty: Vec<u32> = Vec::new();
    assert_eq!(advance(&empty, |_: &u32| true), 0);
    let long: Vec<u32> = (0..1000).collect();
    assert_eq!(advance(&long, |x: &u32| *x < 777), 777);
    assert_eq!(advance(&long, |_: &u32| true), 1000);
}

#[test]
fn empty_merger() {
    let mut merger: CursorMerger<SliceCursor> = CursorMerger::new();
    assert!(merger.next().is_none());
    assert!(merger.next().is_none());
    assert_eq!(merger.peek(), None);
    assert_eq!(merger.cursors.len(), 0);
    let a = vec![(1, 1), (2, 1)];
    let b = vec![(2, 3)];
    merger.refill_from(vec![SliceCursor::new(&a), SliceCursor::new(&b)]);
    assert_eq!(merger.peek(), Some(1));
    let v = merger.next().unwrap();
    assert_eq!((v.key, v.len()), (1, 1));
    let mut v = merger.next().unwrap();
    assert_eq!(v.key(), Some(2));
    assert_eq!(v.len(), 2);
    let mut ws = vec![v.next().unwrap(), v.next().unwrap()];
    ws.sort();
    assert_eq!(ws, vec![1, 3]);
    assert_eq!(v.key(), None);
    assert!(merger.next().is_none());
    merger.clear();
    assert!(merger.next().is_none());
}

#[test]
fn merger_push_and_from() {
    let a = vec![(3, 1), (9, 1)];
    let b = vec![(1, 1), (9, 2)];
    let c: Vec<(u32, i32)> = vec![];
    let mut merger = CursorMerger::from(vec![SliceCursor::new(&a)]);
    merger.push(SliceCursor::new(&b));
    merger.push(SliceCursor::new(&c));
    let mut keys = Vec::new();
    while let Some(v) = merger.next() {
        keys.push((v.key, v.len()));
    }
    assert_eq!(keys, vec![(1, 1), (3, 1), (9, 2)]);
}
