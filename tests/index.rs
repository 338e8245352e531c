use trie::{ArborIndex, CursorMerger, KeyLocation, SliceCursor};

type Leaf = Vec<(u32, i32)>;

fn drain(merger: &mut CursorMerger<SliceCursor>) -> Vec<(u32, i32)> {
    let mut out = Vec::new();
    while let Some(mut view) = merger.next() {
        let mut sum = 0;
        while let Some(w) = view.next() {
            sum += w;
        }
        out.push((view.key, sum));
    }
    out
}

#[test]
fn indexed_lookup() {
    let mut index: ArborIndex<Leaf> = ArborIndex::new();
    index.extend_ordered(vec![(7, (1, 1)), (7, (2, 1)), (9, (1, 1))]);
    let mut m = CursorMerger::new();
    index.get_into(7, &mut m);
    assert_eq!(m.cursors.len(), 1);
    assert_eq!(drain(&mut m), vec![(1, 1), (2, 1)]);
    index.get_into(8, &mut m);
    assert_eq!(m.peek(), None);
    assert!(m.next().is_none());
}

#[test]
fn index_chain_spans_tries() {
    let mut index: ArborIndex<Leaf> = ArborIndex::new();
    // a large batch, then a small one that stays apart from it
    index.extend_ordered((0..10u32).map(|k| (k, (k, 1))).collect());
    index.extend_ordered(vec![(3, (100, 1)), (20, (1, 1))]);
    let mut m = CursorMerger::new();
    index.get_into(3, &mut m);
    // one cursor from each trie that holds key 3
    assert_eq!(m.cursors.len(), 2);
    assert_eq!(drain(&mut m), vec![(3, 1), (100, 1)]);
    index.get_into(20, &mut m);
    assert_eq!(m.cursors.len(), 1);
    assert_eq!(drain(&mut m), vec![(1, 1)]);
    index.get_into(5, &mut m);
    assert_eq!(m.cursors.len(), 1);
    assert_eq!(index.size(), 12);
}

#[test]
fn index_after_merges() {
    let mut index: ArborIndex<Leaf> = ArborIndex::new();
    for round in 0u32..20 {
        index.extend_ordered(vec![(round % 3, (round, 1)), (5, (round, 1))]);
        let mut m = CursorMerger::new();
        index.get_into(5, &mut m);
        let got = drain(&mut m);
        let expected: Vec<(u32, i32)> = (0..=round).map(|r| (r, 1)).collect();
        assert_eq!(got, expected);
    }
    let mut m = CursorMerger::new();
    index.get_into(1, &mut m);
    let got = drain(&mut m);
    let expected: Vec<(u32, i32)> = (0u32..20).filter(|r| r % 3 == 1).map(|r| (r, 1)).collect();
    assert_eq!(got, expected);
    index.get_into(4, &mut m);
    assert!(m.next().is_none());
}

#[test]
fn index_cancellation_removes_key() {
    let mut index: ArborIndex<Leaf> = ArborIndex::new();
    index.extend_ordered(vec![(4, (1, 1))]);
    index.extend_ordered(vec![(4, (1, -1))]);
    let mut m = CursorMerger::new();
    index.get_into(4, &mut m);
    assert!(m.next().is_none());
    assert_eq!(index.size(), 0);
    let mut top = index.cursor();
    assert!(top.next().is_none());
}

#[test]
fn index_cursor_scans_all_keys() {
    let mut index: ArborIndex<Leaf> = ArborIndex::new();
    index.extend_ordered(vec![(1, (1, 1)), (4, (1, 1))]);
    index.extend_ordered(vec![(2, (1, 1))]);
    let mut top = index.cursor();
    let mut keys = Vec::new();
    while let Some(view) = top.next() {
        keys.push(view.key);
    }
    assert_eq!(keys, vec![1, 2, 4]);
}

#[test]
fn key_location_fields() {
    let loc = KeyLocation::new(2, 5, Some(7));
    assert_eq!((loc.index, loc.offset, loc.next), (2, 5, Some(7)));
}
