use delta_traverse::traverse::{deltas, Context, Error, Reducer, Visitor};
use delta_traverse::tree::{EntrySlice, Tree};

/// Fetches an entry as its offset's bytes, inflates by copying, and records
/// the order of inspection in the walk's state.
struct Recorder {
    fail_resolve_at: Option<u64>,
    fail_inflate_at: Option<u64>,
    fail_inspect_at: Option<u64>,
    interrupt: bool,
}

impl Recorder {
    fn new() -> Self {
        Recorder { fail_resolve_at: None, fail_inflate_at: None, fail_inspect_at: None, interrupt: false }
    }
}

impl Visitor<u64, Vec<(u64, u16)>, String> for Recorder {
    fn resolve(&mut self, slice: EntrySlice, out: &mut Vec<u8>) -> bool {
        if self.fail_resolve_at == Some(slice.start) {
            return false;
        }
        out.clear();
        out.extend_from_slice(&slice.start.to_le_bytes());
        true
    }

    fn decompress(&mut self, compressed: &[u8], out: &mut Vec<u8>) -> bool {
        let mut b = [0u8; 8];
        b.copy_from_slice(compressed);
        if self.fail_inflate_at == Some(u64::from_le_bytes(b)) {
            return false;
        }
        out.clear();
        out.extend_from_slice(compressed);
        true
    }

    fn inspect(&mut self, data: &mut u64, context: Context<'_, Vec<(u64, u16)>>) -> Result<(), String> {
        if self.fail_inspect_at == Some(context.entry.start) {
            return Err(format!("bad entry {}", context.entry.start));
        }
        let mut b = [0u8; 8];
        b.copy_from_slice(context.decompressed);
        assert_eq!(u64::from_le_bytes(b), context.entry.start);
        assert_eq!(context.entry_end, context.entry.end);
        context.state.push((context.entry.start, context.level));
        *data = context.entry.start + 1000;
        Ok(())
    }

    fn is_interrupted(&mut self) -> bool {
        self.interrupt
    }
}

/// A root at 0 with children at 10 and 20; a grandchild at 30 below 10.
fn small_forest() -> Tree<u64> {
    let mut t = Tree::new();
    let root = t.add_root(0, 10, 0);
    let a = t.add_child(root, 10, 20, 0);
    t.add_child(root, 20, 30, 0);
    t.add_child(a, 30, 40, 0);
    t
}

fn position(order: &[(u64, u16)], offset: u64) -> usize {
    order.iter().position(|e| e.0 == offset).unwrap()
}

#[test]
fn small_forest_resolves_every_node_once() {
    let mut state = Vec::new();
    let items = small_forest().traverse(1, &mut state, &mut Recorder::new()).unwrap();
    assert_eq!(items.len(), 4);
    let offsets: Vec<u64> = items.iter().map(|i| i.offset).collect();
    assert_eq!(offsets, vec![0, 10, 20, 30]);
    let data: Vec<u64> = items.iter().map(|i| i.data).collect();
    assert_eq!(data, vec![1000, 1010, 1020, 1030]);
    assert_eq!(items[3].next_offset, 40);
    assert_eq!(state.len(), 4);
    assert_eq!(state[0], (0, 0));
    assert!(position(&state, 10) > position(&state, 0));
    assert!(position(&state, 20) > position(&state, 0));
    assert!(position(&state, 30) > position(&state, 10));
    assert_eq!(state[position(&state, 30)].1, 2);
    assert_eq!(state[position(&state, 20)].1, 1);
}

#[test]
fn small_forest_chunk_counts_four() {
    let mut tree = small_forest();
    let mut state = Vec::new();
    let chunks = tree.root_chunks(1);
    let mut reducer = Reducer::new(tree.num_items() as u32);
    for chunk in &chunks {
        let outcome = deltas(&mut tree, chunk, &mut state, &mut Recorder::new());
        reducer.feed(outcome, false).unwrap();
    }
    assert_eq!(reducer.item_count(), 4);
    assert_eq!(reducer.finalize(), 4);
}

#[test]
fn resolve_failure_on_grandchild() {
    let mut visitor = Recorder::new();
    visitor.fail_resolve_at = Some(30);
    let mut state = Vec::new();
    let r = small_forest().traverse(1, &mut state, &mut visitor);
    assert_eq!(r.err(), Some(Error::ResolveFailed(30)));
    assert!(state.len() <= 3);
    assert!(state.contains(&(0, 0)));
    assert!(state.contains(&(10, 1)));
}

#[test]
fn resolve_failure_reduced_count() {
    let mut tree = small_forest();
    let mut visitor = Recorder::new();
    visitor.fail_resolve_at = Some(30);
    let mut state = Vec::new();
    let roots = tree.root_chunks(1);
    let outcome = deltas(&mut tree, &roots[0], &mut state, &mut visitor);
    assert_eq!(outcome, Err(Error::ResolveFailed(30)));
    let mut reducer = Reducer::new(4);
    assert_eq!(reducer.feed(outcome, false), Err(Error::ResolveFailed(30)));
    assert_eq!(reducer.item_count(), 0);
    assert!(state.len() <= 3);
}

#[test]
fn inflate_failure_carries_offset() {
    let mut visitor = Recorder::new();
    visitor.fail_inflate_at = Some(20);
    let r = small_forest().traverse(2, &mut Vec::new(), &mut visitor);
    assert_eq!(r.err(), Some(Error::ZlibInflate(20)));
}

#[test]
fn inspect_failure_is_wrapped() {
    let mut visitor = Recorder::new();
    visitor.fail_inspect_at = Some(10);
    let r = small_forest().traverse(1, &mut Vec::new(), &mut visitor);
    assert_eq!(r.err(), Some(Error::Inspect("bad entry 10".to_string())));
}

#[test]
fn interrupted_walk_reports_interrupted() {
    let mut visitor = Recorder::new();
    visitor.interrupt = true;
    let mut state = Vec::new();
    let r = small_forest().traverse(1, &mut state, &mut visitor);
    assert_eq!(r.err(), Some(Error::Interrupted));
}

#[test]
fn interrupted_stops_after_first_chunk() {
    let mut t = Tree::new();
    for i in 0..5u64 {
        t.add_root(i * 10, i * 10 + 10, 0);
    }
    let mut visitor = Recorder::new();
    visitor.interrupt = true;
    let mut state = Vec::new();
    let r = t.traverse(2, &mut state, &mut visitor);
    assert_eq!(r.err(), Some(Error::Interrupted));
    assert_eq!(state, vec![(0, 0), (10, 0)]);
}

#[test]
fn reducer_feed_rules() {
    let mut r = Reducer::new(9);
    assert_eq!(r.num_objects(), 9);
    assert_eq!(r.feed::<String>(Ok(3), false), Ok(()));
    assert_eq!(r.feed::<String>(Ok(2), false), Ok(()));
    assert_eq!(r.item_count(), 5);
    assert_eq!(r.feed::<String>(Err(Error::Inspect("x".to_string())), true), Err(Error::Inspect("x".to_string())));
    assert_eq!(r.item_count(), 5);
    assert_eq!(r.feed::<String>(Ok(4), true), Err(Error::Interrupted));
    assert_eq!(r.item_count(), 9);
    assert_eq!(r.finalize(), 9);
}

#[test]
fn root_chunks_partition_roots() {
    let mut t: Tree<u64> = Tree::new();
    for i in 0..7u64 {
        let r = t.add_root(i * 100, i * 100 + 50, 0);
        t.add_child(r, i * 100 + 50, i * 100 + 90, 0);
    }
    let roots: Vec<usize> = (0..7).map(|i| i * 2).collect();
    for k in 1..=7usize {
        let chunks = t.root_chunks(k);
        let flat: Vec<usize> = chunks.iter().flatten().copied().collect();
        assert_eq!(flat, roots);
        assert_eq!(chunks.len(), (7 + k - 1) / k);
        for (i, a) in chunks.iter().enumerate() {
            for b in chunks.iter().skip(i + 1) {
                assert!(a.iter().all(|x| !b.contains(x)));
            }
        }
    }
}

#[test]
fn visit_order_parent_first_every_node_once() {
    let mut t: Tree<u64> = Tree::new();
    let r0 = t.add_root(0, 1, 0);
    let r1 = t.add_root(1, 2, 0);
    let c0 = t.add_child(r0, 2, 3, 0);
    let c1 = t.add_child(r1, 3, 4, 0);
    let g0 = t.add_child(c0, 4, 5, 0);
    let g1 = t.add_child(c0, 5, 6, 0);
    let order = t.visit_order(&[r0, r1]);
    let ids: Vec<usize> = order.iter().map(|e| e.0).collect();
    assert_eq!(ids, vec![r0, c0, g0, g1, r1, c1]);
    let levels: Vec<u16> = order.iter().map(|e| e.1).collect();
    assert_eq!(levels, vec![0, 1, 2, 2, 0, 1]);
    let only_second = t.visit_order(&[r1]);
    assert_eq!(only_second, vec![(r1, 0), (c1, 1)]);
    assert_eq!(t.entry(g1), EntrySlice { start: 5, end: 6 });
}

#[test]
fn empty_tree_traverses_to_nothing() {
    let t: Tree<u64> = Tree::new();
    let items = t.traverse(3, &mut Vec::new(), &mut Recorder::new()).unwrap();
    assert!(items.is_empty());
}

#[test]
fn swap_payload_returns_old_value() {
    let mut t = small_forest();
    assert_eq!(t.swap_payload(2, 77), 0);
    assert_eq!(t.swap_payload(2, 5), 77);
    let items = t.into_items();
    assert_eq!(items[2].data, 5);
}
