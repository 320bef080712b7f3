use delta_traverse::eager::{Chunker, EagerIter, EagerIterIf};
use std::sync::mpsc::sync_channel;

fn chunk_all(items: &[u32], chunk_size: usize) -> Vec<Vec<u32>> {
    let mut chunker = Chunker::new(chunk_size);
    let mut chunks = Vec::new();
    for &item in items {
        if let Some(chunk) = chunker.push(item) {
            chunks.push(chunk);
        }
    }
    if let Some(chunk) = chunker.finish() {
        chunks.push(chunk);
    }
    chunks
}

/// Sends the chunks of `items` through a channel with room for all of them,
/// and reads them back through an `EagerIter`.
fn eager_of(items: &[u32], chunk_size: usize) -> EagerIter<u32> {
    let chunks = chunk_all(items, chunk_size);
    let (sender, receiver) = sync_channel(chunks.len() + 1);
    for chunk in chunks {
        sender.send(chunk).unwrap();
    }
    drop(sender);
    EagerIter::new(receiver, (items.len(), Some(items.len())))
}

fn drain(mut it: EagerIter<u32>) -> Vec<u32> {
    let mut out = Vec::new();
    while let Some(x) = it.next() {
        out.push(x);
    }
    out
}

fn lengths(chunk_size: usize) -> Vec<usize> {
    vec![0, 1, chunk_size - 1, chunk_size, chunk_size * 3 + 1]
}

#[test]
fn chunker_keeps_items_and_order() {
    for chunk_size in [1usize, 2, 3, 7] {
        for len in lengths(chunk_size) {
            let items: Vec<u32> = (0..len as u32).map(|x| x * 3 + 1).collect();
            let chunks = chunk_all(&items, chunk_size);
            let flat: Vec<u32> = chunks.iter().flatten().copied().collect();
            assert_eq!(flat, items);
            for (i, c) in chunks.iter().enumerate() {
                assert!(!c.is_empty());
                assert!(c.len() <= chunk_size);
                if i + 1 < chunks.len() {
                    assert_eq!(c.len(), chunk_size);
                }
            }
        }
    }
}

#[test]
fn chunker_sizes_exact() {
    let chunks = chunk_all(&[1, 2, 3, 4, 5, 6, 7], 3);
    assert_eq!(chunks, vec![vec![1, 2, 3], vec![4, 5, 6], vec![7]]);
    assert!(chunk_all(&[], 4).is_empty());
}

#[test]
fn eager_iter_yields_source_sequence() {
    for chunk_size in [1usize, 2, 5] {
        for len in lengths(chunk_size) {
            let items: Vec<u32> = (0..len as u32).rev().collect();
            assert_eq!(drain(eager_of(&items, chunk_size)), items);
        }
    }
}

#[test]
fn eager_iter_forwards_size_hint() {
    let it = eager_of(&[4, 5, 6], 2);
    assert_eq!(it.size_hint(), (3, Some(3)));
}

#[test]
fn eager_iter_ends_on_empty_chunk_or_closed_channel() {
    let (sender, receiver) = sync_channel::<Vec<u32>>(1);
    drop(sender);
    let mut it = EagerIter::new(receiver, (0, None));
    assert_eq!(it.take_chunk(Some(Vec::new())), None);
    assert_eq!(it.take_chunk(Some(vec![8, 9])), Some(8));
    assert_eq!(it.next(), Some(9));
    assert_eq!(it.next(), None);
    assert_eq!(it.take_chunk(None), None);
}

#[test]
fn eager_if_false_passes_source_through() {
    let items = vec![3u32, 1, 4, 1, 5];
    let mut made = false;
    let mut it = EagerIterIf::new(
        || false,
        items.clone().into_iter(),
        |_| {
            made = true;
            eager_of(&[], 1)
        },
    );
    let mut out = Vec::new();
    while let Some(x) = it.next() {
        out.push(x);
    }
    assert!(!made);
    assert!(matches!(it, EagerIterIf::OnDemand(_)));
    assert_eq!(out, items);
}

#[test]
fn eager_if_true_matches_eager_iter() {
    let items = vec![2u32, 7, 1, 8, 2, 8, 1];
    let mut it = EagerIterIf::new(|| true, items.clone().into_iter(), |src| {
        let v: Vec<u32> = src.collect();
        eager_of(&v, 3)
    });
    assert!(matches!(it, EagerIterIf::Eager(_)));
    assert_eq!(it.size_hint(), (7, Some(7)));
    let mut out = Vec::new();
    while let Some(x) = it.next() {
        out.push(x);
    }
    assert_eq!(out, drain(eager_of(&items, 3)));
    assert_eq!(out, items);
}

#[test]
fn eager_if_asks_condition_once() {
    let mut asked = 0;
    let it = EagerIterIf::new(
        || {
            asked += 1;
            false
        },
        vec![1u32].into_iter(),
        |_| eager_of(&[], 1),
    );
    assert_eq!(asked, 1);
    assert_eq!(it.size_hint(), (1, Some(1)));
}

#[test]
fn fill_buf_and_pop_takes_next_chunk() {
    let (sender, receiver) = sync_channel(2);
    sender.send(vec![5u32, 6]).unwrap();
    sender.send(vec![7u32]).unwrap();
    drop(sender);
    let mut it = EagerIter::new(receiver, (3, Some(3)));
    assert_eq!(it.fill_buf_and_pop(), Some(5));
    assert_eq!(it.fill_buf_and_pop(), Some(7));
    assert_eq!(it.fill_buf_and_pop(), None);
    assert_eq!(it.next(), None);
}
