use std::sync::Arc;

use mini_lsm_core::block::{BlockBuilder, BlockIterator};
use mini_lsm_core::iterators::two_merge_iterator::TwoMergeIterator;
use mini_lsm_core::iterators::StorageIterator;

fn iter_of(entries: &[(&[u8], &[u8])]) -> BlockIterator {
    let mut b = BlockBuilder::new(4096);
    for (k, v) in entries {
        assert!(b.add(k, v));
    }
    BlockIterator::create_and_seek_to_first(Arc::new(b.build()))
}

fn drain<I: StorageIterator>(mut it: I) -> Vec<(Vec<u8>, Vec<u8>)> {
    let mut out = Vec::new();
    while StorageIterator::is_valid(&it) {
        out.push((StorageIterator::key(&it).to_vec(), StorageIterator::value(&it).to_vec()));
        StorageIterator::next(&mut it).unwrap();
    }
    out
}

fn owned(entries: &[(&[u8], &[u8])]) -> Vec<(Vec<u8>, Vec<u8>)> {
    entries.iter().map(|(k, v)| (k.to_vec(), v.to_vec())).collect()
}

#[test]
fn merge_prefers_a_on_equal_keys() {
    let a = iter_of(&[(b"1", b"a"), (b"3", b"c")]);
    let b = iter_of(&[(b"1", b"x"), (b"2", b"b")]);
    let merged = TwoMergeIterator::create(a, b).unwrap();
    assert_eq!(drain(merged), owned(&[(b"1", b"a"), (b"2", b"b"), (b"3", b"c")]));
}

#[test]
fn merge_with_empty_sides() {
    let a = iter_of(&[]);
    let b = iter_of(&[(b"k", b"v")]);
    assert_eq!(drain(TwoMergeIterator::create(a, b).unwrap()), owned(&[(b"k", b"v")]));
    let a = iter_of(&[(b"k", b"v")]);
    let b = iter_of(&[]);
    assert_eq!(drain(TwoMergeIterator::create(a, b).unwrap()), owned(&[(b"k", b"v")]));
    let merged = TwoMergeIterator::create(iter_of(&[]), iter_of(&[])).unwrap();
    assert!(!StorageIterator::is_valid(&merged));
}

#[test]
fn merge_interleaved_and_trailing() {
    let a = iter_of(&[(b"b", b"1"), (b"d", b"2"), (b"e", b"3")]);
    let b = iter_of(&[(b"a", b"x"), (b"c", b"y"), (b"e", b"z"), (b"g", b"w")]);
    let merged = TwoMergeIterator::create(a, b).unwrap();
    assert_eq!(
        drain(merged),
        owned(&[(b"a", b"x"), (b"b", b"1"), (b"c", b"y"), (b"d", b"2"), (b"e", b"3"), (b"g", b"w")])
    );
}

#[test]
fn merge_b_smaller_then_a_smaller() {
    // b's head is smaller first, then a's: the active side must switch back
    let a = iter_of(&[(b"b", b"1"), (b"c", b"2")]);
    let b = iter_of(&[(b"a", b"x"), (b"d", b"y")]);
    let merged = TwoMergeIterator::create(a, b).unwrap();
    assert_eq!(
        drain(merged),
        owned(&[(b"a", b"x"), (b"b", b"1"), (b"c", b"2"), (b"d", b"y")])
    );
}

#[test]
fn merge_nests() {
    let inner = TwoMergeIterator::create(iter_of(&[(b"a", b"1")]), iter_of(&[(b"c", b"3")])).unwrap();
    let outer = TwoMergeIterator::create(inner, iter_of(&[(b"a", b"9"), (b"b", b"2")])).unwrap();
    assert_eq!(drain(outer), owned(&[(b"a", b"1"), (b"b", b"2"), (b"c", b"3")]));
}
