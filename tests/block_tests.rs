use std::cmp::Ordering;
use std::sync::Arc;

use mini_lsm_core::block::{Block, BlockBuilder, BlockIterator, FormatError};
use mini_lsm_core::key::compare_keys;

fn build_block(entries: &[(&[u8], &[u8])], block_size: usize) -> Block {
    let mut b = BlockBuilder::new(block_size);
    for (k, v) in entries {
        assert!(b.add(k, v));
    }
    b.build()
}

#[test]
fn encode_single_entry_exact_bytes() {
    let block = build_block(&[(b"a", b"1")], 4096);
    assert_eq!(block.data, vec![0, 1, b'a', 0, 1, b'1']);
    assert_eq!(block.offsets, vec![0]);
    assert_eq!(block.encode(), vec![0, 1, b'a', 0, 1, b'1', 0, 0, 0, 1]);
}

#[test]
fn offsets_point_at_entry_starts() {
    let block = build_block(&[(b"ab", b"x"), (b"cd", b"yz")], 4096);
    assert_eq!(block.offsets, vec![0, 7]);
    assert_eq!(block.data.len(), 15);
}

#[test]
fn round_trip_reproduces_data_and_offsets() {
    let block = build_block(&[(b"apple", b"red"), (b"banana", b"yellow"), (b"cherry", b"")], 4096);
    let bytes = block.encode();
    let decoded = Block::decode(&bytes).unwrap();
    assert_eq!(decoded.data, block.data);
    assert_eq!(decoded.offsets, block.offsets);
}

#[test]
fn round_trip_empty_block() {
    let block = BlockBuilder::new(64).build();
    let bytes = block.encode();
    assert_eq!(bytes, vec![0, 0]);
    let decoded = Block::decode(&bytes).unwrap();
    assert!(decoded.data.is_empty());
    assert!(decoded.offsets.is_empty());
}

#[test]
fn decode_rejects_missing_count() {
    assert_eq!(Block::decode(&[]).err(), Some(FormatError::MissingCount));
    assert_eq!(Block::decode(&[7]).err(), Some(FormatError::MissingCount));
}

#[test]
fn decode_rejects_truncated_offsets() {
    assert_eq!(Block::decode(&[0, 5]).err(), Some(FormatError::TruncatedOffsets));
    assert_eq!(Block::decode(&[1, 0, 0, 2]).err(), Some(FormatError::TruncatedOffsets));
}

#[test]
fn decode_rejects_offset_out_of_bounds() {
    // one byte of data, an offset of 0: no room for the key length and key
    assert_eq!(Block::decode(&[9, 0, 0, 0, 1]).err(), Some(FormatError::EntryOutOfBounds));
    // a key length that runs past the data
    assert_eq!(
        Block::decode(&[0, 5, b'a', 0, 0, 0, 1]).err(),
        Some(FormatError::EntryOutOfBounds)
    );
}

#[test]
fn builder_rejects_entry_over_budget() {
    // each entry "k","v" takes 1 + 1 + 4 bytes plus a 2-byte offset: 8 bytes
    let mut b = BlockBuilder::new(16);
    assert!(b.is_empty());
    assert!(b.add(b"a", b"1"));
    assert!(!b.is_empty());
    assert!(b.add(b"b", b"2"));
    assert!(!b.add(b"c", b"3"));
    let block = b.build();
    assert_eq!(block.offsets.len(), 2);
    assert!(block.data.len() + 2 * block.offsets.len() <= 16);
}

#[test]
fn builder_forces_first_oversized_entry() {
    let mut b = BlockBuilder::new(4);
    assert!(b.add(b"a-long-key", b"a-long-value"));
    assert!(!b.add(b"b", b""));
    let block = b.build();
    assert_eq!(block.offsets, vec![0]);
}

#[test]
fn sequential_scan_visits_every_key_then_invalid() {
    let keys: [&[u8]; 4] = [b"a", b"b", b"c", b"d"];
    let entries: Vec<(&[u8], &[u8])> = keys.iter().map(|k| (*k, *k)).collect();
    let block = Arc::new(build_block(&entries, 4096));
    let mut it = BlockIterator::create_and_seek_to_first(block);
    for k in keys.iter() {
        assert!(it.is_valid());
        assert_eq!(it.key(), *k);
        assert_eq!(it.value(), *k);
        it.next();
    }
    assert!(!it.is_valid());
}

#[test]
fn empty_block_iterator_is_invalid() {
    let block = Arc::new(BlockBuilder::new(64).build());
    let it = BlockIterator::create_and_seek_to_first(block);
    assert!(!it.is_valid());
}

#[test]
fn seek_to_key_lands_on_first_not_less() {
    let block = Arc::new(build_block(&[(b"b", b"1"), (b"d", b"2"), (b"f", b"3")], 4096));
    let it = BlockIterator::create_and_seek_to_key(block.clone(), b"c");
    assert!(it.is_valid());
    assert_eq!(it.key(), b"d");
    assert_eq!(it.value(), b"2");
    let it = BlockIterator::create_and_seek_to_key(block.clone(), b"d");
    assert_eq!(it.key(), b"d");
    let it = BlockIterator::create_and_seek_to_key(block.clone(), b"a");
    assert_eq!(it.key(), b"b");
}

#[test]
fn seek_past_every_key_is_invalid() {
    let block = Arc::new(build_block(&[(b"b", b"1"), (b"d", b"2")], 4096));
    let it = BlockIterator::create_and_seek_to_key(block.clone(), b"e");
    assert!(!it.is_valid());
    let mut it = BlockIterator::create_and_seek_to_first(block);
    it.seek_to_key(b"zz");
    assert!(!it.is_valid());
}

#[test]
fn seek_to_index_and_back_to_first() {
    let block = Arc::new(build_block(&[(b"b", b"1"), (b"d", b"2"), (b"f", b"3")], 4096));
    let mut it = BlockIterator::create_and_seek_to_first(block);
    it.seek_to_index(2);
    assert_eq!(it.key(), b"f");
    assert_eq!(it.value(), b"3");
    it.seek_to_first();
    assert_eq!(it.key(), b"b");
}

#[test]
fn decoded_block_iterates_like_the_built_one() {
    let block = build_block(&[(b"k1", b"v1"), (b"k2", b"v2")], 4096);
    let decoded = Arc::new(Block::decode(&block.encode()).unwrap());
    let mut it = BlockIterator::create_and_seek_to_first(decoded);
    assert_eq!(it.key(), b"k1");
    it.next();
    assert_eq!(it.key(), b"k2");
    assert_eq!(it.value(), b"v2");
    it.next();
    assert!(!it.is_valid());
}

#[test]
fn compare_keys_is_lexicographic() {
    assert_eq!(compare_keys(b"abc", b"abd"), Ordering::Less);
    assert_eq!(compare_keys(b"ab", b"abc"), Ordering::Less);
    assert_eq!(compare_keys(b"b", b"abc"), Ordering::Greater);
    assert_eq!(compare_keys(b"", b""), Ordering::Equal);
    assert_eq!(compare_keys(b"xyz", b"xyz"), Ordering::Equal);
}
