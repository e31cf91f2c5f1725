use std::sync::Arc;

use mini_lsm_core::block::{Block, BlockIterator};
use mini_lsm_core::table::{SsTableBuilder, TableError};

fn key_of(i: usize) -> Vec<u8> {
    format!("key_{:03}", i).into_bytes()
}

fn value_of(i: usize) -> Vec<u8> {
    format!("value_{:03}", i).into_bytes()
}

fn read_u32(b: &[u8]) -> usize {
    ((b[0] as usize) << 24) | ((b[1] as usize) << 16) | ((b[2] as usize) << 8) | b[3] as usize
}

#[test]
fn empty_table_is_an_error() {
    let builder = SsTableBuilder::new(128);
    assert_eq!(builder.build(1).err(), Some(TableError::EmptyTable));
}

#[test]
fn single_entry_table_layout() {
    let mut builder = SsTableBuilder::new(128);
    builder.add(b"k", b"v");
    assert_eq!(builder.estimated_size(), 0);
    let t = builder.build(7).unwrap();
    // block: 0,1,k,0,1,v | offset 0,0 | count 0,1
    let block = vec![0, 1, b'k', 0, 1, b'v', 0, 0, 0, 1];
    assert_eq!(t.block_meta_offset, block.len());
    let mut expected = block.clone();
    // meta: offset u32, first key, last key
    expected.extend_from_slice(&[0, 0, 0, 0, 0, 1, b'k', 0, 1, b'k']);
    expected.extend_from_slice(&[0, 0, 0, 10]);
    assert_eq!(t.contents, expected);
    assert_eq!(t.id, 7);
    assert_eq!(t.max_ts, 0);
    assert_eq!(t.first_key, b"k".to_vec());
    assert_eq!(t.last_key, b"k".to_vec());
}

#[test]
fn meta_ranges_cover_keys_in_order() {
    let n = 100;
    let mut builder = SsTableBuilder::new(128);
    let mut last_size = 0;
    for i in 0..n {
        builder.add(&key_of(i), &value_of(i));
        let size = builder.estimated_size();
        assert!(size >= last_size);
        last_size = size;
    }
    let t = builder.build(3).unwrap();
    let metas = &t.block_meta;
    assert!(metas.len() > 1);
    assert_eq!(t.first_key, key_of(0));
    assert_eq!(t.last_key, key_of(n - 1));
    assert_eq!(metas[0].first_key, key_of(0));
    assert_eq!(metas[metas.len() - 1].last_key, key_of(n - 1));
    for m in metas.iter() {
        assert!(m.first_key <= m.last_key);
    }
    for w in metas.windows(2) {
        assert!(w[0].last_key < w[1].first_key);
        assert!(w[0].offset < w[1].offset);
    }
    // footer holds the start of the meta records
    let len = t.contents.len();
    assert_eq!(read_u32(&t.contents[len - 4..]), t.block_meta_offset);
    // every block decodes and holds the keys its meta names
    let mut seen = 0;
    for (i, m) in metas.iter().enumerate() {
        let end = if i + 1 < metas.len() { metas[i + 1].offset } else { t.block_meta_offset };
        let block = Block::decode(&t.contents[m.offset..end]).unwrap();
        let mut it = BlockIterator::create_and_seek_to_first(Arc::new(block));
        assert_eq!(it.key(), &m.first_key[..]);
        let mut last = Vec::new();
        while it.is_valid() {
            assert_eq!(it.key(), &key_of(seen)[..]);
            assert_eq!(it.value(), &value_of(seen)[..]);
            last = it.key().to_vec();
            seen += 1;
            it.next();
        }
        assert_eq!(last, m.last_key);
    }
    assert_eq!(seen, n);
}

#[test]
fn estimated_size_counts_sealed_blocks_only() {
    // each entry takes 4 + 1 + 1 bytes plus a 2-byte offset; a 20-byte
    // block takes two entries
    let mut builder = SsTableBuilder::new(20);
    builder.add(b"a", b"1");
    builder.add(b"b", b"2");
    assert_eq!(builder.estimated_size(), 0);
    builder.add(b"c", b"3");
    // the sealed block: 12 bytes of entries, 4 of offsets, 2 of count
    assert_eq!(builder.estimated_size(), 18);
    let t = builder.build(0).unwrap();
    assert_eq!(t.block_meta.len(), 2);
    assert_eq!(t.block_meta[1].offset, 18);
    assert_eq!(t.block_meta_offset, 18 + 6 + 2 + 2);
}
