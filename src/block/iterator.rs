//! A cursor over a decoded block.

use std::sync::Arc;

use vstd::prelude::*;
use vstd::slice::slice_to_vec;

use super::{Block, Entry, entry_fits, entry_key, entry_value_len, entry_value_start, get_u16};
use crate::iterators::StorageIterator;
use crate::key::{compare_keys, key_lt};

verus! {

/// Iterates on a block.
pub struct BlockIterator {
    /// The block, shared with its other readers.
    block: Arc<Block>,
    /// The current key; empty when the iterator is invalid.
    key: Vec<u8>,
    /// The range of the current value in the block's data.
    value_range: (usize, usize),
    /// The index of the current entry; the number of entries when invalid.
    idx: usize,
}

/// `i` is the first index whose key is not less than `target`, or the
/// number of entries when there is none.
pub open spec fn is_lower_bound(es: Seq<Entry>, target: Seq<u8>, i: int) -> bool {
    &&& 0 <= i <= es.len()
    &&& forall|j: int| 0 <= j < i ==> key_lt(#[trigger] es[j].0, target)
    &&& i < es.len() ==> !key_lt(es[i].0, target)
}

impl BlockIterator {
    pub closed spec fn wf(&self) -> bool {
        let d = self.block.data@;
        let offs = self.block.offsets@;
        &&& self.block.wf()
        &&& self.idx <= offs.len()
        &&& self.idx < offs.len() ==> {
            let o = offs[self.idx as int] as int;
            &&& self.key@ == entry_key(d, o)
            &&& self.value_range.0 == entry_value_start(d, o)
            &&& self.value_range.1 == entry_value_start(d, o) + entry_value_len(d, o)
        }
        &&& self.idx == offs.len() ==> self.key@.len() == 0 && self.value_range == (0usize, 0usize)
    }

    /// The entries of the block under the cursor.
    pub closed spec fn entries(&self) -> Seq<Entry> {
        self.block.entries()
    }

    /// The position of the cursor; equal to the number of entries when the
    /// iterator is invalid.
    pub closed spec fn index(&self) -> int {
        self.idx as int
    }

    /// The entries from the cursor on.
    pub open spec fn rest(&self) -> Seq<Entry> {
        self.entries().subrange(self.index(), self.entries().len() as int)
    }

    fn new(block: Arc<Block>) -> (r: Self)
        requires
            block.wf(),
        ensures
            r.wf(),
            r.entries() == block.entries(),
    {
        let n = block.offsets.len();
        Self { block, key: Vec::new(), value_range: (0, 0), idx: n }
    }

    /// Creates a block iterator and seeks to the first entry; it is invalid
    /// at once when the block is empty.
    pub fn create_and_seek_to_first(block: Arc<Block>) -> (r: Self)
        requires
            block.wf(),
        ensures
            r.wf(),
            r.entries() == block.entries(),
            r.index() == 0,
            r.rest() == block.entries(),
    {
        let mut iter = Self::new(block);
        iter.seek_to_first();
        assert(iter.rest() =~= iter.entries());
        iter
    }

    /// Creates a block iterator and seeks to the first key that is not less
    /// than `key`.
    pub fn create_and_seek_to_key(block: Arc<Block>, key: &[u8]) -> (r: Self)
        requires
            block.wf(),
        ensures
            r.wf(),
            r.entries() == block.entries(),
            is_lower_bound(r.entries(), key@, r.index()),
    {
        let mut iter = Self::new(block);
        iter.seek_to_key(key);
        iter
    }

    /// Returns the key of the current entry.
    pub fn key(&self) -> (r: &[u8])
        requires
            self.wf(),
            self.index() < self.entries().len(),
        ensures
            r@ == self.entries()[self.index()].0,
    {
        self.key.as_slice()
    }

    /// Returns the value of the current entry.
    pub fn value(&self) -> (r: &[u8])
        requires
            self.wf(),
            self.index() < self.entries().len(),
        ensures
            r@ == self.entries()[self.index()].1,
    {
        let (left, right) = self.value_range;
        proof {
            let o = self.block.offsets@[self.idx as int] as int;
            assert(entry_fits(self.block.data@, o));
        }
        &self.block.data.as_slice()[left..right]
    }

    /// Returns true if the iterator is positioned on an entry.
    pub fn is_valid(&self) -> (r: bool)
        requires
            self.wf(),
        ensures
            r == (self.index() < self.entries().len()),
    {
        self.idx < self.block.offsets.len()
    }

    /// Seeks to the first key in the block.
    pub fn seek_to_first(&mut self)
        requires
            old(self).wf(),
        ensures
            final(self).wf(),
            final(self).entries() == old(self).entries(),
            final(self).index() == 0,
            final(self).rest() == final(self).entries(),
    {
        if self.block.offsets.len() == 0 {
            self.invalidate();
        } else {
            self.seek_to_index(0);
        }
        assert(self.rest() =~= self.entries());
    }

    /// Seeks to the entry at `index`.
    pub fn seek_to_index(&mut self, index: usize)
        requires
            old(self).wf(),
            index < old(self).entries().len(),
        ensures
            final(self).wf(),
            final(self).entries() == old(self).entries(),
            final(self).index() == index,
    {
        let ghost d = self.block.data@;
        let mut offset = self.block.offsets[index] as usize;
        assert(entry_fits(d, offset as int));
        let key_size = get_u16(self.block.data.as_slice(), offset) as usize;
        offset = offset + 2;
        let key = slice_to_vec(&self.block.data.as_slice()[offset..offset + key_size]);
        offset = offset + key_size;
        let value_size = get_u16(self.block.data.as_slice(), offset) as usize;
        offset = offset + 2;
        self.key = key;
        self.value_range = (offset, offset + value_size);
        self.idx = index;
    }

    /// Leaves the iterator invalid.
    fn invalidate(&mut self)
        requires
            old(self).wf(),
        ensures
            final(self).wf(),
            final(self).entries() == old(self).entries(),
            final(self).index() == old(self).entries().len(),
    {
        self.idx = self.block.offsets.len();
        self.key.clear();
        self.value_range = (0, 0);
    }

    /// Moves to the next key in the block; past the last one the iterator is
    /// invalid.
    pub fn next(&mut self)
        requires
            old(self).wf(),
        ensures
            final(self).wf(),
            final(self).entries() == old(self).entries(),
            final(self).index() == if old(self).index() < old(self).entries().len() {
                old(self).index() + 1
            } else {
                old(self).index()
            },
    {
        let n = self.block.offsets.len();
        if self.idx + 1 >= n {
            self.invalidate();
        } else {
            let i = self.idx + 1;
            self.seek_to_index(i);
        }
    }

    /// Seeks to the first key that is not less than `key`; the iterator is
    /// invalid when every key in the block is less.
    pub fn seek_to_key(&mut self, key: &[u8])
        requires
            old(self).wf(),
        ensures
            final(self).wf(),
            final(self).entries() == old(self).entries(),
            is_lower_bound(final(self).entries(), key@, final(self).index()),
    {
        let n = self.block.offsets.len();
        let mut i: usize = 0;
        while i < n
            invariant
                self.wf(),
                self.entries() == old(self).entries(),
                n == self.entries().len(),
                i <= n,
                forall|j: int| 0 <= j < i ==> key_lt(#[trigger] self.entries()[j].0, key@),
            decreases n - i,
        {
            self.seek_to_index(i);
            match compare_keys(self.key.as_slice(), key) {
                std::cmp::Ordering::Less => {},
                _ => {
                    return;
                },
            }
            i = i + 1;
        }
        self.invalidate();
    }
}

impl StorageIterator for BlockIterator {
    open spec fn well_formed(&self) -> bool {
        self.wf()
    }

    open spec fn remaining(&self) -> Seq<Entry> {
        self.rest()
    }

    fn key(&self) -> (r: &[u8]) {
        BlockIterator::key(self)
    }

    fn value(&self) -> (r: &[u8]) {
        BlockIterator::value(self)
    }

    fn is_valid(&self) -> (r: bool) {
        BlockIterator::is_valid(self)
    }

    fn next(&mut self) -> (r: Result<(), anyhow::Error>) {
        BlockIterator::next(self);
        assert(self.rest() =~= old(self).rest().drop_first());
        Ok(())
    }
}

} // verus!
