//! Incremental, size-bounded construction of a block.

use vstd::prelude::*;
use vstd::slice::slice_to_vec;

use super::{
    Block, Entry, block_entries, encode_block, block_wf, entry_bytes, entry_fits, entry_key, entry_value,
    push_u16, read_u16, u16_bytes,
};

verus! {

/// The largest target block size: offsets inside a block are 16-bit.
pub const MAX_BLOCK_SIZE: usize = 65535;

/// The largest key or value: lengths are stored in 16 bits.
pub const MAX_FIELD_LEN: usize = 65535;

/// Builds a block.
pub struct BlockBuilder {
    /// Offsets of each key-value entry.
    offsets: Vec<u16>,
    /// All serialized key-value pairs in the block.
    data: Vec<u8>,
    /// The expected block size.
    block_size: usize,
    /// The first key in the block.
    first_key: Vec<u8>,
}

/// Appending bytes after an entry changes neither where it lies nor what it holds.
proof fn lemma_entry_prefix(d: Seq<u8>, e: Seq<u8>, o: int)
    requires
        entry_fits(d, o),
    ensures
        entry_fits(d + e, o),
        entry_key(d + e, o) == entry_key(d, o),
        entry_value(d + e, o) == entry_value(d, o),
{
    let de = d + e;
    assert(read_u16(de, o) == read_u16(d, o));
    let k = read_u16(d, o);
    assert(read_u16(de, o + 2 + k) == read_u16(d, o + 2 + k));
    assert(entry_key(de, o) =~= entry_key(d, o));
    assert(entry_value(de, o) =~= entry_value(d, o));
}

/// The entry appended at the end of `d` reads back as `(k, v)`.
proof fn lemma_entry_appended(d: Seq<u8>, k: Seq<u8>, v: Seq<u8>)
    requires
        k.len() <= 65535,
        v.len() <= 65535,
    ensures
        entry_fits(d + entry_bytes(k, v), d.len() as int),
        entry_key(d + entry_bytes(k, v), d.len() as int) == k,
        entry_value(d + entry_bytes(k, v), d.len() as int) == v,
{
    let s = d + entry_bytes(k, v);
    let o = d.len() as int;
    let kl = k.len() as u16;
    let vl = v.len() as u16;
    assert(s[o] == (kl / 256) as u8 && s[o + 1] == (kl % 256) as u8);
    assert(read_u16(s, o) == k.len());
    let p = o + 2 + k.len();
    assert(s[p] == (vl / 256) as u8 && s[p + 1] == (vl % 256) as u8);
    assert(read_u16(s, p) == v.len());
    assert(entry_key(s, o) =~= k);
    assert(entry_value(s, o) =~= v);
}

impl BlockBuilder {
    /// Data, offsets and the first key agree, and a block of two or more
    /// entries keeps within its target size.
    pub closed spec fn wf(&self) -> bool {
        &&& block_wf(self.data@, self.offsets@)
        &&& self.block_size <= MAX_BLOCK_SIZE
        &&& 4 * self.offsets@.len() <= self.data@.len()
        &&& self.offsets@.len() == 0 ==> self.data@.len() == 0
        &&& self.offsets@.len() >= 2 ==> self.payload_size() <= self.block_size
        &&& self.offsets@.len() > 0 ==> self.first_key@ == entry_key(self.data@, self.offsets@[0] as int)
        &&& self.offsets@.len() == 1 ==> self.data@.len() <= 4 + 2 * MAX_FIELD_LEN
    }

    /// The entries added so far, in order.
    pub closed spec fn entries(&self) -> Seq<Entry> {
        block_entries(self.data@, self.offsets@)
    }

    /// The bytes that the entries and their offsets take.
    pub closed spec fn payload_size(&self) -> int {
        (self.data@.len() + 2 * self.offsets@.len()) as int
    }

    /// The encoding of the block built so far.
    pub closed spec fn encoded(&self) -> Seq<u8> {
        encode_block(self.data@, self.offsets@)
    }

    pub closed spec fn block_size(&self) -> int {
        self.block_size as int
    }

    /// Creates a new block builder.
    pub fn new(block_size: usize) -> (r: Self)
        requires
            block_size <= MAX_BLOCK_SIZE,
        ensures
            r.wf(),
            r.entries() == Seq::<Entry>::empty(),
            r.payload_size() == 0,
            r.block_size() == block_size,
    {
        let r = Self { offsets: vec![], data: vec![], block_size: block_size, first_key: vec![] };
        assert(r.entries() =~= Seq::<Entry>::empty());
        r
    }

    /// Adds a key-value pair to the block. Returns false, leaving the builder
    /// as it was, when the block holds an entry already and the new one would
    /// take it over its target size.
    pub fn add(&mut self, key: &[u8], value: &[u8]) -> (r: bool)
        requires
            old(self).wf(),
            key@.len() <= MAX_FIELD_LEN,
            value@.len() <= MAX_FIELD_LEN,
        ensures
            final(self).wf(),
            r == (old(self).entries().len() == 0 || old(self).payload_size() + key@.len()
                + value@.len() + 6 <= old(self).block_size()),
            r ==> final(self).entries() == old(self).entries().push((key@, value@)),
            r ==> final(self).payload_size() == old(self).payload_size() + key@.len()
                + value@.len() + 6,
            !r ==> *final(self) == *old(self),
            final(self).block_size() == old(self).block_size(),
    {
        let key_size = key.len();
        let value_size = value.len();
        let entry_size = key_size + value_size;
        let current_size = self.data.len() + self.offsets.len() * 2;
        if !self.offsets.is_empty() && current_size + entry_size + 6 > self.block_size {
            return false;
        }
        let ghost old_d = self.data@;
        let ghost old_offs = self.offsets@;
        let offset = self.data.len() as u16;
        if self.offsets.is_empty() {
            self.first_key = slice_to_vec(key);
        }
        self.offsets.push(offset);
        push_u16(&mut self.data, key_size as u16);
        let mut k = slice_to_vec(key);
        self.data.append(&mut k);
        push_u16(&mut self.data, value_size as u16);
        let mut v = slice_to_vec(value);
        self.data.append(&mut v);
        proof {
            let e = entry_bytes(key@, value@);
            assert(self.data@ =~= old_d + e);
            lemma_entry_appended(old_d, key@, value@);
            assert forall|i: int| 0 <= i < old_offs.len() implies entry_fits(
                self.data@,
                #[trigger] old_offs[i] as int,
            ) && entry_key(self.data@, old_offs[i] as int) == entry_key(old_d, old_offs[i] as int)
                && entry_value(self.data@, old_offs[i] as int) == entry_value(
                old_d,
                old_offs[i] as int,
            ) by {
                assert(entry_fits(old_d, old_offs[i] as int));
                lemma_entry_prefix(old_d, e, old_offs[i] as int);
            }
            assert(self.offsets@ =~= old_offs.push(offset));
            assert forall|i: int| 0 <= i < self.offsets@.len() implies entry_fits(
                self.data@,
                #[trigger] self.offsets@[i] as int,
            ) by {
                if i < old_offs.len() {
                    assert(self.offsets@[i] == old_offs[i]);
                } else {
                    assert(self.offsets@[i] as int == old_d.len());
                }
            }
            assert(self.entries() =~= block_entries(old_d, old_offs).push((key@, value@)));
        }
        true
    }

    /// Checks if there is no key-value pair in the block.
    pub fn is_empty(&self) -> (r: bool)
        ensures
            r == (self.entries().len() == 0),
    {
        self.offsets.is_empty()
    }

    /// Finalizes the block.
    pub fn build(self) -> (r: Block)
        requires
            self.wf(),
        ensures
            r.wf(),
            r.entries() == self.entries(),
            r.data@.len() + 2 * r.offsets@.len() == self.payload_size(),
            encode_block(r.data@, r.offsets@) == self.encoded(),
    {
        Block { data: self.data, offsets: self.offsets }
    }
}

/// A builder never holds more than its target size, unless it holds a
/// single entry that was taken into an empty block.
pub proof fn lemma_size_discipline(b: &BlockBuilder)
    requires
        b.wf(),
    ensures
        b.entries().len() >= 2 ==> b.payload_size() <= b.block_size(),
{
}

} // verus!
