//! Sorted-string tables: block metadata, the table image and its builder.
//!
//! Table layout: `block_0 | ... | block_{m-1} | meta | meta_offset:u32`, where
//! each meta record is `offset:u32 | first_len:u16 | first_key |
//! last_len:u16 | last_key`, big-endian.

pub mod builder;

pub use builder::SsTableBuilder;

use vstd::prelude::*;

use crate::block::{push_u16, u16_bytes};
use crate::block::builder::MAX_FIELD_LEN;

verus! {

/// The four big-endian bytes of `x`.
pub open spec fn u32_bytes(x: u32) -> Seq<u8> {
    seq![
        (x / 16777216) as u8,
        ((x / 65536) % 256) as u8,
        ((x / 256) % 256) as u8,
        (x % 256) as u8,
    ]
}

/// Appends `x` as four big-endian bytes.
pub fn push_u32(buf: &mut Vec<u8>, x: u32)
    ensures
        final(buf)@ == old(buf)@ + u32_bytes(x),
{
    buf.push((x / 16777216) as u8);
    buf.push(((x / 65536) % 256) as u8);
    buf.push(((x / 256) % 256) as u8);
    buf.push((x % 256) as u8);
    assert(final(buf)@ =~= old(buf)@ + u32_bytes(x));
}

/// Where a block lies in a table, and the range of its keys.
pub struct BlockMeta {
    /// Byte position of the block in the table's data.
    pub offset: usize,
    /// The first key of the block.
    pub first_key: Vec<u8>,
    /// The last key of the block.
    pub last_key: Vec<u8>,
}

/// A meta record can be encoded: its offset fits 32 bits and its keys fit
/// their 16-bit lengths.
pub open spec fn meta_encodable(m: BlockMeta) -> bool {
    &&& m.offset <= u32::MAX
    &&& m.first_key@.len() <= MAX_FIELD_LEN
    &&& m.last_key@.len() <= MAX_FIELD_LEN
}

/// The encoding of one meta record.
pub open spec fn meta_record_bytes(m: BlockMeta) -> Seq<u8> {
    u32_bytes(m.offset as u32) + u16_bytes(m.first_key@.len() as u16) + m.first_key@
        + u16_bytes(m.last_key@.len() as u16) + m.last_key@
}

/// The encoding of a list of meta records, one after another.
pub open spec fn meta_bytes(ms: Seq<BlockMeta>) -> Seq<u8>
    decreases ms.len(),
{
    if ms.len() == 0 {
        Seq::empty()
    } else {
        meta_bytes(ms.drop_last()) + meta_record_bytes(ms.last())
    }
}

impl BlockMeta {
    /// Appends the encoding of `block_meta` to `buf`.
    pub fn encode_block_meta(block_meta: &Vec<BlockMeta>, buf: &mut Vec<u8>)
        requires
            forall|i: int| 0 <= i < block_meta@.len() ==> meta_encodable(#[trigger] block_meta@[i]),
        ensures
            final(buf)@ == old(buf)@ + meta_bytes(block_meta@),
    {
        let n = block_meta.len();
        let mut i: usize = 0;
        while i < n
            invariant
                n == block_meta@.len(),
                i <= n,
                forall|j: int| 0 <= j < block_meta@.len() ==> meta_encodable(#[trigger] block_meta@[j]),
                buf@ == old(buf)@ + meta_bytes(block_meta@.subrange(0, i as int)),
            decreases n - i,
        {
            let m = &block_meta[i];
            assert(meta_encodable(block_meta@[i as int]));
            proof {
                let next = block_meta@.subrange(0, i + 1);
                assert(next.drop_last() =~= block_meta@.subrange(0, i as int));
            }
            let ghost before = buf@;
            push_u32(buf, m.offset as u32);
            push_u16(buf, m.first_key.len() as u16);
            let mut k = vstd::slice::slice_to_vec(m.first_key.as_slice());
            buf.append(&mut k);
            push_u16(buf, m.last_key.len() as u16);
            let mut l = vstd::slice::slice_to_vec(m.last_key.as_slice());
            buf.append(&mut l);
            assert(buf@ =~= before + meta_record_bytes(*m));
            i = i + 1;
        }
        assert(block_meta@.subrange(0, n as int) =~= block_meta@);
    }
}

/// A finished table: the bytes of its file and what readers need of it.
pub struct SsTable {
    /// The whole file: blocks, meta records and the footer.
    pub contents: Vec<u8>,
    /// One record per block, in order.
    pub block_meta: Vec<BlockMeta>,
    /// Where the meta records start.
    pub block_meta_offset: usize,
    pub id: usize,
    pub first_key: Vec<u8>,
    pub last_key: Vec<u8>,
    /// The largest timestamp in the table; set by a higher layer.
    pub max_ts: u64,
}

/// Why a table could not be built.
#[derive(Debug, Clone, Copy, PartialEq, Eq, Structural)]
pub enum TableError {
    /// No entry was added: a table needs a first and a last key.
    EmptyTable,
    /// The blocks take more bytes than a 32-bit offset can address.
    TooLarge,
}

} // verus!
