//! A block: the smallest unit of reading and caching, a run of sorted
//! key-value entries with an offset table.
//!
//! Entry layout inside `data`: `key_len:u16 | key | value_len:u16 | value`.
//! Encoded block: `data | offset_0:u16 | ... | offset_{n-1}:u16 | n:u16`,
//! all integers big-endian.

pub mod builder;
pub mod iterator;

pub use builder::BlockBuilder;
pub use iterator::BlockIterator;

use vstd::prelude::*;
use vstd::slice::slice_to_vec;

use crate::key::key_lt;

verus! {

/// A key-value entry as the contracts see it.
pub type Entry = (Seq<u8>, Seq<u8>);

/// Keys strictly increase along `es`.
pub open spec fn keys_ascending(es: Seq<Entry>) -> bool {
    forall|i: int, j: int| 0 <= i < j < es.len() ==> key_lt(#[trigger] es[i].0, #[trigger] es[j].0)
}

/// The big-endian 16-bit integer stored at `s[at]`, `s[at + 1]`.
pub open spec fn read_u16(s: Seq<u8>, at: int) -> int {
    s[at] as int * 256 + s[at + 1] as int
}

/// The two big-endian bytes of `x`.
pub open spec fn u16_bytes(x: u16) -> Seq<u8> {
    seq![(x / 256) as u8, (x % 256) as u8]
}

pub open spec fn entry_key_len(d: Seq<u8>, o: int) -> int {
    read_u16(d, o)
}

pub open spec fn entry_value_start(d: Seq<u8>, o: int) -> int {
    o + 4 + entry_key_len(d, o)
}

pub open spec fn entry_value_len(d: Seq<u8>, o: int) -> int {
    read_u16(d, o + 2 + entry_key_len(d, o))
}

/// The entry that starts at byte `o` lies wholly inside `d`.
pub open spec fn entry_fits(d: Seq<u8>, o: int) -> bool {
    &&& 0 <= o
    &&& o + 2 <= d.len()
    &&& o + 4 + entry_key_len(d, o) <= d.len()
    &&& entry_value_start(d, o) + entry_value_len(d, o) <= d.len()
}

pub open spec fn entry_key(d: Seq<u8>, o: int) -> Seq<u8> {
    d.subrange(o + 2, o + 2 + entry_key_len(d, o))
}

pub open spec fn entry_value(d: Seq<u8>, o: int) -> Seq<u8> {
    d.subrange(entry_value_start(d, o), entry_value_start(d, o) + entry_value_len(d, o))
}

/// Every offset points at an entry inside `d`, and the count fits its field.
pub open spec fn block_wf(d: Seq<u8>, offs: Seq<u16>) -> bool {
    &&& offs.len() <= 65535
    &&& forall|i: int| 0 <= i < offs.len() ==> entry_fits(d, #[trigger] offs[i] as int)
}

/// The entries of a block, in offset-table order.
pub open spec fn block_entries(d: Seq<u8>, offs: Seq<u16>) -> Seq<Entry> {
    Seq::new(offs.len(), |i: int| (entry_key(d, offs[i] as int), entry_value(d, offs[i] as int)))
}

/// The bytes of the encoded entry `(k, v)`.
pub open spec fn entry_bytes(k: Seq<u8>, v: Seq<u8>) -> Seq<u8> {
    u16_bytes(k.len() as u16) + k + u16_bytes(v.len() as u16) + v
}

/// The offset table, two big-endian bytes per offset.
pub open spec fn offsets_bytes(offs: Seq<u16>) -> Seq<u8> {
    Seq::new(
        2 * offs.len(),
        |j: int|
            if j % 2 == 0 {
                (offs[j / 2] / 256) as u8
            } else {
                (offs[j / 2] % 256) as u8
            },
    )
}

/// The encoding of a block with the given data and offsets.
pub open spec fn encode_block(d: Seq<u8>, offs: Seq<u16>) -> Seq<u8> {
    d + offsets_bytes(offs) + u16_bytes(offs.len() as u16)
}

/// The entry count stored in the last two bytes.
pub open spec fn trailer_count(s: Seq<u8>) -> int {
    read_u16(s, s.len() - 2)
}

pub open spec fn decoded_data_len(s: Seq<u8>) -> int {
    s.len() - 2 - 2 * trailer_count(s)
}

pub open spec fn decoded_data(s: Seq<u8>) -> Seq<u8> {
    s.subrange(0, decoded_data_len(s))
}

pub open spec fn decoded_offsets(s: Seq<u8>) -> Seq<u16> {
    Seq::new(
        trailer_count(s) as nat,
        |i: int| read_u16(s, decoded_data_len(s) + 2 * i) as u16,
    )
}

/// The bytes hold a count, an offset table of that many offsets, and
/// entries that all lie inside the data before it.
pub open spec fn decodable(s: Seq<u8>) -> bool {
    &&& s.len() >= 2
    &&& s.len() >= 2 + 2 * trailer_count(s)
    &&& block_wf(decoded_data(s), decoded_offsets(s))
}

/// Why a byte buffer is not a block.
#[derive(Debug, Clone, Copy, PartialEq, Eq, Structural)]
pub enum FormatError {
    /// Fewer than two bytes: no entry count.
    MissingCount,
    /// Fewer bytes than the offset table that the count declares.
    TruncatedOffsets,
    /// An offset points at an entry that does not lie inside the data.
    EntryOutOfBounds,
}

/// A block is the smallest unit of read and caching in the LSM tree: a
/// collection of sorted key-value pairs.
pub struct Block {
    pub data: Vec<u8>,
    pub offsets: Vec<u16>,
}

impl Block {
    pub open spec fn wf(&self) -> bool {
        block_wf(self.data@, self.offsets@)
    }

    pub open spec fn entries(&self) -> Seq<Entry> {
        block_entries(self.data@, self.offsets@)
    }

    /// Encodes the block: the data, then each offset, then the number of
    /// offsets, all big-endian.
    pub fn encode(&self) -> (r: Vec<u8>)
        requires
            self.wf(),
        ensures
            r@ == encode_block(self.data@, self.offsets@),
    {
        let mut buf = slice_to_vec(self.data.as_slice());
        let n = self.offsets.len();
        let mut j: usize = 0;
        while j < n
            invariant
                n == self.offsets@.len(),
                j <= n,
                buf@ == self.data@ + offsets_bytes(self.offsets@.subrange(0, j as int)),
            decreases n - j,
        {
            let o = self.offsets[j];
            proof {
                let prev = self.offsets@.subrange(0, j as int);
                let next = self.offsets@.subrange(0, j + 1);
                assert(offsets_bytes(next) =~= offsets_bytes(prev) + u16_bytes(o));
                assert(self.data@ + offsets_bytes(next) =~= self.data@ + offsets_bytes(prev)
                    + u16_bytes(o));
            }
            push_u16(&mut buf, o);
            j = j + 1;
        }
        assert(self.offsets@.subrange(0, n as int) =~= self.offsets@);
        push_u16(&mut buf, n as u16);
        buf
    }

    /// Decodes a block from its encoding, rejecting a buffer that is too short
    /// for its offset table or whose offsets point outside the data.
    pub fn decode(bytes: &[u8]) -> (r: Result<Block, FormatError>)
        ensures
            match r {
                Ok(b) => {
                    &&& decodable(bytes@)
                    &&& b.wf()
                    &&& b.data@ == decoded_data(bytes@)
                    &&& b.offsets@ == decoded_offsets(bytes@)
                },
                Err(e) => {
                    &&& !decodable(bytes@)
                    &&& (e == FormatError::MissingCount <==> bytes@.len() < 2)
                    &&& (e == FormatError::TruncatedOffsets <==> bytes@.len() >= 2
                        && bytes@.len() < 2 + 2 * trailer_count(bytes@))
                },
            },
    {
        let len = bytes.len();
        if len < 2 {
            return Err(FormatError::MissingCount);
        }
        let count = get_u16(bytes, len - 2) as usize;
        if len - 2 < 2 * count {
            return Err(FormatError::TruncatedOffsets);
        }
        let dlen = len - 2 - 2 * count;
        let ghost d = decoded_data(bytes@);
        let ghost offs = decoded_offsets(bytes@);
        let mut offsets: Vec<u16> = Vec::new();
        let mut i: usize = 0;
        while i < count
            invariant
                len == bytes@.len(),
                count == trailer_count(bytes@),
                dlen == decoded_data_len(bytes@),
                d == decoded_data(bytes@),
                offs == decoded_offsets(bytes@),
                i <= count,
                offsets@ == offs.subrange(0, i as int),
                forall|j: int| 0 <= j < i ==> entry_fits(d, #[trigger] offs[j] as int),
            decreases count - i,
        {
            let o = get_u16(bytes, dlen + 2 * i);
            if !entry_fits_in(bytes, dlen, o as usize) {
                assert(offs[i as int] == o);
                return Err(FormatError::EntryOutOfBounds);
            }
            offsets.push(o);
            assert(offsets@ =~= offs.subrange(0, i + 1));
            i = i + 1;
        }
        assert(offsets@ =~= offs);
        let data = slice_to_vec(&bytes[0..dlen]);
        Ok(Block { data, offsets })
    }
}

/// Appends `x` as two big-endian bytes.
pub fn push_u16(buf: &mut Vec<u8>, x: u16)
    ensures
        final(buf)@ == old(buf)@ + u16_bytes(x),
{
    buf.push((x / 256) as u8);
    buf.push((x % 256) as u8);
    assert(final(buf)@ =~= old(buf)@ + u16_bytes(x));
}

/// Reads the big-endian 16-bit integer at `s[at]`.
pub fn get_u16(s: &[u8], at: usize) -> (r: u16)
    requires
        at + 1 < s@.len(),
    ensures
        r == read_u16(s@, at as int),
{
    (s[at] as u16) * 256 + s[at + 1] as u16
}

/// Tells whether the entry at `o` lies inside the first `limit` bytes.
fn entry_fits_in(s: &[u8], limit: usize, o: usize) -> (r: bool)
    requires
        limit <= s@.len(),
    ensures
        r == entry_fits(s@.subrange(0, limit as int), o as int),
{
    let ghost d = s@.subrange(0, limit as int);
    if o > limit || limit - o < 2 {
        return false;
    }
    let klen = get_u16(s, o) as usize;
    assert(read_u16(d, o as int) == klen);
    if limit - o - 2 < klen + 2 {
        return false;
    }
    let vlen = get_u16(s, o + 2 + klen) as usize;
    assert(read_u16(d, o + 2 + klen) == vlen);
    limit - o - 4 - klen >= vlen
}

/// Decoding an encoded well-formed block gives back its data and offsets.
pub proof fn lemma_round_trip(d: Seq<u8>, offs: Seq<u16>)
    requires
        block_wf(d, offs),
    ensures
        decodable(encode_block(d, offs)),
        decoded_data(encode_block(d, offs)) == d,
        decoded_offsets(encode_block(d, offs)) == offs,
{
    let s = encode_block(d, offs);
    let n = offs.len();
    let x = n as u16;
    assert(s[s.len() - 2] == (x / 256) as u8);
    assert(s[s.len() - 1] == (x % 256) as u8);
    assert(trailer_count(s) == n);
    assert(decoded_data_len(s) == d.len());
    assert(decoded_data(s) =~= d);
    assert forall|i: int| 0 <= i < n implies #[trigger] decoded_offsets(s)[i] == offs[i] by {
        let at = d.len() + 2 * i;
        assert(s[at] == offsets_bytes(offs)[2 * i]);
        assert(s[at + 1] == offsets_bytes(offs)[2 * i + 1]);
        assert((2 * i) / 2 == i && (2 * i) % 2 == 0);
        assert((2 * i + 1) / 2 == i && (2 * i + 1) % 2 == 1);
    }
    assert(decoded_offsets(s) =~= offs);
}

} // verus!
