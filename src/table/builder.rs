//! Packs sorted key-value pairs into blocks and blocks into a table.

use vstd::prelude::*;
use vstd::slice::slice_to_vec;

use super::{BlockMeta, SsTable, TableError, meta_bytes, push_u32, u32_bytes};
use crate::block::builder::{MAX_BLOCK_SIZE, MAX_FIELD_LEN};
use crate::block::{
    BlockBuilder, Entry, block_entries, decodable, keys_ascending, decoded_data, decoded_offsets, lemma_round_trip,
};
use crate::key::{key_le, key_lt};

verus! {

/// The byte strings of `s`, one after another.
pub open spec fn concat(s: Seq<Seq<u8>>) -> Seq<u8>
    decreases s.len(),
{
    if s.len() == 0 {
        Seq::empty()
    } else {
        concat(s.drop_last()) + s.last()
    }
}

/// The entries that the encoded block `s` holds.
pub open spec fn decoded_entries(s: Seq<u8>) -> Seq<Entry> {
    block_entries(decoded_data(s), decoded_offsets(s))
}

/// `starts` cuts `0..n` into non-empty runs: it starts at 0, strictly
/// increases, and its last element is at most `n`.
pub open spec fn starts_valid(starts: Seq<int>, n: int) -> bool {
    &&& starts.len() >= 1
    &&& starts[0] == 0
    &&& forall|i: int, j: int| 0 <= i < j < starts.len() ==> #[trigger] starts[i] < #[trigger] starts[j]
    &&& starts.last() <= n
}

/// `metas` records, for each run of `starts` over `es`, the first and last key.
pub open spec fn metas_describe(metas: Seq<BlockMeta>, es: Seq<Entry>, starts: Seq<int>) -> bool {
    &&& starts.len() == metas.len() + 1
    &&& forall|i: int| 0 <= i < metas.len() ==> {
        &&& (#[trigger] metas[i]).first_key@ == es[starts[i]].0
        &&& metas[i].last_key@ == es[starts[i + 1] - 1].0
    }
}

/// The blocks and the meta records agree: block `i` starts where the ones
/// before it end, and decodes to run `i` of the entries.
pub open spec fn blocks_describe(
    metas: Seq<BlockMeta>,
    blocks: Seq<Seq<u8>>,
    es: Seq<Entry>,
    starts: Seq<int>,
) -> bool {
    &&& blocks.len() == metas.len()
    &&& starts.len() == metas.len() + 1
    &&& forall|i: int| 0 <= i < metas.len() ==> {
        &&& (#[trigger] metas[i]).offset == concat(blocks.take(i)).len()
        &&& decodable(blocks[i])
        &&& decoded_entries(blocks[i]) == es.subrange(starts[i], starts[i + 1])
    }
}

/// Builds an SSTable from key-value pairs.
pub struct SsTableBuilder {
    builder: BlockBuilder,
    first_key: Vec<u8>,
    last_key: Vec<u8>,
    data: Vec<u8>,
    meta: Vec<BlockMeta>,
    block_size: usize,
    /// Every entry added, in order.
    entries: Ghost<Seq<Entry>>,
    /// The index in `entries` where each block starts; the last one is
    /// where the block being filled starts.
    starts: Ghost<Seq<int>>,
    /// The encoding of each sealed block.
    sealed: Ghost<Seq<Seq<u8>>>,
}

proof fn lemma_concat_push(s: Seq<Seq<u8>>, x: Seq<u8>)
    ensures
        concat(s.push(x)) == concat(s) + x,
        forall|i: int| 0 <= i <= s.len() ==> #[trigger] s.push(x).take(i) == s.take(i),
{
    assert(s.push(x).drop_last() =~= s);
    assert forall|i: int| 0 <= i <= s.len() implies #[trigger] s.push(x).take(i) == s.take(i) by {
        assert(s.push(x).take(i) =~= s.take(i));
    }
}

impl SsTableBuilder {
    pub closed spec fn wf(&self) -> bool {
        &&& self.wf_sealed()
        &&& self.meta@.len() > 0 ==> self.starts@[self.meta@.len() as int] < self.entries@.len()
    }

    /// All of `wf` but that a table with sealed blocks has a block being
    /// filled.
    closed spec fn wf_sealed(&self) -> bool {
        let es = self.entries@;
        let st = self.starts@;
        let m = self.meta@.len();
        &&& self.builder.wf()
        &&& self.builder.block_size() == self.block_size
        &&& self.block_size <= MAX_BLOCK_SIZE
        &&& starts_valid(st, es.len() as int)
        &&& st.len() == m + 1
        &&& self.builder.entries() == es.subrange(st[m as int], es.len() as int)
        &&& forall|k: int| 0 <= k < es.len() ==> (#[trigger] es[k]).0.len() <= MAX_FIELD_LEN
        &&& self.data@ == concat(self.sealed@)
        &&& metas_describe(self.meta@, es, st)
        &&& blocks_describe(self.meta@, self.sealed@, es, st)
        &&& forall|i: int| 0 <= i < m ==> (#[trigger] self.meta@[i]).offset <= self.data@.len()
        &&& st[m as int] < es.len() ==> {
            &&& self.first_key@ == es[st[m as int]].0
            &&& self.last_key@ == es.last().0
        }
    }

    /// Every entry added so far, in order.
    pub closed spec fn entries(&self) -> Seq<Entry> {
        self.entries@
    }

    /// Where each sealed block starts in `entries()`, and last where the
    /// block being filled starts.
    pub closed spec fn block_starts(&self) -> Seq<int> {
        self.starts@
    }

    /// The encodings of the sealed blocks, in order.
    pub closed spec fn sealed_blocks(&self) -> Seq<Seq<u8>> {
        self.sealed@
    }

    /// The encoding that the block being filled would have if sealed now.
    pub closed spec fn pending_block(&self) -> Seq<u8> {
        self.builder.encoded()
    }

    /// Creates a builder for blocks of the given target size.
    pub fn new(block_size: usize) -> (r: Self)
        requires
            block_size <= MAX_BLOCK_SIZE,
        ensures
            r.wf(),
            r.entries() == Seq::<Entry>::empty(),
            r.sealed_blocks() == Seq::<Seq<u8>>::empty(),
    {
        let r = Self {
            builder: BlockBuilder::new(block_size),
            first_key: vec![],
            last_key: vec![],
            data: vec![],
            meta: vec![],
            block_size: block_size,
            entries: Ghost(Seq::empty()),
            starts: Ghost(Seq::<int>::empty().push(0)),
            sealed: Ghost(Seq::empty()),
        };
        assert(r.builder.entries() =~= r.entries@.subrange(0, 0));
        r
    }

    /// Adds a key-value pair; when the current block is full it is sealed and
    /// the pair starts a new one.
    pub fn add(&mut self, key: &[u8], value: &[u8])
        requires
            old(self).wf(),
            key@.len() <= MAX_FIELD_LEN,
            value@.len() <= MAX_FIELD_LEN,
        ensures
            final(self).wf(),
            final(self).entries() == old(self).entries().push((key@, value@)),
            final(self).sealed_blocks() == old(self).sealed_blocks() || final(self).sealed_blocks()
                == old(self).sealed_blocks().push(old(self).pending_block()),
            concat(old(self).sealed_blocks()).len() <= concat(final(self).sealed_blocks()).len(),
    {
        if self.builder.is_empty() {
            self.first_key = slice_to_vec(key);
        }
        if self.builder.add(key, value) {
            self.last_key = slice_to_vec(key);
            proof {
                self.lemma_pushed(old(self).entries@, key@, value@);
            }
            self.entries = Ghost(self.entries@.push((key@, value@)));
            return;
        }
        self.build_block();
        proof {
            lemma_concat_push(old(self).sealed@, old(self).pending_block());
        }
        self.first_key = slice_to_vec(key);
        let added = self.builder.add(key, value);
        assert(added);
        self.last_key = slice_to_vec(key);
        proof {
            self.lemma_pushed(old(self).entries@, key@, value@);
        }
        self.entries = Ghost(self.entries@.push((key@, value@)));
    }

    /// What holds of the ghost state once `(k, v)` went into the block
    /// being filled and is about to join `entries`.
    proof fn lemma_pushed(&self, es: Seq<Entry>, k: Seq<u8>, v: Seq<u8>)
        requires
            es == self.entries@,
            k.len() <= MAX_FIELD_LEN,
            starts_valid(self.starts@, es.len() as int),
            self.starts@.len() == self.meta@.len() + 1,
            self.builder.entries() == es.subrange(self.starts@.last(), es.len() as int).push((k, v)),
            metas_describe(self.meta@, es, self.starts@),
            blocks_describe(self.meta@, self.sealed@, es, self.starts@),
            forall|i: int| 0 <= i < es.len() ==> (#[trigger] es[i]).0.len() <= MAX_FIELD_LEN,
        ensures
            ({
                let es2 = es.push((k, v));
                &&& starts_valid(self.starts@, es2.len() as int)
                &&& self.builder.entries() == es2.subrange(self.starts@.last(), es2.len() as int)
                &&& metas_describe(self.meta@, es2, self.starts@)
                &&& blocks_describe(self.meta@, self.sealed@, es2, self.starts@)
                &&& forall|i: int| 0 <= i < es2.len() ==> (#[trigger] es2[i]).0.len() <= MAX_FIELD_LEN
                &&& self.starts@.last() < es2.len()
            }),
    {
        let es2 = es.push((k, v));
        let st = self.starts@;
        assert(es2.subrange(st.last(), es2.len() as int) =~= es.subrange(st.last(), es.len() as int).push((k, v)));
        assert forall|i: int| 0 <= i < self.meta@.len() implies {
            &&& es2.subrange(st[i], st[i + 1]) == es.subrange(st[i], st[i + 1])
            &&& es2[st[i]] == es[st[i]]
            &&& es2[st[i + 1] - 1] == es[st[i + 1] - 1]
            &&& #[trigger] self.meta@[i] == self.meta@[i]
        } by {
            assert(st[i] < st[i + 1]);
            assert(st[i + 1] <= st.last()) by {
                if i + 1 < st.len() - 1 {
                    assert(st[i + 1] < st[st.len() - 1]);
                }
            }
            assert(es2.subrange(st[i], st[i + 1]) =~= es.subrange(st[i], st[i + 1]));
        }
    }

    /// Returns the number of bytes of the sealed blocks; the block being
    /// filled and the metadata are not counted.
    pub fn estimated_size(&self) -> (r: usize)
        requires
            self.wf(),
        ensures
            r == concat(self.sealed_blocks()).len(),
    {
        self.data.len()
    }

    /// Seals the block being filled: encodes it, records its meta and starts
    /// an empty block.
    fn build_block(&mut self)
        requires
            old(self).wf(),
            old(self).builder.entries().len() > 0,
        ensures
            final(self).wf_sealed(),
            final(self).builder.entries().len() == 0,
            final(self).builder.payload_size() == 0,
            final(self).builder.block_size() == old(self).builder.block_size(),
            final(self).entries() == old(self).entries(),
            final(self).sealed_blocks() == old(self).sealed_blocks().push(old(self).pending_block()),
            final(self).block_starts() == old(self).block_starts().push(old(self).entries().len() as int),
            final(self).meta@.len() == old(self).meta@.len() + 1,
    {
        let mut builder = BlockBuilder::new(self.block_size);
        core::mem::swap(&mut self.builder, &mut builder);
        let block = builder.build();
        let mut encoded = block.encode();
        proof {
            lemma_round_trip(block.data@, block.offsets@);
        }
        let offset = self.data.len();
        let first_key = slice_to_vec(self.first_key.as_slice());
        let last_key = slice_to_vec(self.last_key.as_slice());
        let ghost es = self.entries@;
        let ghost st = self.starts@;
        let ghost m = self.meta@.len() as int;
        let ghost enc = encoded@;
        let ghost old_sealed = self.sealed@;
        self.meta.push(BlockMeta { offset, first_key, last_key });
        self.data.append(&mut encoded);
        proof {
            lemma_concat_push(old_sealed, enc);
            self.sealed = Ghost(old_sealed.push(enc));
            self.starts = Ghost(st.push(es.len() as int));
            let st2 = self.starts@;
            assert(es.subrange(st[m], es.len() as int) == builder.entries());
            assert forall|i: int, j: int| 0 <= i < j < st2.len() implies #[trigger] st2[i] < #[trigger] st2[j] by {
                if j < st.len() {
                    assert(st[i] < st[j]);
                } else if i < m {
                    assert(st[i] < st[m]);
                }
            }
            assert(es.subrange(es.len() as int, es.len() as int) =~= Seq::<Entry>::empty());
            assert forall|i: int| 0 <= i < m + 1 implies {
                &&& (#[trigger] self.meta@[i]).first_key@ == es[st2[i]].0
                &&& self.meta@[i].last_key@ == es[st2[i + 1] - 1].0
            } by {
                if i < m {
                    assert(self.meta@[i] == old(self).meta@[i]);
                }
            }
            assert forall|i: int| 0 <= i < m + 1 implies {
                &&& (#[trigger] self.meta@[i]).offset == concat(self.sealed@.take(i)).len()
                &&& decodable(self.sealed@[i])
                &&& decoded_entries(self.sealed@[i]) == es.subrange(st2[i], st2[i + 1])
            } by {
                if i < m {
                    assert(self.meta@[i] == old(self).meta@[i]);
                } else {
                    assert(old_sealed.push(enc).take(m) == old_sealed.take(m));
                    assert(old_sealed.take(m) =~= old_sealed);
                }
            }
            assert forall|i: int| 0 <= i < m + 1 implies (#[trigger] self.meta@[i]).offset <= self.data@.len() by {
                if i < m {
                    assert(self.meta@[i] == old(self).meta@[i]);
                }
            }
        }
    }

    /// Seals the last block and lays out the table: the blocks, the meta
    /// records, and a footer with the offset of the meta records. Fails on a
    /// builder with no entries, and on blocks past what a 32-bit offset
    /// addresses.
    pub fn build(self, id: usize) -> (r: Result<SsTable, TableError>)
        requires
            self.wf(),
        ensures
            ({
                let es = self.entries();
                let blocks = self.sealed_blocks().push(self.pending_block());
                let starts = self.block_starts().push(es.len() as int);
                match r {
                    Err(e) => if es.len() == 0 {
                        e == TableError::EmptyTable
                    } else {
                        e == TableError::TooLarge && concat(blocks).len() > u32::MAX
                    },
                    Ok(t) => {
                        &&& es.len() > 0
                        &&& concat(blocks).len() <= u32::MAX
                        &&& starts_valid(starts, es.len() as int)
                        &&& starts.last() == es.len()
                        &&& metas_describe(t.block_meta@, es, starts)
                        &&& blocks_describe(t.block_meta@, blocks, es, starts)
                        &&& t.block_meta_offset == concat(blocks).len()
                        &&& t.contents@ == concat(blocks) + meta_bytes(t.block_meta@) + u32_bytes(
                            t.block_meta_offset as u32,
                        )
                        &&& t.first_key@ == es[0].0
                        &&& t.last_key@ == es.last().0
                        &&& t.id == id
                        &&& t.max_ts == 0
                    },
                }
            }),
    {
        let mut this = self;
        if this.builder.is_empty() {
            proof {
                assert(this.entries@.subrange(this.starts@.last(), this.entries@.len() as int).len() == 0);
            }
            return Err(TableError::EmptyTable);
        }
        this.build_block();
        let meta_offset = this.data.len();
        if meta_offset > 4294967295usize {
            return Err(TableError::TooLarge);
        }
        let ghost es = this.entries@;
        let ghost st = this.starts@;
        let n = this.meta.len();
        proof {
            assert forall|i: int| 0 <= i < n implies super::meta_encodable(#[trigger] this.meta@[i]) by {
                assert(this.meta@[i].offset <= this.data@.len());
                assert(st[i] < st[i + 1]);
                assert(st[i + 1] <= st.last()) by {
                    if i + 1 < st.len() - 1 {
                        assert(st[i + 1] < st[st.len() - 1]);
                    }
                }
                assert(es[st[i]].0.len() <= MAX_FIELD_LEN);
                assert(es[st[i + 1] - 1].0.len() <= MAX_FIELD_LEN);
            }
            assert(this.meta@[0].first_key@ == es[st[0]].0);
            assert(this.meta@[n - 1].last_key@ == es[st[n as int] - 1].0);
        }
        let mut buf = this.data;
        BlockMeta::encode_block_meta(&this.meta, &mut buf);
        push_u32(&mut buf, meta_offset as u32);
        let first_key = slice_to_vec(this.meta[0].first_key.as_slice());
        let last_key = slice_to_vec(this.meta[n - 1].last_key.as_slice());
        Ok(SsTable {
            contents: buf,
            block_meta: this.meta,
            block_meta_offset: meta_offset,
            id: id,
            first_key: first_key,
            last_key: last_key,
            max_ts: 0,
        })
    }
}

/// Entry `k` lies in some block, and its key within that block's range.
pub open spec fn in_block_range(metas: Seq<BlockMeta>, es: Seq<Entry>, starts: Seq<int>, k: int) -> bool {
    exists|i: int| {
        &&& 0 <= i < metas.len()
        &&& starts[i] <= k < starts[i + 1]
        &&& key_le(#[trigger] metas[i].first_key@, es[k].0)
        &&& key_le(es[k].0, metas[i].last_key@)
    }
}

/// The run of `starts` that holds entry `k`.
proof fn lemma_find_run(starts: Seq<int>, k: int, i: int) -> (r: int)
    requires
        0 <= i < starts.len() - 1,
        starts[i] <= k < starts.last(),
        forall|p: int, q: int| 0 <= p < q < starts.len() ==> #[trigger] starts[p] < #[trigger] starts[q],
    ensures
        i <= r < starts.len() - 1,
        starts[r] <= k < starts[r + 1],
    decreases starts.len() - i,
{
    if k < starts[i + 1] {
        i
    } else {
        lemma_find_run(starts, k, i + 1)
    }
}

/// For key-ascending entries cut into blocks, the meta records' key ranges
/// are ordered within themselves, lie each wholly below the next ones, start
/// at the first entry, end at the last, and every entry's key falls within
/// the range of the block that holds it.
pub proof fn lemma_meta_coverage(metas: Seq<BlockMeta>, es: Seq<Entry>, starts: Seq<int>)
    requires
        keys_ascending(es),
        starts_valid(starts, es.len() as int),
        starts.last() == es.len(),
        metas_describe(metas, es, starts),
    ensures
        forall|i: int| 0 <= i < metas.len() ==> key_le(#[trigger] metas[i].first_key@, metas[i].last_key@),
        forall|i: int, j: int| 0 <= i < j < metas.len() ==> key_lt(#[trigger] metas[i].last_key@, #[trigger] metas[j].first_key@),
        es.len() > 0 ==> metas.len() > 0 && metas[0].first_key@ == es[0].0 && metas.last().last_key@ == es.last().0,
        forall|k: int| 0 <= k < es.len() ==> #[trigger] in_block_range(metas, es, starts, k),
{
    let m = metas.len() as int;
    assert forall|i: int| 0 <= i < m implies key_le(#[trigger] metas[i].first_key@, metas[i].last_key@) by {
        assert(starts[i] < starts[i + 1]);
        if starts[i] < starts[i + 1] - 1 {
            assert(key_lt(es[starts[i]].0, es[starts[i + 1] - 1].0));
        }
    }
    assert forall|i: int, j: int| 0 <= i < j < m implies key_lt(#[trigger] metas[i].last_key@, #[trigger] metas[j].first_key@) by {
        if i + 1 < j {
            assert(starts[i + 1] < starts[j]);
        }
        assert(starts[j] < starts[j + 1]);
        assert(starts[j + 1] <= starts.last()) by {
            if j + 1 < m {
                assert(starts[j + 1] < starts[m]);
            }
        }
        assert(key_lt(es[starts[i + 1] - 1].0, es[starts[j]].0));
    }
    if es.len() > 0 {
        assert(m > 0);
        assert(metas[0].first_key@ == es[starts[0]].0);
        assert(metas[m - 1].last_key@ == es[starts[m] - 1].0);
    }
    assert forall|k: int| 0 <= k < es.len() implies #[trigger] in_block_range(metas, es, starts, k) by {
        let i = lemma_find_run(starts, k, 0);
        assert(starts[i + 1] <= starts.last()) by {
            if i + 1 < m {
                assert(starts[i + 1] < starts[m]);
            }
        }
        if starts[i] < k {
            assert(key_lt(es[starts[i]].0, es[k].0));
        }
        if k < starts[i + 1] - 1 {
            assert(key_lt(es[k].0, es[starts[i + 1] - 1].0));
        }
        assert(metas[i].first_key@ == es[starts[i]].0);
    }
}

} // verus!
