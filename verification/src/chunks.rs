//! The mathematical model of a sparse image: the chunks that a block
//! sequence merges into, the bytes that serialize them, and the image laid
//! out as file header plus chunk records.
//!
//! This module is specification only; the writer is proved against it and
//! the reader's model is proved to invert it.

use vstd::bytes::*;
use vstd::prelude::*;

use crate::block::{BlockModel, BLOCK_SIZE};
use crate::headers::{
    spec_chunk_header_bytes, spec_file_header_bytes, ChunkHeader, ChunkType, FileHeader,
    CHUNK_HEADER_SIZE,
};

verus! {

/// The model of one chunk record: what a run of like blocks merges into.
pub enum ChunkModel {
    /// A raw chunk: the verbatim bytes of its blocks.
    Raw { bytes: Seq<u8> },
    /// A fill chunk: one 4-byte value standing for `count` blocks.
    Fill { value: Seq<u8>, count: nat },
    /// A don't-care chunk standing for `count` skipped blocks.
    DontCare { count: nat },
    /// A CRC32 chunk carrying a checksum and standing for no blocks.
    Crc32 { checksum: u32 },
}

impl ChunkModel {
    /// A chunk is well formed when it stands for at least one block (or is a
    /// CRC32 sentinel) and its buffers have the right sizes.
    pub open spec fn wf(self) -> bool {
        match self {
            ChunkModel::Raw { bytes } => bytes.len() >= BLOCK_SIZE && bytes.len() % (
            BLOCK_SIZE as nat) == 0,
            ChunkModel::Fill { value, count } => value.len() == 4 && count >= 1,
            ChunkModel::DontCare { count } => count >= 1,
            ChunkModel::Crc32 { .. } => true,
        }
    }

    /// The number of raw-image blocks the chunk stands for.
    pub open spec fn num_blocks(self) -> nat {
        match self {
            ChunkModel::Raw { bytes } => bytes.len() / (BLOCK_SIZE as nat),
            ChunkModel::Fill { count, .. } => count,
            ChunkModel::DontCare { count } => count,
            ChunkModel::Crc32 { .. } => 0,
        }
    }

    /// The length of the chunk's body on the wire.
    pub open spec fn body_len(self) -> nat {
        match self {
            ChunkModel::Raw { bytes } => bytes.len(),
            ChunkModel::Fill { .. } => 4,
            ChunkModel::DontCare { .. } => 0,
            ChunkModel::Crc32 { .. } => 4,
        }
    }

    /// The length of the chunk's record on the wire, header included.
    pub open spec fn total_size(self) -> nat {
        (CHUNK_HEADER_SIZE as nat) + self.body_len()
    }

    /// The wire type tag of the chunk.
    pub open spec fn chunk_type(self) -> ChunkType {
        match self {
            ChunkModel::Raw { .. } => ChunkType::Raw,
            ChunkModel::Fill { .. } => ChunkType::Fill,
            ChunkModel::DontCare { .. } => ChunkType::DontCare,
            ChunkModel::Crc32 { .. } => ChunkType::Crc32,
        }
    }

    /// Whether the chunk's counters fit the 32-bit header fields.
    pub open spec fn fits(self) -> bool {
        self.total_size() <= u32::MAX && self.num_blocks() <= u32::MAX
    }

    /// The chunk's wire header.
    pub open spec fn header(self) -> ChunkHeader {
        ChunkHeader {
            chunk_type: self.chunk_type(),
            chunk_size: self.num_blocks() as u32,
            total_size: self.total_size() as u32,
        }
    }

    /// The chunk's body on the wire.
    pub open spec fn body_bytes(self) -> Seq<u8> {
        match self {
            ChunkModel::Raw { bytes } => bytes,
            ChunkModel::Fill { value, .. } => value,
            ChunkModel::DontCare { .. } => Seq::empty(),
            ChunkModel::Crc32 { checksum } => spec_u32_to_le_bytes(checksum),
        }
    }

    /// The chunk's whole record on the wire: header then body.
    pub open spec fn record_bytes(self) -> Seq<u8> {
        spec_chunk_header_bytes(self.header()) + self.body_bytes()
    }

    /// The blocks the chunk expands back into, in order.
    pub open spec fn expand(self) -> Seq<BlockModel> {
        match self {
            ChunkModel::Raw { bytes } => Seq::new(
                bytes.len() / (BLOCK_SIZE as nat),
                |i: int|
                    BlockModel::Raw {
                        bytes: bytes.subrange(i * (BLOCK_SIZE as int), (i + 1) * (
                        BLOCK_SIZE as int)),
                    },
            ),
            ChunkModel::Fill { value, count } => Seq::new(
                count,
                |i: int| BlockModel::Fill { value },
            ),
            ChunkModel::DontCare { count } => Seq::new(count, |i: int| BlockModel::Skip),
            ChunkModel::Crc32 { checksum } => seq![BlockModel::Crc32 { checksum }],
        }
    }
}

/// Whether `b` merges into the open chunk `c`: raw into raw, skip into
/// don't-care, fill into fill of the same value; nothing merges into a CRC32
/// chunk and a CRC32 block merges into nothing.
pub open spec fn can_merge(c: ChunkModel, b: BlockModel) -> bool {
    match (c, b) {
        (ChunkModel::Raw { .. }, BlockModel::Raw { .. }) => true,
        (ChunkModel::Fill { value, .. }, BlockModel::Fill { value: w }) => value == w,
        (ChunkModel::DontCare { .. }, BlockModel::Skip) => true,
        _ => false,
    }
}

/// The chunk after `b` has merged into `c`.
pub open spec fn merge_block(c: ChunkModel, b: BlockModel) -> ChunkModel
    recommends
        can_merge(c, b),
{
    match (c, b) {
        (ChunkModel::Raw { bytes }, BlockModel::Raw { bytes: nb }) => ChunkModel::Raw {
            bytes: bytes + nb,
        },
        (ChunkModel::Fill { value, count }, _) => ChunkModel::Fill { value, count: count + 1 },
        (ChunkModel::DontCare { count }, _) => ChunkModel::DontCare { count: count + 1 },
        _ => c,
    }
}

/// The chunk a block opens when it cannot merge.
pub open spec fn chunk_of_block(b: BlockModel) -> ChunkModel {
    match b {
        BlockModel::Raw { bytes } => ChunkModel::Raw { bytes },
        BlockModel::Fill { value } => ChunkModel::Fill { value, count: 1 },
        BlockModel::Skip => ChunkModel::DontCare { count: 1 },
        BlockModel::Crc32 { checksum } => ChunkModel::Crc32 { checksum },
    }
}

/// The chunks a block sequence merges into: each block either merges into
/// the chunk before it or opens a new one. This is exactly the writer's
/// run-merging.
pub open spec fn chunks_of(bs: Seq<BlockModel>) -> Seq<ChunkModel>
    decreases bs.len(),
{
    if bs.len() == 0 {
        Seq::empty()
    } else {
        let prev = chunks_of(bs.drop_last());
        let b = bs.last();
        if prev.len() > 0 && can_merge(prev.last(), b) {
            prev.drop_last().push(merge_block(prev.last(), b))
        } else {
            prev.push(chunk_of_block(b))
        }
    }
}

/// The concatenated records of a chunk sequence.
pub open spec fn records(cs: Seq<ChunkModel>) -> Seq<u8>
    decreases cs.len(),
{
    if cs.len() == 0 {
        Seq::empty()
    } else {
        cs[0].record_bytes() + records(cs.skip(1))
    }
}

/// The total number of raw-image blocks a chunk sequence stands for.
pub open spec fn total_blocks_of(cs: Seq<ChunkModel>) -> nat
    decreases cs.len(),
{
    if cs.len() == 0 {
        0
    } else {
        cs[0].num_blocks() + total_blocks_of(cs.skip(1))
    }
}

/// The blocks a chunk sequence expands back into, in order.
pub open spec fn expand_chunks(cs: Seq<ChunkModel>) -> Seq<BlockModel>
    decreases cs.len(),
{
    if cs.len() == 0 {
        Seq::empty()
    } else {
        cs[0].expand() + expand_chunks(cs.skip(1))
    }
}

/// Whether every counter of a chunk sequence fits the 32-bit header fields.
pub open spec fn chunks_fit(cs: Seq<ChunkModel>) -> bool {
    &&& forall|i: int| 0 <= i < cs.len() ==> (#[trigger] cs[i]).fits()
    &&& total_blocks_of(cs) <= u32::MAX
    &&& cs.len() <= u32::MAX
}

/// The file header of the image a block sequence serializes to.
pub open spec fn image_header(bs: Seq<BlockModel>) -> FileHeader {
    FileHeader {
        total_blocks: total_blocks_of(chunks_of(bs)) as u32,
        total_chunks: chunks_of(bs).len() as u32,
        image_checksum: 0,
    }
}

/// The complete sparse image a block sequence serializes to: the file header
/// followed by the records of its chunks.
pub open spec fn image_bytes(bs: Seq<BlockModel>) -> Seq<u8> {
    spec_file_header_bytes(image_header(bs)) + records(chunks_of(bs))
}

/// Whether two adjacent chunks could have been one: same type, and for fill
/// chunks the same value.
pub open spec fn chunks_mergeable(c1: ChunkModel, c2: ChunkModel) -> bool {
    match (c1, c2) {
        (ChunkModel::Raw { .. }, ChunkModel::Raw { .. }) => true,
        (ChunkModel::Fill { value, .. }, ChunkModel::Fill { value: w, .. }) => value == w,
        (ChunkModel::DontCare { .. }, ChunkModel::DontCare { .. }) => true,
        _ => false,
    }
}

proof fn lemma_block_multiple(a: nat)
    requires
        a % (BLOCK_SIZE as nat) == 0,
    ensures
        (a + BLOCK_SIZE as nat) % (BLOCK_SIZE as nat) == 0,
        (a + BLOCK_SIZE as nat) / (BLOCK_SIZE as nat) == a / (BLOCK_SIZE as nat) + 1,
        a == (a / (BLOCK_SIZE as nat)) * (BLOCK_SIZE as nat),
{
    let b = BLOCK_SIZE as nat;
    assert((a + b) % b == 0 && (a + b) / b == a / b + 1 && a == (a / b) * b) by (nonlinear_arith)
        requires
            a % b == 0,
            b == BLOCK_SIZE as nat,
    ;
}

pub proof fn lemma_records_push(cs: Seq<ChunkModel>, c: ChunkModel)
    ensures
        records(cs.push(c)) == records(cs) + c.record_bytes(),
    decreases cs.len(),
{
    if cs.len() == 0 {
        let p = cs.push(c);
        assert(p[0] == c);
        assert(p.skip(1) =~= Seq::<ChunkModel>::empty());
        assert(records(p.skip(1)) == Seq::<u8>::empty());
        assert(records(cs.push(c)) =~= records(cs) + c.record_bytes());
    } else {
        assert(cs.push(c).skip(1) =~= cs.skip(1).push(c));
        lemma_records_push(cs.skip(1), c);
        assert(cs.push(c)[0] == cs[0]);
        assert(records(cs.push(c)) =~= records(cs) + c.record_bytes());
    }
}

pub proof fn lemma_total_blocks_push(cs: Seq<ChunkModel>, c: ChunkModel)
    ensures
        total_blocks_of(cs.push(c)) == total_blocks_of(cs) + c.num_blocks(),
    decreases cs.len(),
{
    if cs.len() == 0 {
        let p = cs.push(c);
        assert(p[0] == c);
        assert(p.skip(1) =~= Seq::<ChunkModel>::empty());
        assert(total_blocks_of(p.skip(1)) == 0);
    } else {
        assert(cs.push(c).skip(1) =~= cs.skip(1).push(c));
        lemma_total_blocks_push(cs.skip(1), c);
        assert(cs.push(c)[0] == cs[0]);
    }
}

pub proof fn lemma_expand_chunks_push(cs: Seq<ChunkModel>, c: ChunkModel)
    ensures
        expand_chunks(cs.push(c)) == expand_chunks(cs) + c.expand(),
    decreases cs.len(),
{
    if cs.len() == 0 {
        let p = cs.push(c);
        assert(p[0] == c);
        assert(p.skip(1) =~= Seq::<ChunkModel>::empty());
        assert(expand_chunks(p.skip(1)) == Seq::<BlockModel>::empty());
        assert(expand_chunks(cs.push(c)) =~= expand_chunks(cs) + c.expand());
    } else {
        assert(cs.push(c).skip(1) =~= cs.skip(1).push(c));
        lemma_expand_chunks_push(cs.skip(1), c);
        assert(cs.push(c)[0] == cs[0]);
        assert(expand_chunks(cs.push(c)) =~= expand_chunks(cs) + c.expand());
    }
}

/// The record of a chunk is exactly as long as its header says.
pub proof fn lemma_record_bytes_len(c: ChunkModel)
    requires
        c.wf(),
    ensures
        c.body_bytes().len() == c.body_len(),
        c.record_bytes().len() == c.total_size(),
{
    crate::headers::lemma_chunk_header_bytes_len(c.header());
    if c is Crc32 {
        lemma_auto_spec_u32_to_from_le_bytes();
    }
}

/// What merging a block into an open chunk does to every aspect of the
/// chunk's model.
pub proof fn lemma_merge_block(c: ChunkModel, b: BlockModel)
    requires
        c.wf(),
        b.wf(),
        can_merge(c, b),
    ensures
        merge_block(c, b).wf(),
        merge_block(c, b).num_blocks() == c.num_blocks() + 1,
        merge_block(c, b).chunk_type() == c.chunk_type(),
        merge_block(c, b).body_bytes() == c.body_bytes() + (if c is Raw {
            b.raw_equiv()
        } else {
            Seq::<u8>::empty()
        }),
        merge_block(c, b).total_size() == c.total_size() + (if c is Raw {
            BLOCK_SIZE as nat
        } else {
            0nat
        }),
        merge_block(c, b).expand() == c.expand().push(b),
{
    let m = merge_block(c, b);
    match (c, b) {
        (ChunkModel::Raw { bytes }, BlockModel::Raw { bytes: nb }) => {
            lemma_block_multiple(bytes.len());
            let bsz = BLOCK_SIZE as int;
            let k = bytes.len() / (BLOCK_SIZE as nat);
            assert((bytes + nb).len() == bytes.len() + BLOCK_SIZE);
            assert(m.body_bytes() =~= c.body_bytes() + b.raw_equiv());
            assert forall|i: int| 0 <= i < k + 1 implies m.expand()[i] == c.expand().push(b)[i] by {
                if i < k {
                    assert((i + 1) * bsz <= k * bsz) by (nonlinear_arith)
                        requires
                            i + 1 <= k,
                            bsz >= 0,
                    ;
                    assert((bytes + nb).subrange(i * bsz, (i + 1) * bsz) =~= bytes.subrange(
                        i * bsz,
                        (i + 1) * bsz,
                    ));
                } else {
                    assert(i == k);
                    assert(k * bsz == bytes.len());
                    assert((bytes + nb).subrange(k * bsz, (k + 1) * bsz) =~= nb);
                }
            }
            assert(m.expand() =~= c.expand().push(b));
        },
        (ChunkModel::Fill { value, count }, _) => {
            assert(m.body_bytes() =~= c.body_bytes() + Seq::<u8>::empty());
            assert(m.expand() =~= c.expand().push(b));
        },
        (ChunkModel::DontCare { count }, _) => {
            assert(m.body_bytes() =~= c.body_bytes() + Seq::<u8>::empty());
            assert(m.expand() =~= c.expand().push(b));
        },
        _ => {
            assert(false);
        },
    }
}

/// What the chunk a block opens looks like.
pub proof fn lemma_chunk_of_block(b: BlockModel)
    requires
        b.wf(),
    ensures
        chunk_of_block(b).wf(),
        chunk_of_block(b).num_blocks() == (if b.is_data() {
            1nat
        } else {
            0nat
        }),
        chunk_of_block(b).expand() == seq![b],
{
    let c = chunk_of_block(b);
    match b {
        BlockModel::Raw { bytes } => {
            let bsz = BLOCK_SIZE as nat;
            assert(bytes.len() == bsz);
            assert(bsz % bsz == 0 && bsz / bsz == 1) by (nonlinear_arith)
                requires
                    bsz == BLOCK_SIZE as nat,
            ;
            assert(bytes.subrange(0, BLOCK_SIZE as int) =~= bytes);
            assert(c.expand() =~= seq![b]);
        },
        BlockModel::Fill { value } => {
            assert(c.expand() =~= seq![b]);
        },
        BlockModel::Skip => {
            assert(c.expand() =~= seq![b]);
        },
        BlockModel::Crc32 { checksum } => {
            assert(c.expand() =~= seq![b]);
        },
    }
}

/// How appending one block changes the chunk sequence: it either merges into
/// the last chunk or opens a new one.
pub proof fn lemma_chunks_of_push(bs: Seq<BlockModel>, b: BlockModel)
    ensures
        chunks_of(bs.push(b)) == ({
            let cs = chunks_of(bs);
            if cs.len() > 0 && can_merge(cs.last(), b) {
                cs.drop_last().push(merge_block(cs.last(), b))
            } else {
                cs.push(chunk_of_block(b))
            }
        }),
{
    assert(bs.push(b).drop_last() =~= bs);
    assert(bs.push(b).last() == b);
    assert(bs.push(b).len() == bs.len() + 1);
}

/// The chunks of a well-formed block sequence are well formed.
pub proof fn lemma_chunks_of_wf(bs: Seq<BlockModel>)
    requires
        forall|i: int| 0 <= i < bs.len() ==> (#[trigger] bs[i]).wf(),
    ensures
        forall|i: int| 0 <= i < chunks_of(bs).len() ==> (#[trigger] chunks_of(bs)[i]).wf(),
        chunks_of(bs).len() <= bs.len(),
    decreases bs.len(),
{
    if bs.len() == 0 {
    } else {
        let pre = bs.drop_last();
        let b = bs.last();
        assert(forall|i: int| 0 <= i < pre.len() ==> (#[trigger] pre[i]).wf() && pre[i] == bs[i]);
        lemma_chunks_of_wf(pre);
        let prev = chunks_of(pre);
        if prev.len() > 0 && can_merge(prev.last(), b) {
            lemma_merge_block(prev.last(), b);
            let m = merge_block(prev.last(), b);
            assert(forall|i: int|
                0 <= i < chunks_of(bs).len() ==> (#[trigger] chunks_of(bs)[i])
                    == if i < prev.len() - 1 {
                    prev[i]
                } else {
                    m
                });
        } else {
            lemma_chunk_of_block(b);
            assert(forall|i: int|
                0 <= i < chunks_of(bs).len() ==> (#[trigger] chunks_of(bs)[i]) == if i
                    < prev.len() {
                    prev[i]
                } else {
                    chunk_of_block(b)
                });
        }
    }
}

/// The total block count of the chunks equals the number of data blocks
/// merged into them.
pub proof fn lemma_chunks_of_total_blocks(bs: Seq<BlockModel>)
    requires
        forall|i: int| 0 <= i < bs.len() ==> (#[trigger] bs[i]).wf(),
    ensures
        total_blocks_of(chunks_of(bs)) == crate::block::count_data_blocks(bs),
    decreases bs.len(),
{
    if bs.len() == 0 {
    } else {
        let pre = bs.drop_last();
        let b = bs.last();
        assert(forall|i: int| 0 <= i < pre.len() ==> (#[trigger] pre[i]).wf() && pre[i] == bs[i]);
        lemma_chunks_of_total_blocks(pre);
        lemma_chunks_of_wf(pre);
        crate::block::lemma_count_data_blocks_push(pre, b);
        assert(pre.push(b) =~= bs);
        let prev = chunks_of(pre);
        if prev.len() > 0 && can_merge(prev.last(), b) {
            lemma_merge_block(prev.last(), b);
            assert(prev =~= prev.drop_last().push(prev.last()));
            lemma_total_blocks_push(prev.drop_last(), prev.last());
            lemma_total_blocks_push(prev.drop_last(), merge_block(prev.last(), b));
            assert(b.is_data());
        } else {
            lemma_chunk_of_block(b);
            lemma_total_blocks_push(prev, chunk_of_block(b));
        }
    }
}

/// Expanding the chunks of a well-formed block sequence gives back exactly
/// that sequence: run-merging loses nothing.
pub proof fn lemma_expand_chunks_of(bs: Seq<BlockModel>)
    requires
        forall|i: int| 0 <= i < bs.len() ==> (#[trigger] bs[i]).wf(),
    ensures
        expand_chunks(chunks_of(bs)) == bs,
    decreases bs.len(),
{
    if bs.len() == 0 {
    } else {
        let pre = bs.drop_last();
        let b = bs.last();
        assert(forall|i: int| 0 <= i < pre.len() ==> (#[trigger] pre[i]).wf() && pre[i] == bs[i]);
        lemma_expand_chunks_of(pre);
        lemma_chunks_of_wf(pre);
        assert(pre.push(b) =~= bs);
        let prev = chunks_of(pre);
        if prev.len() > 0 && can_merge(prev.last(), b) {
            lemma_merge_block(prev.last(), b);
            assert(prev =~= prev.drop_last().push(prev.last()));
            lemma_expand_chunks_push(prev.drop_last(), prev.last());
            lemma_expand_chunks_push(prev.drop_last(), merge_block(prev.last(), b));
            assert(expand_chunks(chunks_of(bs)) =~= bs);
        } else {
            lemma_chunk_of_block(b);
            lemma_expand_chunks_push(prev, chunk_of_block(b));
            assert(expand_chunks(chunks_of(bs)) =~= bs);
        }
    }
}

proof fn lemma_raw_concat_repeat(b: BlockModel, n: nat)
    requires
        b.raw_equiv().len() == BLOCK_SIZE,
    ensures
        crate::block::raw_concat(Seq::new(n, |i: int| b)) == Seq::new(
            n * (BLOCK_SIZE as nat),
            |i: int| b.raw_equiv()[i % (BLOCK_SIZE as int)],
        ),
    decreases n,
{
    let bsz = BLOCK_SIZE as int;
    if n == 0 {
        assert(crate::block::raw_concat(Seq::new(0nat, |i: int| b)) =~= Seq::new(
            0nat,
            |i: int| b.raw_equiv()[i % bsz],
        ));
    } else {
        lemma_raw_concat_repeat(b, (n - 1) as nat);
        let run = Seq::new(n, |i: int| b);
        assert(run[0] == b);
        assert(run.skip(1) =~= Seq::new((n - 1) as nat, |i: int| b));
        let whole = Seq::new(n * (BLOCK_SIZE as nat), |i: int| b.raw_equiv()[i % bsz]);
        let rest = Seq::new((n - 1) as nat * (BLOCK_SIZE as nat), |i: int| b.raw_equiv()[i % bsz]);
        assert forall|i: int| 0 <= i < whole.len() implies (b.raw_equiv() + rest)[i]
            == whole[i] by {
            if i < bsz {
                assert(i % bsz == i);
            } else {
                assert((i - bsz) % bsz == i % bsz) by (nonlinear_arith)
                    requires
                        bsz == BLOCK_SIZE as int,
                        i >= bsz,
                ;
            }
        }
        assert(crate::block::raw_concat(run) =~= whole);
    }
}

proof fn lemma_raw_expand_concat(bytes: Seq<u8>)
    requires
        bytes.len() >= BLOCK_SIZE,
        bytes.len() % (BLOCK_SIZE as nat) == 0,
    ensures
        crate::block::raw_concat(ChunkModel::Raw { bytes }.expand()) == bytes,
    decreases bytes.len(),
{
    let bsz = BLOCK_SIZE as int;
    let k = bytes.len() / (BLOCK_SIZE as nat);
    let e = ChunkModel::Raw { bytes }.expand();
    assert(k >= 1 && bytes.len() == k * bsz) by (nonlinear_arith)
        requires
            bytes.len() % (bsz as nat) == 0,
            bytes.len() >= bsz,
            bsz == BLOCK_SIZE as int,
            k == bytes.len() / (BLOCK_SIZE as nat),
    ;
    if k == 1 {
        assert(e[0] == BlockModel::Raw { bytes: bytes.subrange(0, bsz) });
        assert(bytes.subrange(0, bsz) =~= bytes);
        assert(e.skip(1) =~= Seq::<BlockModel>::empty());
        assert(crate::block::raw_concat(e.skip(1)) == Seq::<u8>::empty());
        assert(crate::block::raw_concat(e) =~= bytes);
    } else {
        let tail = bytes.skip(bsz);
        assert(tail.len() == (k - 1) * bsz) by (nonlinear_arith)
            requires
                bytes.len() == k * bsz,
                tail.len() == bytes.len() - bsz,
                bsz == BLOCK_SIZE as int,
        ;
        assert(tail.len() >= BLOCK_SIZE && tail.len() % (BLOCK_SIZE as nat) == 0) by (
        nonlinear_arith)
            requires
                tail.len() == (k - 1) * bsz,
                k >= 2,
                bsz == BLOCK_SIZE as int,
        ;
        lemma_raw_expand_concat(tail);
        let et = ChunkModel::Raw { bytes: tail }.expand();
        assert(tail.len() / (BLOCK_SIZE as nat) == k - 1) by (nonlinear_arith)
            requires
                tail.len() == (k - 1) * bsz,
                k >= 1,
                bsz == BLOCK_SIZE as int,
        ;
        assert forall|i: int| 0 <= i < k - 1 implies e.skip(1)[i] == et[i] by {
            assert(e.skip(1)[i] == e[i + 1]);
            assert((i + 1) * bsz == i * bsz + bsz && (i + 2) * bsz == (i + 1) * bsz + bsz);
            assert(i * bsz + bsz >= bsz && (i + 1) * bsz + bsz <= bytes.len()) by (nonlinear_arith)
                requires
                    0 <= i < k - 1,
                    bytes.len() == k * bsz,
                    bsz == BLOCK_SIZE as int,
            ;
            assert(bytes.subrange((i + 1) * bsz, (i + 2) * bsz) =~= tail.subrange(
                i * bsz,
                (i + 1) * bsz,
            ));
        }
        assert(e.skip(1) =~= et);
        assert(e[0] == BlockModel::Raw { bytes: bytes.subrange(0, bsz) });
        assert(crate::block::raw_concat(e) == bytes.subrange(0, bsz)
            + crate::block::raw_concat(et));
        assert(crate::block::raw_concat(e) =~= bytes);
    }
}

/// The raw-image-equivalent bytes of a chunk's expansion: its verbatim
/// bytes for a raw chunk, its pattern repeated over every block for a fill
/// chunk, zeroes for a don't-care chunk, nothing for a CRC32 chunk.
pub proof fn lemma_expand_raw_concat(c: ChunkModel)
    requires
        c.wf(),
    ensures
        crate::block::raw_concat(c.expand()) == (match c {
            ChunkModel::Raw { bytes } => bytes,
            ChunkModel::Fill { value, count } => Seq::new(
                count * (BLOCK_SIZE as nat),
                |i: int| value[i % 4],
            ),
            ChunkModel::DontCare { count } => Seq::new(count * (BLOCK_SIZE as nat), |i: int| 0u8),
            ChunkModel::Crc32 { .. } => Seq::<u8>::empty(),
        }),
{
    let bsz = BLOCK_SIZE as int;
    match c {
        ChunkModel::Raw { bytes } => {
            lemma_raw_expand_concat(bytes);
        },
        ChunkModel::Fill { value, count } => {
            let b = BlockModel::Fill { value };
            lemma_raw_concat_repeat(b, count);
            assert(c.expand() =~= Seq::new(count, |i: int| b));
            assert forall|i: int| 0 <= i < count * (BLOCK_SIZE as nat) implies #[trigger] b.raw_equiv()[i
                % bsz] == value[i % 4] by {
                assert(0 <= i % bsz < bsz);
                assert(b.raw_equiv()[i % bsz] == value[(i % bsz) % 4]);
                assert((i % bsz) % 4 == i % 4) by (nonlinear_arith)
                    requires
                        bsz == BLOCK_SIZE as int,
                        i >= 0,
                ;
            }
            assert(crate::block::raw_concat(c.expand()) =~= Seq::new(
                count * (BLOCK_SIZE as nat),
                |i: int| value[i % 4],
            ));
        },
        ChunkModel::DontCare { count } => {
            let b = BlockModel::Skip;
            lemma_raw_concat_repeat(b, count);
            assert(c.expand() =~= Seq::new(count, |i: int| b));
            assert(crate::block::raw_concat(c.expand()) =~= Seq::new(
                count * (BLOCK_SIZE as nat),
                |i: int| 0u8,
            ));
        },
        ChunkModel::Crc32 { checksum } => {
            let e = c.expand();
            assert(e.skip(1) =~= Seq::<BlockModel>::empty());
            assert(crate::block::raw_concat(e.skip(1)) == Seq::<u8>::empty());
            assert(crate::block::raw_concat(e) =~= Seq::<u8>::empty());
        },
    }
}

/// The expansion of a chunk sequence splits at any index.
pub proof fn lemma_expand_chunks_split(cs: Seq<ChunkModel>, k: int)
    requires
        0 <= k <= cs.len(),
    ensures
        expand_chunks(cs) == expand_chunks(cs.take(k)) + expand_chunks(cs.skip(k)),
    decreases k,
{
    if k == 0 {
        assert(cs.take(0) =~= Seq::<ChunkModel>::empty());
        assert(cs.skip(0) =~= cs);
        assert(expand_chunks(cs.take(0)) == Seq::<BlockModel>::empty());
        assert(expand_chunks(cs) =~= expand_chunks(cs.take(0)) + expand_chunks(cs.skip(0)));
    } else {
        lemma_expand_chunks_split(cs.skip(1), k - 1);
        assert(cs.skip(1).take(k - 1) =~= cs.take(k).skip(1));
        assert(cs.skip(1).skip(k - 1) =~= cs.skip(k));
        assert(cs.take(k)[0] == cs[0]);
        assert(expand_chunks(cs) =~= expand_chunks(cs.take(k)) + expand_chunks(cs.skip(k)));
    }
}

proof fn lemma_merge_keeps_mergeability(x: ChunkModel, c: ChunkModel, b: BlockModel)
    requires
        can_merge(c, b),
    ensures
        chunks_mergeable(x, merge_block(c, b)) == chunks_mergeable(x, c),
{
}

proof fn lemma_new_chunk_not_mergeable(c: ChunkModel, b: BlockModel)
    requires
        !can_merge(c, b),
    ensures
        !chunks_mergeable(c, chunk_of_block(b)),
{
}

/// Run-merging is exhaustive: no two adjacent chunks could have been one.
pub proof fn lemma_chunks_of_no_adjacent_mergeable(bs: Seq<BlockModel>)
    ensures
        forall|i: int|
            0 <= i && i + 1 < chunks_of(bs).len() ==> !chunks_mergeable(
                #[trigger] chunks_of(bs)[i],
                chunks_of(bs)[i + 1],
            ),
    decreases bs.len(),
{
    if bs.len() == 0 {
    } else {
        let pre = bs.drop_last();
        let b = bs.last();
        lemma_chunks_of_no_adjacent_mergeable(pre);
        let prev = chunks_of(pre);
        let cs = chunks_of(bs);
        if prev.len() > 0 && can_merge(prev.last(), b) {
            assert forall|i: int|
                0 <= i && i + 1 < cs.len() implies !chunks_mergeable(
                #[trigger] cs[i],
                cs[i + 1],
            ) by {
                assert(cs[i] == prev[i]);
                if i + 1 < cs.len() - 1 {
                    assert(cs[i + 1] == prev[i + 1]);
                } else {
                    assert(cs[i + 1] == merge_block(prev.last(), b));
                    lemma_merge_keeps_mergeability(prev[i], prev.last(), b);
                    assert(prev.last() == prev[i + 1]);
                }
            }
        } else {
            assert forall|i: int|
                0 <= i && i + 1 < cs.len() implies !chunks_mergeable(
                #[trigger] cs[i],
                cs[i + 1],
            ) by {
                if i + 1 < cs.len() - 1 {
                    assert(cs[i] == prev[i] && cs[i + 1] == prev[i + 1]);
                } else {
                    assert(cs[i + 1] == chunk_of_block(b));
                    if prev.len() > 0 {
                        assert(cs[i] == prev.last());
                        lemma_new_chunk_not_mergeable(prev.last(), b);
                    }
                }
            }
        }
    }
}

} // verus!
