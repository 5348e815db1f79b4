//! The in-memory unit exchanged between producers and consumers: a sparse
//! block and its associated data, together with its mathematical model.

use vstd::prelude::*;

verus! {

/// Size of a sparse file block in bytes.
pub const BLOCK_SIZE: usize = 4096;

/// A sparse block and its associated data.
#[derive(Debug, Clone, PartialEq)]
pub enum Block {
    /// A raw block holding a byte buffer of length `BLOCK_SIZE`.
    Raw(Vec<u8>),
    /// A fill block holding a 4-byte fill value.
    Fill([u8; 4]),
    /// A block that signifies a part of the image that can be skipped.
    Skip,
    /// A CRC32 block holding a checksum value.
    Crc32(u32),
}

/// The mathematical model of a sparse block.
pub enum BlockModel {
    /// A raw block: its `BLOCK_SIZE` bytes.
    Raw { bytes: Seq<u8> },
    /// A fill block: its 4-byte fill value.
    Fill { value: Seq<u8> },
    /// A skipped block.
    Skip,
    /// A CRC32 block: its checksum value.
    Crc32 { checksum: u32 },
}

impl View for Block {
    type V = BlockModel;

    open spec fn view(&self) -> BlockModel {
        match self {
            Block::Raw(buf) => BlockModel::Raw { bytes: buf@ },
            Block::Fill(v) => BlockModel::Fill { value: v@ },
            Block::Skip => BlockModel::Skip,
            Block::Crc32(c) => BlockModel::Crc32 { checksum: *c },
        }
    }
}

impl BlockModel {
    /// A block is well formed when its buffers have the sizes the format
    /// prescribes.
    pub open spec fn wf(self) -> bool {
        match self {
            BlockModel::Raw { bytes } => bytes.len() == BLOCK_SIZE,
            BlockModel::Fill { value } => value.len() == 4,
            BlockModel::Skip => true,
            BlockModel::Crc32 { .. } => true,
        }
    }

    /// The raw-image-equivalent bytes of a block: what it stands for in the
    /// decoded image. A CRC32 block stands for no bytes at all.
    pub open spec fn raw_equiv(self) -> Seq<u8> {
        match self {
            BlockModel::Raw { bytes } => bytes,
            BlockModel::Fill { value } => Seq::new(BLOCK_SIZE as nat, |i: int| value[i % 4]),
            BlockModel::Skip => Seq::new(BLOCK_SIZE as nat, |i: int| 0u8),
            BlockModel::Crc32 { .. } => Seq::empty(),
        }
    }

    /// Whether the block stands for raw-image bytes (everything but CRC32).
    pub open spec fn is_data(self) -> bool {
        !(self is Crc32)
    }
}

/// The raw-image-equivalent bytes of a whole block sequence, in order.
pub open spec fn raw_concat(bs: Seq<BlockModel>) -> Seq<u8>
    decreases bs.len(),
{
    if bs.len() == 0 {
        Seq::empty()
    } else {
        bs[0].raw_equiv() + raw_concat(bs.skip(1))
    }
}

/// The number of data blocks (all but CRC32) in a block sequence.
pub open spec fn count_data_blocks(bs: Seq<BlockModel>) -> nat
    decreases bs.len(),
{
    if bs.len() == 0 {
        0
    } else {
        (if bs[0].is_data() { 1nat } else { 0nat }) + count_data_blocks(bs.skip(1))
    }
}

/// Appending a block extends the raw-image-equivalent bytes by exactly that
/// block's contribution.
pub proof fn lemma_raw_concat_push(bs: Seq<BlockModel>, b: BlockModel)
    ensures
        raw_concat(bs.push(b)) == raw_concat(bs) + b.raw_equiv(),
    decreases bs.len(),
{
    if bs.len() == 0 {
        let p = bs.push(b);
        assert(p[0] == b);
        assert(p.skip(1) =~= Seq::<BlockModel>::empty());
        assert(raw_concat(p.skip(1)) == Seq::<u8>::empty());
        assert(raw_concat(p) == b.raw_equiv() + Seq::<u8>::empty());
        assert(raw_concat(bs.push(b)) =~= raw_concat(bs) + b.raw_equiv());
    } else {
        assert(bs.push(b).skip(1) =~= bs.skip(1).push(b));
        lemma_raw_concat_push(bs.skip(1), b);
        assert(raw_concat(bs.push(b)) =~= raw_concat(bs) + b.raw_equiv());
    }
}

/// The raw-image-equivalent bytes of two block sequences concatenate.
pub proof fn lemma_raw_concat_append(a: Seq<BlockModel>, b: Seq<BlockModel>)
    ensures
        raw_concat(a + b) == raw_concat(a) + raw_concat(b),
    decreases a.len(),
{
    if a.len() == 0 {
        assert(a + b =~= b);
        assert(raw_concat(a) == Seq::<u8>::empty());
        assert(raw_concat(a + b) =~= raw_concat(a) + raw_concat(b));
    } else {
        assert((a + b).skip(1) =~= a.skip(1) + b);
        assert((a + b)[0] == a[0]);
        lemma_raw_concat_append(a.skip(1), b);
        assert(raw_concat(a + b) =~= raw_concat(a) + raw_concat(b));
    }
}

/// Appending a block raises the data-block count by one exactly when the
/// block stands for raw-image bytes.
pub proof fn lemma_count_data_blocks_push(bs: Seq<BlockModel>, b: BlockModel)
    ensures
        count_data_blocks(bs.push(b)) == count_data_blocks(bs) + (if b.is_data() {
            1nat
        } else {
            0nat
        }),
    decreases bs.len(),
{
    if bs.len() == 0 {
        let p = bs.push(b);
        assert(p[0] == b);
        assert(p.skip(1) =~= Seq::<BlockModel>::empty());
        assert(count_data_blocks(p.skip(1)) == 0);
    } else {
        assert(bs.push(b).skip(1) =~= bs.skip(1).push(b));
        lemma_count_data_blocks_push(bs.skip(1), b);
        assert(bs.push(b)[0] == bs[0]);
    }
}

/// A data block always stands for exactly `BLOCK_SIZE` raw bytes.
pub proof fn lemma_raw_concat_len(bs: Seq<BlockModel>)
    requires
        forall|i: int| 0 <= i < bs.len() ==> (#[trigger] bs[i]).wf(),
    ensures
        raw_concat(bs).len() == BLOCK_SIZE * count_data_blocks(bs),
    decreases bs.len(),
{
    if bs.len() == 0 {
    } else {
        assert(forall|i: int|
            0 <= i < bs.skip(1).len() ==> (#[trigger] bs.skip(1)[i]).wf() && bs.skip(1)[i]
                == bs[i + 1]);
        lemma_raw_concat_len(bs.skip(1));
        assert(bs[0].wf());
        assert(bs[0].is_data() ==> bs[0].raw_equiv().len() == BLOCK_SIZE);
        assert(!bs[0].is_data() ==> bs[0].raw_equiv().len() == 0);
    }
}

} // verus!
