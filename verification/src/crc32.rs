//! CRC32 checksumming of the raw-image-equivalent bytes of a block stream.
//!
//! Reader and Writer both feed an accumulator with the bytes each block
//! stands for in the decoded image, so that the checksum carried by a sparse
//! image can be produced and checked over the same byte sequence.

use vstd::prelude::*;

use crate::block::{raw_concat, Block, BlockModel, BLOCK_SIZE};

verus! {

/// The IEEE CRC-32 checksum of a byte sequence.
pub uninterp spec fn crc32_of(data: Seq<u8>) -> u32;

/// Relies on crc32fast::hash: the IEEE CRC-32 of the bytes given, a function
/// of those bytes alone.
#[verifier::external_body]
fn crc32_ieee(data: &[u8]) -> (r: u32)
    ensures
        r == crc32_of(data@),
{
    crc32fast::hash(data)
}

/// Accumulates the raw-image-equivalent bytes of the blocks it is fed and
/// can produce their IEEE CRC-32 at any point.
///
/// Its view is the byte sequence fed so far.
pub struct CrcAccumulator {
    data: Vec<u8>,
}

impl View for CrcAccumulator {
    type V = Seq<u8>;

    closed spec fn view(&self) -> Seq<u8> {
        self.data@
    }
}

impl CrcAccumulator {
    /// Creates an accumulator that has been fed nothing.
    pub fn new() -> (r: CrcAccumulator)
        ensures
            r@ == Seq::<u8>::empty(),
    {
        CrcAccumulator { data: Vec::new() }
    }

    /// Feeds the accumulator the raw-image-equivalent bytes of `block`: a raw
    /// block's bytes, a fill value repeated over the block, all zeroes for a
    /// skipped block, and nothing for a CRC32 block.
    pub fn write_block(&mut self, block: &Block)
        requires
            block@.wf(),
        ensures
            final(self)@ == old(self)@ + block@.raw_equiv(),
    {
        match block {
            Block::Raw(buf) => {
                self.data.extend_from_slice(buf.as_slice());
                assert(self@ =~= old(self)@ + block@.raw_equiv());
            },
            Block::Fill(value) => {
                let ghost start = self.data@;
                let mut i: usize = 0;
                while i < BLOCK_SIZE
                    invariant
                        i <= BLOCK_SIZE,
                        value@.len() == 4,
                        self.data@ == start + Seq::new(i as nat, |j: int| value@[j % 4]),
                    decreases BLOCK_SIZE - i,
                {
                    self.data.push(value[i % 4]);
                    assert(start + Seq::new((i + 1) as nat, |j: int| value@[j % 4]) =~= (start
                        + Seq::new(i as nat, |j: int| value@[j % 4])).push(value@[i as int % 4]));
                    i = i + 1;
                }
                assert(self@ =~= old(self)@ + block@.raw_equiv());
            },
            Block::Skip => {
                let ghost start = self.data@;
                let mut i: usize = 0;
                while i < BLOCK_SIZE
                    invariant
                        i <= BLOCK_SIZE,
                        self.data@ == start + Seq::new(i as nat, |j: int| 0u8),
                    decreases BLOCK_SIZE - i,
                {
                    self.data.push(0u8);
                    assert(start + Seq::new((i + 1) as nat, |j: int| 0u8) =~= (start + Seq::new(
                        i as nat,
                        |j: int| 0u8,
                    )).push(0u8));
                    i = i + 1;
                }
                assert(self@ =~= old(self)@ + block@.raw_equiv());
            },
            Block::Crc32(_) => {
                assert(self@ =~= old(self)@ + block@.raw_equiv());
            },
        }
    }

    /// The IEEE CRC-32 of everything fed so far.
    pub fn sum(&self) -> (r: u32)
        ensures
            r == crc32_of(self@),
    {
        crc32_ieee(self.data.as_slice())
    }
}

/// A block sequence is CRC-consistent when every CRC32 block in it carries
/// the checksum of the raw-image-equivalent bytes of the blocks before it.
pub open spec fn crc_consistent(bs: Seq<BlockModel>) -> bool {
    forall|i: int|
        0 <= i < bs.len() ==> ((#[trigger] bs[i]) matches BlockModel::Crc32 { checksum } ==> checksum
            == crc32_of(raw_concat(bs.take(i))))
}

} // verus!
