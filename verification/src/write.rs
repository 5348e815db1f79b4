//! Sparse image writing and decoding to raw images.
//!
//! The writer consumes sparse blocks and emits a sparse image into an
//! in-memory, random-access byte buffer, merging runs of like blocks into
//! single chunks and back-patching each chunk header — and finally the file
//! header — once its counts are known. The decoder consumes sparse blocks
//! and emits the raw image they stand for.

use vstd::prelude::*;

use crate::block::{raw_concat, Block, BlockModel, BLOCK_SIZE};
use crate::chunks::{
    can_merge, chunk_of_block, chunks_fit, chunks_of, image_bytes, image_header, lemma_chunk_of_block,
    lemma_chunks_of_push, lemma_chunks_of_wf, lemma_merge_block,
    lemma_record_bytes_len, lemma_records_push, lemma_total_blocks_push, merge_block, records,
    total_blocks_of, ChunkModel,
};
use crate::crc32::{crc32_of, CrcAccumulator};
use crate::headers::{
    lemma_file_header_bytes_len, spec_file_header_bytes, ChunkHeader, ChunkType, FileHeader,
    CHUNK_HEADER_SIZE, FILE_HEADER_SIZE,
};
use crate::result::Error;

verus! {

/// A run of zero bytes, as left in place of a header that will be
/// back-patched.
pub open spec fn zero_bytes(n: nat) -> Seq<u8> {
    Seq::new(n, |i: int| 0u8)
}

/// The block sequence a closing writer serializes: what it was fed, plus the
/// trailing CRC32 block when checksumming is on.
pub open spec fn close_blocks(bs: Seq<BlockModel>, with_crc: bool) -> Seq<BlockModel> {
    if with_crc {
        bs.push(BlockModel::Crc32 { checksum: crc32_of(raw_concat(bs)) })
    } else {
        bs
    }
}

/// Overwrites `out[pos..pos + src.len()]` with `src`, leaving the rest.
fn overwrite(out: &mut Vec<u8>, pos: usize, src: &[u8])
    requires
        pos + src@.len() <= old(out)@.len(),
    ensures
        final(out)@ == old(out)@.subrange(0, pos as int) + src@ + old(out)@.subrange(
            pos + src@.len(),
            old(out)@.len() as int,
        ),
{
    let total = out.len();
    let mut i: usize = 0;
    while i < src.len()
        invariant
            i <= src@.len(),
            pos + src@.len() <= total,
            total == old(out)@.len(),
            out@.len() == old(out)@.len(),
            forall|j: int|
                0 <= j < out@.len() ==> out@[j] == if pos <= j < pos + i {
                    src@[j - pos]
                } else {
                    old(out)@[j]
                },
        decreases src@.len() - i,
    {
        out.set(pos + i, src[i]);
        i = i + 1;
    }
    assert(out@ =~= old(out)@.subrange(0, pos as int) + src@ + old(out)@.subrange(
        pos + src@.len(),
        old(out)@.len() as int,
    ));
}

/// The header a freshly opened chunk starts with: no blocks counted yet, and
/// a total size covering the header plus whatever the first block writes
/// once (a fill value or a checksum).
spec fn spec_init_header(b: BlockModel) -> ChunkHeader {
    ChunkHeader {
        chunk_type: chunk_of_block(b).chunk_type(),
        chunk_size: 0,
        total_size: match b {
            BlockModel::Raw { .. } => CHUNK_HEADER_SIZE as u32,
            BlockModel::Fill { .. } => (CHUNK_HEADER_SIZE + 4) as u32,
            BlockModel::Skip => CHUNK_HEADER_SIZE as u32,
            BlockModel::Crc32 { .. } => (CHUNK_HEADER_SIZE + 4) as u32,
        },
    }
}

/// Writes sparse blocks to a sparse image.
///
/// The image is produced in memory: `close` returns the finished bytes.
/// Its view is the sequence of block models written so far.
pub struct Writer {
    out: Vec<u8>,
    current_chunk: Option<ChunkHeader>,
    current_fill: Option<[u8; 4]>,
    num_blocks: u32,
    num_chunks: u32,
    crc: Option<CrcAccumulator>,
    blocks: Ghost<Seq<BlockModel>>,
}

impl View for Writer {
    type V = Seq<BlockModel>;

    closed spec fn view(&self) -> Seq<BlockModel> {
        self.blocks@
    }
}

impl Writer {
    /// Whether this writer appends a CRC32 chunk at the end.
    pub closed spec fn spec_with_crc(self) -> bool {
        self.crc is Some
    }

    spec fn wf_core(self) -> bool {
        &&& (forall|i: int| 0 <= i < self.blocks@.len() ==> (#[trigger] self.blocks@[i]).wf())
        &&& chunks_fit(chunks_of(self.blocks@))
        &&& match self.crc {
            Some(acc) => acc@ == raw_concat(self.blocks@),
            None => true,
        }
    }

    spec fn flushed(self) -> bool {
        let cs = chunks_of(self.blocks@);
        &&& self.current_chunk is None
        &&& self.current_fill is None
        &&& self.num_chunks == cs.len()
        &&& self.num_blocks == total_blocks_of(cs)
        &&& self.out@ == zero_bytes(FILE_HEADER_SIZE as nat) + records(cs)
    }

    spec fn open_state(self) -> bool {
        let cs = chunks_of(self.blocks@);
        let closed = cs.drop_last();
        let open = cs.last();
        &&& cs.len() >= 1
        &&& self.current_chunk == Some(open.header())
        &&& self.num_chunks == closed.len()
        &&& self.num_blocks == total_blocks_of(closed)
        &&& match self.current_fill {
            Some(f) => open matches ChunkModel::Fill { value, .. } && f@ == value,
            None => !(open is Fill),
        }
        &&& self.out@ == zero_bytes(FILE_HEADER_SIZE as nat) + records(closed) + zero_bytes(
            CHUNK_HEADER_SIZE as nat,
        ) + open.body_bytes()
    }

    /// The writer's invariant: its buffer holds the records of all closed
    /// chunks behind a placeholder file header, followed by the body of the
    /// open chunk behind a placeholder chunk header.
    pub closed spec fn wf(self) -> bool {
        &&& self.wf_core()
        &&& if self.current_chunk is None {
            self.blocks@.len() == 0 && self.flushed()
        } else {
            self.open_state()
        }
    }

    /// Whether the writer can take `block` without a 32-bit header counter
    /// overflowing.
    pub closed spec fn accepts(self, b: BlockModel) -> bool {
        &&& b.wf()
        &&& chunks_fit(chunks_of(self.blocks@.push(b)))
    }

    /// Whether `close` can still fit its bookkeeping (the CRC32 chunk, when
    /// enabled) in the 32-bit header counters.
    pub closed spec fn closable(self) -> bool {
        self.spec_with_crc() ==> self.accepts(
            BlockModel::Crc32 { checksum: crc32_of(raw_concat(self.blocks@)) },
        )
    }

    /// Creates a new writer that skips checksum calculation. To get a writer
    /// that appends a checksum, use `Writer::with_crc` instead.
    pub fn new() -> (w: Writer)
        ensures
            w.wf(),
            w@ == Seq::<BlockModel>::empty(),
            !w.spec_with_crc(),
    {
        let mut out: Vec<u8> = Vec::new();
        let mut i: usize = 0;
        while i < FILE_HEADER_SIZE
            invariant
                i <= FILE_HEADER_SIZE,
                out@ == zero_bytes(i as nat),
            decreases FILE_HEADER_SIZE - i,
        {
            out.push(0u8);
            assert(out@ =~= zero_bytes((i + 1) as nat));
            i = i + 1;
        }
        let w = Writer {
            out,
            current_chunk: None,
            current_fill: None,
            num_blocks: 0,
            num_chunks: 0,
            crc: None,
            blocks: Ghost(Seq::empty()),
        };
        proof {
            assert(chunks_of(w.blocks@) =~= Seq::<ChunkModel>::empty());
            assert(w.out@ =~= zero_bytes(FILE_HEADER_SIZE as nat) + records(chunks_of(w.blocks@)));
        }
        w
    }

    /// Creates a new writer that appends a CRC32 checksum chunk at the end.
    pub fn with_crc() -> (w: Writer)
        ensures
            w.wf(),
            w@ == Seq::<BlockModel>::empty(),
            w.spec_with_crc(),
    {
        let mut w = Writer::new();
        w.crc = Some(CrcAccumulator::new());
        proof {
            assert(raw_concat(w.blocks@) =~= Seq::<u8>::empty());
        }
        w
    }

    fn can_merge(&self, block: &Block) -> (r: bool)
        requires
            self.wf(),
        ensures
            r == (self.current_chunk is Some && can_merge(
                chunks_of(self.blocks@).last(),
                block@,
            )),
    {
        match self.current_chunk {
            None => false,
            Some(ch) => {
                match block {
                    Block::Raw(_) => ch.chunk_type == ChunkType::Raw,
                    Block::Fill(v) => ch.chunk_type == ChunkType::Fill && (match self.current_fill {
                        Some(f) => {
                            let eq = f[0] == v[0] && f[1] == v[1] && f[2] == v[2] && f[3] == v[3];
                            proof {
                                if eq {
                                    assert(f@ =~= v@);
                                }
                            }
                            eq
                        },
                        None => false,
                    }),
                    Block::Skip => ch.chunk_type == ChunkType::DontCare,
                    Block::Crc32(_) => false,
                }
            },
        }
    }

    /// Whether `block` can be written without a 32-bit header counter
    /// overflowing; `write_block` asks for exactly this.
    pub fn can_accept(&self, block: &Block) -> (r: bool)
        requires
            self.wf(),
        ensures
            r == self.accepts(block@),
    {
        let block_ok = match block {
            Block::Raw(buf) => buf.len() == BLOCK_SIZE,
            _ => true,
        };
        if !block_ok {
            return false;
        }
        proof {
            lemma_chunks_of_push(self.blocks@, block@);
            lemma_chunks_of_wf(self.blocks@);
        }
        let ghost cs = chunks_of(self.blocks@);
        let ghost cs2 = chunks_of(self.blocks@.push(block@));
        let max = u32::MAX as u64;
        if self.can_merge(block) {
            let ch = match self.current_chunk {
                Some(ch) => ch,
                None => {
                    proof {
                        assert(false);
                    }
                    return false;
                },
            };
            let ghost m = merge_block(cs.last(), block@);
            proof {
                assert(cs.last() == cs[cs.len() - 1] && cs.last().fits());
                lemma_merge_block(cs.last(), block@);
                assert(cs2 =~= cs.drop_last().push(m));
                lemma_total_blocks_push(cs.drop_last(), cs.last());
                lemma_total_blocks_push(cs.drop_last(), m);
                assert(cs =~= cs.drop_last().push(cs.last()));
                assert(ch == cs.last().header());
                assert(ch.chunk_size == cs.last().num_blocks());
                assert(ch.total_size == cs.last().total_size());
                assert(self.num_blocks == total_blocks_of(cs.drop_last()));
                assert(total_blocks_of(cs2) == total_blocks_of(cs.drop_last()) + m.num_blocks());
                assert(cs2.len() == cs.len());
                assert(cs2.last() == m);
            }
            let size_ok = match block {
                Block::Raw(_) => ch.total_size as u64 + BLOCK_SIZE as u64 <= max,
                _ => true,
            };
            let r = size_ok && ch.chunk_size as u64 + 1 <= max && self.num_blocks as u64
                + ch.chunk_size as u64 + 1 <= max;
            proof {
                if block@ is Raw {
                    assert(m.total_size() == cs.last().total_size() + BLOCK_SIZE);
                } else {
                    assert(m.total_size() == cs.last().total_size());
                }
                if r {
                    assert(m.fits());
                    assert forall|i: int| 0 <= i < cs2.len() implies (#[trigger] cs2[i]).fits() by {
                        if i < cs2.len() - 1 {
                            assert(cs2[i] == cs.drop_last()[i] && cs.drop_last()[i] == cs[i]);
                        }
                    }
                    assert(chunks_fit(cs2));
                } else {
                    if !(ch.total_size as u64 + (if block@ is Raw {
                        BLOCK_SIZE as u64
                    } else {
                        0
                    }) <= max) {
                        assert(!m.fits());
                        assert(!chunks_fit(cs2));
                    } else if !(ch.chunk_size as u64 + 1 <= max) {
                        assert(!m.fits());
                        assert(!chunks_fit(cs2));
                    } else {
                        assert(total_blocks_of(cs2) > u32::MAX);
                        assert(!chunks_fit(cs2));
                    }
                }
            }
            r
        } else {
            let ghost nc = chunk_of_block(block@);
            proof {
                lemma_chunk_of_block(block@);
                lemma_total_blocks_push(cs, nc);
                assert(cs2 =~= cs.push(nc));
                assert(nc.total_size() <= CHUNK_HEADER_SIZE + BLOCK_SIZE);
                assert(nc.num_blocks() <= 1);
                assert(nc.fits());
                if self.current_chunk is Some {
                    assert(cs =~= cs.drop_last().push(cs.last()));
                    lemma_total_blocks_push(cs.drop_last(), cs.last());
                    assert(self.num_blocks + cs.last().num_blocks() == total_blocks_of(cs));
                    assert(self.num_chunks + 1 == cs.len());
                } else {
                    assert(self.blocks@.len() == 0);
                    assert(self.num_blocks == total_blocks_of(cs));
                    assert(self.num_chunks == cs.len());
                }
                assert(total_blocks_of(cs2) == total_blocks_of(cs) + nc.num_blocks());
                assert(cs2.len() == cs.len() + 1);
            }
            let open_blocks = match self.current_chunk {
                Some(c) => c.chunk_size as u64,
                None => 0,
            };
            proof {
                if self.current_chunk is Some {
                    assert(cs.last() == cs[cs.len() - 1] && cs.last().fits());
                    assert(open_blocks == cs.last().num_blocks());
                }
            }
            let is_data: u64 = match block {
                Block::Crc32(_) => 0,
                _ => 1,
            };
            let r = self.num_chunks as u64 + (if self.current_chunk.is_some() {
                1u64
            } else {
                0u64
            }) + 1 <= max && self.num_blocks as u64 + open_blocks + is_data <= max;
            proof {
                assert(is_data == nc.num_blocks());
                if r {
                    assert forall|i: int| 0 <= i < cs2.len() implies (#[trigger] cs2[i]).fits() by {
                        if i < cs2.len() - 1 {
                            assert(cs2[i] == cs[i]);
                        }
                    }
                    assert(chunks_fit(cs2));
                } else {
                    if !(self.num_chunks as u64 + (if self.current_chunk is Some {
                        1u64
                    } else {
                        0u64
                    }) + 1 <= max) {
                        assert(cs2.len() > u32::MAX);
                        assert(!chunks_fit(cs2));
                    } else {
                        assert(total_blocks_of(cs2) > u32::MAX);
                        assert(!chunks_fit(cs2));
                    }
                }
            }
            r
        }
    }

    fn finish_chunk(&mut self)
        requires
            old(self).wf(),
        ensures
            final(self).blocks == old(self).blocks,
            final(self).crc == old(self).crc,
            final(self).current_chunk is None,
            final(self).current_fill is None,
            final(self).num_chunks == chunks_of(old(self).blocks@).len(),
            final(self).num_blocks == total_blocks_of(chunks_of(old(self).blocks@)),
            final(self).out@ == zero_bytes(FILE_HEADER_SIZE as nat) + records(
                chunks_of(old(self).blocks@),
            ),
    {
        let ch = match self.current_chunk {
            Some(ch) => ch,
            None => {
                return ;
            },
        };
        let ghost cs = chunks_of(self.blocks@);
        let ghost closed = cs.drop_last();
        let ghost open = cs.last();
        proof {
            lemma_chunks_of_wf(self.blocks@);
            assert(open == cs[cs.len() - 1] && open.wf() && open.fits());
            lemma_record_bytes_len(open);
            lemma_records_push(closed, open);
            lemma_total_blocks_push(closed, open);
            assert(cs =~= closed.push(open));
            crate::headers::lemma_chunk_header_bytes_len(ch);
        }
        let pos = self.out.len();
        let mut hb: Vec<u8> = Vec::new();
        ch.write_to(&mut hb);
        let at = pos - (ch.total_size as usize);
        proof {
            assert(at == FILE_HEADER_SIZE + records(closed).len());
            assert(self.out@.subrange(0, at as int) =~= zero_bytes(FILE_HEADER_SIZE as nat)
                + records(closed));
            assert(self.out@.subrange(at + CHUNK_HEADER_SIZE, pos as int) =~= open.body_bytes());
        }
        overwrite(&mut self.out, at, hb.as_slice());
        proof {
            assert(self.out@ =~= zero_bytes(FILE_HEADER_SIZE as nat) + records(closed)
                + open.record_bytes());
            assert(self.out@ =~= zero_bytes(FILE_HEADER_SIZE as nat) + records(cs));
        }
        self.current_chunk = None;
        self.current_fill = None;
        self.num_chunks = self.num_chunks + 1;
        self.num_blocks = self.num_blocks + ch.chunk_size;
    }

    fn start_chunk(&mut self, block: &Block)
        requires
            old(self).current_chunk is None,
        ensures
            final(self).out@ == old(self).out@ + zero_bytes(CHUNK_HEADER_SIZE as nat),
            final(self).current_chunk == Some(spec_init_header(block@)),
            final(self).current_fill == old(self).current_fill,
            final(self).blocks == old(self).blocks,
            final(self).crc == old(self).crc,
            final(self).num_blocks == old(self).num_blocks,
            final(self).num_chunks == old(self).num_chunks,
    {
        let chunk_type: ChunkType;
        let init_size: u32;
        match block {
            Block::Raw(_) => {
                chunk_type = ChunkType::Raw;
                init_size = 0;
            },
            Block::Fill(_) => {
                chunk_type = ChunkType::Fill;
                init_size = 4;
            },
            Block::Skip => {
                chunk_type = ChunkType::DontCare;
                init_size = 0;
            },
            Block::Crc32(_) => {
                chunk_type = ChunkType::Crc32;
                init_size = 4;
            },
        }
        let chunk = ChunkHeader {
            chunk_type,
            chunk_size: 0,
            total_size: init_size + CHUNK_HEADER_SIZE as u32,
        };
        let ghost start = self.out@;
        let mut i: usize = 0;
        while i < CHUNK_HEADER_SIZE
            invariant
                i <= CHUNK_HEADER_SIZE,
                self.out@ == start + zero_bytes(i as nat),
                self.current_chunk == old(self).current_chunk,
                self.current_fill == old(self).current_fill,
                self.blocks == old(self).blocks,
                self.crc == old(self).crc,
                self.num_blocks == old(self).num_blocks,
                self.num_chunks == old(self).num_chunks,
            decreases CHUNK_HEADER_SIZE - i,
        {
            self.out.push(0u8);
            assert(self.out@ =~= start + zero_bytes((i + 1) as nat));
            i = i + 1;
        }
        self.current_chunk = Some(chunk);
    }

    /// Writes a sparse block to this writer.
    ///
    /// The block either merges into the open chunk or finalizes it and opens
    /// a new one; raw bytes, a first fill value or a checksum value are
    /// written inline.
    pub fn write_block(&mut self, block: &Block) -> (r: Result<(), Error>)
        requires
            old(self).wf(),
            old(self).accepts(block@),
        ensures
            final(self).wf(),
            final(self)@ == old(self)@.push(block@),
            final(self).spec_with_crc() == old(self).spec_with_crc(),
            r is Ok,
    {
        let ghost bs = self.blocks@;
        let ghost cs = chunks_of(bs);
        let ghost cs2 = chunks_of(bs.push(block@));
        proof {
            lemma_chunks_of_push(bs, block@);
            lemma_chunks_of_wf(bs);
        }
        let merging = self.can_merge(block);
        let ghost closed2 = if merging {
            cs.drop_last()
        } else {
            cs
        };
        let ghost open2 = if merging {
            merge_block(cs.last(), block@)
        } else {
            chunk_of_block(block@)
        };
        proof {
            assert(cs2 =~= closed2.push(open2));
            assert(cs2.last() == open2 && cs2.last().fits());
            if merging {
                assert(cs.last() == cs[cs.len() - 1] && cs.last().wf() && cs.last().fits());
                lemma_merge_block(cs.last(), block@);
            } else {
                lemma_chunk_of_block(block@);
            }
            assert(forall|i: int| 0 <= i < closed2.len() ==> #[trigger] closed2[i] == cs2[i]);
        }
        if !merging {
            self.finish_chunk();
            self.start_chunk(block);
        }
        let ghost body0: Seq<u8> = if merging {
            cs.last().body_bytes()
        } else {
            Seq::empty()
        };
        proof {
            if merging {
                assert(cs =~= closed2.push(cs.last()));
            }
            assert(self.out@ =~= zero_bytes(FILE_HEADER_SIZE as nat) + records(closed2)
                + zero_bytes(CHUNK_HEADER_SIZE as nat) + body0);
        }
        match block {
            Block::Raw(buf) => {
                self.out.extend_from_slice(buf.as_slice());
                match &mut self.current_chunk {
                    Some(ch) => {
                        proof {
                            assert(open2.total_size() <= u32::MAX);
                            assert(ch.total_size + BLOCK_SIZE == open2.total_size());
                        }
                        ch.total_size = ch.total_size + BLOCK_SIZE as u32;
                    },
                    None => {
                        proof {
                            assert(false);
                        }
                    },
                }
            },
            Block::Fill(value) => {
                if self.current_fill.is_none() {
                    let mut vb: Vec<u8> = Vec::new();
                    vb.push(value[0]);
                    vb.push(value[1]);
                    vb.push(value[2]);
                    vb.push(value[3]);
                    proof {
                        assert(vb@ =~= value@);
                    }
                    self.out.append(&mut vb);
                    self.current_fill = Some(*value);
                }
            },
            Block::Skip => {},
            Block::Crc32(checksum) => {
                let mut cb = vstd::bytes::u32_to_le_bytes(*checksum);
                self.out.append(&mut cb);
                self.blocks = Ghost(bs.push(block@));
                proof {
                    crate::block::lemma_raw_concat_push(bs, block@);
                    assert(raw_concat(self.blocks@) =~= raw_concat(bs));
                    assert(self.out@ =~= zero_bytes(FILE_HEADER_SIZE as nat) + records(closed2)
                        + zero_bytes(CHUNK_HEADER_SIZE as nat) + open2.body_bytes());
                    assert(self.current_chunk == Some(open2.header()));
                    assert(cs2.drop_last() =~= closed2);
                    assert(cs2.last() == open2);
                    assert forall|i: int| 0 <= i < self.blocks@.len() implies (#[trigger] self.blocks@[i]).wf() by {
                        if i < bs.len() {
                            assert(self.blocks@[i] == bs[i]);
                        } else {
                            assert(self.blocks@[i] == block@);
                        }
                    }
                    assert(chunks_fit(chunks_of(self.blocks@)));
                    assert(self.num_chunks == cs2.drop_last().len());
                    assert(self.num_blocks == total_blocks_of(cs2.drop_last()));
                    assert(match self.current_fill {
                        Some(f) => open2 matches ChunkModel::Fill { value, .. } && f@ == value,
                        None => !(open2 is Fill),
                    });
                    assert(self.wf());
                }
                return Ok(());
            },
        }
        match &mut self.crc {
            Some(acc) => {
                acc.write_block(block);
            },
            None => {},
        }
        match &mut self.current_chunk {
            Some(ch) => {
                proof {
                    assert(open2.num_blocks() <= u32::MAX);
                    assert(ch.chunk_size + 1 == open2.num_blocks());
                }
                ch.chunk_size = ch.chunk_size + 1;
            },
            None => {
                proof {
                    assert(false);
                }
            },
        }
        self.blocks = Ghost(bs.push(block@));
        proof {
            crate::block::lemma_raw_concat_push(bs, block@);
            assert(self.crc matches Some(acc) ==> acc@ == raw_concat(self.blocks@));
            assert(self.current_chunk == Some(open2.header()));
            assert(self.out@ =~= zero_bytes(FILE_HEADER_SIZE as nat) + records(closed2)
                + zero_bytes(CHUNK_HEADER_SIZE as nat) + open2.body_bytes());
            assert(cs2.drop_last() =~= closed2);
            assert(cs2.last() == open2);
            assert forall|i: int| 0 <= i < self.blocks@.len() implies (#[trigger] self.blocks@[i]).wf() by {
                if i < bs.len() {
                    assert(self.blocks@[i] == bs[i]);
                } else {
                    assert(self.blocks@[i] == block@);
                }
            }
            assert(chunks_fit(chunks_of(self.blocks@)));
            assert(self.num_chunks == cs2.drop_last().len());
            assert(self.num_blocks == total_blocks_of(cs2.drop_last()));
            assert(match self.current_fill {
                Some(f) => open2 matches ChunkModel::Fill { value, .. } && f@ == value,
                None => !(open2 is Fill),
            });
            assert(self.wf());
        }
        Ok(())
    }

    /// Whether `close` can still fit its bookkeeping (one more chunk, when
    /// checksumming is on) in the 32-bit header counters.
    pub fn can_close(&self) -> (r: bool)
        requires
            self.wf(),
        ensures
            r == self.closable(),
    {
        if self.crc.is_none() {
            return true;
        }
        let ghost cb = BlockModel::Crc32 { checksum: crc32_of(raw_concat(self.blocks@)) };
        let ghost cs = chunks_of(self.blocks@);
        let ghost cs2 = chunks_of(self.blocks@.push(cb));
        proof {
            lemma_chunks_of_push(self.blocks@, cb);
            lemma_chunks_of_wf(self.blocks@);
            lemma_chunk_of_block(cb);
            lemma_total_blocks_push(cs, chunk_of_block(cb));
            assert(cs2 =~= cs.push(chunk_of_block(cb)));
            assert(chunk_of_block(cb).fits());
            assert(forall|i: int| 0 <= i < cs2.len() - 1 ==> #[trigger] cs2[i] == cs[i]);
            if self.current_chunk is Some {
                assert(self.num_chunks + 1 == cs.len());
            }
        }
        let r = self.num_chunks as u64 + (if self.current_chunk.is_some() {
            1u64
        } else {
            0u64
        }) + 1 <= u32::MAX as u64;
        proof {
            if r {
                assert forall|i: int| 0 <= i < cs2.len() implies (#[trigger] cs2[i]).fits() by {
                    if i < cs2.len() - 1 {
                        assert(cs2[i] == cs[i]);
                    }
                }
                assert(chunks_fit(cs2));
            } else {
                assert(cs2.len() > u32::MAX);
                assert(!chunks_fit(cs2));
            }
        }
        r
    }

    /// Finishes the sparse image: finalizes the open chunk, appends the CRC32
    /// chunk when enabled, back-patches the file header and returns the
    /// image's bytes.
    pub fn close(self) -> (r: Vec<u8>)
        requires
            self.wf(),
            self.closable(),
        ensures
            r@ == image_bytes(close_blocks(self@, self.spec_with_crc())),
    {
        let mut w = self;
        let ghost bs0 = w.blocks@;
        let ghost with_crc = w.spec_with_crc();
        if w.crc.is_some() {
            let sum = match &w.crc {
                Some(acc) => acc.sum(),
                None => 0,
            };
            proof {
                assert(sum == crc32_of(raw_concat(bs0)));
            }
            let cb = Block::Crc32(sum);
            let _ = w.write_block(&cb);
        }
        w.finish_chunk();
        let ghost bs1 = w.blocks@;
        proof {
            assert(bs1 == close_blocks(bs0, with_crc));
        }
        let header = FileHeader {
            total_blocks: w.num_blocks,
            total_chunks: w.num_chunks,
            image_checksum: 0,
        };
        let mut hb: Vec<u8> = Vec::new();
        header.write_to(&mut hb);
        proof {
            lemma_file_header_bytes_len(header);
            assert(w.out@.len() == FILE_HEADER_SIZE + records(chunks_of(bs1)).len());
        }
        overwrite(&mut w.out, 0, hb.as_slice());
        proof {
            assert(header == image_header(bs1));
            assert(w.out@ =~= spec_file_header_bytes(image_header(bs1)) + records(chunks_of(bs1)));
        }
        w.out
    }
}

/// Decodes sparse blocks and writes them to a raw image.
///
/// The raw image is produced in memory: `close` returns the bytes. The
/// decoder's view is the bytes written so far.
pub struct Decoder {
    out: Vec<u8>,
}

impl View for Decoder {
    type V = Seq<u8>;

    closed spec fn view(&self) -> Seq<u8> {
        self.out@
    }
}

impl Decoder {
    /// Creates a new decoder with an empty output.
    pub fn new() -> (r: Result<Decoder, Error>)
        ensures
            r matches Ok(d) && d@ == Seq::<u8>::empty(),
    {
        Ok(Decoder { out: Vec::new() })
    }

    /// Writes a sparse block to this decoder.
    ///
    /// The block is decoded into its raw form: a raw block's bytes verbatim,
    /// a fill value repeated over the block, zeroes for a skipped block, and
    /// nothing for a CRC32 block.
    pub fn write_block(&mut self, block: &Block) -> (r: Result<(), Error>)
        requires
            block@.wf(),
        ensures
            final(self)@ == old(self)@ + block@.raw_equiv(),
            r is Ok,
    {
        match block {
            Block::Raw(buf) => {
                self.out.extend_from_slice(buf.as_slice());
                assert(self@ =~= old(self)@ + block@.raw_equiv());
            },
            Block::Fill(value) => {
                let ghost start = self.out@;
                let mut i: usize = 0;
                while i < BLOCK_SIZE
                    invariant
                        i <= BLOCK_SIZE,
                        value@.len() == 4,
                        self.out@ == start + Seq::new(i as nat, |j: int| value@[j % 4]),
                    decreases BLOCK_SIZE - i,
                {
                    self.out.push(value[i % 4]);
                    assert(start + Seq::new((i + 1) as nat, |j: int| value@[j % 4]) =~= (start
                        + Seq::new(i as nat, |j: int| value@[j % 4])).push(value@[i as int % 4]));
                    i = i + 1;
                }
                assert(self@ =~= old(self)@ + block@.raw_equiv());
            },
            Block::Skip => {
                let ghost start = self.out@;
                let mut i: usize = 0;
                while i < BLOCK_SIZE
                    invariant
                        i <= BLOCK_SIZE,
                        self.out@ == start + Seq::new(i as nat, |j: int| 0u8),
                    decreases BLOCK_SIZE - i,
                {
                    self.out.push(0u8);
                    assert(start + Seq::new((i + 1) as nat, |j: int| 0u8) =~= (start + Seq::new(
                        i as nat,
                        |j: int| 0u8,
                    )).push(0u8));
                    i = i + 1;
                }
                assert(self@ =~= old(self)@ + block@.raw_equiv());
            },
            Block::Crc32(_) => {
                assert(self@ =~= old(self)@ + block@.raw_equiv());
            },
        }
        Ok(())
    }

    /// Finishes the raw image and returns its bytes.
    pub fn close(self) -> (r: Vec<u8>)
        ensures
            r@ == self@,
    {
        self.out
    }
}

} // verus!
