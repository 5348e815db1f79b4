//! Sparse image reading and encoding from raw images.
//!
//! The encoder consumes a raw image and classifies each 4096-byte window as
//! a raw, fill or skip block. The reader consumes a sparse image and emits
//! one block at a time, splitting multi-block chunks and optionally
//! verifying the trailing checksum.

use vstd::prelude::*;

use crate::block::{Block, BlockModel, BLOCK_SIZE};
use crate::crc32::CrcAccumulator;
use crate::headers::{
    spec_file_header_valid, spec_parse_file_header, ChunkHeader, ChunkType, FileHeader,
    CHUNK_HEADER_SIZE, FILE_HEADER_SIZE,
};
use crate::parse::{next_spec, state_sane, step_block, CurChunk, RState, StepRes};
use crate::result::Error;

verus! {

/// Whether every 4-byte word of `s` equals the first one, so that the whole
/// buffer is one repeated 4-byte pattern.
pub open spec fn word_uniform(s: Seq<u8>) -> bool {
    forall|i: int| 0 <= i < s.len() ==> #[trigger] s[i] == s[i % 4]
}

/// The classification of one raw block: skip when it is all zero, fill when
/// it is one repeated nonzero word, raw otherwise.
pub open spec fn classify_block(w: Seq<u8>) -> BlockModel
    recommends
        w.len() == BLOCK_SIZE,
{
    if word_uniform(w) {
        if w[0] == 0 && w[1] == 0 && w[2] == 0 && w[3] == 0 {
            BlockModel::Skip
        } else {
            BlockModel::Fill { value: w.subrange(0, 4) }
        }
    } else {
        BlockModel::Raw { bytes: w }
    }
}

/// The blocks a raw image encodes to: one block per whole 4096-byte window,
/// any partial tail dropped.
pub open spec fn encode_blocks(raw: Seq<u8>) -> Seq<BlockModel>
    decreases raw.len(),
{
    if raw.len() < BLOCK_SIZE {
        Seq::empty()
    } else {
        seq![classify_block(raw.subrange(0, BLOCK_SIZE as int))] + encode_blocks(
            raw.skip(BLOCK_SIZE as int),
        )
    }
}

/// Reads a 4-byte value from the front of `r`; a shorter input is an `Io`
/// failure.
pub fn read4(r: &[u8]) -> (res: Result<[u8; 4], Error>)
    ensures
        match res {
            Ok(v) => r@.len() >= 4 && v@ == r@.subrange(0, 4),
            Err(e) => r@.len() < 4 && e is Io,
        },
{
    if r.len() < 4 {
        return Err(Error::Io);
    }
    let v = [r[0], r[1], r[2], r[3]];
    proof {
        assert(v@ =~= r@.subrange(0, 4));
    }
    Ok(v)
}

/// Copies bytes from the front of `src` into the front of `buf` until `buf`
/// is full or `src` is exhausted, and returns how many bytes were copied.
pub fn read_all(src: &[u8], buf: &mut Vec<u8>) -> (n: usize)
    ensures
        n == vstd::math::min(src@.len() as int, old(buf)@.len() as int),
        final(buf)@.len() == old(buf)@.len(),
        final(buf)@ == src@.subrange(0, n as int) + old(buf)@.skip(n as int),
{
    let n = if src.len() < buf.len() {
        src.len()
    } else {
        buf.len()
    };
    let mut i: usize = 0;
    while i < n
        invariant
            i <= n,
            n <= src@.len(),
            n <= old(buf)@.len(),
            buf@.len() == old(buf)@.len(),
            forall|j: int|
                0 <= j < buf@.len() ==> buf@[j] == if j < i {
                    src@[j]
                } else {
                    old(buf)@[j]
                },
        decreases n - i,
    {
        buf.set(i, src[i]);
        i = i + 1;
    }
    assert(buf@ =~= src@.subrange(0, n as int) + old(buf)@.skip(n as int));
    n
}

/// Whether every word of a word-aligned view of a block equals the first.
pub fn is_sparse(buf: &[u32]) -> (r: bool)
    requires
        buf@.len() > 0,
    ensures
        r == (forall|i: int| 0 <= i < buf@.len() ==> #[trigger] buf@[i] == buf@[0]),
{
    let first = buf[0];
    let mut i: usize = 1;
    while i < buf.len()
        invariant
            1 <= i <= buf@.len(),
            first == buf@[0],
            forall|j: int| 0 <= j < i ==> #[trigger] buf@[j] == buf@[0],
        decreases buf@.len() - i,
    {
        if buf[i] != first {
            return false;
        }
        i = i + 1;
    }
    true
}

/// Whether `block` is exactly one block of a single repeated 4-byte pattern,
/// so that the encoder can elide its contents.
pub fn is_sparse_block(block: &[u8]) -> (r: bool)
    ensures
        r == (block@.len() == BLOCK_SIZE && word_uniform(block@)),
{
    if block.len() != BLOCK_SIZE {
        return false;
    }
    let mut i: usize = 0;
    while i < BLOCK_SIZE
        invariant
            i <= BLOCK_SIZE,
            block@.len() == BLOCK_SIZE,
            forall|j: int| 0 <= j < i ==> #[trigger] block@[j] == block@[j % 4],
        decreases BLOCK_SIZE - i,
    {
        if block[i] != block[i % 4] {
            return false;
        }
        i = i + 1;
    }
    true
}

/// Reads blocks from a raw image and encodes them into sparse blocks.
///
/// Each call to `next` consumes one 4096-byte window of the raw image; a
/// partial tail ends the stream without being emitted.
pub struct Encoder {
    data: Vec<u8>,
    pos: usize,
    finished: bool,
}

impl Encoder {
    /// The raw image being encoded.
    pub closed spec fn src(self) -> Seq<u8> {
        self.data@
    }

    /// How far into the raw image the encoder has come.
    pub closed spec fn spec_pos(self) -> int {
        self.pos as int
    }

    /// Whether the stream has ended.
    pub closed spec fn done(self) -> bool {
        self.finished
    }

    /// The encoder's position never runs past its input.
    pub closed spec fn wf(self) -> bool {
        self.pos <= self.data@.len()
    }

    /// Creates a new encoder that reads from `data`.
    pub fn new(data: Vec<u8>) -> (r: Result<Encoder, Error>)
        ensures
            r matches Ok(e) && e.wf() && e.src() == data@ && e.spec_pos() == 0 && !e.done(),
    {
        Ok(Encoder { data, pos: 0, finished: false })
    }

    /// Produces the next encoded block, or nothing once fewer than 4096
    /// bytes remain.
    pub fn next(&mut self) -> (r: Option<Result<Block, Error>>)
        requires
            old(self).wf(),
        ensures
            final(self).wf(),
            final(self).src() == old(self).src(),
            old(self).done() ==> r is None && *final(self) == *old(self),
            !old(self).done() && old(self).spec_pos() + BLOCK_SIZE <= old(self).src().len() ==> {
                &&& r matches Some(Ok(b)) && b@ == classify_block(
                    old(self).src().subrange(
                        old(self).spec_pos(),
                        old(self).spec_pos() + BLOCK_SIZE,
                    ),
                ) && b@.wf()
                &&& final(self).spec_pos() == old(self).spec_pos() + BLOCK_SIZE
                &&& !final(self).done()
            },
            !old(self).done() && old(self).spec_pos() + BLOCK_SIZE > old(self).src().len() ==> r
                is None && final(self).done() && final(self).spec_pos() == old(self).spec_pos(),
    {
        if self.finished {
            return None;
        }
        if self.data.len() - self.pos >= BLOCK_SIZE {
            let window = &self.data.as_slice()[self.pos..self.pos + BLOCK_SIZE];
            let b = encode_block(window);
            self.pos = self.pos + BLOCK_SIZE;
            Some(Ok(b))
        } else {
            self.finished = true;
            None
        }
    }
}

#[derive(Clone, Copy)]
struct InChunk {
    ty: ChunkType,
    left: u32,
}

/// Reads sparse blocks from a sparse image held in memory.
///
/// The constructor reads and validates the file header; each call to `next`
/// then produces one block, reading a chunk header first when no chunk is in
/// progress. A verifying reader feeds every block's raw-image-equivalent
/// bytes to a checksum accumulator and checks each CRC32 chunk against it.
pub struct Reader {
    data: Vec<u8>,
    pos: usize,
    current_chunk: Option<InChunk>,
    current_fill: Option<[u8; 4]>,
    remaining_chunks: u32,
    crc: Option<CrcAccumulator>,
    fed: Ghost<Seq<u8>>,
    finished: bool,
}

impl Reader {
    /// The sparse image being read.
    pub closed spec fn src(self) -> Seq<u8> {
        self.data@
    }

    /// Whether this reader verifies checksums.
    pub closed spec fn verifying(self) -> bool {
        self.crc is Some
    }

    /// Whether the stream has ended, through exhaustion or an error.
    pub closed spec fn done(self) -> bool {
        self.finished
    }

    /// The reader's model state: where it stands in the image, what chunk is
    /// in progress, and what its accumulator has been fed.
    pub closed spec fn st(self) -> RState {
        RState {
            pos: self.pos as int,
            cur: match self.current_chunk {
                None => None,
                Some(ic) => Some(
                    CurChunk {
                        ty: ic.ty,
                        left: ic.left as nat,
                        fill: match self.current_fill {
                            None => None,
                            Some(f) => Some(f@),
                        },
                    },
                ),
            },
            remaining: self.remaining_chunks as nat,
            fed: self.fed@,
        }
    }

    /// The reader's invariant.
    pub closed spec fn wf(self) -> bool {
        &&& self.pos <= self.data@.len()
        &&& state_sane(self.st())
        &&& match self.current_chunk {
            Some(ic) => ic.left >= 1 && (ic.ty == ChunkType::Crc32 ==> ic.left == 1) && (
            self.current_fill is Some ==> ic.ty == ChunkType::Fill),
            None => self.current_fill is None,
        }
        &&& match self.crc {
            Some(acc) => acc@ == self.fed@,
            None => true,
        }
    }

    /// Creates a new reader that reads from `data`, validating the file
    /// header: a short input is an `Io` failure and an invalid field a
    /// `Parse` failure, and nothing else fails at construction.
    ///
    /// The created reader skips checksum verification; use `Reader::with_crc`
    /// to get one that verifies.
    pub fn new(data: Vec<u8>) -> (r: Result<Reader, Error>)
        ensures
            match r {
                Ok(rd) => {
                    &&& data@.len() >= FILE_HEADER_SIZE && spec_file_header_valid(data@)
                    &&& rd.wf() && !rd.verifying() && !rd.done()
                    &&& rd.src() == data@
                    &&& rd.st() == (RState {
                        pos: FILE_HEADER_SIZE as int,
                        cur: None,
                        remaining: spec_parse_file_header(data@).total_chunks as nat,
                        fed: Seq::<u8>::empty(),
                    })
                },
                Err(e) => {
                    &&& e is Io <==> data@.len() < FILE_HEADER_SIZE
                    &&& e is Parse <==> data@.len() >= FILE_HEADER_SIZE
                        && !spec_file_header_valid(data@)
                },
            },
    {
        let header = match FileHeader::read_from(data.as_slice()) {
            Ok(h) => h,
            Err(e) => {
                return Err(e);
            },
        };
        Ok(
            Reader {
                data,
                pos: FILE_HEADER_SIZE,
                current_chunk: None,
                current_fill: None,
                remaining_chunks: header.total_chunks,
                crc: None,
                fed: Ghost(Seq::empty()),
                finished: false,
            },
        )
    }

    /// Creates a new reader that reads from `data` and verifies all included
    /// checksums.
    pub fn with_crc(data: Vec<u8>) -> (r: Result<Reader, Error>)
        ensures
            match r {
                Ok(rd) => {
                    &&& data@.len() >= FILE_HEADER_SIZE && spec_file_header_valid(data@)
                    &&& rd.wf() && rd.verifying() && !rd.done()
                    &&& rd.src() == data@
                    &&& rd.st() == (RState {
                        pos: FILE_HEADER_SIZE as int,
                        cur: None,
                        remaining: spec_parse_file_header(data@).total_chunks as nat,
                        fed: Seq::<u8>::empty(),
                    })
                },
                Err(e) => {
                    &&& e is Io <==> data@.len() < FILE_HEADER_SIZE
                    &&& e is Parse <==> data@.len() >= FILE_HEADER_SIZE
                        && !spec_file_header_valid(data@)
                },
            },
    {
        let mut reader = match Reader::new(data) {
            Ok(rd) => rd,
            Err(e) => {
                return Err(e);
            },
        };
        reader.crc = Some(CrcAccumulator::new());
        Ok(reader)
    }

    /// Produces the next block of the stream, `None` once every chunk has
    /// been read or after any failure, and otherwise exactly what the step
    /// model says: a block, an `Io` failure on a short input, or a `Parse`
    /// failure on an unknown chunk magic or a checksum mismatch.
    pub fn next(&mut self) -> (r: Option<Result<Block, Error>>)
        requires
            old(self).wf(),
        ensures
            final(self).wf(),
            final(self).src() == old(self).src(),
            final(self).verifying() == old(self).verifying(),
            old(self).done() ==> r is None && *final(self) == *old(self),
            !old(self).done() ==> match next_spec(
                old(self).src(),
                old(self).verifying(),
                old(self).st(),
            ) {
                StepRes::End => r is None && final(self).done(),
                StepRes::Next { b, st } => {
                    &&& r matches Some(Ok(blk)) && blk@ == b && b.wf()
                    &&& final(self).st() == st
                    &&& final(self).done() == (st.remaining == 0)
                },
                StepRes::FailEof => r matches Some(Err(e)) && e is Io && final(self).done(),
                StepRes::FailMagic => r matches Some(Err(e)) && e is Parse && final(self).done(),
                StepRes::FailChecksum => r matches Some(Err(e)) && (e matches Error::Parse(m) && m@
                    == "Checksum does not match"@) && final(self).done(),
            },
    {
        if self.finished {
            return None;
        }
        let ghost src0 = self.data@;
        let ghost v0 = self.verifying();
        let ghost st0 = self.st();
        loop
            invariant
                self.wf(),
                !self.finished,
                self.data == old(self).data,
                self.crc == old(self).crc,
                self.fed == old(self).fed,
                self.current_fill == old(self).current_fill,
                old(self).wf(),
                !old(self).finished,
                src0 == old(self).src(),
                v0 == old(self).verifying(),
                st0 == old(self).st(),
                next_spec(src0, v0, st0) == next_spec(src0, v0, self.st()),
            ensures
                self.wf(),
                !self.finished,
                self.data == old(self).data,
                self.crc == old(self).crc,
                self.fed == old(self).fed,
                self.current_chunk is Some,
                next_spec(src0, v0, st0) == next_spec(src0, v0, self.st()),
            decreases self.remaining_chunks,
        {
            match self.current_chunk {
                Some(_) => {
                    break ;
                },
                None => {},
            }
            if self.remaining_chunks == 0 {
                self.finished = true;
                proof {
                    assert(next_spec(src0, v0, st0) is End);
                }
                return None;
            }
            let ghost stp = self.st();
            let dlen = self.data.len();
            let h = match ChunkHeader::read_from(self.data.as_slice(), self.pos) {
                Ok(h) => h,
                Err(e) => {
                    self.finished = true;
                    proof {
                        if e is Io {
                            assert(next_spec(src0, v0, st0) is FailEof);
                        } else {
                            assert(next_spec(src0, v0, st0) is FailMagic);
                        }
                    }
                    return Some(Err(e));
                },
            };
            if h.chunk_type == ChunkType::Crc32 {
                self.current_chunk = Some(InChunk { ty: h.chunk_type, left: 1 });
                proof {
                    assert(self.pos + CHUNK_HEADER_SIZE <= dlen);
                }
                self.pos = self.pos + CHUNK_HEADER_SIZE;
                proof {
                    assert(self.st() =~= (RState {
                        pos: stp.pos + CHUNK_HEADER_SIZE,
                        cur: Some(CurChunk { ty: ChunkType::Crc32, left: 1, fill: None }),
                        remaining: stp.remaining,
                        fed: stp.fed,
                    }));
                    assert(next_spec(src0, v0, stp) == next_spec(src0, v0, self.st()));
                }
                break ;
            } else if h.chunk_size == 0 {
                let body: usize = if h.chunk_type == ChunkType::Fill {
                    4
                } else {
                    0
                };
                if body > self.data.len() - (self.pos + CHUNK_HEADER_SIZE) {
                    self.finished = true;
                    proof {
                        assert(next_spec(src0, v0, st0) is FailEof);
                    }
                    return Some(Err(Error::Io));
                }
                self.pos = self.pos + CHUNK_HEADER_SIZE + body;
                self.remaining_chunks = self.remaining_chunks - 1;
                proof {
                    assert(self.st() =~= (RState {
                        pos: stp.pos + CHUNK_HEADER_SIZE + body,
                        cur: None,
                        remaining: (stp.remaining - 1) as nat,
                        fed: stp.fed,
                    }));
                    assert(next_spec(src0, v0, stp) == next_spec(src0, v0, self.st()));
                }
            } else {
                self.current_chunk = Some(InChunk { ty: h.chunk_type, left: h.chunk_size });
                proof {
                    assert(self.pos + CHUNK_HEADER_SIZE <= dlen);
                }
                self.pos = self.pos + CHUNK_HEADER_SIZE;
                proof {
                    assert(self.st() =~= (RState {
                        pos: stp.pos + CHUNK_HEADER_SIZE,
                        cur: Some(
                            CurChunk { ty: h.chunk_type, left: h.chunk_size as nat, fill: None },
                        ),
                        remaining: stp.remaining,
                        fed: stp.fed,
                    }));
                    assert(next_spec(src0, v0, stp) == next_spec(src0, v0, self.st()));
                }
                break ;
            }
        }
        let ic = match self.current_chunk {
            Some(ic) => ic,
            None => {
                proof {
                    assert(false);
                }
                return None;
            },
        };
        let ghost st1 = self.st();
        let ghost c1 = self.st().cur->Some_0;
        proof {
            assert(next_spec(src0, v0, st0) == step_block(src0, v0, st1, c1));
        }
        let blk: Block;
        match ic.ty {
            ChunkType::Raw => {
                if self.data.len() - self.pos < BLOCK_SIZE {
                    self.finished = true;
                    return Some(Err(Error::Io));
                }
                let window = &self.data.as_slice()[self.pos..self.pos + BLOCK_SIZE];
                let buf = vstd::slice::slice_to_vec(window);
                self.pos = self.pos + BLOCK_SIZE;
                blk = Block::Raw(buf);
            },
            ChunkType::Fill => {
                match self.current_fill {
                    Some(f) => {
                        blk = Block::Fill(f);
                    },
                    None => {
                        if self.data.len() - self.pos < 4 {
                            self.finished = true;
                            return Some(Err(Error::Io));
                        }
                        let v = [self.data[self.pos], self.data[self.pos + 1], self.data[self.pos
                            + 2], self.data[self.pos + 3]];
                        proof {
                            assert(v@ =~= src0.subrange(st1.pos, st1.pos + 4));
                        }
                        self.pos = self.pos + 4;
                        self.current_fill = Some(v);
                        blk = Block::Fill(v);
                    },
                }
            },
            ChunkType::DontCare => {
                blk = Block::Skip;
            },
            ChunkType::Crc32 => {
                if self.data.len() - self.pos < 4 {
                    self.finished = true;
                    return Some(Err(Error::Io));
                }
                let cv = vstd::bytes::u32_from_le_bytes(
                    &self.data.as_slice()[self.pos..self.pos + 4],
                );
                let mismatch = match &self.crc {
                    Some(acc) => acc.sum() != cv,
                    None => false,
                };
                if mismatch {
                    self.finished = true;
                    proof {
                        assert(next_spec(src0, v0, st0) is FailChecksum);
                        reveal_strlit("Checksum does not match");
                    }
                    return Some(Err(Error::Parse(String::from_str("Checksum does not match"))));
                }
                self.pos = self.pos + 4;
                blk = Block::Crc32(cv);
            },
        }
        let ghost b = blk@;
        match &mut self.crc {
            Some(acc) => {
                acc.write_block(&blk);
            },
            None => {},
        }
        self.fed = Ghost(self.fed@ + b.raw_equiv());
        if ic.left <= 1 {
            self.current_chunk = None;
            self.current_fill = None;
            self.remaining_chunks = self.remaining_chunks - 1;
        } else {
            self.current_chunk = Some(InChunk { ty: ic.ty, left: ic.left - 1 });
        }
        self.finished = self.remaining_chunks == 0;
        proof {
            let newpos = self.pos as int;
            let fill2 = match self.current_fill {
                None => None,
                Some(f) => Some(f@),
            };
            assert(step_block(src0, v0, st1, c1) matches StepRes::Next { b: sb, st: st2 } && sb == b
                && self.st() =~= st2) by {
                if c1.ty == ChunkType::Fill && c1.fill is None && c1.left > 1 {
                    assert(self.st().cur->Some_0.fill == Some(src0.subrange(st1.pos, st1.pos + 4)));
                }
            }
        }
        Some(Ok(blk))
    }
}

/// Classifies one 4096-byte window of a raw image as a skip, fill or raw
/// block.
pub fn encode_block(buf: &[u8]) -> (b: Block)
    requires
        buf@.len() == BLOCK_SIZE,
    ensures
        b@ == classify_block(buf@),
        b@.wf(),
{
    if is_sparse_block(buf) {
        let value = match read4(buf) {
            Ok(v) => v,
            Err(_) => {
                proof {
                    assert(false);
                }
                [0u8; 4]
            },
        };
        if value[0] == 0 && value[1] == 0 && value[2] == 0 && value[3] == 0 {
            Block::Skip
        } else {
            Block::Fill(value)
        }
    } else {
        Block::Raw(vstd::slice::slice_to_vec(buf))
    }
}

} // verus!
