//! The mathematical model of reading a sparse image: a state machine that
//! steps once per produced block, and the block sequence it parses from a
//! well-formed image.
//!
//! This module is specification only; the reader is proved to take exactly
//! these steps, and the laws relate the parse to the writer's image.

use vstd::bytes::*;
use vstd::prelude::*;

use crate::block::{BlockModel, BLOCK_SIZE};
use crate::crc32::crc32_of;
use crate::headers::{spec_parse_chunk_header, ChunkType, CHUNK_HEADER_SIZE};

verus! {

/// The in-progress chunk of a reader: its type, how many of its blocks are
/// still to be produced, and the fill value once it has been read.
#[verifier::ext_equal]
pub struct CurChunk {
    /// The chunk's type.
    pub ty: ChunkType,
    /// How many blocks of the chunk are still to be produced.
    pub left: nat,
    /// The cached fill value, read on the chunk's first block.
    pub fill: Option<Seq<u8>>,
}

/// The state of a reader between two produced blocks.
#[verifier::ext_equal]
pub struct RState {
    /// The offset of the next unread byte.
    pub pos: int,
    /// The in-progress chunk, if one is open.
    pub cur: Option<CurChunk>,
    /// How many chunk records have not been finished yet.
    pub remaining: nat,
    /// The raw-image-equivalent bytes of every block produced so far; what
    /// a verifying reader's checksum accumulator has been fed.
    pub fed: Seq<u8>,
}

/// The outcome of one reader step.
pub enum StepRes {
    /// The stream has ended: every chunk has been read.
    End,
    /// One more block, and the state after it.
    Next { b: BlockModel, st: RState },
    /// The input ended before the format said it would.
    FailEof,
    /// A chunk header carried an unknown magic.
    FailMagic,
    /// A verifying reader met a checksum that does not match.
    FailChecksum,
}

/// The state after producing block `b` of an in-progress chunk: its block
/// count goes down, and when it reaches zero the chunk is finished.
pub open spec fn step_emit(
    st: RState,
    ty: ChunkType,
    left: nat,
    fill: Option<Seq<u8>>,
    newpos: int,
    b: BlockModel,
) -> RState {
    let fed2 = st.fed + b.raw_equiv();
    if left <= 1 {
        RState {
            pos: newpos,
            cur: None,
            remaining: if st.remaining > 0 {
                (st.remaining - 1) as nat
            } else {
                0
            },
            fed: fed2,
        }
    } else {
        RState {
            pos: newpos,
            cur: Some(CurChunk { ty, left: (left - 1) as nat, fill }),
            remaining: st.remaining,
            fed: fed2,
        }
    }
}

/// One block produced from the in-progress chunk `c`: a raw chunk reads a
/// whole block, a fill chunk reads its value once, a don't-care chunk reads
/// nothing, and a CRC32 chunk reads and (optionally) verifies the checksum.
pub open spec fn step_block(data: Seq<u8>, verify: bool, st: RState, c: CurChunk) -> StepRes {
    match c.ty {
        ChunkType::Raw => {
            if st.pos + BLOCK_SIZE <= data.len() {
                let b = BlockModel::Raw { bytes: data.subrange(st.pos, st.pos + BLOCK_SIZE) };
                StepRes::Next { b, st: step_emit(st, c.ty, c.left, c.fill, st.pos + BLOCK_SIZE, b) }
            } else {
                StepRes::FailEof
            }
        },
        ChunkType::Fill => {
            match c.fill {
                Some(v) => {
                    let b = BlockModel::Fill { value: v };
                    StepRes::Next { b, st: step_emit(st, c.ty, c.left, Some(v), st.pos, b) }
                },
                None => {
                    if st.pos + 4 <= data.len() {
                        let v = data.subrange(st.pos, st.pos + 4);
                        let b = BlockModel::Fill { value: v };
                        StepRes::Next { b, st: step_emit(st, c.ty, c.left, Some(v), st.pos + 4, b) }
                    } else {
                        StepRes::FailEof
                    }
                },
            }
        },
        ChunkType::DontCare => {
            let b = BlockModel::Skip;
            StepRes::Next { b, st: step_emit(st, c.ty, c.left, c.fill, st.pos, b) }
        },
        ChunkType::Crc32 => {
            if st.pos + 4 <= data.len() {
                let cv = spec_u32_from_le_bytes(data.subrange(st.pos, st.pos + 4));
                if verify && cv != crc32_of(st.fed) {
                    StepRes::FailChecksum
                } else {
                    let b = BlockModel::Crc32 { checksum: cv };
                    StepRes::Next { b, st: step_emit(st, c.ty, c.left, c.fill, st.pos + 4, b) }
                }
            } else {
                StepRes::FailEof
            }
        },
    }
}

/// One reader step: open a chunk if none is in progress (consuming any
/// ill-formed zero-size chunks without producing blocks), then produce one
/// block of it; the stream ends when no chunks remain.
pub open spec fn next_spec(data: Seq<u8>, verify: bool, st: RState) -> StepRes
    decreases st.remaining,
{
    match st.cur {
        Some(c) => step_block(data, verify, st, c),
        None => {
            if st.remaining == 0 {
                StepRes::End
            } else if st.pos + CHUNK_HEADER_SIZE > data.len() {
                StepRes::FailEof
            } else {
                match spec_parse_chunk_header(data, st.pos) {
                    None => StepRes::FailMagic,
                    Some(h) => {
                        if h.chunk_type == ChunkType::Crc32 {
                            step_block(
                                data,
                                verify,
                                RState {
                                    pos: st.pos + CHUNK_HEADER_SIZE,
                                    cur: None,
                                    remaining: st.remaining,
                                    fed: st.fed,
                                },
                                CurChunk { ty: ChunkType::Crc32, left: 1, fill: None },
                            )
                        } else if h.chunk_size == 0 {
                            let body: int = if h.chunk_type == ChunkType::Fill {
                                4
                            } else {
                                0
                            };
                            if st.pos + CHUNK_HEADER_SIZE + body > data.len() {
                                StepRes::FailEof
                            } else {
                                next_spec(
                                    data,
                                    verify,
                                    RState {
                                        pos: st.pos + CHUNK_HEADER_SIZE + body,
                                        cur: None,
                                        remaining: (st.remaining - 1) as nat,
                                        fed: st.fed,
                                    },
                                )
                            }
                        } else {
                            step_block(
                                data,
                                verify,
                                RState {
                                    pos: st.pos + CHUNK_HEADER_SIZE,
                                    cur: None,
                                    remaining: st.remaining,
                                    fed: st.fed,
                                },
                                CurChunk {
                                    ty: h.chunk_type,
                                    left: h.chunk_size as nat,
                                    fill: None,
                                },
                            )
                        }
                    },
                }
            }
        },
    }
}

/// A reader state is sane when a chunk can only be in progress while chunks
/// remain to be finished.
pub open spec fn state_sane(st: RState) -> bool {
    st.cur is Some ==> st.remaining >= 1
}

pub open spec fn cur_rank(st: RState) -> nat {
    if st.cur is None {
        1
    } else {
        0
    }
}

pub open spec fn cur_left(st: RState) -> nat {
    match st.cur {
        Some(c) => c.left,
        None => 0,
    }
}

/// Every step of a sane state moves to a smaller sane state under the
/// measure (chunks remaining, whether none is open, blocks left in it).
pub proof fn lemma_next_spec_decreases(data: Seq<u8>, verify: bool, st: RState)
    requires
        state_sane(st),
    ensures
        next_spec(data, verify, st) matches StepRes::Next { st: st2, .. } ==> state_sane(st2) && (
        st2.remaining < st.remaining || (st2.remaining == st.remaining && cur_rank(st2) < cur_rank(
            st,
        )) || (st2.remaining == st.remaining && cur_rank(st2) == cur_rank(st) && cur_left(st2)
            < cur_left(st))),
    decreases st.remaining,
{
    match st.cur {
        Some(c) => {},
        None => {
            if st.remaining == 0 || st.pos + CHUNK_HEADER_SIZE > data.len() {
            } else {
                match spec_parse_chunk_header(data, st.pos) {
                    None => {},
                    Some(h) => {
                        if h.chunk_type != ChunkType::Crc32 && h.chunk_size == 0 {
                            let body: int = if h.chunk_type == ChunkType::Fill {
                                4
                            } else {
                                0
                            };
                            if st.pos + CHUNK_HEADER_SIZE + body <= data.len() {
                                lemma_next_spec_decreases(
                                    data,
                                    verify,
                                    RState {
                                        pos: st.pos + CHUNK_HEADER_SIZE + body,
                                        cur: None,
                                        remaining: (st.remaining - 1) as nat,
                                        fed: st.fed,
                                    },
                                );
                            }
                        }
                    },
                }
            }
        },
    }
}

/// The blocks a reader produces from state `st` to the end of the stream,
/// or nothing if it fails along the way.
pub open spec fn parse_rest(data: Seq<u8>, verify: bool, st: RState) -> Option<Seq<BlockModel>>
    decreases st.remaining, cur_rank(st), cur_left(st),
    via parse_rest_decreases
{
    if !state_sane(st) {
        None
    } else {
        match next_spec(data, verify, st) {
            StepRes::End => Some(Seq::empty()),
            StepRes::Next { b, st: st2 } => match parse_rest(data, verify, st2) {
                None => None,
                Some(s) => Some(seq![b] + s),
            },
            StepRes::FailEof => None,
            StepRes::FailMagic => None,
            StepRes::FailChecksum => None,
        }
    }
}

#[via_fn]
proof fn parse_rest_decreases(data: Seq<u8>, verify: bool, st: RState) {
    if state_sane(st) {
        lemma_next_spec_decreases(data, verify, st);
    }
}

/// The whole parse of a sparse image body: from just after the file header,
/// with `remaining` chunks ahead and nothing fed yet.
pub open spec fn parse_image_blocks(data: Seq<u8>, verify: bool, remaining: nat) -> Option<
    Seq<BlockModel>,
> {
    parse_rest(
        data,
        verify,
        RState {
            pos: crate::headers::FILE_HEADER_SIZE as int,
            cur: None,
            remaining,
            fed: Seq::empty(),
        },
    )
}

} // verus!
