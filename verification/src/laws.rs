//! The laws of the codec, proved once over the mathematical model: the
//! encoder's classification is lossless, a written image carries exactly
//! the counts and sizes its headers promise, run-merging is exhaustive,
//! and reading a written image yields back exactly the blocks written,
//! with a checksum that always verifies.

use vstd::bytes::{spec_u32_from_le_bytes, spec_u32_to_le_bytes};
use vstd::prelude::*;

use crate::block::{
    count_data_blocks, lemma_raw_concat_append, lemma_raw_concat_push, raw_concat, BlockModel,
    BLOCK_SIZE,
};
use crate::chunks::{
    chunks_fit, chunks_mergeable, chunks_of, expand_chunks, image_bytes, image_header,
    lemma_chunks_of_no_adjacent_mergeable, lemma_chunks_of_total_blocks, lemma_chunks_of_wf,
    lemma_expand_chunks_of, lemma_expand_chunks_split, lemma_expand_raw_concat,
    lemma_record_bytes_len, records, total_blocks_of, ChunkModel,
};
use crate::crc32::{crc32_of, crc_consistent};
use crate::headers::{
    lemma_file_header_bytes_len, lemma_file_header_round_trip, spec_chunk_header_bytes,
    spec_file_header_bytes, spec_file_header_valid, spec_parse_file_header, ChunkType, CHUNK_HEADER_SIZE, FILE_HEADER_SIZE,
};
use crate::parse::{next_spec, parse_image_blocks, parse_rest, step_emit, CurChunk, RState, StepRes};
use crate::read::{classify_block, encode_blocks, word_uniform};

verus! {

/// A classified window is a well-formed block that stands for exactly the
/// window's bytes, and it is never a CRC32 block: a block of one repeated
/// zero word becomes a skip, one repeated nonzero word a fill, anything
/// else stays raw.
pub proof fn lemma_classify_block(w: Seq<u8>)
    requires
        w.len() == BLOCK_SIZE,
    ensures
        classify_block(w).wf(),
        classify_block(w).raw_equiv() == w,
        classify_block(w).is_data(),
{
    let c = classify_block(w);
    if word_uniform(w) {
        if w[0] == 0 && w[1] == 0 && w[2] == 0 && w[3] == 0 {
            assert forall|i: int| 0 <= i < BLOCK_SIZE implies c.raw_equiv()[i] == w[i] by {
                assert(w[i] == w[i % 4]);
            }
            assert(c.raw_equiv() =~= w);
        } else {
            assert forall|i: int| 0 <= i < BLOCK_SIZE implies c.raw_equiv()[i] == w[i] by {
                assert(w[i] == w[i % 4]);
                assert(w.subrange(0, 4)[i % 4] == w[i % 4]);
            }
            assert(c.raw_equiv() =~= w);
        }
    } else {
    }
}

/// Every block the encoder produces is well formed, and none is a CRC32
/// block.
pub proof fn lemma_encode_blocks_wf(raw: Seq<u8>)
    ensures
        forall|i: int|
            0 <= i < encode_blocks(raw).len() ==> (#[trigger] encode_blocks(raw)[i]).wf()
                && encode_blocks(raw)[i].is_data(),
    decreases raw.len(),
{
    if raw.len() < BLOCK_SIZE {
    } else {
        lemma_classify_block(raw.subrange(0, BLOCK_SIZE as int));
        lemma_encode_blocks_wf(raw.skip(BLOCK_SIZE as int));
        let e = encode_blocks(raw);
        let rest = encode_blocks(raw.skip(BLOCK_SIZE as int));
        assert forall|i: int| 0 <= i < e.len() implies (#[trigger] e[i]).wf()
            && e[i].is_data() by {
            if i == 0 {
                assert(e[0] == classify_block(raw.subrange(0, BLOCK_SIZE as int)));
            } else {
                assert(e[i] == rest[i - 1]);
            }
        }
    }
}

/// Encoding a whole-block raw image loses nothing: the raw-image-equivalent
/// bytes of the encoded blocks are exactly the raw image, so decoding them
/// gives it back.
pub proof fn lemma_encode_decode_identity(raw: Seq<u8>)
    requires
        raw.len() % (BLOCK_SIZE as nat) == 0,
    ensures
        raw_concat(encode_blocks(raw)) == raw,
    decreases raw.len(),
{
    let bsz = BLOCK_SIZE as nat;
    if raw.len() == 0 {
        assert(raw_concat(encode_blocks(raw)) =~= raw);
    } else {
        assert(raw.len() >= bsz) by (nonlinear_arith)
            requires
                raw.len() % bsz == 0,
                raw.len() > 0,
                bsz == BLOCK_SIZE as nat,
        ;
        let w = raw.subrange(0, BLOCK_SIZE as int);
        let rest = raw.skip(BLOCK_SIZE as int);
        assert(rest.len() % bsz == 0) by (nonlinear_arith)
            requires
                raw.len() % bsz == 0,
                raw.len() >= bsz,
                rest.len() == raw.len() - bsz,
                bsz == BLOCK_SIZE as nat,
        ;
        lemma_classify_block(w);
        lemma_encode_decode_identity(rest);
        let e = encode_blocks(raw);
        assert(e[0] == classify_block(w));
        assert(e.skip(1) =~= encode_blocks(rest));
        assert(raw_concat(e) == classify_block(w).raw_equiv() + raw_concat(encode_blocks(rest)));
        assert(raw_concat(e) =~= raw);
    }
}

/// The file header of a written image says exactly what the image holds:
/// its total block count is the sum of the chunk sizes of all non-CRC32
/// chunks (equally, the number of data blocks written), its chunk count is
/// the number of chunk records, its checksum field is zero — and that is
/// what parses back out of the image's first 28 bytes.
pub proof fn lemma_image_header(bs: Seq<BlockModel>)
    requires
        forall|i: int| 0 <= i < bs.len() ==> (#[trigger] bs[i]).wf(),
        chunks_fit(chunks_of(bs)),
    ensures
        image_bytes(bs).len() >= FILE_HEADER_SIZE,
        spec_file_header_valid(image_bytes(bs)),
        spec_parse_file_header(image_bytes(bs)) == image_header(bs),
        image_header(bs).total_blocks == total_blocks_of(chunks_of(bs)),
        image_header(bs).total_blocks == count_data_blocks(bs),
        image_header(bs).total_chunks == chunks_of(bs).len(),
        image_header(bs).image_checksum == 0,
{
    lemma_file_header_bytes_len(image_header(bs));
    assert(image_bytes(bs).subrange(0, FILE_HEADER_SIZE as int) =~= spec_file_header_bytes(
        image_header(bs),
    ));
    lemma_file_header_round_trip(image_bytes(bs), image_header(bs));
    lemma_chunks_of_total_blocks(bs);
}

/// Every chunk record of a written image satisfies the size formulas of the
/// wire format: its total size is the header size plus its body size, and
/// the body size is what the chunk's type prescribes.
pub proof fn lemma_chunk_size_formulas(bs: Seq<BlockModel>, i: int)
    requires
        forall|j: int| 0 <= j < bs.len() ==> (#[trigger] bs[j]).wf(),
        chunks_fit(chunks_of(bs)),
        0 <= i < chunks_of(bs).len(),
    ensures
        ({
            let c = chunks_of(bs)[i];
            let h = c.header();
            &&& c.record_bytes().len() == h.total_size
            &&& h.total_size == CHUNK_HEADER_SIZE + c.body_len()
            &&& (h.chunk_type == ChunkType::Raw ==> c.body_len() == h.chunk_size * (
            BLOCK_SIZE as nat))
            &&& (h.chunk_type == ChunkType::Fill ==> c.body_len() == 4)
            &&& (h.chunk_type == ChunkType::DontCare ==> c.body_len() == 0)
            &&& (h.chunk_type == ChunkType::Crc32 ==> h.chunk_size == 0 && c.body_len() == 4)
            &&& c.record_bytes().subrange(0, CHUNK_HEADER_SIZE as int) == spec_chunk_header_bytes(
                h,
            )
        }),
{
    lemma_chunks_of_wf(bs);
    let c = chunks_of(bs)[i];
    assert(c.wf() && c.fits());
    lemma_record_bytes_len(c);
    crate::headers::lemma_chunk_header_bytes_len(c.header());
    assert(c.record_bytes().subrange(0, CHUNK_HEADER_SIZE as int) =~= spec_chunk_header_bytes(
        c.header(),
    ));
    match c {
        ChunkModel::Raw { bytes } => {
            let bsz = BLOCK_SIZE as nat;
            let blen = bytes.len();
            assert(blen == (blen / bsz) * bsz) by (nonlinear_arith)
                requires
                    blen % bsz == 0,
                    bsz == BLOCK_SIZE as nat,
            ;
        },
        _ => {},
    }
}

/// The fill pattern of one block followed by the fill pattern of the rest
/// of a run is the fill pattern of the whole run.
proof fn lemma_fill_pattern_split(value: Seq<u8>, n: nat)
    requires
        n >= 1,
        value.len() == 4,
    ensures
        Seq::new(BLOCK_SIZE as nat, |i: int| value[i % 4]) + Seq::new(
            ((n - 1) as nat) * (BLOCK_SIZE as nat),
            |i: int| value[i % 4],
        ) == Seq::new(n * (BLOCK_SIZE as nat), |i: int| value[i % 4]),
{
    let bsz = BLOCK_SIZE as int;
    let a = Seq::new(BLOCK_SIZE as nat, |i: int| value[i % 4]);
    let b = Seq::new(((n - 1) as nat) * (BLOCK_SIZE as nat), |i: int| value[i % 4]);
    let w = Seq::new(n * (BLOCK_SIZE as nat), |i: int| value[i % 4]);
    assert(a.len() + b.len() == w.len()) by (nonlinear_arith)
        requires
            n >= 1,
            a.len() == BLOCK_SIZE as nat,
            b.len() == ((n - 1) as nat) * (BLOCK_SIZE as nat),
            w.len() == n * (BLOCK_SIZE as nat),
    ;
    assert forall|i: int| 0 <= i < w.len() implies (a + b)[i] == w[i] by {
        if i >= bsz {
            assert((i - bsz) % 4 == i % 4) by (nonlinear_arith)
                requires
                    i >= bsz,
                    bsz == BLOCK_SIZE as int,
            ;
        }
    }
    assert(a + b =~= w);
}

proof fn lemma_zero_pattern_split(n: nat)
    requires
        n >= 1,
    ensures
        Seq::new(BLOCK_SIZE as nat, |i: int| 0u8) + Seq::new(
            ((n - 1) as nat) * (BLOCK_SIZE as nat),
            |i: int| 0u8,
        ) == Seq::new(n * (BLOCK_SIZE as nat), |i: int| 0u8),
{
    let a = Seq::new(BLOCK_SIZE as nat, |i: int| 0u8);
    let b = Seq::new(((n - 1) as nat) * (BLOCK_SIZE as nat), |i: int| 0u8);
    let w = Seq::new(n * (BLOCK_SIZE as nat), |i: int| 0u8);
    assert(a.len() + b.len() == w.len()) by (nonlinear_arith)
        requires
            n >= 1,
            a.len() == BLOCK_SIZE as nat,
            b.len() == ((n - 1) as nat) * (BLOCK_SIZE as nat),
            w.len() == n * (BLOCK_SIZE as nat),
    ;
    assert(a + b =~= w);
}

proof fn lemma_parse_raw_run(
    data: Seq<u8>,
    verify: bool,
    pos: int,
    body: Seq<u8>,
    left: nat,
    fill: Option<Seq<u8>>,
    remaining: nat,
    fed: Seq<u8>,
    s: Seq<BlockModel>,
)
    requires
        left >= 1,
        remaining >= 1,
        body.len() == left * (BLOCK_SIZE as nat),
        0 <= pos,
        pos + body.len() <= data.len(),
        data.subrange(pos, pos + body.len()) == body,
        parse_rest(
            data,
            verify,
            RState {
                pos: pos + body.len(),
                cur: None,
                remaining: (remaining - 1) as nat,
                fed: fed + body,
            },
        ) == Some(s),
    ensures
        parse_rest(
            data,
            verify,
            RState { pos, cur: Some(CurChunk { ty: ChunkType::Raw, left, fill }), remaining, fed },
        ) == Some(
            Seq::new(
                left,
                |i: int|
                    BlockModel::Raw {
                        bytes: body.subrange(i * (BLOCK_SIZE as int), (i + 1) * (
                        BLOCK_SIZE as int)),
                    },
            ) + s,
        ),
    decreases left,
{
    let bsz = BLOCK_SIZE as int;
    let st = RState { pos, cur: Some(CurChunk { ty: ChunkType::Raw, left, fill }), remaining, fed };
    assert(body.len() >= bsz && body.len() - bsz == ((left - 1) as nat) * (BLOCK_SIZE as nat)) by (
    nonlinear_arith)
        requires
            left >= 1,
            body.len() == left * (BLOCK_SIZE as nat),
            bsz == BLOCK_SIZE as int,
    ;
    assert(data.subrange(pos, pos + bsz) =~= body.subrange(0, bsz));
    let b = BlockModel::Raw { bytes: data.subrange(pos, pos + bsz) };
    let run = Seq::new(
        left,
        |i: int| BlockModel::Raw { bytes: body.subrange(i * bsz, (i + 1) * bsz) },
    );
    let st2 = step_emit(st, ChunkType::Raw, left, fill, pos + bsz, b);
    assert(next_spec(data, verify, st) == StepRes::Next { b, st: st2 });
    assert(b.raw_equiv() == body.subrange(0, bsz));
    if left == 1 {
        assert(st2 =~= (RState {
            pos: pos + body.len(),
            cur: None,
            remaining: (remaining - 1) as nat,
            fed: fed + body,
        })) by {
            assert(fed + b.raw_equiv() =~= fed + body);
        }
        assert(parse_rest(data, verify, st) == Some(seq![b] + s));
        assert(run =~= seq![b]);
        assert(seq![b] + s =~= run + s);
    } else {
        let tail = body.skip(bsz);
        assert(data.subrange(pos + bsz, pos + bsz + tail.len()) =~= tail);
        assert((fed + b.raw_equiv()) + tail =~= fed + body);
        assert(st2 =~= (RState {
            pos: pos + bsz,
            cur: Some(CurChunk { ty: ChunkType::Raw, left: (left - 1) as nat, fill }),
            remaining,
            fed: fed + b.raw_equiv(),
        }));
        assert(parse_rest(
            data,
            verify,
            RState {
                pos: pos + bsz + tail.len(),
                cur: None,
                remaining: (remaining - 1) as nat,
                fed: (fed + b.raw_equiv()) + tail,
            },
        ) == Some(s));
        lemma_parse_raw_run(
            data,
            verify,
            pos + bsz,
            tail,
            (left - 1) as nat,
            fill,
            remaining,
            fed + b.raw_equiv(),
            s,
        );
        let runt = Seq::new(
            (left - 1) as nat,
            |i: int| BlockModel::Raw { bytes: tail.subrange(i * bsz, (i + 1) * bsz) },
        );
        assert(parse_rest(data, verify, st2) == Some(runt + s));
        assert(parse_rest(data, verify, st) == Some(seq![b] + (runt + s)));
        assert forall|i: int| 0 <= i < left implies (seq![b] + runt)[i] == run[i] by {
            if i >= 1 {
                assert(0 <= i * bsz && (i + 1) * bsz <= body.len()) by (nonlinear_arith)
                    requires
                        1 <= i < left,
                        body.len() == left * (BLOCK_SIZE as nat),
                        bsz == BLOCK_SIZE as int,
                ;
                assert(tail.subrange((i - 1) * bsz, i * bsz) =~= body.subrange(
                    i * bsz,
                    (i + 1) * bsz,
                ));
            }
        }
        assert(seq![b] + runt =~= run);
        assert(seq![b] + (runt + s) =~= run + s);
    }
}

proof fn lemma_parse_fill_run(
    data: Seq<u8>,
    verify: bool,
    pos: int,
    value: Seq<u8>,
    left: nat,
    remaining: nat,
    fed: Seq<u8>,
    s: Seq<BlockModel>,
)
    requires
        left >= 1,
        remaining >= 1,
        value.len() == 4,
        parse_rest(
            data,
            verify,
            RState {
                pos,
                cur: None,
                remaining: (remaining - 1) as nat,
                fed: fed + Seq::new(left * (BLOCK_SIZE as nat), |i: int| value[i % 4]),
            },
        ) == Some(s),
    ensures
        parse_rest(
            data,
            verify,
            RState {
                pos,
                cur: Some(CurChunk { ty: ChunkType::Fill, left, fill: Some(value) }),
                remaining,
                fed,
            },
        ) == Some(Seq::new(left, |i: int| BlockModel::Fill { value }) + s),
    decreases left,
{
    let st = RState {
        pos,
        cur: Some(CurChunk { ty: ChunkType::Fill, left, fill: Some(value) }),
        remaining,
        fed,
    };
    let b = BlockModel::Fill { value };
    let st2 = step_emit(st, ChunkType::Fill, left, Some(value), pos, b);
    assert(next_spec(data, verify, st) == StepRes::Next { b, st: st2 });
    let run = Seq::new(left, |i: int| BlockModel::Fill { value });
    lemma_fill_pattern_split(value, left);
    if left == 1 {
        assert(st2 =~= (RState {
            pos,
            cur: None,
            remaining: (remaining - 1) as nat,
            fed: fed + Seq::new(left * (BLOCK_SIZE as nat), |i: int| value[i % 4]),
        })) by {
            assert(fed + b.raw_equiv() =~= fed + Seq::new(
                left * (BLOCK_SIZE as nat),
                |i: int| value[i % 4],
            ));
        }
        assert(parse_rest(data, verify, st) == Some(seq![b] + s));
        assert(run =~= seq![b]);
        assert(seq![b] + s =~= run + s);
    } else {
        assert((fed + b.raw_equiv()) + Seq::new(
            ((left - 1) as nat) * (BLOCK_SIZE as nat),
            |i: int| value[i % 4],
        ) =~= fed + Seq::new(left * (BLOCK_SIZE as nat), |i: int| value[i % 4]));
        assert(st2 =~= (RState {
            pos,
            cur: Some(CurChunk { ty: ChunkType::Fill, left: (left - 1) as nat, fill: Some(value) }),
            remaining,
            fed: fed + b.raw_equiv(),
        }));
        lemma_parse_fill_run(data, verify, pos, value, (left - 1) as nat, remaining, fed
            + b.raw_equiv(), s);
        let runt = Seq::new((left - 1) as nat, |i: int| BlockModel::Fill { value });
        assert(parse_rest(data, verify, st2) == Some(runt + s));
        assert(parse_rest(data, verify, st) == Some(seq![b] + (runt + s)));
        assert(seq![b] + runt =~= run);
        assert(seq![b] + (runt + s) =~= run + s);
    }
}

proof fn lemma_parse_skip_run(
    data: Seq<u8>,
    verify: bool,
    pos: int,
    left: nat,
    fill: Option<Seq<u8>>,
    remaining: nat,
    fed: Seq<u8>,
    s: Seq<BlockModel>,
)
    requires
        left >= 1,
        remaining >= 1,
        parse_rest(
            data,
            verify,
            RState {
                pos,
                cur: None,
                remaining: (remaining - 1) as nat,
                fed: fed + Seq::new(left * (BLOCK_SIZE as nat), |i: int| 0u8),
            },
        ) == Some(s),
    ensures
        parse_rest(
            data,
            verify,
            RState {
                pos,
                cur: Some(CurChunk { ty: ChunkType::DontCare, left, fill }),
                remaining,
                fed,
            },
        ) == Some(Seq::new(left, |i: int| BlockModel::Skip) + s),
    decreases left,
{
    let st = RState {
        pos,
        cur: Some(CurChunk { ty: ChunkType::DontCare, left, fill }),
        remaining,
        fed,
    };
    let b = BlockModel::Skip;
    let st2 = step_emit(st, ChunkType::DontCare, left, fill, pos, b);
    assert(next_spec(data, verify, st) == StepRes::Next { b, st: st2 });
    let run = Seq::new(left, |i: int| BlockModel::Skip);
    lemma_zero_pattern_split(left);
    if left == 1 {
        assert(st2 =~= (RState {
            pos,
            cur: None,
            remaining: (remaining - 1) as nat,
            fed: fed + Seq::new(left * (BLOCK_SIZE as nat), |i: int| 0u8),
        })) by {
            assert(fed + b.raw_equiv() =~= fed + Seq::new(
                left * (BLOCK_SIZE as nat),
                |i: int| 0u8,
            ));
        }
        assert(parse_rest(data, verify, st) == Some(seq![b] + s));
        assert(run =~= seq![b]);
        assert(seq![b] + s =~= run + s);
    } else {
        assert((fed + b.raw_equiv()) + Seq::new(
            ((left - 1) as nat) * (BLOCK_SIZE as nat),
            |i: int| 0u8,
        ) =~= fed + Seq::new(left * (BLOCK_SIZE as nat), |i: int| 0u8));
        assert(st2 =~= (RState {
            pos,
            cur: Some(CurChunk { ty: ChunkType::DontCare, left: (left - 1) as nat, fill }),
            remaining,
            fed: fed + b.raw_equiv(),
        }));
        lemma_parse_skip_run(data, verify, pos, (left - 1) as nat, fill, remaining, fed
            + b.raw_equiv(), s);
        let runt = Seq::new((left - 1) as nat, |i: int| BlockModel::Skip);
        assert(parse_rest(data, verify, st2) == Some(runt + s));
        assert(parse_rest(data, verify, st) == Some(seq![b] + (runt + s)));
        assert(seq![b] + runt =~= run);
        assert(seq![b] + (runt + s) =~= run + s);
    }
}

/// A chunk sequence is checksum-consistent after `fed` when every CRC32
/// chunk in it carries the checksum of `fed` followed by the raw bytes of
/// all chunks before it.
pub open spec fn chunks_crc_consistent(cs: Seq<ChunkModel>, fed: Seq<u8>) -> bool {
    forall|i: int|
        0 <= i < cs.len() ==> ((#[trigger] cs[i]) matches ChunkModel::Crc32 { checksum } ==>
        checksum == crc32_of(fed + raw_concat(expand_chunks(cs.take(i)))))
}

#[verifier::rlimit(60)]
proof fn lemma_parse_records(data: Seq<u8>, verify: bool, pos: int, cs: Seq<ChunkModel>, fed: Seq<
    u8,
>)
    requires
        forall|i: int| 0 <= i < cs.len() ==> (#[trigger] cs[i]).wf() && cs[i].fits(),
        0 <= pos,
        pos + records(cs).len() <= data.len(),
        data.subrange(pos, pos + records(cs).len()) == records(cs),
        verify ==> chunks_crc_consistent(cs, fed),
    ensures
        parse_rest(data, verify, RState { pos, cur: None, remaining: cs.len(), fed }) == Some(
            expand_chunks(cs),
        ),
    decreases cs.len(),
{
    let bsz = BLOCK_SIZE as int;
    let st = RState { pos, cur: None, remaining: cs.len(), fed };
    if cs.len() == 0 {
        assert(next_spec(data, verify, st) is End);
        assert(parse_rest(data, verify, st) == Some(Seq::<BlockModel>::empty()));
        assert(expand_chunks(cs) =~= Seq::<BlockModel>::empty());
    } else {
        let c = cs[0];
        let rest = cs.skip(1);
        assert(forall|i: int|
            0 <= i < rest.len() ==> (#[trigger] rest[i]) == cs[i + 1] && rest[i].wf()
                && rest[i].fits());
        lemma_record_bytes_len(c);
        crate::headers::lemma_chunk_header_bytes_len(c.header());
        let rl = c.record_bytes().len() as int;
        let lall = records(cs).len() as int;
        assert(records(cs) == c.record_bytes() + records(rest));
        assert(data.subrange(pos, pos + rl) =~= c.record_bytes());
        assert forall|j: int| 0 <= j < records(rest).len() implies data.subrange(
            pos + rl,
            pos + lall,
        )[j] == records(rest)[j] by {
            assert(data.subrange(pos, pos + lall)[rl + j] == records(cs)[rl + j]);
        }
        assert(data.subrange(pos + rl, pos + lall) =~= records(rest));
        assert(data.subrange(pos, pos + CHUNK_HEADER_SIZE) =~= spec_chunk_header_bytes(c.header()));
        crate::headers::lemma_chunk_header_round_trip(data, pos, c.header());
        let body = c.body_bytes();
        assert forall|j: int| 0 <= j < body.len() implies data.subrange(
            pos + CHUNK_HEADER_SIZE,
            pos + rl,
        )[j] == body[j] by {
            assert(data.subrange(pos, pos + rl)[CHUNK_HEADER_SIZE + j] == c.record_bytes()[
                CHUNK_HEADER_SIZE + j]);
        }
        assert(data.subrange(pos + CHUNK_HEADER_SIZE, pos + rl) =~= body);
        let h = c.header();
        assert(h.chunk_size == c.num_blocks() && h.total_size == c.total_size());
        lemma_expand_raw_concat(c);
        let fed2 = fed + raw_concat(c.expand());
        if verify {
            assert forall|i: int| 0 <= i < rest.len() implies ((#[trigger] rest[i]) matches
                ChunkModel::Crc32 { checksum } ==> checksum == crc32_of(
                fed2 + raw_concat(expand_chunks(rest.take(i))),
            )) by {
                assert(cs[i + 1] == rest[i]);
                let p = cs.take(i + 1);
                assert(p[0] == c);
                assert(p.skip(1) =~= rest.take(i));
                assert(expand_chunks(p) == c.expand() + expand_chunks(rest.take(i)));
                lemma_raw_concat_append(c.expand(), expand_chunks(rest.take(i)));
                assert(fed + raw_concat(expand_chunks(p)) =~= fed2 + raw_concat(
                    expand_chunks(rest.take(i)),
                ));
            }
            assert(chunks_crc_consistent(rest, fed2));
        }
        assert(expand_chunks(cs) == c.expand() + expand_chunks(rest));
        match c {
            ChunkModel::Crc32 { checksum } => {
                let st1 = RState {
                    pos: pos + CHUNK_HEADER_SIZE,
                    cur: None,
                    remaining: cs.len(),
                    fed,
                };
                assert(body == spec_u32_to_le_bytes(checksum));
                vstd::bytes::lemma_auto_spec_u32_to_from_le_bytes();
                let cv = spec_u32_from_le_bytes(
                    data.subrange(pos + CHUNK_HEADER_SIZE, pos + CHUNK_HEADER_SIZE + 4),
                );
                assert(cv == checksum);
                if verify {
                    assert(cs.take(0) =~= Seq::<ChunkModel>::empty());
                    assert(expand_chunks(cs.take(0)) == Seq::<BlockModel>::empty());
                    assert(raw_concat(expand_chunks(cs.take(0))) == Seq::<u8>::empty());
                    assert(fed + raw_concat(expand_chunks(cs.take(0))) =~= fed);
                    assert(checksum == crc32_of(fed));
                }
                let b = BlockModel::Crc32 { checksum };
                let st2 = step_emit(
                    st1,
                    ChunkType::Crc32,
                    1,
                    None,
                    pos + CHUNK_HEADER_SIZE + 4,
                    b,
                );
                assert(next_spec(data, verify, st) == StepRes::Next { b, st: st2 });
                assert(fed2 =~= fed + b.raw_equiv());
                lemma_parse_records(data, verify, pos + rl, rest, fed + b.raw_equiv());
                assert(st2 =~= (RState {
                    pos: pos + rl,
                    cur: None,
                    remaining: rest.len(),
                    fed: fed + b.raw_equiv(),
                }));
                assert(parse_rest(data, verify, st2) == Some(expand_chunks(rest)));
                assert(parse_rest(data, verify, st) == Some(seq![b] + expand_chunks(rest)));
                assert(c.expand() =~= seq![b]);
                assert(seq![b] + expand_chunks(rest) =~= expand_chunks(cs));
            },
            ChunkModel::Raw { bytes } => {
                let k = c.num_blocks();
                assert(k >= 1 && bytes.len() == k * (BLOCK_SIZE as nat)) by (nonlinear_arith)
                    requires
                        bytes.len() >= BLOCK_SIZE,
                        bytes.len() % (BLOCK_SIZE as nat) == 0,
                        k == bytes.len() / (BLOCK_SIZE as nat),
                ;
                assert(h.chunk_size != 0);
                let st1 = RState {
                    pos: pos + CHUNK_HEADER_SIZE,
                    cur: None,
                    remaining: cs.len(),
                    fed,
                };
                lemma_parse_records(data, verify, pos + rl, rest, fed + bytes);
                assert(parse_rest(
                    data,
                    verify,
                    RState {
                        pos: (pos + CHUNK_HEADER_SIZE) + bytes.len(),
                        cur: None,
                        remaining: (cs.len() - 1) as nat,
                        fed: fed + bytes,
                    },
                ) == Some(expand_chunks(rest)));
                lemma_parse_raw_run(
                    data,
                    verify,
                    pos + CHUNK_HEADER_SIZE,
                    bytes,
                    k,
                    None,
                    cs.len(),
                    fed,
                    expand_chunks(rest),
                );
                let mid = RState {
                    pos: pos + CHUNK_HEADER_SIZE,
                    cur: Some(CurChunk { ty: ChunkType::Raw, left: k, fill: None }),
                    remaining: cs.len(),
                    fed,
                };
                let run = Seq::new(
                    k,
                    |i: int| BlockModel::Raw { bytes: bytes.subrange(i * bsz, (i + 1) * bsz) },
                );
                assert(parse_rest(data, verify, mid) == Some(run + expand_chunks(rest)));
                assert(next_spec(data, verify, st) == next_spec(data, verify, mid));
                assert(parse_rest(data, verify, st) == parse_rest(data, verify, mid));
                assert(run =~= c.expand());
                assert(run + expand_chunks(rest) =~= expand_chunks(cs));
            },
            ChunkModel::Fill { value, count } => {
                assert(h.chunk_size != 0);
                assert(body == value);
                let st1 = RState {
                    pos: pos + CHUNK_HEADER_SIZE,
                    cur: None,
                    remaining: cs.len(),
                    fed,
                };
                let v = data.subrange(pos + CHUNK_HEADER_SIZE, pos + CHUNK_HEADER_SIZE + 4);
                assert(v =~= value);
                let b = BlockModel::Fill { value };
                let st2 = step_emit(
                    st1,
                    ChunkType::Fill,
                    count,
                    Some(value),
                    pos + CHUNK_HEADER_SIZE + 4,
                    b,
                );
                assert(next_spec(data, verify, st) == StepRes::Next { b, st: st2 });
                lemma_parse_records(data, verify, pos + rl, rest, fed2);
                assert(parse_rest(
                    data,
                    verify,
                    RState { pos: pos + rl, cur: None, remaining: rest.len(), fed: fed2 },
                ) == Some(expand_chunks(rest)));
                lemma_fill_pattern_split(value, count);
                if count == 1 {
                    assert(st2 =~= (RState {
                        pos: pos + rl,
                        cur: None,
                        remaining: rest.len(),
                        fed: fed2,
                    })) by {
                        assert(fed + b.raw_equiv() =~= fed2);
                    }
                    assert(parse_rest(data, verify, st) == Some(seq![b] + expand_chunks(rest)));
                    assert(c.expand() =~= seq![b]);
                    assert(seq![b] + expand_chunks(rest) =~= expand_chunks(cs));
                } else {
                    assert((fed + b.raw_equiv()) + Seq::new(
                        ((count - 1) as nat) * (BLOCK_SIZE as nat),
                        |i: int| value[i % 4],
                    ) =~= fed2);
                    assert(st2 =~= (RState {
                        pos: pos + rl,
                        cur: Some(
                            CurChunk {
                                ty: ChunkType::Fill,
                                left: (count - 1) as nat,
                                fill: Some(value),
                            },
                        ),
                        remaining: cs.len(),
                        fed: fed + b.raw_equiv(),
                    }));
                    lemma_parse_fill_run(
                        data,
                        verify,
                        pos + rl,
                        value,
                        (count - 1) as nat,
                        cs.len(),
                        fed + b.raw_equiv(),
                        expand_chunks(rest),
                    );
                    let runt = Seq::new((count - 1) as nat, |i: int| BlockModel::Fill { value });
                    assert(parse_rest(data, verify, st2) == Some(runt + expand_chunks(rest)));
                    assert(parse_rest(data, verify, st) == Some(
                        seq![b] + (runt + expand_chunks(rest)),
                    ));
                    assert(seq![b] + runt =~= c.expand());
                    assert(seq![b] + (runt + expand_chunks(rest)) =~= expand_chunks(cs));
                }
            },
            ChunkModel::DontCare { count } => {
                assert(h.chunk_size != 0);
                assert(rl == CHUNK_HEADER_SIZE);
                let st1 = RState {
                    pos: pos + CHUNK_HEADER_SIZE,
                    cur: None,
                    remaining: cs.len(),
                    fed,
                };
                let b = BlockModel::Skip;
                let st2 = step_emit(
                    st1,
                    ChunkType::DontCare,
                    count,
                    None,
                    pos + CHUNK_HEADER_SIZE,
                    b,
                );
                assert(next_spec(data, verify, st) == StepRes::Next { b, st: st2 });
                lemma_parse_records(data, verify, pos + rl, rest, fed2);
                assert(parse_rest(
                    data,
                    verify,
                    RState { pos: pos + rl, cur: None, remaining: rest.len(), fed: fed2 },
                ) == Some(expand_chunks(rest)));
                lemma_zero_pattern_split(count);
                if count == 1 {
                    assert(st2 =~= (RState {
                        pos: pos + rl,
                        cur: None,
                        remaining: rest.len(),
                        fed: fed2,
                    })) by {
                        assert(fed + b.raw_equiv() =~= fed2);
                    }
                    assert(parse_rest(data, verify, st) == Some(seq![b] + expand_chunks(rest)));
                    assert(c.expand() =~= seq![b]);
                    assert(seq![b] + expand_chunks(rest) =~= expand_chunks(cs));
                } else {
                    assert((fed + b.raw_equiv()) + Seq::new(
                        ((count - 1) as nat) * (BLOCK_SIZE as nat),
                        |i: int| 0u8,
                    ) =~= fed2);
                    assert(st2 =~= (RState {
                        pos: pos + rl,
                        cur: Some(
                            CurChunk { ty: ChunkType::DontCare, left: (count - 1) as nat, fill: None },
                        ),
                        remaining: cs.len(),
                        fed: fed + b.raw_equiv(),
                    }));
                    lemma_parse_skip_run(
                        data,
                        verify,
                        pos + rl,
                        (count - 1) as nat,
                        None,
                        cs.len(),
                        fed + b.raw_equiv(),
                        expand_chunks(rest),
                    );
                    let runt = Seq::new((count - 1) as nat, |i: int| BlockModel::Skip);
                    assert(parse_rest(data, verify, st2) == Some(runt + expand_chunks(rest)));
                    assert(parse_rest(data, verify, st) == Some(
                        seq![b] + (runt + expand_chunks(rest)),
                    ));
                    assert(seq![b] + runt =~= c.expand());
                    assert(seq![b] + (runt + expand_chunks(rest)) =~= expand_chunks(cs));
                }
            },
        }
    }
}

proof fn lemma_crc_consistent_transfer(bs: Seq<BlockModel>)
    requires
        forall|i: int| 0 <= i < bs.len() ==> (#[trigger] bs[i]).wf(),
        crc_consistent(bs),
    ensures
        chunks_crc_consistent(chunks_of(bs), Seq::<u8>::empty()),
{
    let cs = chunks_of(bs);
    lemma_chunks_of_wf(bs);
    lemma_expand_chunks_of(bs);
    assert forall|k: int| 0 <= k < cs.len() implies ((#[trigger] cs[k]) matches ChunkModel::Crc32 {
        checksum,
    } ==> checksum == crc32_of(
        Seq::<u8>::empty() + raw_concat(expand_chunks(cs.take(k))),
    )) by {
        match cs[k] {
            ChunkModel::Crc32 { checksum } => {
                lemma_expand_chunks_split(cs, k);
                let pre = expand_chunks(cs.take(k));
                let idx = pre.len() as int;
                assert(bs == pre + expand_chunks(cs.skip(k)));
                assert(cs.skip(k)[0] == cs[k]);
                assert(expand_chunks(cs.skip(k)) == cs[k].expand() + expand_chunks(
                    cs.skip(k).skip(1),
                ));
                assert(cs[k].expand() == seq![BlockModel::Crc32 { checksum }]);
                assert(expand_chunks(cs.skip(k))[0] == BlockModel::Crc32 { checksum });
                assert(bs[idx] == BlockModel::Crc32 { checksum });
                assert(checksum == crc32_of(raw_concat(bs.take(idx))));
                assert(bs.take(idx) =~= pre);
                assert(Seq::<u8>::empty() + raw_concat(pre) =~= raw_concat(pre));
            },
            _ => {},
        }
    }
}

/// Reading a written image gives back exactly the blocks written: parsing
/// the writer's image, with the chunk count its header carries, yields the
/// very block sequence the writer consumed. When the reader verifies
/// checksums and every CRC32 block in the stream is consistent with the
/// bytes before it — as the writer's own trailing checksum always is — no
/// checksum error is ever produced.
pub proof fn lemma_written_image_reads_back(bs: Seq<BlockModel>, verify: bool)
    requires
        forall|i: int| 0 <= i < bs.len() ==> (#[trigger] bs[i]).wf(),
        chunks_fit(chunks_of(bs)),
        verify ==> crc_consistent(bs),
    ensures
        spec_file_header_valid(image_bytes(bs)),
        spec_parse_file_header(image_bytes(bs)).total_chunks == chunks_of(bs).len(),
        parse_image_blocks(
            image_bytes(bs),
            verify,
            spec_parse_file_header(image_bytes(bs)).total_chunks as nat,
        ) == Some(bs),
{
    lemma_image_header(bs);
    lemma_chunks_of_wf(bs);
    let data = image_bytes(bs);
    let cs = chunks_of(bs);
    lemma_file_header_bytes_len(image_header(bs));
    assert(data.subrange(
        FILE_HEADER_SIZE as int,
        FILE_HEADER_SIZE as int + records(cs).len(),
    ) =~= records(cs));
    if verify {
        lemma_crc_consistent_transfer(bs);
    }
    assert(forall|i: int| 0 <= i < cs.len() ==> (#[trigger] cs[i]).wf() && cs[i].fits());
    lemma_parse_records(data, verify, FILE_HEADER_SIZE as int, cs, Seq::<u8>::empty());
    lemma_expand_chunks_of(bs);
}

/// Appending the checksum of everything before it keeps a block stream
/// checksum-consistent; this is exactly the trailing CRC32 block a
/// checksumming writer emits at close.
pub proof fn lemma_crc_append_consistent(bs: Seq<BlockModel>)
    requires
        crc_consistent(bs),
    ensures
        crc_consistent(crate::write::close_blocks(bs, true)),
{
    let cb = BlockModel::Crc32 { checksum: crc32_of(raw_concat(bs)) };
    let bs2 = bs.push(cb);
    assert forall|i: int| 0 <= i < bs2.len() implies ((#[trigger] bs2[i]) matches
        BlockModel::Crc32 { checksum } ==> checksum == crc32_of(raw_concat(bs2.take(i)))) by {
        if i < bs.len() {
            assert(bs2[i] == bs[i]);
            assert(bs2.take(i) =~= bs.take(i));
        } else {
            assert(bs2[i] == cb);
            assert(bs2.take(i) =~= bs);
        }
    }
}

/// A writer that appends a checksum never trips a verifying reader: its
/// image parses back to the written blocks plus the trailing CRC32 block,
/// and the checksum check passes.
pub proof fn lemma_checksummed_round_trip(bs: Seq<BlockModel>)
    requires
        forall|i: int| 0 <= i < bs.len() ==> (#[trigger] bs[i]).wf(),
        crc_consistent(bs),
        chunks_fit(chunks_of(crate::write::close_blocks(bs, true))),
    ensures
        ({
            let bs2 = crate::write::close_blocks(bs, true);
            parse_image_blocks(
                image_bytes(bs2),
                true,
                spec_parse_file_header(image_bytes(bs2)).total_chunks as nat,
            ) == Some(bs2)
        }),
{
    let cb = BlockModel::Crc32 { checksum: crc32_of(raw_concat(bs)) };
    let bs2 = bs.push(cb);
    assert forall|i: int| 0 <= i < bs2.len() implies (#[trigger] bs2[i]).wf() by {
        if i < bs.len() {
            assert(bs2[i] == bs[i]);
        } else {
            assert(bs2[i] == cb);
        }
    }
    lemma_crc_append_consistent(bs);
    lemma_written_image_reads_back(bs2, true);
}

/// The whole pipeline is the identity on whole-block raw images: encode a
/// raw image into blocks, write them as a sparse image (with or without a
/// trailing checksum), read the image back — verifying the checksum when
/// one was written — and the blocks that come out stand for exactly the
/// original bytes, which is what decoding them produces.
pub proof fn lemma_pipeline_round_trip(raw: Seq<u8>, with_crc: bool)
    requires
        raw.len() % (BLOCK_SIZE as nat) == 0,
        chunks_fit(chunks_of(crate::write::close_blocks(encode_blocks(raw), with_crc))),
    ensures
        ({
            let bs = crate::write::close_blocks(encode_blocks(raw), with_crc);
            &&& parse_image_blocks(
                image_bytes(bs),
                with_crc,
                spec_parse_file_header(image_bytes(bs)).total_chunks as nat,
            ) == Some(bs)
            &&& raw_concat(bs) == raw
        }),
{
    let e = encode_blocks(raw);
    lemma_encode_blocks_wf(raw);
    lemma_encode_decode_identity(raw);
    assert(crc_consistent(e));
    let bs = crate::write::close_blocks(e, with_crc);
    if with_crc {
        let cb = BlockModel::Crc32 { checksum: crc32_of(raw_concat(e)) };
        lemma_crc_append_consistent(e);
        assert forall|i: int| 0 <= i < bs.len() implies (#[trigger] bs[i]).wf() by {
            if i < e.len() {
                assert(bs[i] == e[i]);
            } else {
                assert(bs[i] == cb);
            }
        }
        lemma_raw_concat_push(e, cb);
        assert(raw_concat(bs) =~= raw);
        lemma_written_image_reads_back(bs, true);
    } else {
        lemma_written_image_reads_back(bs, false);
    }
}

/// Decoding a block stream materializes exactly as many bytes as the
/// written image's header promises: its total block count times the block
/// size, whatever mix of raw, fill and skipped blocks produced them.
pub proof fn lemma_decoded_size(bs: Seq<BlockModel>)
    requires
        forall|i: int| 0 <= i < bs.len() ==> (#[trigger] bs[i]).wf(),
        chunks_fit(chunks_of(bs)),
    ensures
        raw_concat(bs).len() == BLOCK_SIZE * image_header(bs).total_blocks,
{
    crate::block::lemma_raw_concat_len(bs);
    lemma_image_header(bs);
}

/// The writer's run-merging is exhaustive: no two adjacent chunks of a
/// written image could have been one chunk.
pub proof fn lemma_run_merging_exhaustive(bs: Seq<BlockModel>, i: int)
    requires
        0 <= i,
        i + 1 < chunks_of(bs).len(),
    ensures
        !chunks_mergeable(chunks_of(bs)[i], chunks_of(bs)[i + 1]),
{
    lemma_chunks_of_no_adjacent_mergeable(bs);
}

} // verus!
