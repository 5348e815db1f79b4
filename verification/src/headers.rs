//! The two fixed-layout wire headers of the sparse format, with little-endian
//! serialization and validating deserialization.

use vstd::bytes::*;
use vstd::prelude::*;

use crate::block::BLOCK_SIZE;
use crate::result::Error;

verus! {

/// Magic number that opens every sparse image.
pub const FILE_MAGIC: u32 = 0xed26_ff3a;

/// Major version of the supported format.
pub const MAJOR_VERSION: u16 = 1;

/// Minor version of the supported format.
pub const MINOR_VERSION: u16 = 0;

/// Size of the sparse file header in bytes.
pub const FILE_HEADER_SIZE: usize = 28;

/// Size of a sparse chunk header in bytes.
pub const CHUNK_HEADER_SIZE: usize = 12;

/// Chunk magic of a raw chunk.
pub const CHUNK_MAGIC_RAW: u16 = 0xcac1;

/// Chunk magic of a fill chunk.
pub const CHUNK_MAGIC_FILL: u16 = 0xcac2;

/// Chunk magic of a don't-care chunk.
pub const CHUNK_MAGIC_DONT_CARE: u16 = 0xcac3;

/// Chunk magic of a CRC32 chunk.
pub const CHUNK_MAGIC_CRC32: u16 = 0xcac4;

/// The sparse file header, without the fields that are fixed by the format.
#[derive(Clone, Copy, Debug, PartialEq, Eq, Structural)]
pub struct FileHeader {
    /// Count of raw-image blocks the image represents.
    pub total_blocks: u32,
    /// Count of chunk records that follow the header.
    pub total_chunks: u32,
    /// Checksum field; always written as 0.
    pub image_checksum: u32,
}

/// The type tag of a chunk.
#[derive(Clone, Copy, Debug, PartialEq, Eq, Structural)]
pub enum ChunkType {
    /// A chunk holding its blocks' bytes verbatim.
    Raw,
    /// A chunk whose blocks all repeat one 4-byte value.
    Fill,
    /// A chunk whose blocks are skipped.
    DontCare,
    /// A chunk holding a CRC32 checksum.
    Crc32,
}

/// A sparse chunk header.
#[derive(Clone, Copy, Debug, PartialEq, Eq, Structural)]
pub struct ChunkHeader {
    /// The type of the chunk.
    pub chunk_type: ChunkType,
    /// Number of raw-image blocks this chunk expands to (0 for CRC32).
    pub chunk_size: u32,
    /// Byte length of this chunk including its header.
    pub total_size: u32,
}

impl ChunkType {
    /// The wire magic of this chunk type.
    pub open spec fn spec_magic(self) -> u16 {
        match self {
            ChunkType::Raw => CHUNK_MAGIC_RAW,
            ChunkType::Fill => CHUNK_MAGIC_FILL,
            ChunkType::DontCare => CHUNK_MAGIC_DONT_CARE,
            ChunkType::Crc32 => CHUNK_MAGIC_CRC32,
        }
    }

    /// Returns the wire magic of this chunk type.
    pub fn magic(self) -> (m: u16)
        ensures
            m == self.spec_magic(),
    {
        match self {
            ChunkType::Raw => CHUNK_MAGIC_RAW,
            ChunkType::Fill => CHUNK_MAGIC_FILL,
            ChunkType::DontCare => CHUNK_MAGIC_DONT_CARE,
            ChunkType::Crc32 => CHUNK_MAGIC_CRC32,
        }
    }

    /// The chunk type a wire magic stands for, if any.
    pub open spec fn spec_from_magic(magic: u16) -> Option<ChunkType> {
        if magic == CHUNK_MAGIC_RAW {
            Some(ChunkType::Raw)
        } else if magic == CHUNK_MAGIC_FILL {
            Some(ChunkType::Fill)
        } else if magic == CHUNK_MAGIC_DONT_CARE {
            Some(ChunkType::DontCare)
        } else if magic == CHUNK_MAGIC_CRC32 {
            Some(ChunkType::Crc32)
        } else {
            None
        }
    }

    /// Maps a wire magic to its chunk type; an unknown magic is a parse
    /// failure.
    pub fn from_magic(magic: u16) -> (r: Result<ChunkType, Error>)
        ensures
            match r {
                Ok(t) => Self::spec_from_magic(magic) == Some(t),
                Err(e) => Self::spec_from_magic(magic) is None && e is Parse,
            },
    {
        if magic == CHUNK_MAGIC_RAW {
            Ok(ChunkType::Raw)
        } else if magic == CHUNK_MAGIC_FILL {
            Ok(ChunkType::Fill)
        } else if magic == CHUNK_MAGIC_DONT_CARE {
            Ok(ChunkType::DontCare)
        } else if magic == CHUNK_MAGIC_CRC32 {
            Ok(ChunkType::Crc32)
        } else {
            Err(Error::Parse(String::from_str("Invalid chunk magic")))
        }
    }
}

/// The 28 bytes that serialize a file header.
pub open spec fn spec_file_header_bytes(h: FileHeader) -> Seq<u8> {
    spec_u32_to_le_bytes(FILE_MAGIC) + spec_u16_to_le_bytes(MAJOR_VERSION) + spec_u16_to_le_bytes(
        MINOR_VERSION,
    ) + spec_u16_to_le_bytes(FILE_HEADER_SIZE as u16) + spec_u16_to_le_bytes(
        CHUNK_HEADER_SIZE as u16,
    ) + spec_u32_to_le_bytes(BLOCK_SIZE as u32) + spec_u32_to_le_bytes(h.total_blocks)
        + spec_u32_to_le_bytes(h.total_chunks) + spec_u32_to_le_bytes(h.image_checksum)
}

/// Whether the first 28 bytes of `s` carry the magic, version and sizes that
/// the format fixes.
pub open spec fn spec_file_header_valid(s: Seq<u8>) -> bool
    recommends
        s.len() >= FILE_HEADER_SIZE,
{
    &&& spec_u32_from_le_bytes(s.subrange(0, 4)) == FILE_MAGIC
    &&& spec_u16_from_le_bytes(s.subrange(4, 6)) == MAJOR_VERSION
    &&& spec_u16_from_le_bytes(s.subrange(6, 8)) == MINOR_VERSION
    &&& spec_u16_from_le_bytes(s.subrange(8, 10)) == FILE_HEADER_SIZE as u16
    &&& spec_u16_from_le_bytes(s.subrange(10, 12)) == CHUNK_HEADER_SIZE as u16
    &&& spec_u32_from_le_bytes(s.subrange(12, 16)) == BLOCK_SIZE as u32
}

/// The variable fields of the file header serialized in the first 28 bytes of
/// `s`.
pub open spec fn spec_parse_file_header(s: Seq<u8>) -> FileHeader
    recommends
        s.len() >= FILE_HEADER_SIZE,
{
    FileHeader {
        total_blocks: spec_u32_from_le_bytes(s.subrange(16, 20)),
        total_chunks: spec_u32_from_le_bytes(s.subrange(20, 24)),
        image_checksum: spec_u32_from_le_bytes(s.subrange(24, 28)),
    }
}

/// The 12 bytes that serialize a chunk header (the reserved field is written
/// as 0).
pub open spec fn spec_chunk_header_bytes(h: ChunkHeader) -> Seq<u8> {
    spec_u16_to_le_bytes(h.chunk_type.spec_magic()) + spec_u16_to_le_bytes(0u16)
        + spec_u32_to_le_bytes(h.chunk_size) + spec_u32_to_le_bytes(h.total_size)
}

/// The chunk header serialized at `pos` in `s`, or `None` when the magic is
/// unknown. The reserved field is ignored.
pub open spec fn spec_parse_chunk_header(s: Seq<u8>, pos: int) -> Option<ChunkHeader>
    recommends
        0 <= pos,
        pos + CHUNK_HEADER_SIZE <= s.len(),
{
    match ChunkType::spec_from_magic(spec_u16_from_le_bytes(s.subrange(pos, pos + 2))) {
        Some(t) => Some(
            ChunkHeader {
                chunk_type: t,
                chunk_size: spec_u32_from_le_bytes(s.subrange(pos + 4, pos + 8)),
                total_size: spec_u32_from_le_bytes(s.subrange(pos + 8, pos + 12)),
            },
        ),
        None => None,
    }
}

pub proof fn lemma_file_header_bytes_len(h: FileHeader)
    ensures
        spec_file_header_bytes(h).len() == FILE_HEADER_SIZE,
{
    lemma_auto_spec_u16_to_from_le_bytes();
    lemma_auto_spec_u32_to_from_le_bytes();
}

pub proof fn lemma_chunk_header_bytes_len(h: ChunkHeader)
    ensures
        spec_chunk_header_bytes(h).len() == CHUNK_HEADER_SIZE,
{
    lemma_auto_spec_u16_to_from_le_bytes();
    lemma_auto_spec_u32_to_from_le_bytes();
}

/// Parsing reads back exactly the file header that serialization wrote,
/// whatever follows it.
pub proof fn lemma_file_header_round_trip(s: Seq<u8>, h: FileHeader)
    requires
        s.len() >= FILE_HEADER_SIZE,
        s.subrange(0, FILE_HEADER_SIZE as int) == spec_file_header_bytes(h),
    ensures
        spec_file_header_valid(s),
        spec_parse_file_header(s) == h,
{
    lemma_auto_spec_u16_to_from_le_bytes();
    lemma_auto_spec_u32_to_from_le_bytes();
    let b = spec_file_header_bytes(h);
    assert(s.subrange(0, 4) =~= b.subrange(0, 4));
    assert(s.subrange(4, 6) =~= b.subrange(4, 6));
    assert(s.subrange(6, 8) =~= b.subrange(6, 8));
    assert(s.subrange(8, 10) =~= b.subrange(8, 10));
    assert(s.subrange(10, 12) =~= b.subrange(10, 12));
    assert(s.subrange(12, 16) =~= b.subrange(12, 16));
    assert(s.subrange(16, 20) =~= b.subrange(16, 20));
    assert(s.subrange(20, 24) =~= b.subrange(20, 24));
    assert(s.subrange(24, 28) =~= b.subrange(24, 28));
    assert(b.subrange(0, 4) =~= spec_u32_to_le_bytes(FILE_MAGIC));
    assert(b.subrange(4, 6) =~= spec_u16_to_le_bytes(MAJOR_VERSION));
    assert(b.subrange(6, 8) =~= spec_u16_to_le_bytes(MINOR_VERSION));
    assert(b.subrange(8, 10) =~= spec_u16_to_le_bytes(FILE_HEADER_SIZE as u16));
    assert(b.subrange(10, 12) =~= spec_u16_to_le_bytes(CHUNK_HEADER_SIZE as u16));
    assert(b.subrange(12, 16) =~= spec_u32_to_le_bytes(BLOCK_SIZE as u32));
    assert(b.subrange(16, 20) =~= spec_u32_to_le_bytes(h.total_blocks));
    assert(b.subrange(20, 24) =~= spec_u32_to_le_bytes(h.total_chunks));
    assert(b.subrange(24, 28) =~= spec_u32_to_le_bytes(h.image_checksum));
}

/// Parsing reads back exactly the chunk header that serialization wrote,
/// whatever surrounds it.
pub proof fn lemma_chunk_header_round_trip(s: Seq<u8>, pos: int, h: ChunkHeader)
    requires
        0 <= pos,
        pos + CHUNK_HEADER_SIZE <= s.len(),
        s.subrange(pos, pos + CHUNK_HEADER_SIZE) == spec_chunk_header_bytes(h),
    ensures
        spec_parse_chunk_header(s, pos) == Some(h),
{
    lemma_auto_spec_u16_to_from_le_bytes();
    lemma_auto_spec_u32_to_from_le_bytes();
    let b = spec_chunk_header_bytes(h);
    assert(s.subrange(pos, pos + 2) =~= b.subrange(0, 2));
    assert(s.subrange(pos + 4, pos + 8) =~= b.subrange(4, 8));
    assert(s.subrange(pos + 8, pos + 12) =~= b.subrange(8, 12));
    assert(b.subrange(0, 2) =~= spec_u16_to_le_bytes(h.chunk_type.spec_magic()));
    assert(b.subrange(4, 8) =~= spec_u32_to_le_bytes(h.chunk_size));
    assert(b.subrange(8, 12) =~= spec_u32_to_le_bytes(h.total_size));
    assert(ChunkType::spec_from_magic(h.chunk_type.spec_magic()) == Some(h.chunk_type));
}

impl FileHeader {
    /// Reads and validates a file header from the start of `data`.
    ///
    /// Succeeds exactly when at least 28 bytes are present and the magic,
    /// version, header sizes and block size are the ones the format fixes; a
    /// short input is an `Io` failure and an invalid field a `Parse` failure.
    pub fn read_from(data: &[u8]) -> (r: Result<FileHeader, Error>)
        ensures
            match r {
                Ok(h) => data@.len() >= FILE_HEADER_SIZE && spec_file_header_valid(data@) && h
                    == spec_parse_file_header(data@),
                Err(e) => {
                    &&& e is Io <==> data@.len() < FILE_HEADER_SIZE
                    &&& e is Parse <==> data@.len() >= FILE_HEADER_SIZE && !spec_file_header_valid(
                        data@,
                    )
                },
            },
    {
        if data.len() < FILE_HEADER_SIZE {
            return Err(Error::Io);
        }
        let magic = u32_from_le_bytes(&data[0..4]);
        if magic != FILE_MAGIC {
            return Err(Error::Parse(String::from_str("Invalid file magic")));
        }
        let major = u16_from_le_bytes(&data[4..6]);
        let minor = u16_from_le_bytes(&data[6..8]);
        if major != MAJOR_VERSION || minor != MINOR_VERSION {
            return Err(Error::Parse(String::from_str("Invalid file format version")));
        }
        let file_header_size = u16_from_le_bytes(&data[8..10]);
        if file_header_size != FILE_HEADER_SIZE as u16 {
            return Err(Error::Parse(String::from_str("Invalid file header size")));
        }
        let chunk_header_size = u16_from_le_bytes(&data[10..12]);
        if chunk_header_size != CHUNK_HEADER_SIZE as u16 {
            return Err(Error::Parse(String::from_str("Invalid chunk header size")));
        }
        let block_size = u32_from_le_bytes(&data[12..16]);
        if block_size != BLOCK_SIZE as u32 {
            return Err(Error::Parse(String::from_str("Invalid block size")));
        }
        Ok(
            FileHeader {
                total_blocks: u32_from_le_bytes(&data[16..20]),
                total_chunks: u32_from_le_bytes(&data[20..24]),
                image_checksum: u32_from_le_bytes(&data[24..28]),
            },
        )
    }

    /// Appends this header's 28 serialized bytes to `out`.
    pub fn write_to(&self, out: &mut Vec<u8>)
        ensures
            final(out)@ == old(out)@ + spec_file_header_bytes(*self),
    {
        let mut b = u32_to_le_bytes(FILE_MAGIC);
        out.append(&mut b);
        let mut b = u16_to_le_bytes(MAJOR_VERSION);
        out.append(&mut b);
        let mut b = u16_to_le_bytes(MINOR_VERSION);
        out.append(&mut b);
        let mut b = u16_to_le_bytes(FILE_HEADER_SIZE as u16);
        out.append(&mut b);
        let mut b = u16_to_le_bytes(CHUNK_HEADER_SIZE as u16);
        out.append(&mut b);
        let mut b = u32_to_le_bytes(BLOCK_SIZE as u32);
        out.append(&mut b);
        let mut b = u32_to_le_bytes(self.total_blocks);
        out.append(&mut b);
        let mut b = u32_to_le_bytes(self.total_chunks);
        out.append(&mut b);
        let mut b = u32_to_le_bytes(self.image_checksum);
        out.append(&mut b);
        assert(out@ =~= old(out)@ + spec_file_header_bytes(*self));
    }
}

impl ChunkHeader {
    /// Reads a chunk header at offset `pos` in `data`.
    ///
    /// Succeeds exactly when 12 bytes are present at `pos` and the chunk magic
    /// is known; a short input is an `Io` failure and an unknown magic a
    /// `Parse` failure. The reserved field is read and discarded, and
    /// `chunk_size` and `total_size` are accepted without cross-validation.
    pub fn read_from(data: &[u8], pos: usize) -> (r: Result<ChunkHeader, Error>)
        ensures
            match r {
                Ok(h) => pos + CHUNK_HEADER_SIZE <= data@.len() && spec_parse_chunk_header(
                    data@,
                    pos as int,
                ) == Some(h),
                Err(e) => {
                    &&& e is Io <==> pos + CHUNK_HEADER_SIZE > data@.len()
                    &&& e is Parse <==> pos + CHUNK_HEADER_SIZE <= data@.len()
                        && spec_parse_chunk_header(data@, pos as int) is None
                },
            },
    {
        if data.len() < CHUNK_HEADER_SIZE || pos > data.len() - CHUNK_HEADER_SIZE {
            return Err(Error::Io);
        }
        let magic = u16_from_le_bytes(&data[pos..pos + 2]);
        let chunk_type = match ChunkType::from_magic(magic) {
            Ok(t) => t,
            Err(e) => {
                return Err(e);
            },
        };
        let chunk_size = u32_from_le_bytes(&data[pos + 4..pos + 8]);
        let total_size = u32_from_le_bytes(&data[pos + 8..pos + 12]);
        Ok(ChunkHeader { chunk_type, chunk_size, total_size })
    }

    /// Appends this header's 12 serialized bytes to `out`.
    pub fn write_to(&self, out: &mut Vec<u8>)
        ensures
            final(out)@ == old(out)@ + spec_chunk_header_bytes(*self),
    {
        let mut b = u16_to_le_bytes(self.chunk_type.magic());
        out.append(&mut b);
        let mut b = u16_to_le_bytes(0u16);
        out.append(&mut b);
        let mut b = u32_to_le_bytes(self.chunk_size);
        out.append(&mut b);
        let mut b = u32_to_le_bytes(self.total_size);
        out.append(&mut b);
        assert(out@ =~= old(out)@ + spec_chunk_header_bytes(*self));
    }
}

} // verus!
