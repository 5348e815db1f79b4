use android_sparse::headers::{ChunkHeader, ChunkType, FileHeader};
use android_sparse::result::Error;

const FILE_HEADER_BYTES: &[u8] = &[
    0x3a, 0xff, 0x26, 0xed, 0x01, 0x00, 0x00, 0x00, 0x1c, 0x00, 0x0c, 0x00, 0x00, 0x10, 0x00,
    0x00, 0x00, 0x00, 0x04, 0x00, 0x96, 0x05, 0x00, 0x00, 0x00, 0x00, 0x00, 0x00,
];

const CHUNK_HEADER_BYTES: &[u8] = &[
    0xc1, 0xca, 0x00, 0x00, 0x01, 0x00, 0x00, 0x00, 0x0c, 0x10, 0x00, 0x00,
];

fn file_header() -> FileHeader {
    FileHeader { total_blocks: 262144, total_chunks: 1430, image_checksum: 0 }
}

fn chunk_header() -> ChunkHeader {
    ChunkHeader { chunk_type: ChunkType::Raw, chunk_size: 1, total_size: 4108 }
}

#[test]
fn read_file_header() {
    let header = FileHeader::read_from(FILE_HEADER_BYTES).unwrap();
    assert_eq!(header, file_header());
}

#[test]
fn write_file_header() {
    let mut bytes = Vec::new();
    file_header().write_to(&mut bytes);
    assert_eq!(&bytes[..], FILE_HEADER_BYTES);
}

#[test]
fn read_chunk_header() {
    let header = ChunkHeader::read_from(CHUNK_HEADER_BYTES, 0).unwrap();
    assert_eq!(header, chunk_header());
}

#[test]
fn write_chunk_header() {
    let mut bytes = Vec::new();
    chunk_header().write_to(&mut bytes);
    assert_eq!(&bytes[..], CHUNK_HEADER_BYTES);
}

#[test]
fn chunk_type_magics() {
    assert_eq!(ChunkType::from_magic(0xcac1).unwrap(), ChunkType::Raw);
    assert_eq!(ChunkType::from_magic(0xcac2).unwrap(), ChunkType::Fill);
    assert_eq!(ChunkType::from_magic(0xcac3).unwrap(), ChunkType::DontCare);
    assert_eq!(ChunkType::from_magic(0xcac4).unwrap(), ChunkType::Crc32);
    assert!(matches!(ChunkType::from_magic(0xcac5), Err(Error::Parse(_))));
}

#[test]
fn file_header_rejects_bad_magic() {
    let mut bytes = FILE_HEADER_BYTES.to_vec();
    bytes[3] = 0x00;
    assert!(matches!(FileHeader::read_from(&bytes), Err(Error::Parse(_))));
}

#[test]
fn file_header_rejects_short_input() {
    assert!(matches!(FileHeader::read_from(&FILE_HEADER_BYTES[..10]), Err(Error::Io)));
}

#[test]
fn chunk_header_rejects_short_input() {
    assert!(matches!(
        ChunkHeader::read_from(&CHUNK_HEADER_BYTES[..6], 0),
        Err(Error::Io)
    ));
}
