use android_sparse::block::BLOCK_SIZE;
use android_sparse::read::{is_sparse_block, Encoder, Reader};
use android_sparse::result::Error;
use android_sparse::Block;

fn push_u16(out: &mut Vec<u8>, v: u16) {
    out.extend_from_slice(&v.to_le_bytes());
}

fn push_u32(out: &mut Vec<u8>, v: u32) {
    out.extend_from_slice(&v.to_le_bytes());
}

fn raw_block_1() -> Vec<u8> {
    let mut buf = vec![0u8; BLOCK_SIZE];
    for (i, b) in buf.iter_mut().enumerate() {
        *b = i as u8;
    }
    buf
}

fn raw_block_2() -> Vec<u8> {
    let mut buf = vec![0u8; BLOCK_SIZE];
    buf[1] = 0x66;
    buf
}

fn test_blocks() -> Vec<Block> {
    vec![
        Block::Raw(raw_block_1()),
        Block::Fill([0xaa; 4]),
        Block::Skip,
        Block::Skip,
        Block::Raw(raw_block_2()),
    ]
}

fn hello_img() -> Vec<u8> {
    let mut img = Vec::new();
    img.extend_from_slice(&raw_block_1());
    img.extend_from_slice(&[0xaa; BLOCK_SIZE]);
    img.extend_from_slice(&[0u8; BLOCK_SIZE]);
    img.extend_from_slice(&[0u8; BLOCK_SIZE]);
    img.extend_from_slice(&raw_block_2());
    img
}

fn file_header(total_blocks: u32, total_chunks: u32) -> Vec<u8> {
    let mut out = Vec::new();
    push_u32(&mut out, 0xed26_ff3a);
    push_u16(&mut out, 1);
    push_u16(&mut out, 0);
    push_u16(&mut out, 28);
    push_u16(&mut out, 12);
    push_u32(&mut out, 4096);
    push_u32(&mut out, total_blocks);
    push_u32(&mut out, total_chunks);
    push_u32(&mut out, 0);
    out
}

fn chunk_header(out: &mut Vec<u8>, magic: u16, chunk_size: u32, total_size: u32) {
    push_u16(out, magic);
    push_u16(out, 0);
    push_u32(out, chunk_size);
    push_u32(out, total_size);
}

fn hello_simg() -> Vec<u8> {
    let mut out = file_header(5, 4);
    chunk_header(&mut out, 0xcac1, 1, 12 + 4096);
    out.extend_from_slice(&raw_block_1());
    chunk_header(&mut out, 0xcac2, 1, 16);
    out.extend_from_slice(&[0xaa; 4]);
    chunk_header(&mut out, 0xcac3, 2, 12);
    chunk_header(&mut out, 0xcac1, 1, 12 + 4096);
    out.extend_from_slice(&raw_block_2());
    out
}

fn crc_simg() -> Vec<u8> {
    let mut out = file_header(5, 5);
    out.extend_from_slice(&hello_simg()[28..]);
    chunk_header(&mut out, 0xcac4, 0, 16);
    push_u32(&mut out, 0xffb880a5);
    out
}

fn invalid_crc_simg() -> Vec<u8> {
    let mut out = crc_simg();
    let last = out.len() - 1;
    out[last] ^= 0xff;
    out
}

fn collect_blocks(mut reader: Reader) -> Vec<Result<Block, Error>> {
    let mut blocks = Vec::new();
    while let Some(r) = reader.next() {
        blocks.push(r);
    }
    blocks
}

#[test]
fn read_sparse() {
    let reader = Reader::new(hello_simg()).unwrap();
    let expected = test_blocks();

    let blocks: Vec<_> = collect_blocks(reader).into_iter().map(|r| r.unwrap()).collect();
    assert_eq!(blocks.len(), expected.len());

    for (blk, exp) in blocks.iter().zip(expected.iter()) {
        assert_eq!(blk, exp);
    }
}

#[test]
fn read_sparse_with_crc() {
    let reader = Reader::with_crc(crc_simg()).unwrap();
    let mut expected = test_blocks();
    expected.push(Block::Crc32(0xffb880a5));

    let blocks: Vec<_> = collect_blocks(reader).into_iter().map(|r| r.unwrap()).collect();
    assert_eq!(blocks.len(), expected.len());

    for (blk, exp) in blocks.iter().zip(expected.iter()) {
        assert_eq!(blk, exp);
    }
}

#[test]
fn read_sparse_with_invalid_crc() {
    let mut reader = Reader::with_crc(invalid_crc_simg()).unwrap();

    let mut nth = None;
    for _ in 0..6 {
        nth = reader.next();
    }
    assert!(nth.unwrap().is_err());
}

#[test]
fn checksum_mismatch_message() {
    let mut reader = Reader::with_crc(invalid_crc_simg()).unwrap();
    let mut last = None;
    while let Some(r) = reader.next() {
        last = Some(r);
    }
    match last.unwrap() {
        Err(Error::Parse(msg)) => assert_eq!(msg, "Checksum does not match"),
        other => panic!("expected a checksum error, got {:?}", other),
    }
}

#[test]
fn encode_raw() {
    let mut encoder = Encoder::new(hello_img()).unwrap();
    let expected = test_blocks();

    let mut blocks = Vec::new();
    while let Some(r) = encoder.next() {
        blocks.push(r.unwrap());
    }
    assert_eq!(blocks.len(), expected.len());

    for (blk, exp) in blocks.iter().zip(expected.iter()) {
        assert_eq!(blk, exp);
    }
}

#[test]
fn read4() {
    let buf = [0xaau8; BLOCK_SIZE];
    assert_eq!(android_sparse::read::read4(&buf).unwrap(), [0xaa; 4]);
}

#[test]
fn read_all() {
    let src = [0xaau8; BLOCK_SIZE];
    let half = BLOCK_SIZE / 2;
    let mut buf = vec![0u8; BLOCK_SIZE];

    assert_eq!(android_sparse::read::read_all(&src[..half], &mut buf), half);
    assert_eq!(&buf[..half], &src[..half]);
    assert_eq!(&buf[half..], &[0u8; 2048][..]);

    assert_eq!(android_sparse::read::read_all(&src, &mut buf), BLOCK_SIZE);
    assert_eq!(&buf[..], &src[..]);
}

#[test]
fn is_sparse() {
    let words = [0xaaaa_aaaau32; BLOCK_SIZE / 4];
    assert!(android_sparse::read::is_sparse(&words));

    let buf: Vec<u32> = (0..(BLOCK_SIZE / 4) as u32).collect();
    assert!(!android_sparse::read::is_sparse(&buf));
}

#[test]
fn is_sparse_block_uniform() {
    assert!(is_sparse_block(&[0xaau8; BLOCK_SIZE]));
    assert!(!is_sparse_block(&raw_block_1()));
    assert!(!is_sparse_block(&[0xaau8; 8]));
}

#[test]
fn encode_classifies_blocks() {
    let zeroes = vec![0u8; BLOCK_SIZE];
    assert_eq!(android_sparse::read::encode_block(&zeroes), Block::Skip);

    let mut pattern = Vec::new();
    for _ in 0..1024 {
        pattern.extend_from_slice(&[0xaa, 0xbb, 0xcc, 0xdd]);
    }
    assert_eq!(
        android_sparse::read::encode_block(&pattern),
        Block::Fill([0xaa, 0xbb, 0xcc, 0xdd])
    );

    let raw = raw_block_1();
    assert_eq!(android_sparse::read::encode_block(&raw), Block::Raw(raw_block_1()));
}

#[test]
fn encoder_drops_partial_tail() {
    let mut raw = vec![0xaau8; BLOCK_SIZE];
    raw.extend_from_slice(&[0xbb; 100]);
    let mut encoder = Encoder::new(raw).unwrap();

    let mut blocks = Vec::new();
    while let Some(r) = encoder.next() {
        blocks.push(r.unwrap());
    }
    assert_eq!(blocks, vec![Block::Fill([0xaa; 4])]);
}

#[test]
fn reader_rejects_bad_magic() {
    let mut img = hello_simg();
    img[0] = 0x00;
    let err = match Reader::new(img) {
        Ok(_) => panic!("invalid header was accepted"),
        Err(e) => e,
    };
    assert!(matches!(err, Error::Parse(_)));
}

#[test]
fn reader_rejects_bad_version() {
    let mut img = hello_simg();
    img[4] = 2;
    let err = match Reader::new(img) {
        Ok(_) => panic!("invalid header was accepted"),
        Err(e) => e,
    };
    assert!(matches!(err, Error::Parse(_)));
}

#[test]
fn reader_rejects_bad_block_size() {
    let mut img = hello_simg();
    img[13] = 0;
    let err = match Reader::new(img) {
        Ok(_) => panic!("invalid header was accepted"),
        Err(e) => e,
    };
    assert!(matches!(err, Error::Parse(_)));
}

#[test]
fn reader_rejects_short_header() {
    let err = match Reader::new(vec![0x3a, 0xff, 0x26, 0xed]) {
        Ok(_) => panic!("short header was accepted"),
        Err(e) => e,
    };
    assert!(matches!(err, Error::Io));
}

#[test]
fn reader_fails_on_truncated_chunk() {
    let mut img = hello_simg();
    img.truncate(28 + 12 + 100);
    let mut reader = Reader::new(img).unwrap();
    let first = reader.next().unwrap();
    assert!(matches!(first, Err(Error::Io)));
    assert!(reader.next().is_none());
}

#[test]
fn reader_rejects_unknown_chunk_magic() {
    let mut img = hello_simg();
    img[28] = 0xc5;
    let mut reader = Reader::new(img).unwrap();
    let first = reader.next().unwrap();
    assert!(matches!(first, Err(Error::Parse(_))));
}
