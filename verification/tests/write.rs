use android_sparse::block::BLOCK_SIZE;
use android_sparse::write::{Decoder, Writer};
use android_sparse::Block;

fn push_u16(out: &mut Vec<u8>, v: u16) {
    out.extend_from_slice(&v.to_le_bytes());
}

fn push_u32(out: &mut Vec<u8>, v: u32) {
    out.extend_from_slice(&v.to_le_bytes());
}

fn raw_block_1() -> Vec<u8> {
    let mut buf = vec![0u8; BLOCK_SIZE];
    for (i, b) in buf.iter_mut().enumerate() {
        *b = i as u8;
    }
    buf
}

fn raw_block_2() -> Vec<u8> {
    let mut buf = vec![0u8; BLOCK_SIZE];
    buf[1] = 0x66;
    buf
}

fn test_blocks() -> Vec<Block> {
    vec![
        Block::Raw(raw_block_1()),
        Block::Fill([0xaa; 4]),
        Block::Skip,
        Block::Skip,
        Block::Raw(raw_block_2()),
    ]
}

fn hello_img() -> Vec<u8> {
    let mut img = Vec::new();
    img.extend_from_slice(&raw_block_1());
    img.extend_from_slice(&[0xaa; BLOCK_SIZE]);
    img.extend_from_slice(&[0u8; BLOCK_SIZE]);
    img.extend_from_slice(&[0u8; BLOCK_SIZE]);
    img.extend_from_slice(&raw_block_2());
    img
}

fn file_header(total_blocks: u32, total_chunks: u32) -> Vec<u8> {
    let mut out = Vec::new();
    push_u32(&mut out, 0xed26_ff3a);
    push_u16(&mut out, 1);
    push_u16(&mut out, 0);
    push_u16(&mut out, 28);
    push_u16(&mut out, 12);
    push_u32(&mut out, 4096);
    push_u32(&mut out, total_blocks);
    push_u32(&mut out, total_chunks);
    push_u32(&mut out, 0);
    out
}

fn chunk_header(out: &mut Vec<u8>, magic: u16, chunk_size: u32, total_size: u32) {
    push_u16(out, magic);
    push_u16(out, 0);
    push_u32(out, chunk_size);
    push_u32(out, total_size);
}

fn hello_simg() -> Vec<u8> {
    let mut out = file_header(5, 4);
    chunk_header(&mut out, 0xcac1, 1, 12 + 4096);
    out.extend_from_slice(&raw_block_1());
    chunk_header(&mut out, 0xcac2, 1, 16);
    out.extend_from_slice(&[0xaa; 4]);
    chunk_header(&mut out, 0xcac3, 2, 12);
    chunk_header(&mut out, 0xcac1, 1, 12 + 4096);
    out.extend_from_slice(&raw_block_2());
    out
}

fn crc_simg() -> Vec<u8> {
    let mut out = file_header(5, 5);
    out.extend_from_slice(&hello_simg()[28..]);
    chunk_header(&mut out, 0xcac4, 0, 16);
    push_u32(&mut out, 0xffb880a5);
    out
}

fn write_all(writer: &mut Writer, blocks: &[Block]) {
    for block in blocks {
        assert!(writer.can_accept(block));
        writer.write_block(block).unwrap();
    }
}

#[test]
fn write_sparse() {
    let blocks = test_blocks();
    let mut writer = Writer::new();
    write_all(&mut writer, &blocks);
    assert!(writer.can_close());
    assert_eq!(writer.close(), hello_simg());
}

#[test]
fn write_sparse_crc() {
    let blocks = test_blocks();
    let mut writer = Writer::with_crc();
    write_all(&mut writer, &blocks);
    assert!(writer.can_close());
    assert_eq!(writer.close(), crc_simg());
}

#[test]
fn decode_to_raw() {
    let blocks = test_blocks();
    let mut decoder = Decoder::new().unwrap();
    for block in &blocks {
        decoder.write_block(block).unwrap();
    }
    let raw = decoder.close();
    assert_eq!(raw.len(), 5 * BLOCK_SIZE);
    assert_eq!(raw, hello_img());
}

#[test]
fn write_empty() {
    let writer = Writer::new();
    assert_eq!(writer.close(), file_header(0, 0));
}

#[test]
fn write_empty_crc() {
    let writer = Writer::with_crc();
    let mut expected = file_header(0, 1);
    chunk_header(&mut expected, 0xcac4, 0, 16);
    push_u32(&mut expected, 0);
    assert_eq!(writer.close(), expected);
}

#[test]
fn write_merges_skip_runs() {
    let mut writer = Writer::new();
    write_all(&mut writer, &[Block::Skip, Block::Skip, Block::Skip]);
    let mut expected = file_header(3, 1);
    chunk_header(&mut expected, 0xcac3, 3, 12);
    assert_eq!(writer.close(), expected);
}

#[test]
fn write_splits_unequal_fills() {
    let mut writer = Writer::new();
    write_all(
        &mut writer,
        &[Block::Fill([0xaa; 4]), Block::Fill([0xaa; 4]), Block::Fill([0xbb; 4])],
    );
    let mut expected = file_header(3, 2);
    chunk_header(&mut expected, 0xcac2, 2, 16);
    expected.extend_from_slice(&[0xaa; 4]);
    chunk_header(&mut expected, 0xcac2, 1, 16);
    expected.extend_from_slice(&[0xbb; 4]);
    assert_eq!(writer.close(), expected);
}

#[test]
fn write_merges_raw_runs() {
    let mut writer = Writer::new();
    write_all(
        &mut writer,
        &[Block::Raw(raw_block_1()), Block::Raw(raw_block_2())],
    );
    let mut expected = file_header(2, 1);
    chunk_header(&mut expected, 0xcac1, 2, 12 + 2 * 4096);
    expected.extend_from_slice(&raw_block_1());
    expected.extend_from_slice(&raw_block_2());
    assert_eq!(writer.close(), expected);
}

#[test]
fn decode_skip_tail_pads_with_zeroes() {
    let mut decoder = Decoder::new().unwrap();
    decoder.write_block(&Block::Raw(raw_block_1())).unwrap();
    decoder.write_block(&Block::Skip).unwrap();
    let raw = decoder.close();
    assert_eq!(raw.len(), 2 * BLOCK_SIZE);
    assert_eq!(&raw[..BLOCK_SIZE], &raw_block_1()[..]);
    assert_eq!(&raw[BLOCK_SIZE..], &[0u8; BLOCK_SIZE][..]);
}

#[test]
fn decode_ignores_crc_blocks() {
    let mut decoder = Decoder::new().unwrap();
    decoder.write_block(&Block::Fill([0x11; 4])).unwrap();
    decoder.write_block(&Block::Crc32(0xdeadbeef)).unwrap();
    let raw = decoder.close();
    assert_eq!(raw.len(), BLOCK_SIZE);
    assert_eq!(raw, vec![0x11u8; BLOCK_SIZE]);
}

#[test]
fn pipeline_round_trip() {
    let raw = hello_img();

    let mut encoder = android_sparse::read::Encoder::new(raw.clone()).unwrap();
    let mut writer = Writer::with_crc();
    while let Some(r) = encoder.next() {
        let block = r.unwrap();
        assert!(writer.can_accept(&block));
        writer.write_block(&block).unwrap();
    }
    assert!(writer.can_close());
    let image = writer.close();

    let mut reader = android_sparse::read::Reader::with_crc(image).unwrap();
    let mut decoder = Decoder::new().unwrap();
    while let Some(r) = reader.next() {
        decoder.write_block(&r.unwrap()).unwrap();
    }
    assert_eq!(decoder.close(), raw);
}

#[test]
fn written_header_counts() {
    let blocks = test_blocks();
    let mut writer = Writer::new();
    write_all(&mut writer, &blocks);
    let image = writer.close();
    let header = android_sparse::headers::FileHeader::read_from(&image).unwrap();
    assert_eq!(header.total_blocks, 5);
    assert_eq!(header.total_chunks, 4);
    assert_eq!(header.image_checksum, 0);
}
