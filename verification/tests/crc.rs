use android_sparse::block::BLOCK_SIZE;
use android_sparse::crc32::CrcAccumulator;
use android_sparse::Block;

fn block_crc(block: &Block) -> u32 {
    let mut acc = CrcAccumulator::new();
    acc.write_block(block);
    acc.sum()
}

#[test]
fn crc_write_raw_block() {
    let block = Block::Raw(vec![b'A'; BLOCK_SIZE]);
    assert_eq!(block_crc(&block), 0xfea63440);
}

#[test]
fn crc_write_fill_block() {
    let block = Block::Fill([b'A'; 4]);
    assert_eq!(block_crc(&block), 0xfea63440);
}

#[test]
fn crc_write_skip_block() {
    let block = Block::Skip;
    assert_eq!(block_crc(&block), 0xc71c0011);
}

#[test]
fn crc_write_crc32_block() {
    let block = Block::Crc32(0x12345678);
    assert_eq!(block_crc(&block), 0);
}

#[test]
fn crc_accumulates_across_blocks() {
    let mut acc = CrcAccumulator::new();
    acc.write_block(&Block::Fill([b'A'; 4]));
    acc.write_block(&Block::Skip);
    let mut bytes = vec![b'A'; BLOCK_SIZE];
    bytes.extend_from_slice(&[0u8; BLOCK_SIZE]);
    assert_eq!(acc.sum(), crc32fast::hash(&bytes));
}
