use std::collections::HashMap;
use uf2_decode::block::read_u32_le;
use uf2_decode::decode::Decoder;
use uf2_decode::{convert_from_uf2, Uf2Error};

const RP2040: u32 = 0xe48b_ff56;
const FLASH: u32 = 0x1000_0000;
const TEN_MIB: u32 = 10 * 1024 * 1024;

fn put(block: &mut [u8], word: usize, v: u32) {
    block[4 * word..4 * word + 4].copy_from_slice(&v.to_le_bytes());
}

fn block(flags: u32, addr: u32, len: u32, family: u32, data: &[u8]) -> Vec<u8> {
    let mut b = vec![0u8; 512];
    put(&mut b, 0, 0x0A32_4655);
    put(&mut b, 1, 0x9E5D_5157);
    put(&mut b, 2, flags);
    put(&mut b, 3, addr);
    put(&mut b, 4, len);
    put(&mut b, 7, family);
    b[32..32 + data.len()].copy_from_slice(data);
    b[508..512].copy_from_slice(&0x0AB1_6F30u32.to_le_bytes());
    b
}

fn tagged(addr: u32, family: u32, data: &[u8]) -> Vec<u8> {
    block(0x2000, addr, data.len() as u32, family, data)
}

#[test]
fn empty_input_decodes_to_nothing() {
    let (image, families) = convert_from_uf2(&[]).unwrap();
    assert!(image.is_empty());
    assert!(families.is_empty());
}

#[test]
fn short_input_decodes_to_nothing() {
    let buf = vec![0x55u8; 511];
    let (image, families) = convert_from_uf2(&buf).unwrap();
    assert!(image.is_empty());
    assert!(families.is_empty());
}

#[test]
fn no_valid_block_decodes_to_nothing() {
    let mut buf = vec![0u8; 1024];
    buf.extend(block(0x2001, FLASH, 16, RP2040, &[7u8; 16]));
    let (image, families) = convert_from_uf2(&buf).unwrap();
    assert!(image.is_empty());
    assert!(families.is_empty());
}

#[test]
fn trailing_partial_chunk_is_ignored() {
    let mut buf = tagged(FLASH, RP2040, &[1, 2, 3, 4]);
    buf.extend(vec![0xAAu8; 100]);
    let (image, families) = convert_from_uf2(&buf).unwrap();
    assert_eq!(image, vec![1, 2, 3, 4]);
    assert_eq!(families, HashMap::from([(RP2040, FLASH as usize)]));
}

#[test]
fn bad_magic_block_is_skipped() {
    let mut bad = block(0x2000, 0, 1000, 7, &[9u8; 8]);
    put(&mut bad, 1, 0x1234_5678);
    let mut with_bad = tagged(FLASH, RP2040, &[1, 2, 3, 4]);
    with_bad.extend(bad.clone());
    with_bad.extend(tagged(FLASH + 4, RP2040, &[5, 6, 7, 8]));
    let mut without = tagged(FLASH, RP2040, &[1, 2, 3, 4]);
    without.extend(tagged(FLASH + 4, RP2040, &[5, 6, 7, 8]));
    assert_eq!(convert_from_uf2(&with_bad), convert_from_uf2(&without));
    let (image, _) = convert_from_uf2(&with_bad).unwrap();
    assert_eq!(image, vec![1, 2, 3, 4, 5, 6, 7, 8]);
}

#[test]
fn not_main_flash_block_is_skipped() {
    let mut buf = tagged(FLASH, RP2040, &[1, 2, 3, 4]);
    buf.extend(block(0x2001, 0, 477, 99, &[]));
    let (image, families) = convert_from_uf2(&buf).unwrap();
    assert_eq!(image, vec![1, 2, 3, 4]);
    assert_eq!(families, HashMap::from([(RP2040, FLASH as usize)]));
}

#[test]
fn oversized_payload_is_rejected_with_its_index() {
    let mut buf = vec![0u8; 512];
    buf.extend(tagged(FLASH, RP2040, &[1, 2, 3, 4]));
    buf.extend(block(0x2000, FLASH + 4, 477, RP2040, &[]));
    assert_eq!(convert_from_uf2(&buf), Err(Uf2Error::InvalidDataSize(2)));
}

#[test]
fn largest_payload_is_accepted() {
    let data: Vec<u8> = (0..476u32).map(|i| (i % 251) as u8).collect();
    let (image, _) = convert_from_uf2(&tagged(FLASH, RP2040, &data)).unwrap();
    assert_eq!(image, data);
}

#[test]
fn gap_is_filled_with_zero_bytes() {
    let mut buf = tagged(FLASH, RP2040, &[1, 2, 3, 4]);
    buf.extend(tagged(FLASH + 4 + 8, RP2040, &[5, 6]));
    let (image, families) = convert_from_uf2(&buf).unwrap();
    assert_eq!(image, vec![1, 2, 3, 4, 0, 0, 0, 0, 0, 0, 0, 0, 5, 6]);
    assert_eq!(families, HashMap::from([(RP2040, FLASH as usize)]));
}

#[test]
fn gap_over_ten_mib_is_rejected() {
    let mut buf = tagged(FLASH, RP2040, &[1, 2, 3, 4]);
    buf.extend(tagged(FLASH + 4 + TEN_MIB + 4, RP2040, &[5, 6, 7, 8]));
    assert_eq!(convert_from_uf2(&buf), Err(Uf2Error::TooMuchPaddingRequired(1)));
}

#[test]
fn gap_of_exactly_ten_mib_is_accepted() {
    let mut buf = tagged(FLASH, RP2040, &[1, 2, 3, 4]);
    buf.extend(tagged(FLASH + 4 + TEN_MIB, RP2040, &[5, 6, 7, 8]));
    let (image, _) = convert_from_uf2(&buf).unwrap();
    assert_eq!(image.len(), 8 + TEN_MIB as usize);
    assert_eq!(&image[0..4], &[1, 2, 3, 4]);
    assert!(image[4..4 + TEN_MIB as usize].iter().all(|&x| x == 0));
    assert_eq!(&image[4 + TEN_MIB as usize..], &[5, 6, 7, 8]);
}

#[test]
fn non_word_gap_is_rejected() {
    let mut buf = tagged(FLASH, RP2040, &[1, 2, 3, 4]);
    buf.extend(tagged(FLASH + 4 + 3, RP2040, &[5, 6, 7, 8]));
    assert_eq!(convert_from_uf2(&buf), Err(Uf2Error::NonWordPaddingSize(1)));
}

#[test]
fn block_below_current_address_is_rejected() {
    let mut buf = tagged(FLASH + 256, RP2040, &[1, 2, 3, 4]);
    buf.extend(tagged(FLASH, RP2040, &[5, 6, 7, 8]));
    assert_eq!(convert_from_uf2(&buf), Err(Uf2Error::TooMuchPaddingRequired(1)));
}

#[test]
fn single_family_image_round_trips() {
    let original: Vec<u8> = (0..16640u32).map(|i| (i.wrapping_mul(31) ^ (i >> 3)) as u8).collect();
    let mut buf = Vec::new();
    for (k, chunk) in original.chunks(256).enumerate() {
        buf.extend(tagged(FLASH + 256 * k as u32, RP2040, chunk));
    }
    let (image, families) = convert_from_uf2(&buf).unwrap();
    assert_eq!(image, original);
    assert_eq!(families, HashMap::from([(RP2040, FLASH as usize)]));
}

#[test]
fn untagged_block_advances_address_without_payload() {
    let mut buf = block(0, 0x100, 4, 0, &[1, 2, 3, 4]);
    buf.extend(block(0, 0x108, 4, 0, &[5, 6, 7, 8]));
    let (image, families) = convert_from_uf2(&buf).unwrap();
    assert_eq!(image, vec![0, 0, 0, 0]);
    assert!(families.is_empty());
}

#[test]
fn new_family_starts_new_segment() {
    let mut buf = tagged(FLASH, RP2040, &[1, 2, 3, 4]);
    buf.extend(tagged(0x0800_0000, 0x5775_5a57, &[5, 6]));
    buf.extend(tagged(0x0800_0002, 0x5775_5a57, &[7, 8]));
    let (image, families) = convert_from_uf2(&buf).unwrap();
    assert_eq!(image, vec![1, 2, 3, 4, 5, 6, 7, 8]);
    assert_eq!(
        families,
        HashMap::from([(RP2040, FLASH as usize), (0x5775_5a57, 0x0800_0000)])
    );
}

#[test]
fn family_keeps_lowest_address() {
    let mut buf = tagged(0x2000, 1, &[1, 2, 3, 4]);
    buf.extend(tagged(0x1000, 2, &[5, 6, 7, 8]));
    buf.extend(tagged(0x1000, 1, &[9, 9, 9, 9]));
    buf.extend(tagged(0x1004, 1, &[8, 8, 8, 8]));
    let (image, families) = convert_from_uf2(&buf).unwrap();
    assert_eq!(image, vec![1, 2, 3, 4, 5, 6, 7, 8, 9, 9, 9, 9, 8, 8, 8, 8]);
    assert_eq!(families, HashMap::from([(1, 0x1000), (2, 0x1000)]));
}

#[test]
fn decoding_twice_gives_identical_results() {
    let mut buf = tagged(FLASH, RP2040, &[1, 2, 3, 4]);
    buf.extend(tagged(FLASH + 12, RP2040, &[5, 6, 7, 8]));
    assert_eq!(convert_from_uf2(&buf), convert_from_uf2(&buf));
    let mut bad = buf.clone();
    bad.extend(tagged(FLASH + 13, RP2040, &[1]));
    assert_eq!(convert_from_uf2(&bad), convert_from_uf2(&bad));
}

#[test]
fn reads_little_endian_words() {
    let buf = [0x00u8, 0x55, 0x46, 0x32, 0x0A, 0xFF];
    assert_eq!(read_u32_le(&buf, 1), 0x0A32_4655);
    assert_eq!(read_u32_le(&buf, 2), 0xFF0A_3246);
}

#[test]
fn decoder_fed_block_by_block() {
    let mut buf = tagged(FLASH, RP2040, &[1, 2, 3, 4]);
    buf.extend(tagged(FLASH + 8, RP2040, &[5, 6, 7, 8]));
    let mut d = Decoder::new();
    assert_eq!(d.feed_block(&buf, 0, 0), Ok(()));
    assert_eq!(d.feed_block(&buf, 512, 1), Ok(()));
    let (image, families) = d.finish();
    assert_eq!(image, vec![1, 2, 3, 4, 0, 0, 0, 0, 5, 6, 7, 8]);
    assert_eq!(families, HashMap::from([(RP2040, FLASH as usize)]));
}
