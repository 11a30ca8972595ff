use guest_abi::region::Region;
use guest_abi::types::AbiError;
use guest_abi::wire::u32_array_to_u8;

fn sample_region() -> Region {
    let bytes: Vec<u8> = (0..16).collect();
    Region::new(bytes)
}

#[test]
fn read_returns_exact_bytes() {
    let region = sample_region();
    let got = region.read(4, 4).unwrap();
    assert_eq!(got, vec![4, 5, 6, 7]);
}

#[test]
fn read_is_idempotent_on_unmodified_memory() {
    let region = sample_region();
    let first = region.read(2, 9).unwrap();
    let second = region.read(2, 9).unwrap();
    assert_eq!(first, second);
}

#[test]
fn read_whole_region() {
    let region = sample_region();
    let got = region.read(0, 16).unwrap();
    assert_eq!(got.len(), 16);
    assert_eq!(got, (0..16).collect::<Vec<u8>>());
}

#[test]
fn read_zero_length_at_end_is_ok() {
    let region = sample_region();
    assert_eq!(region.read(16, 0).unwrap(), Vec::<u8>::new());
}

#[test]
fn read_past_end_fails() {
    let region = sample_region();
    assert_eq!(region.read(12, 8), Err(AbiError::BufferTooSmall));
    assert_eq!(region.read(17, 0), Err(AbiError::BufferTooSmall));
}

#[test]
fn read_with_overflowing_offset_fails() {
    let region = sample_region();
    assert_eq!(region.read(u32::MAX, 2), Err(AbiError::BufferTooSmall));
    assert_eq!(region.read(u32::MAX, u32::MAX), Err(AbiError::BufferTooSmall));
}

#[test]
fn write_replaces_exactly_the_target_range() {
    let mut region = sample_region();
    region.write(2, &[99, 98]).unwrap();
    assert_eq!(
        region.as_bytes(),
        &vec![0, 1, 99, 98, 4, 5, 6, 7, 8, 9, 10, 11, 12, 13, 14, 15]
    );
}

#[test]
fn write_past_end_fails_with_no_partial_write() {
    let mut region = sample_region();
    let before = region.as_bytes().clone();
    assert_eq!(region.write(14, &[1, 2, 3, 4]), Err(AbiError::BufferTooSmall));
    assert_eq!(region.as_bytes(), &before);
    assert_eq!(region.write(u32::MAX, &[1]), Err(AbiError::BufferTooSmall));
    assert_eq!(region.as_bytes(), &before);
}

#[test]
fn read_u32_is_little_endian() {
    let mut region = Region::new(vec![0u8; 8]);
    region.write(0, &[0x78, 0x56, 0x34, 0x12]).unwrap();
    assert_eq!(region.read_u32(0).unwrap(), 0x12345678);
    assert_eq!(region.read_u32(5), Err(AbiError::BufferTooSmall));
}

#[test]
fn read_string_decodes_utf8() {
    let mut region = Region::new(vec![0u8; 16]);
    region.write(3, "hé11o".as_bytes()).unwrap();
    let s = region.read_string(3, "hé11o".len() as u32).unwrap();
    assert_eq!(s, "hé11o");
}

#[test]
fn read_string_rejects_invalid_utf8() {
    let mut region = Region::new(vec![0u8; 8]);
    region.write(0, &[0xff, 0xfe]).unwrap();
    assert_eq!(region.read_string(0, 2), Err(AbiError::Utf8Error));
}

#[test]
fn read_string_out_of_bounds_fails() {
    let region = Region::new(vec![0u8; 8]);
    assert_eq!(region.read_string(6, 4), Err(AbiError::BufferTooSmall));
}

#[test]
fn u32_array_flattens_little_endian() {
    let out = u32_array_to_u8(&[1, 0x01020304]);
    assert_eq!(out, vec![1, 0, 0, 0, 4, 3, 2, 1]);
    assert_eq!(u32_array_to_u8(&[]), Vec::<u8>::new());
}
