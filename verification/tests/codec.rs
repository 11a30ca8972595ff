use guest_abi::codec::{
    decode_method, decode_scheme, encode_fields, encode_option_string, option_string_alloc_size,
    read_fields, read_option_string,
};
use guest_abi::region::Region;
use guest_abi::types::{AbiError, HttpError, Method, Scheme};

#[test]
fn method_tag_two_is_post() {
    let region = Region::new(vec![0u8; 8]);
    assert_eq!(decode_method(&region, 2, 0, 0).unwrap(), Method::Post);
}

#[test]
fn method_fixed_tags_in_protocol_order() {
    let region = Region::new(vec![0u8; 8]);
    let expected = [
        Method::Get,
        Method::Head,
        Method::Post,
        Method::Put,
        Method::Delete,
        Method::Connect,
        Method::Options,
        Method::Trace,
        Method::Patch,
    ];
    for (tag, want) in expected.iter().enumerate() {
        assert_eq!(&decode_method(&region, tag as i32, 0, 0).unwrap(), want);
    }
}

#[test]
fn method_tag_nine_reads_inline_string() {
    let mut region = Region::new(vec![0u8; 16]);
    region.write(4, b"CUSTOM").unwrap();
    assert_eq!(
        decode_method(&region, 9, 4, 6).unwrap(),
        Method::Other("CUSTOM".to_string())
    );
}

#[test]
fn method_negative_tag_reads_inline_string() {
    let mut region = Region::new(vec![0u8; 8]);
    region.write(0, b"QUERY").unwrap();
    assert_eq!(
        decode_method(&region, -1, 0, 5).unwrap(),
        Method::Other("QUERY".to_string())
    );
}

#[test]
fn method_other_out_of_bounds_is_fatal() {
    let region = Region::new(vec![0u8; 8]);
    assert_eq!(decode_method(&region, 20, 6, 4), Err(AbiError::BufferTooSmall));
}

#[test]
fn scheme_absent_defaults_to_https() {
    let region = Region::new(vec![0u8; 8]);
    assert_eq!(decode_scheme(&region, 0, 7, 0, 0).unwrap(), Scheme::Https);
    assert_eq!(decode_scheme(&region, 2, 0, 0, 0).unwrap(), Scheme::Https);
}

#[test]
fn scheme_fixed_and_other_tags() {
    let mut region = Region::new(vec![0u8; 8]);
    region.write(0, b"ftp").unwrap();
    assert_eq!(decode_scheme(&region, 1, 0, 0, 0).unwrap(), Scheme::Http);
    assert_eq!(decode_scheme(&region, 1, 1, 0, 0).unwrap(), Scheme::Https);
    assert_eq!(
        decode_scheme(&region, 1, 5, 0, 3).unwrap(),
        Scheme::Other("ftp".to_string())
    );
}

#[test]
fn option_string_absent_yields_flag_zero() {
    let mut region = Region::new(vec![0u8; 8]);
    let encoded = encode_option_string(&mut region, &None, 4).unwrap();
    assert_eq!(encoded, (0, 0, 0));
    assert_eq!(region.as_bytes(), &vec![0u8; 8]);
    assert_eq!(option_string_alloc_size(&None).unwrap(), 0);
}

#[test]
fn option_string_present_round_trip() {
    let mut region = Region::new(vec![0u8; 32]);
    let value = Some("héllo".to_string());
    let size = option_string_alloc_size(&value).unwrap();
    assert_eq!(size as usize, "héllo".len());
    let (flag, ptr, len) = encode_option_string(&mut region, &value, 8).unwrap();
    assert_eq!((flag, ptr, len), (1, 8, size));
    let decoded = read_option_string(&region, flag as i32, ptr, len).unwrap();
    assert_eq!(decoded, value);
}

#[test]
fn option_string_zero_length_still_encodes() {
    let mut region = Region::new(vec![0u8; 8]);
    let value = Some(String::new());
    assert_eq!(option_string_alloc_size(&value).unwrap(), 0);
    let (flag, ptr, len) = encode_option_string(&mut region, &value, 6).unwrap();
    assert_eq!((flag, ptr, len), (1, 6, 0));
    assert_eq!(
        read_option_string(&region, 1, ptr, len).unwrap(),
        Some(String::new())
    );
}

#[test]
fn option_string_flag_other_than_one_is_absent() {
    let region = Region::new(vec![0u8; 4]);
    // The payload is not read at all, so wild pointers do no harm.
    assert_eq!(read_option_string(&region, 0, 9999, 10).unwrap(), None);
    assert_eq!(read_option_string(&region, 2, 9999, 10).unwrap(), None);
    assert_eq!(read_option_string(&region, -1, 0, 2).unwrap(), None);
}

#[test]
fn error_tags_and_messages() {
    assert_eq!(HttpError::InvalidUrl("a".to_string()).tag(), 0);
    assert_eq!(HttpError::TimeoutError("b".to_string()).tag(), 1);
    assert_eq!(HttpError::ProtocolError("c".to_string()).tag(), 2);
    assert_eq!(HttpError::UnexpectedError("d".to_string()).tag(), 3);
    assert_eq!(HttpError::ProtocolError("oops".to_string()).message(), "oops");
}

fn encode_then_decode(entries: Vec<(String, String)>) {
    let n = entries.len() as u32;
    // Lay the stride array at 0 and give each record two fresh, disjoint
    // buffers beyond it, as a fresh-block allocator would.
    let tuple_ptr: u32 = 0;
    let strings_base = 16 * n + 16;
    let bufs: Vec<(u32, u32)> = (0..n)
        .map(|i| (strings_base + 128 * i, strings_base + 128 * i + 64))
        .collect();
    let out_ptr = 16 * n;
    let size = strings_base + 128 * n + 64;
    let mut region = Region::new(vec![0u8; size as usize]);
    encode_fields(&mut region, &entries, tuple_ptr, &bufs, out_ptr).unwrap();
    assert_eq!(region.read_u32(out_ptr).unwrap(), tuple_ptr);
    assert_eq!(region.read_u32(out_ptr + 4).unwrap(), n);
    let decoded = read_fields(&region, tuple_ptr, n).unwrap();
    assert_eq!(decoded, entries);
}

#[test]
fn fields_round_trip_empty() {
    encode_then_decode(Vec::new());
}

#[test]
fn fields_round_trip_one_pair() {
    encode_then_decode(vec![("content-type".to_string(), "text/html".to_string())]);
}

#[test]
fn fields_round_trip_hundred_pairs_in_order() {
    let entries: Vec<(String, String)> = (0..100)
        .map(|i| (format!("name-{i}"), format!("value-{i}")))
        .collect();
    encode_then_decode(entries);
}

#[test]
fn fields_decode_reports_invalid_utf8() {
    let mut region = Region::new(vec![0u8; 64]);
    // One record at 0: name at 32 of length 2, value at 40 of length 0.
    region.write(0, &[32, 0, 0, 0, 2, 0, 0, 0, 40, 0, 0, 0, 0, 0, 0, 0]).unwrap();
    region.write(32, &[0xc0, 0xc1]).unwrap();
    assert_eq!(read_fields(&region, 0, 1), Err(AbiError::Utf8Error));
}

#[test]
fn fields_decode_out_of_bounds_stride_is_fatal() {
    let region = Region::new(vec![0u8; 24]);
    assert_eq!(read_fields(&region, 16, 1), Err(AbiError::BufferTooSmall));
}

#[test]
fn encode_fields_rejects_out_of_bounds_buffers() {
    let entries = vec![("a".to_string(), "b".to_string())];
    let mut region = Region::new(vec![0u8; 32]);
    // The value buffer lies outside the region.
    let got = encode_fields(&mut region, &entries, 0, &vec![(24, 4000)], 16);
    assert_eq!(got, Err(AbiError::BufferTooSmall));
}
