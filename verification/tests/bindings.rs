use guest_abi::bindings::{
    buffer_alloc_size, decode_new_request, decode_request_options, encode_consume_result,
    encode_future_response, encode_poll_results, encode_stream_handle, encode_stream_read,
    encode_stream_write_result, fields_alloc_size, poll_alloc_size, realloc_args,
    string_alloc_size, write_words,
};
use guest_abi::codec::read_u32_array;
use guest_abi::region::Region;
use guest_abi::types::{AbiError, HttpError, Method, Scheme, StreamStatus};

fn words_at(region: &Region, ptr: u32, n: u32) -> Vec<u32> {
    (0..n).map(|i| region.read_u32(ptr + 4 * i).unwrap()).collect()
}

#[test]
fn realloc_convention_is_fresh_block_align_four() {
    assert_eq!(realloc_args(10), (0, 0, 4, 10));
    assert_eq!(realloc_args(0), (0, 0, 4, 0));
}

#[test]
fn alloc_sizes_are_exact() {
    assert_eq!(string_alloc_size(&"abc".to_string()).unwrap(), 3);
    assert_eq!(string_alloc_size(&"é".to_string()).unwrap(), 2);
    assert_eq!(buffer_alloc_size(&vec![1u8, 2, 3, 4]).unwrap(), 4);
    let two = vec![
        ("a".to_string(), "b".to_string()),
        ("c".to_string(), "d".to_string()),
    ];
    assert_eq!(fields_alloc_size(&two).unwrap(), 32);
    assert_eq!(poll_alloc_size(&vec![true, false, true]).unwrap(), 12);
}

#[test]
fn request_options_present_only_when_flag_is_one() {
    assert_eq!(decode_request_options(0, 1, 5, 1, 6, 1, 7), None);
    assert_eq!(decode_request_options(2, 1, 5, 1, 6, 1, 7), None);
    let opts = decode_request_options(1, 1, 5, 0, 6, 2, 7).unwrap();
    assert_eq!(opts.connect_timeout_ms, Some(5));
    assert_eq!(opts.first_byte_timeout_ms, None);
    assert_eq!(opts.between_bytes_timeout_ms, None);
    let all = decode_request_options(1, 1, 1, 1, 2, 1, 3).unwrap();
    assert_eq!(all.connect_timeout_ms, Some(1));
    assert_eq!(all.first_byte_timeout_ms, Some(2));
    assert_eq!(all.between_bytes_timeout_ms, Some(3));
}

#[test]
fn new_request_decodes_all_parts() {
    let mut region = Region::new(vec![0u8; 64]);
    region.write(0, b"/index").unwrap();
    region.write(8, b"example.com").unwrap();
    region.write(24, b"ws").unwrap();
    let parts = decode_new_request(
        &region,
        2, 0, 0, // method: POST, no inline string read
        1, 0, 6, // path present at 0, length 6
        1, 9, 24, 2, // scheme present, tag 9 reads "ws"
        1, 8, 11, // authority present at 8, length 11
        77,
    )
    .unwrap();
    assert_eq!(parts.method, Method::Post);
    assert_eq!(parts.path, Some("/index".to_string()));
    assert_eq!(parts.scheme, Scheme::Other("ws".to_string()));
    assert_eq!(parts.authority, Some("example.com".to_string()));
    assert_eq!(parts.headers, 77);
}

#[test]
fn new_request_absent_flags_and_default_scheme() {
    let region = Region::new(vec![0u8; 8]);
    let parts = decode_new_request(
        &region,
        0, 0, 0, // method GET
        0, 9999, 5, // path absent: pointer never read
        0, 3, 9999, 5, // scheme absent: defaults to HTTPS
        0, 9999, 5, // authority absent
        0,
    )
    .unwrap();
    assert_eq!(parts.method, Method::Get);
    assert_eq!(parts.path, None);
    assert_eq!(parts.scheme, Scheme::Https);
    assert_eq!(parts.authority, None);
}

#[test]
fn new_request_bad_path_read_is_fatal() {
    let region = Region::new(vec![0u8; 8]);
    let got = decode_new_request(&region, 0, 0, 0, 1, 4, 10, 0, 0, 0, 0, 0, 0, 0, 0);
    assert_eq!(got.unwrap_err(), AbiError::BufferTooSmall);
}

#[test]
fn timeout_error_encodes_tag_one_with_message() {
    let mut region = Region::new(vec![0u8; 64]);
    let msg = "connect timed out";
    let outcome = Some(Err(HttpError::TimeoutError(msg.to_string())));
    let msg_ptr = 24;
    encode_future_response(&mut region, &outcome, 0, msg_ptr).unwrap();
    let len = msg.len() as u32;
    assert_eq!(words_at(&region, 0, 5), vec![1, 1, 1, msg_ptr, len]);
    let written = region.read(msg_ptr, len).unwrap();
    assert_eq!(written, msg.as_bytes());
}

#[test]
fn absent_response_encodes_all_zero() {
    let mut region = Region::new(vec![0u8; 20]);
    encode_future_response(&mut region, &None, 0, 0).unwrap();
    assert_eq!(words_at(&region, 0, 5), vec![0, 0, 0, 0, 0]);
}

#[test]
fn ok_response_encodes_value_without_allocation() {
    let mut region = Region::new(vec![0u8; 20]);
    encode_future_response(&mut region, &Some(Ok(42)), 0, 0).unwrap();
    assert_eq!(words_at(&region, 0, 5), vec![1, 0, 42, 0, 0]);
}

#[test]
fn each_error_kind_has_its_fixed_discriminant() {
    let cases = [
        (HttpError::InvalidUrl("u".to_string()), 0),
        (HttpError::TimeoutError("t".to_string()), 1),
        (HttpError::ProtocolError("p".to_string()), 2),
        (HttpError::UnexpectedError("x".to_string()), 3),
    ];
    for (err, tag) in cases {
        let mut region = Region::new(vec![0u8; 40]);
        encode_future_response(&mut region, &Some(Err(err)), 0, 32).unwrap();
        assert_eq!(words_at(&region, 0, 5), vec![1, 1, tag, 32, 1]);
    }
}

#[test]
fn consume_result_writes_pair() {
    let mut region = Region::new(vec![0u8; 8]);
    encode_consume_result(&mut region, &Some(5), 0).unwrap();
    assert_eq!(words_at(&region, 0, 2), vec![0, 5]);
    encode_consume_result(&mut region, &None, 0).unwrap();
    assert_eq!(words_at(&region, 0, 2), vec![0, 0]);
}

#[test]
fn request_write_result_writes_pair() {
    let mut region = Region::new(vec![0u8; 16]);
    encode_stream_handle(&mut region, 9, 8).unwrap();
    assert_eq!(words_at(&region, 8, 2), vec![0, 9]);
}

#[test]
fn stream_read_encodes_body_and_tuple() {
    let mut region = Region::new(vec![0u8; 64]);
    let body = vec![10u8, 20, 30, 40];
    encode_stream_read(&mut region, &body, StreamStatus::Ended, 32, 0).unwrap();
    assert_eq!(words_at(&region, 0, 4), vec![0, 32, 4, 1]);
    assert_eq!(region.read(32, 4).unwrap(), body);
}

#[test]
fn stream_read_open_status_is_zero() {
    let mut region = Region::new(vec![0u8; 32]);
    encode_stream_read(&mut region, &Vec::new(), StreamStatus::Open, 24, 0).unwrap();
    assert_eq!(words_at(&region, 0, 4), vec![0, 24, 0, 0]);
}

#[test]
fn stream_write_result_tuple_layout() {
    let mut region = Region::new(vec![0u8; 20]);
    encode_stream_write_result(&mut region, 4, StreamStatus::Open, 0).unwrap();
    assert_eq!(words_at(&region, 0, 5), vec![0, 0, 4, 0, 0]);
    encode_stream_write_result(&mut region, 7, StreamStatus::Ended, 0).unwrap();
    assert_eq!(words_at(&region, 0, 5), vec![0, 0, 7, 0, 1]);
}

#[test]
fn stream_write_result_too_large_is_size_overflow() {
    let mut region = Region::new(vec![0u8; 20]);
    let got = encode_stream_write_result(
        &mut region,
        u32::MAX as u64 + 1,
        StreamStatus::Open,
        0,
    );
    assert_eq!(got, Err(AbiError::SizeOverflow));
}

#[test]
fn pollable_identifiers_decode_in_order() {
    let mut region = Region::new(vec![0u8; 32]);
    write_words(&mut region, 0, &vec![7, 3, 7]).unwrap();
    assert_eq!(read_u32_array(&region, 0, 3).unwrap(), vec![7, 3, 7]);
    assert_eq!(read_u32_array(&region, 0, 0).unwrap(), Vec::<u32>::new());
    assert_eq!(read_u32_array(&region, 24, 3), Err(AbiError::BufferTooSmall));
}

#[test]
fn poll_results_encode_word_per_flag() {
    let mut region = Region::new(vec![0u8; 64]);
    let results = vec![true, false, true];
    encode_poll_results(&mut region, &results, 32, 12).unwrap();
    assert_eq!(words_at(&region, 12, 2), vec![32, 3]);
    // One little-endian word per flag, in input order.
    assert_eq!(words_at(&region, 32, 3), vec![1, 0, 1]);
    assert_eq!(
        region.read(32, 12).unwrap(),
        vec![1, 0, 0, 0, 0, 0, 0, 0, 1, 0, 0, 0]
    );
}

#[test]
fn poll_results_empty_writes_only_the_pair() {
    let mut region = Region::new(vec![0u8; 16]);
    encode_poll_results(&mut region, &Vec::new(), 8, 0).unwrap();
    assert_eq!(words_at(&region, 0, 2), vec![8, 0]);
}
