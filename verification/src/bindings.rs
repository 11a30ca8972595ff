//! Per-operation marshaling of the binding table.
//!
//! One function per step that a host operation needs: decoding its flat
//! integer arguments into semantic values, sizing the guest allocations its
//! result needs, and encoding that result into guest memory at the
//! caller-supplied output pointer. Each operation is independent; any state
//! lives with the host capability surface, not here.

use crate::codec::{
    option_string_decode, opt_view, read_option_string, decode_method, decode_scheme,
    fixed_method,
};
use crate::region::{string_decode, Region};
use crate::types::{AbiError, HttpError, Method, RequestOptions, RequestParts, Scheme, StreamStatus};
use crate::wire::{fits, le_words, lemma_le_words_len, lemma_splice_adjacent, splice, u32_array_to_u8};
use vstd::prelude::*;
use vstd::string::StrSliceExecFns;
use vstd::utf8::encode_utf8;

verus! {

/// The argument tuple of the guest allocator's calling convention for a
/// fresh block of `size` bytes: old pointer 0 and old size 0 (never a
/// realloc in place), alignment 4, and the requested size.
pub fn realloc_args(size: u32) -> (r: (u32, u32, u32, u32))
    ensures
        r == (0u32, 0u32, 4u32, size),
{
    (0, 0, 4, size)
}

/// The UTF-8 byte length of a string as a 32-bit allocation size, or the
/// overflow condition when it does not fit the wire format.
pub fn string_alloc_size(s: &String) -> (r: Result<u32, AbiError>)
    ensures
        encode_utf8(s@).len() <= u32::MAX ==> r == Ok::<u32, AbiError>(
            encode_utf8(s@).len() as u32,
        ),
        encode_utf8(s@).len() > u32::MAX ==> r == Err::<u32, AbiError>(AbiError::SizeOverflow),
{
    let n = s.as_str().as_bytes_vec().len();
    if n as u64 <= u32::MAX as u64 {
        Ok(n as u32)
    } else {
        Err(AbiError::SizeOverflow)
    }
}

/// The 32-bit allocation size of a byte buffer handed back to the guest.
pub fn buffer_alloc_size(bytes: &Vec<u8>) -> (r: Result<u32, AbiError>)
    ensures
        bytes@.len() <= u32::MAX ==> r == Ok::<u32, AbiError>(bytes@.len() as u32),
        bytes@.len() > u32::MAX ==> r == Err::<u32, AbiError>(AbiError::SizeOverflow),
{
    let n = bytes.len();
    if n as u64 <= u32::MAX as u64 {
        Ok(n as u32)
    } else {
        Err(AbiError::SizeOverflow)
    }
}

/// The allocation size of a header stride array: 16 bytes per record.
pub fn fields_alloc_size(entries: &Vec<(String, String)>) -> (r: Result<u32, AbiError>)
    ensures
        16 * entries@.len() <= u32::MAX ==> r == Ok::<u32, AbiError>((16 * entries@.len()) as u32),
        16 * entries@.len() > u32::MAX ==> r == Err::<u32, AbiError>(AbiError::SizeOverflow),
{
    let n = entries.len();
    if n as u64 <= (u32::MAX as u64) / 16 {
        Ok((16 * n as u64) as u32)
    } else {
        Err(AbiError::SizeOverflow)
    }
}

/// The allocation size of a poll-result array: one 4-byte word per flag.
pub fn poll_alloc_size(results: &Vec<bool>) -> (r: Result<u32, AbiError>)
    ensures
        4 * results@.len() <= u32::MAX ==> r == Ok::<u32, AbiError>((4 * results@.len()) as u32),
        4 * results@.len() > u32::MAX ==> r == Err::<u32, AbiError>(AbiError::SizeOverflow),
{
    let n = results.len();
    if n as u64 <= (u32::MAX as u64) / 4 {
        Ok((4 * n as u64) as u32)
    } else {
        Err(AbiError::SizeOverflow)
    }
}

/// Writes a result tuple of 32-bit words little-endian at `ptr`.
pub fn write_words(region: &mut Region, ptr: u32, vals: &Vec<u32>) -> (r: Result<(), AbiError>)
    ensures
        final(region)@.len() == old(region)@.len(),
        fits(old(region)@.len() as int, ptr as int, 4 * vals@.len() as int) ==> r is Ok
            && final(region)@ == splice(old(region)@, ptr as int, le_words(vals@)),
        !fits(old(region)@.len() as int, ptr as int, 4 * vals@.len() as int) ==> r == Err::<
            (),
            AbiError,
        >(AbiError::BufferTooSmall) && final(region)@ == old(region)@,
{
    let bytes = u32_array_to_u8(vals.as_slice());
    proof {
        lemma_le_words_len(vals@);
    }
    region.write(ptr, bytes.as_slice())
}

/// Decodes the option flags of an outgoing-handler call: options are present
/// only when their flag word is exactly 1, and each timeout only when both
/// the options flag and its own flag are.
pub fn decode_request_options(
    has_options: i32,
    has_timeout: i32,
    timeout_ms: u32,
    has_first_byte_timeout: i32,
    first_byte_timeout_ms: u32,
    has_between_bytes_timeout: i32,
    between_bytes_timeout_ms: u32,
) -> (r: Option<RequestOptions>)
    ensures
        has_options != 1 ==> r is None,
        has_options == 1 ==> (r matches Some(o) && o.connect_timeout_ms == (if has_timeout == 1 {
            Some(timeout_ms)
        } else {
            None::<u32>
        }) && o.first_byte_timeout_ms == (if has_first_byte_timeout == 1 {
            Some(first_byte_timeout_ms)
        } else {
            None::<u32>
        }) && o.between_bytes_timeout_ms == (if has_between_bytes_timeout == 1 {
            Some(between_bytes_timeout_ms)
        } else {
            None::<u32>
        })),
{
    if has_options == 1 {
        Some(
            RequestOptions {
                connect_timeout_ms: if has_timeout == 1 {
                    Some(timeout_ms)
                } else {
                    None
                },
                first_byte_timeout_ms: if has_first_byte_timeout == 1 {
                    Some(first_byte_timeout_ms)
                } else {
                    None
                },
                between_bytes_timeout_ms: if has_between_bytes_timeout == 1 {
                    Some(between_bytes_timeout_ms)
                } else {
                    None
                },
            },
        )
    } else {
        None
    }
}

/// Decodes the fourteen-integer argument tuple of a new-outgoing-request
/// call: optional path and authority strings, the scheme (HTTPS when marked
/// absent), the method, and the headers handle. The first fatal condition,
/// in that order, aborts the decode.
pub fn decode_new_request(
    region: &Region,
    method_tag: i32,
    method_ptr: u32,
    method_len: u32,
    path_is_some: i32,
    path_ptr: u32,
    path_len: u32,
    scheme_is_some: i32,
    scheme_tag: i32,
    scheme_ptr: u32,
    scheme_len: u32,
    authority_is_some: i32,
    authority_ptr: u32,
    authority_len: u32,
    headers: u32,
) -> (r: Result<RequestParts, AbiError>)
    ensures
        ({
            let m = region@;
            let path_r = option_string_decode(m, path_is_some as int, path_ptr as int, path_len as int);
            let auth_r = option_string_decode(
                m,
                authority_is_some as int,
                authority_ptr as int,
                authority_len as int,
            );
            let scheme_reads = scheme_is_some == 1 && !(0 <= scheme_tag <= 1);
            let scheme_r = string_decode(m, scheme_ptr as int, scheme_len as int);
            let method_reads = !(0 <= method_tag <= 8);
            let method_r = string_decode(m, method_ptr as int, method_len as int);
            &&& (r is Ok <==> path_r is Ok && auth_r is Ok && (scheme_reads ==> scheme_r is Ok) && (
            method_reads ==> method_r is Ok))
            &&& path_r matches Err(e) ==> r == Err::<RequestParts, AbiError>(e)
            &&& auth_r matches Err(e) ==> (path_r is Ok ==> r == Err::<RequestParts, AbiError>(e))
            &&& scheme_r matches Err(e) ==> (path_r is Ok && auth_r is Ok && scheme_reads ==> r
                == Err::<RequestParts, AbiError>(e))
            &&& method_r matches Err(e) ==> (path_r is Ok && auth_r is Ok && (scheme_reads
                ==> scheme_r is Ok) && method_reads ==> r == Err::<RequestParts, AbiError>(e))
            &&& r matches Ok(parts) ==> {
                &&& parts.headers == headers
                &&& path_r == Ok::<Option<Seq<char>>, AbiError>(opt_view(parts.path))
                &&& auth_r == Ok::<Option<Seq<char>>, AbiError>(opt_view(parts.authority))
                &&& scheme_is_some != 1 ==> parts.scheme == Scheme::Https
                &&& scheme_is_some == 1 && scheme_tag == 0 ==> parts.scheme == Scheme::Http
                &&& scheme_is_some == 1 && scheme_tag == 1 ==> parts.scheme == Scheme::Https
                &&& scheme_reads ==> (parts.scheme matches Scheme::Other(w) && scheme_r == Ok::<
                    Seq<char>,
                    AbiError,
                >(w@))
                &&& 0 <= method_tag <= 8 ==> parts.method == fixed_method(method_tag as int)
                &&& method_reads ==> (parts.method matches Method::Other(v) && method_r == Ok::<
                    Seq<char>,
                    AbiError,
                >(v@))
            }
        }),
{
    let path = match read_option_string(region, path_is_some, path_ptr, path_len) {
        Ok(p) => p,
        Err(e) => {
            return Err(e);
        },
    };
    let authority = match read_option_string(
        region,
        authority_is_some,
        authority_ptr,
        authority_len,
    ) {
        Ok(a) => a,
        Err(e) => {
            return Err(e);
        },
    };
    let scheme = match decode_scheme(region, scheme_is_some, scheme_tag, scheme_ptr, scheme_len) {
        Ok(s) => s,
        Err(e) => {
            return Err(e);
        },
    };
    let method = match decode_method(region, method_tag, method_ptr, method_len) {
        Ok(m) => m,
        Err(e) => {
            return Err(e);
        },
    };
    Ok(RequestParts { method, path, scheme, authority, headers })
}

/// Whether a future-incoming-response outcome carries a capability-surface
/// error.
pub open spec fn response_is_err(outcome: Option<Result<u32, HttpError>>) -> bool {
    match outcome {
        Some(Err(_)) => true,
        _ => false,
    }
}

/// The error message bytes a future-incoming-response outcome needs
/// allocated in guest memory: the encoded message of an error outcome,
/// nothing otherwise.
pub open spec fn response_msg(outcome: Option<Result<u32, HttpError>>) -> Seq<u8> {
    match outcome {
        Some(Err(e)) => encode_utf8(e.message_spec()),
        _ => Seq::empty(),
    }
}

/// The five words a future-incoming-response outcome encodes to:
/// `[is_some, is_error, ok_value_or_error_tag, message_ptr, message_len]`.
pub open spec fn response_words(outcome: Option<Result<u32, HttpError>>, msg_ptr: u32) -> Seq<
    u32,
> {
    match outcome {
        None => seq![0u32, 0u32, 0u32, 0u32, 0u32],
        Some(Ok(v)) => seq![1u32, 0u32, v, 0u32, 0u32],
        Some(Err(e)) => seq![
            1u32,
            1u32,
            e.tag_spec(),
            msg_ptr,
            encode_utf8(e.message_spec()).len() as u32,
        ],
    }
}

/// Encodes a future-incoming-response result: an absent or successful
/// outcome is five words at `out_ptr`; an error outcome first writes its
/// message bytes at `msg_ptr` (a fresh guest allocation) and then the five
/// words carrying the error's fixed tag and the message's address and
/// length.
pub fn encode_future_response(
    region: &mut Region,
    outcome: &Option<Result<u32, HttpError>>,
    out_ptr: u32,
    msg_ptr: u32,
) -> (r: Result<(), AbiError>)
    ensures
        final(region)@.len() == old(region)@.len(),
        ({
            let mem_len = old(region)@.len() as int;
            let msg = response_msg(*outcome);
            let words = response_words(*outcome, msg_ptr);
            let is_err = response_is_err(*outcome);
            let after_msg = if is_err {
                splice(old(region)@, msg_ptr as int, msg)
            } else {
                old(region)@
            };
            &&& msg.len() > u32::MAX ==> r == Err::<(), AbiError>(AbiError::SizeOverflow) && final(region)@ == old(region)@
            &&& msg.len() <= u32::MAX && is_err && !fits(mem_len, msg_ptr as int, msg.len() as int)
                ==> r == Err::<(), AbiError>(AbiError::BufferTooSmall) && final(region)@ == old(region)@
            &&& msg.len() <= u32::MAX && (is_err ==> fits(mem_len, msg_ptr as int, msg.len() as int))
                && !fits(mem_len, out_ptr as int, 20) ==> r == Err::<(), AbiError>(
                AbiError::BufferTooSmall,
            ) && final(region)@ == after_msg
            &&& msg.len() <= u32::MAX && (is_err ==> fits(mem_len, msg_ptr as int, msg.len() as int))
                && fits(mem_len, out_ptr as int, 20) ==> r is Ok && final(region)@ == splice(
                after_msg,
                out_ptr as int,
                le_words(words),
            )
        }),
{
    let mut words: Vec<u32> = Vec::new();
    match outcome {
        None => {
            words.push(0);
            words.push(0);
            words.push(0);
            words.push(0);
            words.push(0);
        },
        Some(Ok(v)) => {
            words.push(1);
            words.push(0);
            words.push(*v);
            words.push(0);
            words.push(0);
        },
        Some(Err(e)) => {
            let bytes = e.message().as_str().as_bytes_vec();
            if bytes.len() as u64 > u32::MAX as u64 {
                return Err(AbiError::SizeOverflow);
            }
            let len = bytes.len() as u32;
            if let Err(_) = region.write(msg_ptr, bytes.as_slice()) {
                return Err(AbiError::BufferTooSmall);
            }
            words.push(1);
            words.push(1);
            words.push(e.tag());
            words.push(msg_ptr);
            words.push(len);
        },
    }
    proof {
        assert(words@ =~= response_words(*outcome, msg_ptr));
    }
    write_words(region, out_ptr, &words)
}

/// The stream handle an incoming-response-consume outcome encodes: the
/// handle itself when present, 0 otherwise.
pub open spec fn handle_or_zero(o: Option<u32>) -> u32 {
    match o {
        Some(v) => v,
        None => 0,
    }
}

/// Encodes an incoming-response-consume result: the pair
/// `[0, stream_handle]` at `out_ptr`, with handle 0 standing in for an
/// absent stream.
pub fn encode_consume_result(region: &mut Region, stream: &Option<u32>, out_ptr: u32) -> (r:
    Result<(), AbiError>)
    ensures
        final(region)@.len() == old(region)@.len(),
        fits(old(region)@.len() as int, out_ptr as int, 8) ==> r is Ok && final(region)@ == splice(
            old(region)@,
            out_ptr as int,
            le_words(seq![0u32, handle_or_zero(*stream)]),
        ),
        !fits(old(region)@.len() as int, out_ptr as int, 8) ==> r == Err::<(), AbiError>(
            AbiError::BufferTooSmall,
        ) && final(region)@ == old(region)@,
{
    let value = match stream {
        Some(v) => *v,
        None => 0,
    };
    let mut words: Vec<u32> = Vec::new();
    words.push(0);
    words.push(value);
    proof {
        assert(words@ =~= seq![0u32, handle_or_zero(*stream)]);
    }
    write_words(region, out_ptr, &words)
}

/// Encodes an outgoing-request-write result: the pair `[0, stream_handle]`
/// at `out_ptr`.
pub fn encode_stream_handle(region: &mut Region, stream: u32, out_ptr: u32) -> (r: Result<
    (),
    AbiError,
>)
    ensures
        final(region)@.len() == old(region)@.len(),
        fits(old(region)@.len() as int, out_ptr as int, 8) ==> r is Ok && final(region)@ == splice(
            old(region)@,
            out_ptr as int,
            le_words(seq![0u32, stream]),
        ),
        !fits(old(region)@.len() as int, out_ptr as int, 8) ==> r == Err::<(), AbiError>(
            AbiError::BufferTooSmall,
        ) && final(region)@ == old(region)@,
{
    let mut words: Vec<u32> = Vec::new();
    words.push(0);
    words.push(stream);
    proof {
        assert(words@ =~= seq![0u32, stream]);
    }
    write_words(region, out_ptr, &words)
}

/// Encodes a stream-read result: the bytes the stream yielded at a freshly
/// allocated `body_ptr` (fresh per read, never a reused buffer), then the
/// tuple `[0, body_ptr, body_len, status]` at `out_ptr`.
pub fn encode_stream_read(
    region: &mut Region,
    bytes: &Vec<u8>,
    status: StreamStatus,
    body_ptr: u32,
    out_ptr: u32,
) -> (r: Result<(), AbiError>)
    ensures
        final(region)@.len() == old(region)@.len(),
        ({
            let mem_len = old(region)@.len() as int;
            let n = bytes@.len();
            let words = seq![0u32, body_ptr, n as u32, status.code_spec()];
            let after_body = splice(old(region)@, body_ptr as int, bytes@);
            &&& n > u32::MAX ==> r == Err::<(), AbiError>(AbiError::SizeOverflow) && final(region)@
                == old(region)@
            &&& n <= u32::MAX && !fits(mem_len, body_ptr as int, n as int) ==> r == Err::<
                (),
                AbiError,
            >(AbiError::BufferTooSmall) && final(region)@ == old(region)@
            &&& n <= u32::MAX && fits(mem_len, body_ptr as int, n as int) && !fits(
                mem_len,
                out_ptr as int,
                16,
            ) ==> r == Err::<(), AbiError>(AbiError::BufferTooSmall) && final(region)@ == after_body
            &&& n <= u32::MAX && fits(mem_len, body_ptr as int, n as int) && fits(
                mem_len,
                out_ptr as int,
                16,
            ) ==> r is Ok && final(region)@ == splice(after_body, out_ptr as int, le_words(words))
        }),
{
    if bytes.len() as u64 > u32::MAX as u64 {
        return Err(AbiError::SizeOverflow);
    }
    let len = bytes.len() as u32;
    if let Err(_) = region.write(body_ptr, bytes.as_slice()) {
        return Err(AbiError::BufferTooSmall);
    }
    let mut words: Vec<u32> = Vec::new();
    words.push(0);
    words.push(body_ptr);
    words.push(len);
    words.push(status.code());
    proof {
        assert(words@ =~= seq![0u32, body_ptr, bytes@.len() as u32, status.code_spec()]);
    }
    write_words(region, out_ptr, &words)
}

/// Encodes a stream-write result: the tuple
/// `[0, 0, written_len, 0, status]` at `out_ptr`.
pub fn encode_stream_write_result(
    region: &mut Region,
    written: u64,
    status: StreamStatus,
    out_ptr: u32,
) -> (r: Result<(), AbiError>)
    ensures
        final(region)@.len() == old(region)@.len(),
        ({
            let mem_len = old(region)@.len() as int;
            let words = seq![0u32, 0u32, written as u32, 0u32, status.code_spec()];
            &&& written > u32::MAX ==> r == Err::<(), AbiError>(AbiError::SizeOverflow) && final(region)@ == old(region)@
            &&& written <= u32::MAX && !fits(mem_len, out_ptr as int, 20) ==> r == Err::<
                (),
                AbiError,
            >(AbiError::BufferTooSmall) && final(region)@ == old(region)@
            &&& written <= u32::MAX && fits(mem_len, out_ptr as int, 20) ==> r is Ok && final(region)@ == splice(old(region)@, out_ptr as int, le_words(words))
        }),
{
    if written > u32::MAX as u64 {
        return Err(AbiError::SizeOverflow);
    }
    let mut words: Vec<u32> = Vec::new();
    words.push(0);
    words.push(0);
    words.push(written as u32);
    words.push(0);
    words.push(status.code());
    proof {
        assert(words@ =~= seq![0u32, 0u32, written as u32, 0u32, status.code_spec()]);
    }
    write_words(region, out_ptr, &words)
}

/// The 4-byte image of one poll completion flag: the word 1 for a completed
/// pollable and 0 otherwise, laid down little-endian like every other
/// integer of the protocol.
pub open spec fn poll_flag_bytes(b: bool) -> Seq<u8> {
    seq![if b { 1u8 } else { 0u8 }, 0u8, 0u8, 0u8]
}

/// The byte image of a poll-result array, one word per flag in input order.
pub open spec fn poll_bytes(results: Seq<bool>) -> Seq<u8>
    decreases results.len(),
{
    if results.len() == 0 {
        Seq::empty()
    } else {
        poll_bytes(results.drop_last()) + poll_flag_bytes(results.last())
    }
}

/// A poll-result array's byte image is four bytes per flag.
pub proof fn lemma_poll_bytes_len(results: Seq<bool>)
    ensures
        poll_bytes(results).len() == 4 * results.len(),
    decreases results.len(),
{
    if results.len() > 0 {
        lemma_poll_bytes_len(results.drop_last());
    }
}

/// Encodes a poll-oneoff result: one word per completion flag at the
/// freshly allocated `result_ptr`, in the order of the polled identifiers,
/// then the pair `[result_ptr, count]` at `out_ptr`.
pub fn encode_poll_results(
    region: &mut Region,
    results: &Vec<bool>,
    result_ptr: u32,
    out_ptr: u32,
) -> (r: Result<(), AbiError>)
    requires
        old(region).wf(),
    ensures
        final(region).wf(),
        final(region)@.len() == old(region)@.len(),
        ({
            let mem_len = old(region)@.len() as int;
            let n = results@.len();
            let after_flags = splice(old(region)@, result_ptr as int, poll_bytes(results@));
            &&& n > u32::MAX ==> r == Err::<(), AbiError>(AbiError::SizeOverflow) && final(region)@
                == old(region)@
            &&& n <= u32::MAX && !fits(mem_len, result_ptr as int, 4 * n as int) ==> r == Err::<
                (),
                AbiError,
            >(AbiError::BufferTooSmall) && final(region)@ == old(region)@
            &&& n <= u32::MAX && fits(mem_len, result_ptr as int, 4 * n as int) && !fits(
                mem_len,
                out_ptr as int,
                8,
            ) ==> r == Err::<(), AbiError>(AbiError::BufferTooSmall) && final(region)@ == after_flags
            &&& n <= u32::MAX && fits(mem_len, result_ptr as int, 4 * n as int) && fits(
                mem_len,
                out_ptr as int,
                8,
            ) ==> r is Ok && final(region)@ == splice(
                after_flags,
                out_ptr as int,
                le_words(seq![result_ptr, n as u32]),
            )
        }),
{
    let n = results.len();
    if n as u64 > u32::MAX as u64 {
        return Err(AbiError::SizeOverflow);
    }
    if (result_ptr as u64) + 4 * (n as u64) > region.size() as u64 {
        proof {
            lemma_poll_bytes_len(results@);
        }
        return Err(AbiError::BufferTooSmall);
    }
    proof {
        lemma_poll_bytes_len(results@);
    }
    let ghost mem0 = region@;
    let mut i: usize = 0;
    while i < n
        invariant
            n == results@.len(),
            0 <= i <= n,
            region.wf(),
            mem0 == old(region)@,
            region@.len() == old(region)@.len(),
            result_ptr as int + 4 * n as int <= region@.len(),
            region@ == splice(mem0, result_ptr as int, poll_bytes(results@.take(i as int))),
        decreases n - i,
    {
        let flag: u8 = if results[i] {
            1
        } else {
            0
        };
        let mut chunk: Vec<u8> = Vec::new();
        chunk.push(flag);
        chunk.push(0);
        chunk.push(0);
        chunk.push(0);
        let p = result_ptr + 4 * (i as u32);
        let ghost taken = results@.take(i as int);
        proof {
            lemma_poll_bytes_len(taken);
            assert(chunk@ =~= poll_flag_bytes(results@[i as int]));
        }
        if let Err(_) = region.write(p, chunk.as_slice()) {
            proof {
                assert(false);
            }
            return Err(AbiError::BufferTooSmall);
        }
        proof {
            lemma_splice_adjacent(mem0, result_ptr as int, poll_bytes(taken), chunk@);
            let t2 = results@.take(i as int + 1);
            assert(t2.drop_last() =~= taken);
            assert(t2.last() == results@[i as int]);
            assert(poll_bytes(taken) + poll_flag_bytes(results@[i as int]) == poll_bytes(t2));
        }
        i = i + 1;
    }
    proof {
        assert(results@.take(n as int) =~= results@);
    }
    let mut words: Vec<u32> = Vec::new();
    words.push(result_ptr);
    words.push(n as u32);
    proof {
        assert(words@ =~= seq![result_ptr, results@.len() as u32]);
    }
    write_words(region, out_ptr, &words)
}

} // verus!
