//! The value codec: the bidirectional mapping between the wire format's
//! compound shapes and host-native semantic values.
//!
//! Shapes: optional values (presence flag plus payload), tagged enums with an
//! open "other" arm read inline from guest memory, arrays of raw 32-bit
//! words, and arrays of fixed 16-byte-stride header records.

use crate::region::{string_decode, Region};
use crate::types::{AbiError, Method, Scheme};
use crate::wire::{
    disjoint, fits, le_words, lemma_le_words_len, lemma_splice_inside, lemma_splice_outside,
    lemma_word_at_le_words, splice, u32_array_to_u8, word_at,
};
use vstd::prelude::*;
use vstd::string::StrSliceExecFns;
use vstd::utf8::encode_utf8;

verus! {

/// An optional string seen at specification level.
pub open spec fn opt_view(o: Option<String>) -> Option<Seq<char>> {
    match o {
        Some(s) => Some(s@),
        None => None,
    }
}

/// An optional-string result seen at specification level.
pub open spec fn opt_string_result_view(r: Result<Option<String>, AbiError>) -> Result<
    Option<Seq<char>>,
    AbiError,
> {
    match r {
        Ok(o) => Ok(opt_view(o)),
        Err(e) => Err(e),
    }
}

/// Decoding an optional string: a presence flag of exactly 1 selects the
/// string at `(at, len)`; any other flag value means absent, never a third
/// state, and then the payload is not read at all.
pub open spec fn option_string_decode(mem: Seq<u8>, is_some: int, at: int, len: int) -> Result<
    Option<Seq<char>>,
    AbiError,
> {
    if is_some != 1 {
        Ok(None)
    } else {
        match string_decode(mem, at, len) {
            Ok(s) => Ok(Some(s)),
            Err(e) => Err(e),
        }
    }
}

/// Reads an optional string: flag exactly 1 means present, anything else
/// absent.
pub fn read_option_string(region: &Region, is_some: i32, ptr: u32, len: u32) -> (r: Result<
    Option<String>,
    AbiError,
>)
    ensures
        opt_string_result_view(r) == option_string_decode(
            region@,
            is_some as int,
            ptr as int,
            len as int,
        ),
{
    if is_some == 1 {
        match region.read_string(ptr, len) {
            Ok(s) => Ok(Some(s)),
            Err(e) => Err(e),
        }
    } else {
        Ok(None)
    }
}

/// How many guest bytes encoding this optional string takes: exactly the
/// UTF-8 byte length of a present string — zero-length strings included, so
/// the reading side never has to special-case a null pointer — and nothing
/// for an absent one.
pub fn option_string_alloc_size(value: &Option<String>) -> (r: Result<u32, AbiError>)
    ensures
        value is None ==> r == Ok::<u32, AbiError>(0),
        value matches Some(s) ==> ({
            let data = encode_utf8(s@);
            &&& data.len() <= u32::MAX ==> r == Ok::<u32, AbiError>(data.len() as u32)
            &&& data.len() > u32::MAX ==> r == Err::<u32, AbiError>(AbiError::SizeOverflow)
        }),
{
    match value {
        None => Ok(0),
        Some(s) => {
            let n = s.as_str().as_bytes_vec().len();
            if n as u64 <= u32::MAX as u64 {
                Ok(n as u32)
            } else {
                Err(AbiError::SizeOverflow)
            }
        },
    }
}

/// Encodes an optional string: an absent value yields presence flag 0 and
/// touches no memory; a present one writes its UTF-8 bytes at `buf_ptr` and
/// yields flag 1 with the pointer/length pair.
pub fn encode_option_string(region: &mut Region, value: &Option<String>, buf_ptr: u32) -> (r:
    Result<(u32, u32, u32), AbiError>)
    ensures
        final(region)@.len() == old(region)@.len(),
        value is None ==> r == Ok::<(u32, u32, u32), AbiError>((0, 0, 0)) && final(region)@ == old(
            region,
        )@,
        value matches Some(s) ==> ({
            let data = encode_utf8(s@);
            let in_bounds = fits(old(region)@.len() as int, buf_ptr as int, data.len() as int);
            &&& data.len() > u32::MAX ==> r == Err::<(u32, u32, u32), AbiError>(
                AbiError::SizeOverflow,
            ) && final(region)@ == old(region)@
            &&& data.len() <= u32::MAX && in_bounds ==> r == Ok::<(u32, u32, u32), AbiError>(
                (1, buf_ptr, data.len() as u32),
            ) && final(region)@ == splice(old(region)@, buf_ptr as int, data)
            &&& data.len() <= u32::MAX && !in_bounds ==> r == Err::<(u32, u32, u32), AbiError>(
                AbiError::BufferTooSmall,
            ) && final(region)@ == old(region)@
        }),
{
    match value {
        None => Ok((0, 0, 0)),
        Some(s) => {
            let bytes = s.as_str().as_bytes_vec();
            if bytes.len() as u64 > u32::MAX as u64 {
                return Err(AbiError::SizeOverflow);
            }
            let len = bytes.len() as u32;
            match region.write(buf_ptr, bytes.as_slice()) {
                Ok(_) => Ok((1, buf_ptr, len)),
                Err(e) => Err(e),
            }
        },
    }
}

/// The fixed method variant for a tag in the closed range of the protocol.
pub open spec fn fixed_method(tag: int) -> Method
    recommends
        0 <= tag <= 8,
{
    if tag == 0 {
        Method::Get
    } else if tag == 1 {
        Method::Head
    } else if tag == 2 {
        Method::Post
    } else if tag == 3 {
        Method::Put
    } else if tag == 4 {
        Method::Delete
    } else if tag == 5 {
        Method::Connect
    } else if tag == 6 {
        Method::Options
    } else if tag == 7 {
        Method::Trace
    } else {
        Method::Patch
    }
}

/// Decodes a method tag: tags 0 through 8 map one-to-one onto the fixed
/// variants in protocol order, and any tag outside that range reads an inline
/// string from guest memory as the open "other" arm.
pub fn decode_method(region: &Region, tag: i32, ptr: u32, len: u32) -> (r: Result<
    Method,
    AbiError,
>)
    ensures
        0 <= tag <= 8 ==> r == Ok::<Method, AbiError>(fixed_method(tag as int)),
        !(0 <= tag <= 8) ==> match string_decode(region@, ptr as int, len as int) {
            Ok(s) => r matches Ok(m) && m matches Method::Other(v) && v@ == s,
            Err(e) => r == Err::<Method, AbiError>(e),
        },
{
    match tag {
        0 => Ok(Method::Get),
        1 => Ok(Method::Head),
        2 => Ok(Method::Post),
        3 => Ok(Method::Put),
        4 => Ok(Method::Delete),
        5 => Ok(Method::Connect),
        6 => Ok(Method::Options),
        7 => Ok(Method::Trace),
        8 => Ok(Method::Patch),
        _ => match region.read_string(ptr, len) {
            Ok(s) => Ok(Method::Other(s)),
            Err(e) => Err(e),
        },
    }
}

/// Decodes a scheme: an absent scheme defaults to HTTPS; tag 0 is HTTP, tag
/// 1 is HTTPS, and any other tag reads an inline string as the open arm.
pub fn decode_scheme(region: &Region, is_some: i32, tag: i32, ptr: u32, len: u32) -> (r: Result<
    Scheme,
    AbiError,
>)
    ensures
        is_some != 1 ==> r == Ok::<Scheme, AbiError>(Scheme::Https),
        is_some == 1 && tag == 0 ==> r == Ok::<Scheme, AbiError>(Scheme::Http),
        is_some == 1 && tag == 1 ==> r == Ok::<Scheme, AbiError>(Scheme::Https),
        is_some == 1 && !(0 <= tag <= 1) ==> match string_decode(region@, ptr as int, len as int) {
            Ok(s) => r matches Ok(v) && v matches Scheme::Other(w) && w@ == s,
            Err(e) => r == Err::<Scheme, AbiError>(e),
        },
{
    if is_some == 1 {
        match tag {
            0 => Ok(Scheme::Http),
            1 => Ok(Scheme::Https),
            _ => match region.read_string(ptr, len) {
                Ok(s) => Ok(Scheme::Other(s)),
                Err(e) => Err(e),
            },
        }
    } else {
        Ok(Scheme::Https)
    }
}

/// Reads `count` raw little-endian 32-bit words laid out contiguously at
/// `base_ptr`, as a poll call's pollable-identifier array is.
pub fn read_u32_array(region: &Region, base_ptr: u32, count: u32) -> (r: Result<Vec<u32>, AbiError>)
    requires
        region.wf(),
    ensures
        fits(region@.len() as int, base_ptr as int, 4 * count as int) || count == 0 ==> (r matches
            Ok(v) && v@.len() == count as int && (forall|i: int|
            0 <= i < count as int ==> v@[i] == word_at(region@, base_ptr as int + 4 * i))),
        !(fits(region@.len() as int, base_ptr as int, 4 * count as int) || count == 0) ==> r
            == Err::<Vec<u32>, AbiError>(AbiError::BufferTooSmall),
{
    if count == 0 {
        return Ok(Vec::new());
    }
    if (base_ptr as u64) + 4 * (count as u64) > region.size() as u64 {
        return Err(AbiError::BufferTooSmall);
    }
    let mut out: Vec<u32> = Vec::new();
    let mut i: u32 = 0;
    while i < count
        invariant
            region.wf(),
            0 <= i <= count,
            base_ptr as int + 4 * count as int <= region@.len(),
            out@.len() == i as int,
            forall|k: int| 0 <= k < i as int ==> out@[k] == word_at(region@, base_ptr as int + 4 * k),
        decreases count - i,
    {
        let ptr = base_ptr + i * 4;
        match region.read_u32(ptr) {
            Ok(w) => out.push(w),
            Err(_) => {
                proof {
                    assert(false);
                }
            },
        }
        i = i + 1;
    }
    Ok(out)
}

/// A header array seen at specification level: name/value pairs as character
/// sequences.
pub open spec fn pairs_view(v: Seq<(String, String)>) -> Seq<(Seq<char>, Seq<char>)> {
    Seq::new(v.len(), |i: int| (v[i].0@, v[i].1@))
}

/// A header-array result seen at specification level.
pub open spec fn fields_result_view(r: Result<Vec<(String, String)>, AbiError>) -> Result<
    Seq<(Seq<char>, Seq<char>)>,
    AbiError,
> {
    match r {
        Ok(v) => Ok(pairs_view(v@)),
        Err(e) => Err(e),
    }
}

/// Decoding one 16-byte header record at `p`: four words
/// `(name_ptr, name_len, value_ptr, value_len)`, then the two strings they
/// point at.
pub open spec fn stride_decode(mem: Seq<u8>, p: int) -> Result<(Seq<char>, Seq<char>), AbiError> {
    if !fits(mem.len() as int, p, 16) {
        Err(AbiError::BufferTooSmall)
    } else {
        match string_decode(mem, word_at(mem, p) as int, word_at(mem, p + 4) as int) {
            Err(e) => Err(e),
            Ok(name) => match string_decode(
                mem,
                word_at(mem, p + 8) as int,
                word_at(mem, p + 12) as int,
            ) {
                Err(e) => Err(e),
                Ok(value) => Ok((name, value)),
            },
        }
    }
}

/// Decoding a header array: `n` records at a fixed 16-byte stride from
/// `base`, in guest order, stopping at the first fatal condition.
pub open spec fn fields_decode(mem: Seq<u8>, base: int, n: int) -> Result<
    Seq<(Seq<char>, Seq<char>)>,
    AbiError,
>
    decreases n,
{
    if n <= 0 {
        Ok(Seq::empty())
    } else {
        match fields_decode(mem, base, n - 1) {
            Err(e) => Err(e),
            Ok(pre) => match stride_decode(mem, base + 16 * (n - 1)) {
                Err(e) => Err(e),
                Ok(p) => Ok(pre.push(p)),
            },
        }
    }
}

/// A failed prefix decides the whole array's decode.
proof fn lemma_fields_decode_err_mono(mem: Seq<u8>, base: int, k: int, n: int)
    requires
        0 <= k <= n,
        fields_decode(mem, base, k) is Err,
    ensures
        fields_decode(mem, base, n) == fields_decode(mem, base, k),
    decreases n,
{
    if n > k {
        lemma_fields_decode_err_mono(mem, base, k, n - 1);
    }
}

/// Reads a header array of `count` 16-byte-stride records at `base_ptr`:
/// each record's four words, then the name and value strings they point at,
/// in guest order.
pub fn read_fields(region: &Region, base_ptr: u32, count: u32) -> (r: Result<
    Vec<(String, String)>,
    AbiError,
>)
    requires
        region.wf(),
    ensures
        fields_result_view(r) == fields_decode(region@, base_ptr as int, count as int),
{
    let mut out: Vec<(String, String)> = Vec::new();
    let mut i: u32 = 0;
    proof {
        assert(pairs_view(out@) =~= Seq::<(Seq<char>, Seq<char>)>::empty());
    }
    while i < count
        invariant
            region.wf(),
            0 <= i <= count,
            fields_decode(region@, base_ptr as int, i as int) == Ok::<_, AbiError>(pairs_view(out@)),
        decreases count - i,
    {
        let p64 = (base_ptr as u64) + 16 * (i as u64);
        if p64 + 16 > region.size() as u64 {
            proof {
                assert(stride_decode(region@, base_ptr as int + 16 * (i as int)) == Err::<
                    (Seq<char>, Seq<char>),
                    AbiError,
                >(AbiError::BufferTooSmall));
                lemma_fields_decode_err_mono(
                    region@,
                    base_ptr as int,
                    i as int + 1,
                    count as int,
                );
            }
            return Err(AbiError::BufferTooSmall);
        }
        let p = p64 as u32;
        let name_ptr = match region.read_u32(p) {
            Ok(w) => w,
            Err(e) => {
                proof {
                    assert(false);
                }
                return Err(e);
            },
        };
        let name_len = match region.read_u32(p + 4) {
            Ok(w) => w,
            Err(e) => {
                proof {
                    assert(false);
                }
                return Err(e);
            },
        };
        let value_ptr = match region.read_u32(p + 8) {
            Ok(w) => w,
            Err(e) => {
                proof {
                    assert(false);
                }
                return Err(e);
            },
        };
        let value_len = match region.read_u32(p + 12) {
            Ok(w) => w,
            Err(e) => {
                proof {
                    assert(false);
                }
                return Err(e);
            },
        };
        let name = match region.read_string(name_ptr, name_len) {
            Ok(s) => s,
            Err(e) => {
                proof {
                    lemma_fields_decode_err_mono(
                        region@,
                        base_ptr as int,
                        i as int + 1,
                        count as int,
                    );
                }
                return Err(e);
            },
        };
        let value = match region.read_string(value_ptr, value_len) {
            Ok(s) => s,
            Err(e) => {
                proof {
                    lemma_fields_decode_err_mono(
                        region@,
                        base_ptr as int,
                        i as int + 1,
                        count as int,
                    );
                }
                return Err(e);
            },
        };
        proof {
            let m = region@;
            let b = base_ptr as int;
            let ii = i as int;
            assert(p as int == b + 16 * ii);
            assert(stride_decode(m, b + 16 * ii) == Ok::<(Seq<char>, Seq<char>), AbiError>(
                (name@, value@),
            ));
        }
        let ghost prev = out@;
        out.push((name, value));
        proof {
            assert(pairs_view(out@) =~= pairs_view(prev).push((name@, value@)));
        }
        i = i + 1;
    }
    Ok(out)
}

/// UTF-8 bytes of header record `i`'s name.
pub open spec fn name_bytes_of(entries: Seq<(String, String)>, i: int) -> Seq<u8> {
    encode_utf8(entries[i].0@)
}

/// UTF-8 bytes of header record `i`'s value.
pub open spec fn value_bytes_of(entries: Seq<(String, String)>, i: int) -> Seq<u8> {
    encode_utf8(entries[i].1@)
}

/// Guest address of header record `i`'s name buffer.
pub open spec fn name_ptr_of(bufs: Seq<(u32, u32)>, i: int) -> int {
    bufs[i].0 as int
}

/// Guest address of header record `i`'s value buffer.
pub open spec fn value_ptr_of(bufs: Seq<(u32, u32)>, i: int) -> int {
    bufs[i].1 as int
}

/// The four words of header record `i`: name pointer, name byte length,
/// value pointer, value byte length.
pub open spec fn stride_words(
    entries: Seq<(String, String)>,
    bufs: Seq<(u32, u32)>,
    i: int,
) -> Seq<u32> {
    seq![
        bufs[i].0,
        name_bytes_of(entries, i).len() as u32,
        bufs[i].1,
        value_bytes_of(entries, i).len() as u32,
    ]
}

/// Guest memory after encoding the first `i` header records: per record, in
/// write order, the name bytes at its name buffer, the value bytes at its
/// value buffer, then the record's four words at its slot in the stride
/// array at `tuple_ptr`.
pub open spec fn fields_spliced(
    mem: Seq<u8>,
    entries: Seq<(String, String)>,
    bufs: Seq<(u32, u32)>,
    tuple_ptr: u32,
    i: int,
) -> Seq<u8>
    decreases i,
{
    if i <= 0 {
        mem
    } else {
        let prev = fields_spliced(mem, entries, bufs, tuple_ptr, i - 1);
        let with_name = splice(prev, name_ptr_of(bufs, i - 1), name_bytes_of(entries, i - 1));
        let with_value = splice(
            with_name,
            value_ptr_of(bufs, i - 1),
            value_bytes_of(entries, i - 1),
        );
        splice(
            with_value,
            tuple_ptr as int + 16 * (i - 1),
            le_words(stride_words(entries, bufs, i - 1)),
        )
    }
}

/// True when record `i`'s name and value buffers both lie inside the region.
pub open spec fn record_fits(
    mem_len: int,
    entries: Seq<(String, String)>,
    bufs: Seq<(u32, u32)>,
    i: int,
) -> bool {
    &&& fits(mem_len, name_ptr_of(bufs, i), name_bytes_of(entries, i).len() as int)
    &&& fits(mem_len, value_ptr_of(bufs, i), value_bytes_of(entries, i).len() as int)
}

/// True when every target range of a header-array encode lies inside the
/// region: the stride array, the out-pointer pair, and each name and value
/// buffer.
pub open spec fn fields_encode_fits(
    mem_len: int,
    entries: Seq<(String, String)>,
    bufs: Seq<(u32, u32)>,
    tuple_ptr: u32,
    out_ptr: u32,
) -> bool {
    &&& entries.len() > 0 ==> fits(mem_len, tuple_ptr as int, 16 * entries.len() as int)
    &&& fits(mem_len, out_ptr as int, 8)
    &&& forall|i: int| 0 <= i < entries.len() ==> #[trigger] record_fits(mem_len, entries, bufs, i)
}

/// True when record `i`'s UTF-8 name and value byte lengths both fit the
/// 32-bit wire format.
pub open spec fn record_len_ok(entries: Seq<(String, String)>, i: int) -> bool {
    &&& name_bytes_of(entries, i).len() <= u32::MAX
    &&& value_bytes_of(entries, i).len() <= u32::MAX
}

/// True when byte `k` lies inside record `i`'s name buffer.
pub open spec fn touches_name(
    entries: Seq<(String, String)>,
    bufs: Seq<(u32, u32)>,
    i: int,
    k: int,
) -> bool {
    name_ptr_of(bufs, i) <= k < name_ptr_of(bufs, i) + name_bytes_of(entries, i).len()
}

/// True when byte `k` lies inside record `i`'s value buffer.
pub open spec fn touches_value(
    entries: Seq<(String, String)>,
    bufs: Seq<(u32, u32)>,
    i: int,
    k: int,
) -> bool {
    value_ptr_of(bufs, i) <= k < value_ptr_of(bufs, i) + value_bytes_of(entries, i).len()
}

/// True when byte `k` lies in a target range of a header-array encode of
/// `n` records: the stride array or one of the record buffers. No encode,
/// not even a failed one, changes a byte outside these ranges.
pub open spec fn fields_touches(
    entries: Seq<(String, String)>,
    bufs: Seq<(u32, u32)>,
    tuple_ptr: u32,
    n: int,
    k: int,
) -> bool {
    ||| tuple_ptr as int <= k < tuple_ptr as int + 16 * n
    ||| exists|i: int| 0 <= i < n && #[trigger] touches_name(entries, bufs, i, k)
    ||| exists|i: int| 0 <= i < n && #[trigger] touches_value(entries, bufs, i, k)
}

/// True when the buffers of a header-array encode are pairwise disjoint, as
/// they are when each comes from a fresh guest allocation: the stride array
/// apart from every string buffer, and all string buffers apart from each
/// other.
pub open spec fn fields_layout_disjoint(
    entries: Seq<(String, String)>,
    bufs: Seq<(u32, u32)>,
    tuple_ptr: u32,
    n: int,
) -> bool {
    &&& forall|i: int|
        0 <= i < n ==> {
            let np = #[trigger] name_ptr_of(bufs, i);
            let vp = value_ptr_of(bufs, i);
            let nl = name_bytes_of(entries, i).len() as int;
            let vl = value_bytes_of(entries, i).len() as int;
            &&& disjoint(tuple_ptr as int, 16 * n, np, nl)
            &&& disjoint(tuple_ptr as int, 16 * n, vp, vl)
            &&& disjoint(np, nl, vp, vl)
        }
    &&& forall|i: int, j: int|
        0 <= i < n && 0 <= j < n && i != j ==> {
            let npi = #[trigger] name_ptr_of(bufs, i);
            let vpi = value_ptr_of(bufs, i);
            let npj = #[trigger] name_ptr_of(bufs, j);
            let vpj = value_ptr_of(bufs, j);
            let nli = name_bytes_of(entries, i).len() as int;
            let vli = value_bytes_of(entries, i).len() as int;
            let nlj = name_bytes_of(entries, j).len() as int;
            let vlj = value_bytes_of(entries, j).len() as int;
            &&& disjoint(npi, nli, npj, nlj)
            &&& disjoint(npi, nli, vpj, vlj)
            &&& disjoint(vpi, vli, vpj, vlj)
        }
}

/// Encoding a header array leaves the region the same length.
pub proof fn lemma_fields_spliced_len(
    mem: Seq<u8>,
    entries: Seq<(String, String)>,
    bufs: Seq<(u32, u32)>,
    tuple_ptr: u32,
    i: int,
)
    ensures
        fields_spliced(mem, entries, bufs, tuple_ptr, i).len() == mem.len(),
    decreases i,
{
    if i > 0 {
        lemma_fields_spliced_len(mem, entries, bufs, tuple_ptr, i - 1);
    }
}

/// Encoding any first `i` of `n` header records, as a failed encode may
/// have, changes no byte outside the target ranges.
pub proof fn lemma_fields_spliced_frame(
    mem: Seq<u8>,
    entries: Seq<(String, String)>,
    bufs: Seq<(u32, u32)>,
    tuple_ptr: u32,
    i: int,
    n: int,
    k: int,
)
    requires
        0 <= i <= n,
        0 <= k < mem.len(),
        !fields_touches(entries, bufs, tuple_ptr, n, k),
    ensures
        fields_spliced(mem, entries, bufs, tuple_ptr, i).len() == mem.len(),
        fields_spliced(mem, entries, bufs, tuple_ptr, i)[k] == mem[k],
    decreases i,
{
    if i > 0 {
        lemma_fields_spliced_frame(mem, entries, bufs, tuple_ptr, i - 1, n, k);
        lemma_le_words_len(stride_words(entries, bufs, i - 1));
        assert(!touches_name(entries, bufs, i - 1, k));
        assert(!touches_value(entries, bufs, i - 1, k));
        assert(16 * (i - 1) + 16 <= 16 * n);
        assert(!(tuple_ptr as int + 16 * (i - 1) <= k < tuple_ptr as int + 16 * (i - 1) + 16));
    }
}

/// After encoding `n` header records into pairwise-disjoint buffers, record
/// `k`'s stride slot holds its four words and its buffers hold its name and
/// value bytes.
pub proof fn lemma_fields_spliced_contents(
    mem: Seq<u8>,
    entries: Seq<(String, String)>,
    bufs: Seq<(u32, u32)>,
    tuple_ptr: u32,
    n: int,
    k: int,
)
    requires
        0 <= k < n <= entries.len(),
        bufs.len() == entries.len(),
        fits(mem.len() as int, tuple_ptr as int, 16 * n),
        forall|i: int|
            0 <= i < n ==> #[trigger] record_fits(mem.len() as int, entries, bufs, i),
        fields_layout_disjoint(entries, bufs, tuple_ptr, n),
    ensures
        ({
            let m2 = fields_spliced(mem, entries, bufs, tuple_ptr, n);
            let np = name_ptr_of(bufs, k);
            let vp = value_ptr_of(bufs, k);
            let nl = name_bytes_of(entries, k).len() as int;
            let vl = value_bytes_of(entries, k).len() as int;
            &&& m2.subrange(tuple_ptr as int + 16 * k, tuple_ptr as int + 16 * k + 16)
                == le_words(stride_words(entries, bufs, k))
            &&& m2.subrange(np, np + nl) == name_bytes_of(entries, k)
            &&& m2.subrange(vp, vp + vl) == value_bytes_of(entries, k)
        }),
    decreases n,
{
    let prev = fields_spliced(mem, entries, bufs, tuple_ptr, n - 1);
    let name = name_bytes_of(entries, n - 1);
    let value = value_bytes_of(entries, n - 1);
    let with_name = splice(prev, name_ptr_of(bufs, n - 1), name);
    let with_value = splice(with_name, value_ptr_of(bufs, n - 1), value);
    let words = le_words(stride_words(entries, bufs, n - 1));
    let m2 = fields_spliced(mem, entries, bufs, tuple_ptr, n);
    lemma_fields_spliced_len(mem, entries, bufs, tuple_ptr, n - 1);
    lemma_le_words_len(stride_words(entries, bufs, n - 1));
    assert(record_fits(mem.len() as int, entries, bufs, n - 1));
    assert(record_fits(mem.len() as int, entries, bufs, k));
    let np = name_ptr_of(bufs, k);
    let vp = value_ptr_of(bufs, k);
    let nl = name_bytes_of(entries, k).len() as int;
    let vl = value_bytes_of(entries, k).len() as int;
    let sk = tuple_ptr as int + 16 * k;
    if k == n - 1 {
        // The record's own three writes: the last lays the stride words
        // down, and neither later write overlaps an earlier one.
        lemma_splice_inside(with_value, sk, words);
        lemma_splice_inside(with_name, vp, value);
        lemma_splice_outside(with_value, sk, words, vp, vp + vl);
        lemma_splice_inside(prev, np, name);
        lemma_splice_outside(with_name, vp, value, np, np + nl);
        lemma_splice_outside(with_value, sk, words, np, np + nl);
    } else {
        lemma_fields_spliced_contents(mem, entries, bufs, tuple_ptr, n - 1, k);
        // Record n-1's three writes all lie apart from record k's ranges, so
        // they preserve what the first n-1 stages laid down for k.
        let npl = name_ptr_of(bufs, n - 1);
        let vpl = value_ptr_of(bufs, n - 1);
        let sl = tuple_ptr as int + 16 * (n - 1);
        lemma_splice_outside(prev, npl, name, sk, sk + 16);
        lemma_splice_outside(with_name, vpl, value, sk, sk + 16);
        lemma_splice_outside(with_value, sl, words, sk, sk + 16);
        lemma_splice_outside(prev, npl, name, np, np + nl);
        lemma_splice_outside(with_name, vpl, value, np, np + nl);
        lemma_splice_outside(with_value, sl, words, np, np + nl);
        lemma_splice_outside(prev, npl, name, vp, vp + vl);
        lemma_splice_outside(with_name, vpl, value, vp, vp + vl);
        lemma_splice_outside(with_value, sl, words, vp, vp + vl);
    }
}

/// Encodes a header array: for each record, its name bytes, its value
/// bytes, and its four stride words, in guest order; then the
/// `(array_ptr, count)` pair at `out_ptr`. Succeeds exactly when every
/// target range lies inside the region; a failed encode leaves whatever it
/// had already laid down orphaned, as an aborted call does.
pub fn encode_fields(
    region: &mut Region,
    entries: &Vec<(String, String)>,
    tuple_ptr: u32,
    bufs: &Vec<(u32, u32)>,
    out_ptr: u32,
) -> (r: Result<(), AbiError>)
    requires
        old(region).wf(),
        bufs@.len() == entries@.len(),
        16 * entries@.len() <= u32::MAX,
        forall|i: int| 0 <= i < entries@.len() ==> #[trigger] record_len_ok(entries@, i),
    ensures
        final(region).wf(),
        final(region)@.len() == old(region)@.len(),
        r is Ok <==> fields_encode_fits(
            old(region)@.len() as int,
            entries@,
            bufs@,
            tuple_ptr,
            out_ptr,
        ),
        r is Ok ==> final(region)@ == splice(
            fields_spliced(old(region)@, entries@, bufs@, tuple_ptr, entries@.len() as int),
            out_ptr as int,
            le_words(seq![tuple_ptr, entries@.len() as u32]),
        ),
        r matches Err(e) ==> e == AbiError::BufferTooSmall,
        r is Err ==> forall|k: int|
            0 <= k < old(region)@.len() && !fields_touches(
                entries@,
                bufs@,
                tuple_ptr,
                entries@.len() as int,
                k,
            ) ==> final(region)@[k] == old(region)@[k],
{
    let ghost mem_len = old(region)@.len() as int;
    let n = entries.len();
    let mut i: usize = 0;
    while i < n
        invariant
            n == entries@.len(),
            bufs@.len() == n as int,
            16 * n as int <= u32::MAX,
            forall|j: int| 0 <= j < n as int ==> #[trigger] record_len_ok(entries@, j),
            0 <= i <= n,
            region.wf(),
            mem_len == old(region)@.len() as int,
            region@.len() == old(region)@.len(),
            region@ == fields_spliced(old(region)@, entries@, bufs@, tuple_ptr, i as int),
            forall|j: int| 0 <= j < i as int ==> #[trigger] record_fits(mem_len, entries@, bufs@, j),
            i > 0 ==> fits(mem_len, tuple_ptr as int + 16 * (i as int - 1), 16),
        decreases n - i,
    {
        let pair = &entries[i];
        let bufp = bufs[i];
        let name_bytes = pair.0.as_str().as_bytes_vec();
        let value_bytes = pair.1.as_str().as_bytes_vec();
        proof {
            assert(record_len_ok(entries@, i as int));
            assert(name_bytes@ == name_bytes_of(entries@, i as int));
            assert(value_bytes@ == value_bytes_of(entries@, i as int));
        }
        if let Err(_) = region.write(bufp.0, name_bytes.as_slice()) {
            proof {
                assert(!record_fits(mem_len, entries@, bufs@, i as int));
            assert forall|k: int|
                0 <= k < old(region)@.len() && !fields_touches(
                    entries@,
                    bufs@,
                    tuple_ptr,
                    entries@.len() as int,
                    k,
                ) implies region@[k] == old(region)@[k] by {
                lemma_fields_spliced_frame(
                    old(region)@,
                    entries@,
                    bufs@,
                    tuple_ptr,
                    i as int,
                    n as int,
                    k,
                );
                }
            }
            return Err(AbiError::BufferTooSmall);
        }
        if let Err(_) = region.write(bufp.1, value_bytes.as_slice()) {
            proof {
                assert(!record_fits(mem_len, entries@, bufs@, i as int));
            assert forall|k: int|
                0 <= k < old(region)@.len() && !fields_touches(
                    entries@,
                    bufs@,
                    tuple_ptr,
                    entries@.len() as int,
                    k,
                ) implies region@[k] == old(region)@[k] by {
                lemma_fields_spliced_frame(
                    old(region)@,
                    entries@,
                    bufs@,
                    tuple_ptr,
                    i as int,
                    n as int,
                    k,
                );
                    assert(!touches_name(entries@, bufs@, i as int, k));
                }
            }
            return Err(AbiError::BufferTooSmall);
        }
        let name_len = name_bytes.len() as u32;
        let value_len = value_bytes.len() as u32;
        let mut words: Vec<u32> = Vec::new();
        words.push(bufp.0);
        words.push(name_len);
        words.push(bufp.1);
        words.push(value_len);
        proof {
            assert(words@ =~= stride_words(entries@, bufs@, i as int));
        }
        let word_bytes = u32_array_to_u8(words.as_slice());
        proof {
            lemma_le_words_len(words@);
            assert(word_bytes@.len() == 16);
        }
        let p64 = (tuple_ptr as u64) + 16 * (i as u64);
        if p64 + 16 > u32::MAX as u64 {
            proof {
                assert(region@.len() <= u32::MAX);
                assert(16 * (i as int) + 16 <= 16 * (n as int));
                assert(!fits(mem_len, tuple_ptr as int, 16 * entries@.len() as int));
            assert forall|k: int|
                0 <= k < old(region)@.len() && !fields_touches(
                    entries@,
                    bufs@,
                    tuple_ptr,
                    entries@.len() as int,
                    k,
                ) implies region@[k] == old(region)@[k] by {
                lemma_fields_spliced_frame(
                    old(region)@,
                    entries@,
                    bufs@,
                    tuple_ptr,
                    i as int,
                    n as int,
                    k,
                );
                    assert(!touches_name(entries@, bufs@, i as int, k));
                    assert(!touches_value(entries@, bufs@, i as int, k));
                }
            }
            return Err(AbiError::BufferTooSmall);
        }
        let p = p64 as u32;
        if let Err(_) = region.write(p, word_bytes.as_slice()) {
            proof {
                assert(p as int == tuple_ptr as int + 16 * (i as int));
                assert(16 * (i as int) + 16 <= 16 * (n as int));
                assert(!fits(mem_len, tuple_ptr as int, 16 * entries@.len() as int));
            assert forall|k: int|
                0 <= k < old(region)@.len() && !fields_touches(
                    entries@,
                    bufs@,
                    tuple_ptr,
                    entries@.len() as int,
                    k,
                ) implies region@[k] == old(region)@[k] by {
                lemma_fields_spliced_frame(
                    old(region)@,
                    entries@,
                    bufs@,
                    tuple_ptr,
                    i as int,
                    n as int,
                    k,
                );
                    assert(!touches_name(entries@, bufs@, i as int, k));
                    assert(!touches_value(entries@, bufs@, i as int, k));
                }
            }
            return Err(AbiError::BufferTooSmall);
        }
        proof {
            assert(p as int == tuple_ptr as int + 16 * (i as int));
            assert(region@ =~= fields_spliced(
                old(region)@,
                entries@,
                bufs@,
                tuple_ptr,
                i as int + 1,
            ));
            assert(record_fits(mem_len, entries@, bufs@, i as int));
        }
        i = i + 1;
    }
    let count = n as u32;
    let mut out_words: Vec<u32> = Vec::new();
    out_words.push(tuple_ptr);
    out_words.push(count);
    let out_bytes = u32_array_to_u8(out_words.as_slice());
    proof {
        assert(out_words@ =~= seq![tuple_ptr, entries@.len() as u32]);
        lemma_le_words_len(out_words@);
        assert(out_bytes@.len() == 8);
    }
    if let Err(_) = region.write(out_ptr, out_bytes.as_slice()) {
        proof {
            assert forall|k: int|
                0 <= k < old(region)@.len() && !fields_touches(
                    entries@,
                    bufs@,
                    tuple_ptr,
                    entries@.len() as int,
                    k,
                ) implies region@[k] == old(region)@[k] by {
                lemma_fields_spliced_frame(
                    old(region)@,
                    entries@,
                    bufs@,
                    tuple_ptr,
                    n as int,
                    n as int,
                    k,
                );
                }
        }
        return Err(AbiError::BufferTooSmall);
    }
    proof {
        if n > 0 {
            assert(fits(mem_len, tuple_ptr as int + 16 * (n as int - 1), 16));
            assert(tuple_ptr as int + 16 * entries@.len() as int == tuple_ptr as int + 16 * (
            n as int - 1) + 16);
            assert(fits(mem_len, tuple_ptr as int, 16 * entries@.len() as int));
        }
    }
    Ok(())
}

/// The first `k` records of an encoded header array decode to the first `k`
/// pairs.
proof fn lemma_fields_decode_prefix(
    mem: Seq<u8>,
    entries: Seq<(String, String)>,
    bufs: Seq<(u32, u32)>,
    tuple_ptr: u32,
    k: int,
)
    requires
        bufs.len() == entries.len(),
        entries.len() > 0 ==> fits(mem.len() as int, tuple_ptr as int, 16 * entries.len() as int),
        forall|i: int| 0 <= i < entries.len() ==> #[trigger] record_len_ok(entries, i),
        forall|i: int|
            0 <= i < entries.len() ==> #[trigger] record_fits(mem.len() as int, entries, bufs, i),
        fields_layout_disjoint(entries, bufs, tuple_ptr, entries.len() as int),
        0 <= k <= entries.len(),
    ensures
        fields_decode(
            fields_spliced(mem, entries, bufs, tuple_ptr, entries.len() as int),
            tuple_ptr as int,
            k,
        ) == Ok::<Seq<(Seq<char>, Seq<char>)>, AbiError>(pairs_view(entries.take(k))),
    decreases k,
{
    let n = entries.len() as int;
    let m2 = fields_spliced(mem, entries, bufs, tuple_ptr, n);
    lemma_fields_spliced_len(mem, entries, bufs, tuple_ptr, n);
    if k == 0 {
        assert(pairs_view(entries.take(0)) =~= Seq::<(Seq<char>, Seq<char>)>::empty());
    } else {
        lemma_fields_decode_prefix(mem, entries, bufs, tuple_ptr, k - 1);
        lemma_fields_spliced_contents(mem, entries, bufs, tuple_ptr, n, k - 1);
        assert(record_len_ok(entries, k - 1));
        assert(record_fits(mem.len() as int, entries, bufs, k - 1));
        let p = tuple_ptr as int + 16 * (k - 1);
        let words = stride_words(entries, bufs, k - 1);
        lemma_le_words_len(words);
        assert(fits(m2.len() as int, p, 16));
        lemma_word_at_le_words(m2, p, words, 0);
        lemma_word_at_le_words(m2, p, words, 1);
        lemma_word_at_le_words(m2, p, words, 2);
        lemma_word_at_le_words(m2, p, words, 3);
        let name = name_bytes_of(entries, k - 1);
        let value = value_bytes_of(entries, k - 1);
        let np = name_ptr_of(bufs, k - 1);
        let vp = value_ptr_of(bufs, k - 1);
        assert(word_at(m2, p) == bufs[k - 1].0);
        assert(word_at(m2, p + 4) == name.len() as u32);
        assert(word_at(m2, p + 8) == bufs[k - 1].1);
        assert(word_at(m2, p + 12) == value.len() as u32);
        vstd::utf8::encode_utf8_valid_utf8(entries[k - 1].0@);
        vstd::utf8::encode_utf8_decode_utf8(entries[k - 1].0@);
        vstd::utf8::encode_utf8_valid_utf8(entries[k - 1].1@);
        vstd::utf8::encode_utf8_decode_utf8(entries[k - 1].1@);
        assert(m2.subrange(np, np + name.len() as int) == name);
        assert(m2.subrange(vp, vp + value.len() as int) == value);
        assert(string_decode(m2, np, name.len() as int) == Ok::<Seq<char>, AbiError>(
            entries[k - 1].0@,
        ));
        assert(string_decode(m2, vp, value.len() as int) == Ok::<Seq<char>, AbiError>(
            entries[k - 1].1@,
        ));
        assert(stride_decode(m2, p) == Ok::<(Seq<char>, Seq<char>), AbiError>(
            (entries[k - 1].0@, entries[k - 1].1@),
        ));
        assert(pairs_view(entries.take(k)) =~= pairs_view(entries.take(k - 1)).push(
            (entries[k - 1].0@, entries[k - 1].1@),
        ));
    }
}

/// Round trip of the header-array codec: a region that holds `n` encoded
/// records in pairwise-disjoint, in-bounds buffers decodes back to the
/// original `n` name/value pairs in their original order.
pub proof fn lemma_fields_round_trip(
    mem: Seq<u8>,
    entries: Seq<(String, String)>,
    bufs: Seq<(u32, u32)>,
    tuple_ptr: u32,
)
    requires
        bufs.len() == entries.len(),
        entries.len() > 0 ==> fits(mem.len() as int, tuple_ptr as int, 16 * entries.len() as int),
        forall|i: int| 0 <= i < entries.len() ==> #[trigger] record_len_ok(entries, i),
        forall|i: int|
            0 <= i < entries.len() ==> #[trigger] record_fits(mem.len() as int, entries, bufs, i),
        fields_layout_disjoint(entries, bufs, tuple_ptr, entries.len() as int),
    ensures
        fields_decode(
            fields_spliced(mem, entries, bufs, tuple_ptr, entries.len() as int),
            tuple_ptr as int,
            entries.len() as int,
        ) == Ok::<Seq<(Seq<char>, Seq<char>)>, AbiError>(pairs_view(entries)),
{
    lemma_fields_decode_prefix(mem, entries, bufs, tuple_ptr, entries.len() as int);
    assert(entries.take(entries.len() as int) =~= entries);
}

/// Round trip of the optional-string codec, present case: a region holding
/// a string's UTF-8 bytes, under presence flag 1 and the exact byte length,
/// decodes back to the same characters. The absent case is pinned by
/// [`encode_option_string`] itself: an absent value yields flag 0, and flag
/// values other than 1 decode to absent by definition.
pub proof fn lemma_option_string_round_trip(mem: Seq<u8>, s: Seq<char>, ptr: u32)
    requires
        encode_utf8(s).len() <= u32::MAX,
        fits(mem.len() as int, ptr as int, encode_utf8(s).len() as int),
    ensures
        option_string_decode(
            splice(mem, ptr as int, encode_utf8(s)),
            1,
            ptr as int,
            encode_utf8(s).len() as int,
        ) == Ok::<Option<Seq<char>>, AbiError>(Some(s)),
{
    let data = encode_utf8(s);
    let m2 = splice(mem, ptr as int, data);
    lemma_splice_inside(mem, ptr as int, data);
    vstd::utf8::encode_utf8_valid_utf8(s);
    vstd::utf8::encode_utf8_decode_utf8(s);
    assert(m2.subrange(ptr as int, ptr as int + data.len() as int) == data);
    assert(string_decode(m2, ptr as int, data.len() as int) == Ok::<Seq<char>, AbiError>(s));
}

} // verus!
