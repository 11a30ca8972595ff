//! Bounds-checked access to the guest's linear memory region.
//!
//! The region is a flat byte address space addressed by `(offset, length)`
//! pairs of 32-bit integers. Every access must satisfy
//! `offset + length <= region_size`; overflow or excess is a fatal access
//! error, never a silent truncation, and a failed access performs no partial
//! read or write.

use crate::types::AbiError;
use crate::wire::{fits, splice, word_at, word_of};
use vstd::prelude::*;

verus! {

/// A snapshot of the guest's linear memory region for the duration of one
/// call. The execution engine owns the real memory and may resize or relocate
/// it between calls, so no reference outlives the call.
pub struct Region {
    bytes: Vec<u8>,
}

impl View for Region {
    type V = Seq<u8>;

    closed spec fn view(&self) -> Seq<u8> {
        self.bytes@
    }
}

/// The result of reading and UTF-8-validating `len` bytes at `at`: the
/// decoded characters, or the fatal condition the access ends in.
pub open spec fn string_decode(mem: Seq<u8>, at: int, len: int) -> Result<Seq<char>, AbiError> {
    if !fits(mem.len() as int, at, len) {
        Err(AbiError::BufferTooSmall)
    } else if !vstd::utf8::valid_utf8(mem.subrange(at, at + len)) {
        Err(AbiError::Utf8Error)
    } else {
        Ok(vstd::utf8::decode_utf8(mem.subrange(at, at + len)))
    }
}

/// A string result seen at the level the specifications speak: character
/// sequences in place of heap strings.
pub open spec fn string_result_view(r: Result<String, AbiError>) -> Result<Seq<char>, AbiError> {
    match r {
        Ok(s) => Ok(s@),
        Err(e) => Err(e),
    }
}

/// Relies on `core::str::from_utf8`: it accepts exactly the valid UTF-8 byte
/// sequences, and the `str` it yields is backed by the given bytes, so those
/// bytes are the UTF-8 encoding of its characters.
#[verifier::external_body]
fn utf8_to_string(bytes: &Vec<u8>) -> (r: Option<String>)
    ensures
        r is Some <==> vstd::utf8::valid_utf8(bytes@),
        r matches Some(s) ==> vstd::utf8::encode_utf8(s@) == bytes@,
{
    match core::str::from_utf8(bytes.as_slice()) {
        Ok(s) => Some(s.to_string()),
        Err(_) => None,
    }
}

impl Region {
    /// Guest linear memory is a 32-bit address space: a well-formed region
    /// never exceeds `u32::MAX` bytes. `new` establishes this and every
    /// method preserves it.
    pub open spec fn wf(&self) -> bool {
        self@.len() <= u32::MAX
    }

    pub fn new(bytes: Vec<u8>) -> (r: Region)
        requires
            bytes@.len() <= u32::MAX,
        ensures
            r@ == bytes@,
            r.wf(),
    {
        Region { bytes }
    }

    pub fn size(&self) -> (r: usize)
        ensures
            r == self@.len(),
    {
        self.bytes.len()
    }

    /// The whole region, for callers that hand the bytes back to the
    /// execution engine after a call.
    pub fn as_bytes(&self) -> (r: &Vec<u8>)
        ensures
            r@ == self@,
    {
        &self.bytes
    }

    /// Reads exactly `len` bytes starting at `offset`. Fails with
    /// [`AbiError::BufferTooSmall`] when `offset + len` overflows or exceeds
    /// the region size, and returns no partial data. On unmodified memory the
    /// result is pinned to the same byte subrange, so repeated reads return
    /// identical bytes.
    pub fn read(&self, offset: u32, len: u32) -> (r: Result<Vec<u8>, AbiError>)
        ensures
            fits(self@.len() as int, offset as int, len as int) ==> (r matches Ok(b) && b@
                == self@.subrange(offset as int, offset as int + len as int)),
            !fits(self@.len() as int, offset as int, len as int) ==> r == Err::<
                Vec<u8>,
                AbiError,
            >(AbiError::BufferTooSmall),
    {
        if (offset as u64) + (len as u64) <= self.bytes.len() as u64 {
            let mut buf: Vec<u8> = Vec::new();
            let n = len as usize;
            let mut i: usize = 0;
            while i < n
                invariant
                    n == len,
                    offset as int + n as int <= self.bytes@.len(),
                    self.bytes@.len() <= usize::MAX,
                    0 <= i <= n,
                    buf@ == self.bytes@.subrange(offset as int, offset as int + i as int),
                decreases n - i,
            {
                buf.push(self.bytes[offset as usize + i]);
                proof {
                    assert(buf@ =~= self.bytes@.subrange(
                        offset as int,
                        offset as int + (i + 1) as int,
                    ));
                }
                i = i + 1;
            }
            Ok(buf)
        } else {
            Err(AbiError::BufferTooSmall)
        }
    }

    /// Reads the 32-bit word stored little-endian at `ptr`.
    pub fn read_u32(&self, ptr: u32) -> (r: Result<u32, AbiError>)
        ensures
            fits(self@.len() as int, ptr as int, 4) ==> r == Ok::<u32, AbiError>(
                word_at(self@, ptr as int),
            ),
            !fits(self@.len() as int, ptr as int, 4) ==> r == Err::<u32, AbiError>(
                AbiError::BufferTooSmall,
            ),
    {
        match self.read(ptr, 4) {
            Ok(buf) => {
                let w = word_of_bytes(buf[0], buf[1], buf[2], buf[3]);
                Ok(w)
            },
            Err(e) => Err(e),
        }
    }

    /// Reads a string of byte length `len` at `offset`: a bounds-checked read
    /// followed by UTF-8 validation. Invalid sequences fail with
    /// [`AbiError::Utf8Error`]; there is no lossy fallback.
    pub fn read_string(&self, offset: u32, len: u32) -> (r: Result<String, AbiError>)
        ensures
            string_result_view(r) == string_decode(self@, offset as int, len as int),
            r matches Ok(s) ==> vstd::utf8::encode_utf8(s@) == self@.subrange(
                offset as int,
                offset as int + len as int,
            ),
    {
        match self.read(offset, len) {
            Ok(buf) => match utf8_to_string(&buf) {
                Some(s) => {
                    proof {
                        vstd::utf8::encode_utf8_decode_utf8(s@);
                    }
                    Ok(s)
                },
                None => Err(AbiError::Utf8Error),
            },
            Err(e) => Err(e),
        }
    }

    /// Writes `data` at `offset`. Fails with [`AbiError::BufferTooSmall`]
    /// when `offset + data.len()` overflows or exceeds the region size, and
    /// then performs no partial write: the region is unchanged.
    pub fn write(&mut self, offset: u32, data: &[u8]) -> (r: Result<(), AbiError>)
        ensures
            final(self)@.len() == old(self)@.len(),
            fits(old(self)@.len() as int, offset as int, data@.len() as int) ==> r is Ok
                && final(self)@ == splice(old(self)@, offset as int, data@),
            !fits(old(self)@.len() as int, offset as int, data@.len() as int) ==> r == Err::<
                (),
                AbiError,
            >(AbiError::BufferTooSmall) && final(self)@ == old(self)@,
    {
        if (offset as u128) + (data.len() as u128) <= self.bytes.len() as u128 {
            let n = data.len();
            let mut i: usize = 0;
            while i < n
                invariant
                    n == data@.len(),
                    offset as int + n as int <= self.bytes@.len(),
                    self.bytes@.len() <= usize::MAX,
                    0 <= i <= n,
                    self.bytes@.len() == old(self)@.len(),
                    forall|k: int|
                        0 <= k < self.bytes@.len() ==> self.bytes@[k] == (if offset as int <= k
                            < offset as int + i as int {
                            data@[k - offset as int]
                        } else {
                            old(self)@[k]
                        }),
                decreases n - i,
            {
                self.bytes[offset as usize + i] = data[i];
                i = i + 1;
            }
            proof {
                assert(self.bytes@ =~= splice(old(self)@, offset as int, data@));
            }
            Ok(())
        } else {
            Err(AbiError::BufferTooSmall)
        }
    }
}

/// Assembles the 32-bit word stored little-endian in four bytes.
pub fn word_of_bytes(b0: u8, b1: u8, b2: u8, b3: u8) -> (r: u32)
    ensures
        r == word_of(b0, b1, b2, b3),
{
    (b0 as u32) | ((b1 as u32) << 8) | ((b2 as u32) << 16) | ((b3 as u32) << 24)
}

} // verus!
