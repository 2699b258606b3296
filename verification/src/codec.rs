//! Stateless decompression dispatch for the per-entry compression methods of
//! the archive format.

use vstd::prelude::*;
use vstd::slice::slice_to_vec;

verus! {

/// Compression method encoded in the low nibble of an entry's flags byte.
#[derive(PartialEq, Eq, Structural, Clone, Copy, Debug)]
pub enum Method {
    Stored,
    Zlib,
    Lz4,
    Unrecognized,
}

#[derive(PartialEq, Eq, Structural, Clone, Copy, Debug)]
pub enum CodecError {
    /// The method value has no decoder in this build: the zlib family and
    /// every unrecognized method value fail loudly rather than hand back
    /// bytes that were never decoded.
    UnsupportedMethod,
    /// The compressed stream is malformed, or it produced a number of bytes
    /// other than the expected decompressed size.
    DecompressionFailed,
}

/// The method selected by the low nibble of a flags byte:
/// 0 is stored (no compression), 1 the zlib family, 2 the block codec.
pub open spec fn spec_method_of(flags: u8) -> Method {
    let nibble = flags & 0x0F;
    if nibble == 0 {
        Method::Stored
    } else if nibble == 1 {
        Method::Zlib
    } else if nibble == 2 {
        Method::Lz4
    } else {
        Method::Unrecognized
    }
}

pub fn method_of(flags: u8) -> (r: Method)
    ensures
        r == spec_method_of(flags),
{
    let nibble = flags & 0x0F;
    if nibble == 0 {
        Method::Stored
    } else if nibble == 1 {
        Method::Zlib
    } else if nibble == 2 {
        Method::Lz4
    } else {
        Method::Unrecognized
    }
}

/// The bytes that the block codec's decompressor recovers from `compressed`:
/// a function of the compressed bytes alone.
pub uninterp spec fn lz4_block_of(compressed: Seq<u8>) -> Seq<u8>;

/// True when `compressed` is a well-formed block stream that the decoder
/// accepts: a function of the compressed bytes alone.
pub uninterp spec fn lz4_block_valid(compressed: Seq<u8>) -> bool;

/// Relies on lz4_flex::block::decompress_into (the safe decoder): it
/// succeeds exactly when the whole input is a well-formed block stream whose
/// decompressed bytes fit the buffer, and then the bytes written and their
/// count depend on the compressed input alone; a malformed stream, or one
/// that overruns the buffer, is an error.
#[verifier::external_body]
fn lz4_decompress_into(compressed: &[u8], out_len: usize) -> (r: Result<(Vec<u8>, usize), ()>)
    ensures
        (r is Ok) == (lz4_block_valid(compressed@) && lz4_block_of(compressed@).len()
            <= out_len),
        r matches Ok(p) ==> {
            &&& p.0@.len() == out_len
            &&& p.1 <= out_len
            &&& p.1 == lz4_block_of(compressed@).len()
            &&& p.0@.subrange(0, p.1 as int) == lz4_block_of(compressed@)
        },
{
    let mut buf = vec![0u8; out_len];
    match lz4_flex::block::decompress_into(compressed, buf.as_mut_slice()) {
        Ok(written) => Ok((buf, written)),
        Err(_) => Err(()),
    }
}

/// Decompress `compressed` with the block codec into exactly `expected_size`
/// bytes; a malformed stream or any other produced length is an error.
pub fn lz4_decompress(compressed: &[u8], expected_size: usize) -> (r: Result<Vec<u8>, CodecError>)
    ensures
        r is Ok <==> lz4_block_valid(compressed@) && lz4_block_of(compressed@).len()
            == expected_size,
        r matches Ok(v) ==> {
            &&& v@ == lz4_block_of(compressed@)
            &&& v@.len() == expected_size
        },
        r matches Err(e) ==> e == CodecError::DecompressionFailed,
{
    match lz4_decompress_into(compressed, expected_size) {
        Ok((buf, written)) => {
            if written == expected_size {
                assert(buf@ =~= lz4_block_of(compressed@));
                Ok(buf)
            } else {
                Err(CodecError::DecompressionFailed)
            }
        },
        Err(_) => Err(CodecError::DecompressionFailed),
    }
}

/// Decompress an entry's stored bytes according to `method`.
///
/// A stored (method none) entry comes back unchanged; the block codec must
/// produce exactly `expected_size` bytes; the zlib family has no decoder in
/// this build and fails, as does every unrecognized method value.
pub fn decompress(method: Method, compressed: &[u8], expected_size: usize) -> (r: Result<
    Vec<u8>,
    CodecError,
>)
    ensures
        method == Method::Stored ==> (r matches Ok(v) && v@ == compressed@),
        method == Method::Lz4 ==> {
            &&& r is Ok <==> lz4_block_valid(compressed@) && lz4_block_of(compressed@).len()
                == expected_size
            &&& r matches Ok(v) ==> v@ == lz4_block_of(compressed@) && v@.len() == expected_size
            &&& r matches Err(e) ==> e == CodecError::DecompressionFailed
        },
        method == Method::Zlib || method == Method::Unrecognized ==> (r matches Err(e)
            && e == CodecError::UnsupportedMethod),
{
    match method {
        Method::Stored => Ok(slice_to_vec(compressed)),
        Method::Lz4 => lz4_decompress(compressed, expected_size),
        Method::Zlib => Err(CodecError::UnsupportedMethod),
        Method::Unrecognized => Err(CodecError::UnsupportedMethod),
    }
}

} // verus!
