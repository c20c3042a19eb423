//! The calls into outside libraries that the verified code relies on.
//!
//! Each wrapper's contract states what the called function returns; nothing
//! else in the crate is taken on trust.

use vstd::prelude::*;

use vstd::utf8::{decode_utf8, valid_utf8};

verus! {

/// What inflating the zlib stream at the front of `data` yields: the
/// decompressed bytes and the number of compressed bytes the stream
/// occupies, or `None` when no complete valid stream starts there.  A zlib
/// stream is self-delimiting, so this is a function of the bytes alone.
pub uninterp spec fn zlib_inflate(data: Seq<u8>) -> Option<(Seq<u8>, nat)>;

/// Relies on `flate2::Decompress` with a zlib header: inflates the stream
/// that starts at `data[start]`, whose result is a function of those bytes
/// alone.  The output buffer is capped at `expect_len`, so a stream that
/// inflates past that length comes back as `None`; with the whole input at
/// hand and room for the whole output, a single `Finish` call reaches the
/// stream's end, so a complete stream that fits is always inflated.
#[verifier::external_body]
pub(crate) fn zlib_decompress_prefix(data: &[u8], start: usize, expect_len: usize) -> (r: Option<
    (Vec<u8>, usize),
>)
    requires
        start <= data@.len(),
    ensures
        r matches Some(p) ==> {
            &&& zlib_inflate(data@.skip(start as int)) == Some((p.0@, p.1 as nat))
            &&& p.0@.len() <= expect_len
            &&& p.1 <= data@.len() - start
        },
        (zlib_inflate(data@.skip(start as int)) matches Some(p) && p.0.len() <= expect_len)
            ==> r is Some,
{
    let mut d = flate2::Decompress::new(true);
    let mut out: Vec<u8> = Vec::with_capacity(expect_len);
    match d.decompress_vec(&data[start..], &mut out, flate2::FlushDecompress::Finish) {
        Ok(flate2::Status::StreamEnd) => Some((out, d.total_in() as usize)),
        _ => None,
    }
}

/// The SHA-1 digest of a byte sequence: twenty bytes determined by the input
/// alone.
pub uninterp spec fn sha1_of(data: Seq<u8>) -> Seq<u8>;

/// Whether the collision-detecting hasher accepts a byte sequence: the
/// detection is a pure computation over the input, so acceptance is a
/// function of the bytes alone, and false only for crafted attack inputs.
pub uninterp spec fn sha1_ok(data: Seq<u8>) -> bool;

/// Relies on `gix_hash::hasher` with `Kind::Sha1`: one SHA-1 digest over the
/// bytes.  The hasher refuses exactly the inputs its collision detection
/// flags, deterministically.
#[verifier::external_body]
pub(crate) fn sha1_digest(data: &[u8]) -> (r: Option<Vec<u8>>)
    ensures
        r is Some <==> sha1_ok(data@),
        r matches Some(h) ==> h@ == sha1_of(data@) && h@.len() == 20,
{
    let mut h = gix_hash::hasher(gix_hash::Kind::Sha1);
    h.update(data);
    match h.try_finalize() {
        Ok(id) => Some(id.as_slice().to_vec()),
        Err(_) => None,
    }
}

/// What gunzipping `data` yields, or `None` when it is not a valid gzip
/// stream; a function of the bytes alone.
pub uninterp spec fn gunzip_of(data: Seq<u8>) -> Option<Seq<u8>>;

/// Relies on `flate2::read::GzDecoder` over an in-memory slice: decoding is
/// a function of the bytes alone and fails exactly on a corrupt stream.
#[verifier::external_body]
pub(crate) fn gunzip(data: &[u8]) -> (r: Option<Vec<u8>>)
    ensures
        r matches Some(v) ==> gunzip_of(data@) == Some(v@),
        r is None ==> gunzip_of(data@) is None,
{
    let mut decoder = flate2::read::GzDecoder::new(data);
    let mut out = Vec::new();
    match std::io::Read::read_to_end(&mut decoder, &mut out) {
        Ok(_) => Some(out),
        Err(_) => None,
    }
}

/// Relies on `String::from_utf8`: succeeds exactly on valid UTF-8 and
/// decodes it faithfully.
#[verifier::external_body]
pub(crate) fn string_from_utf8(bytes: Vec<u8>) -> (r: Option<String>)
    ensures
        r is Some <==> valid_utf8(bytes@),
        r matches Some(s) ==> s@ == decode_utf8(bytes@),
{
    match String::from_utf8(bytes) {
        Ok(s) => Some(s),
        Err(_) => None,
    }
}

} // verus!
