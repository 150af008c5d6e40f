//! The outside building blocks of the object store: the SHA-1 digest, zlib
//! compression and hexadecimal text. Each one is reached through a single
//! trusted wrapper whose contract is stated here.
use std::io::Read;
use std::io::Write;
use sha1::Digest;
use vstd::prelude::*;

verus! {

/// Length in bytes of a SHA-1 digest.
pub const HASH_LEN: usize = 20;

/// Length in characters of a SHA-1 digest written in hexadecimal.
pub const HASH_HEX_LEN: usize = 40;

/// The SHA-1 digest of a byte sequence.
pub uninterp spec fn sha1_of(data: Seq<u8>) -> Seq<u8>;

/// The zlib stream that the best compression level produces for a byte sequence.
pub uninterp spec fn zlib_best(data: Seq<u8>) -> Seq<u8>;

/// Decompressing the zlib stream at the start of a byte sequence: the
/// decompressed bytes and how many input bytes the stream took, or `None`
/// when the input does not start with a valid stream.
pub uninterp spec fn zlib_inflate(data: Seq<u8>) -> Option<(Seq<u8>, nat)>;

/// Relies on `sha1::Sha1::digest`: the 20-byte SHA-1 digest of the input.
#[verifier::external_body]
pub(crate) fn sha1_digest(data: &[u8]) -> (r: Vec<u8>)
    ensures
        r@ == sha1_of(data@),
        r@.len() == HASH_LEN,
{
    sha1::Sha1::digest(data).to_vec()
}

/// Relies on `flate2::write::ZlibEncoder` at `Compression::best()`: a zlib
/// stream that decompresses back to the input, all of it read. The sink is a
/// `Vec`, whose writes always succeed, so neither `write_all` nor `finish`
/// reports an error and the empty fallback is never taken.
#[verifier::external_body]
pub(crate) fn zlib_compress(data: &[u8]) -> (r: Vec<u8>)
    ensures
        r@ == zlib_best(data@),
        zlib_inflate(r@) == Some((data@, r@.len())),
{
    let mut encoder = flate2::write::ZlibEncoder::new(Vec::new(), flate2::Compression::best());
    let written = encoder.write_all(data);
    match written.and(encoder.finish()) {
        Ok(out) => out,
        Err(_) => Vec::new(),
    }
}

/// Relies on `flate2::bufread::ZlibDecoder`, read to its end, and on its
/// `total_in`: the decompressed bytes of the stream that starts the input and
/// how many input bytes that stream took.
#[verifier::external_body]
pub(crate) fn zlib_decompress(data: &[u8]) -> (r: Option<(Vec<u8>, u64)>)
    ensures
        match r {
            Some((out, used)) => zlib_inflate(data@) == Some((out@, used as nat)),
            None => zlib_inflate(data@) is None,
        },
{
    let mut decoder = flate2::bufread::ZlibDecoder::new(data);
    let mut out = Vec::new();
    match decoder.read_to_end(&mut out) {
        Ok(_) => Some((out, decoder.total_in())),
        Err(_) => None,
    }
}

/// The lowercase hexadecimal digit for a value below 16.
pub open spec fn hex_digit(v: int) -> u8 {
    if v < 10 { (v + 0x30) as u8 } else { (v - 10 + 0x61) as u8 }
}

/// Lowercase hexadecimal text of a byte sequence, two digits per byte, high half first.
pub open spec fn hex_text(b: Seq<u8>) -> Seq<u8> {
    Seq::new(2 * b.len(), |i: int| if i % 2 == 0 { hex_digit((b[i / 2] / 16) as int) } else { hex_digit((b[i / 2] % 16) as int) })
}

/// The value of a hexadecimal digit of either case.
pub open spec fn hex_value(c: u8) -> Option<u8> {
    if 0x30 <= c <= 0x39 {
        Some((c - 0x30) as u8)
    } else if 0x61 <= c <= 0x66 {
        Some((c - 0x61 + 10) as u8)
    } else if 0x41 <= c <= 0x46 {
        Some((c - 0x41 + 10) as u8)
    } else {
        None
    }
}

/// Text that `hex_bytes` accepts: an even number of hexadecimal digits.
pub open spec fn is_hex_text(s: Seq<u8>) -> bool {
    s.len() % 2 == 0 && forall|i: int| 0 <= i < s.len() ==> (#[trigger] hex_value(s[i])) is Some
}

/// The bytes that hexadecimal text stands for, two digits per byte.
pub open spec fn hex_bytes(s: Seq<u8>) -> Seq<u8> {
    Seq::new(s.len() / 2, |i: int| (hex_value(s[2 * i])->0 * 16 + hex_value(s[2 * i + 1])->0) as u8)
}

/// Relies on `hex::encode`: two lowercase digits per byte, high half first.
#[verifier::external_body]
pub(crate) fn hex_encode(b: &[u8]) -> (r: Vec<u8>)
    ensures
        r@ == hex_text(b@),
{
    hex::encode(b).into_bytes()
}

/// Relies on `hex::decode`: it fails on odd length or a non-digit, and
/// otherwise turns each pair of digits into one byte.
#[verifier::external_body]
pub(crate) fn hex_decode(s: &[u8]) -> (r: Option<Vec<u8>>)
    ensures
        r is Some <==> is_hex_text(s@),
        r is Some ==> r->0@ == hex_bytes(s@),
{
    hex::decode(s).ok()
}

} // verus!
