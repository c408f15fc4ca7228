//! Trusted boundary to gzip compression and decompression.
//!
//! The index travels as a gzip stream. Compression is performed by an
//! outside encoder whose exact output bytes are not modelled; the one fact
//! the rest of the crate builds on is that decompressing what the encoder
//! produced yields the original bytes again.

use vstd::prelude::*;

verus! {

/// What gzip decompression yields on a byte sequence: the decompressed
/// content of the stream's first member, or nothing when the bytes are not
/// a valid gzip stream. Decompression is a pure function of its input,
/// which this name records; its value on given bytes is not stated.
pub uninterp spec fn gunzip_of(s: Seq<u8>) -> Option<Seq<u8>>;

/// Relies on libflate::gzip::Encoder: the bytes it emits decompress, via
/// libflate::gzip::Decoder, back to exactly the bytes written into it.
/// The sink is an in-memory vector whose writes cannot fail, so encoding
/// always returns. The emitted container may differ between runs (the
/// header records a timestamp); every outcome decompresses the same way.
#[verifier::external_body]
pub fn gzip_compress(data: &Vec<u8>) -> (r: Vec<u8>)
    ensures
        gunzip_of(r@) == Some(data@),
{
    let mut enc = libflate::gzip::Encoder::new(Vec::new()).expect("vector writes cannot fail");
    std::io::Write::write_all(&mut enc, data.as_slice()).expect("vector writes cannot fail");
    enc.finish().into_result().expect("vector writes cannot fail")
}

/// Relies on libflate::gzip::Decoder: reads the stream's first member and
/// yields its decompressed bytes; a malformed header, stream or checksum
/// fails instead.
#[verifier::external_body]
pub fn gzip_decompress(data: &Vec<u8>) -> (r: Option<Vec<u8>>)
    ensures
        match r {
            Some(v) => gunzip_of(data@) == Some(v@),
            None => gunzip_of(data@) is None,
        },
{
    let mut dec = match libflate::gzip::Decoder::new(data.as_slice()) {
        Ok(d) => d,
        Err(_) => {
            return None;
        },
    };
    let mut out = Vec::new();
    match std::io::Read::read_to_end(&mut dec, &mut out) {
        Ok(_) => Some(out),
        Err(_) => None,
    }
}

} // verus!
