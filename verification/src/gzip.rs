//! The gzip layer that every file of a matrix is wrapped in.

use vstd::prelude::*;

verus! {

/// The gzip stream that `flate2` writes for `data` at its default level.
pub uninterp spec fn gzip_encoded(data: Seq<u8>) -> Seq<u8>;

/// What `flate2` reads out of the gzip stream `data`: the bytes of its
/// first member, or nothing where it reports an error.
pub uninterp spec fn gzip_decoded(data: Seq<u8>) -> Option<Seq<u8>>;

/// Compresses `data` with `flate2::write::GzEncoder`, made by `new` with
/// `Compression::default()`, fed by `write_all` and closed by `finish`.
///
/// Not proved: that the bytes handed back are a function of `data` alone.
/// The encoder writes a fixed header (no name, no time, the operating
/// system byte 255), then the deflate stream and the checksum of `data`,
/// into a vector, which takes every write.
#[verifier::external_body]
pub(crate) fn compress(data: &Vec<u8>) -> (out: Vec<u8>)
    ensures
        out@ == gzip_encoded(data@),
{
    let mut encoder = flate2::write::GzEncoder::new(Vec::new(), flate2::Compression::default());
    std::io::Write::write_all(&mut encoder, data).unwrap();
    encoder.finish().unwrap()
}

/// Decompresses `data` with `flate2::read::GzDecoder`, read to its end by
/// `read_to_end`.
///
/// Not proved: that the outcome is a function of `data` alone, the bytes
/// of the first member where the decoder reports no error, and nothing
/// where it reports one.
#[verifier::external_body]
pub(crate) fn decompress(data: &Vec<u8>) -> (out: Option<Vec<u8>>)
    ensures
        match out {
            Some(bytes) => gzip_decoded(data@) == Some(bytes@),
            None => gzip_decoded(data@) is None,
        },
{
    let mut decoder = flate2::read::GzDecoder::new(&data[..]);
    let mut bytes = Vec::new();
    match std::io::Read::read_to_end(&mut decoder, &mut bytes) {
        Ok(_) => Some(bytes),
        Err(_) => None,
    }
}

} // verus!
