use vstd::prelude::*;
use flate2::Compression;
use flate2::read::ZlibDecoder;
use flate2::write::ZlibEncoder;
use std::io::{Read, Write};

verus! {

/// What zlib decompression yields on a compressed byte string: the
/// original bytes, or nothing when the stream is not a zlib stream.
/// Named only; it is a function of the compressed bytes alone.
pub uninterp spec fn zlib_inflate_of(compressed: Seq<u8>) -> Option<Seq<u8>>;

/// Relies on flate2's `ZlibEncoder`: compression into an in-memory sink
/// cannot fail, and decompressing its output gives the input back.
#[verifier::external_body]
pub(crate) fn zlib_compress(data: &[u8]) -> (r: Vec<u8>)
    ensures
        zlib_inflate_of(r@) == Some(data@),
{
    let mut enc = ZlibEncoder::new(Vec::new(), Compression::default());
    enc.write_all(data).unwrap();
    enc.finish().unwrap()
}

/// Relies on flate2's `ZlibDecoder`: decompression is a function of the
/// compressed bytes alone; a broken stream is an error, never a guess.
#[verifier::external_body]
pub(crate) fn zlib_decompress(data: &[u8]) -> (r: Option<Vec<u8>>)
    ensures
        match r {
            Some(v) => zlib_inflate_of(data@) == Some(v@),
            None => zlib_inflate_of(data@) is None,
        },
{
    let mut dec = ZlibDecoder::new(data);
    let mut out = Vec::new();
    match dec.read_to_end(&mut out) {
        Ok(_) => Some(out),
        Err(_) => None,
    }
}

} // verus!
