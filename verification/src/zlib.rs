use flate2::read::ZlibDecoder;
use flate2::write::ZlibEncoder;
use flate2::Compression;
use std::io::Read;
use std::io::Write;
use vstd::prelude::*;

verus! {

/// What inflating the zlib stream at the start of `data` gives: the
/// decompressed bytes and the number of bytes of `data` that the stream
/// takes up; `None` where `data` does not start with a complete zlib stream.
pub uninterp spec fn zlib_inflate(data: Seq<u8>) -> Option<(Seq<u8>, nat)>;

/// Inflates the zlib stream at the start of `data` with
/// `flate2::read::ZlibDecoder` (`new`, `read_to_end`, `total_in`). Trusted:
/// the outcome depends on `data` alone; the count is the number of input
/// bytes that the decoder consumed, which is no more than it was given.
#[verifier::external_body]
pub(crate) fn inflate(data: &[u8]) -> (res: Option<(Vec<u8>, usize)>)
    ensures
        res is Some <==> zlib_inflate(data@) is Some,
        res matches Some((out, used)) ==> zlib_inflate(data@) == Some((out@, used as nat)) && used
            <= data@.len(),
{
    let mut decoder = ZlibDecoder::new(data);
    let mut out: Vec<u8> = Vec::new();
    match decoder.read_to_end(&mut out) {
        Ok(_) => Some((out, decoder.total_in() as usize)),
        Err(_) => None,
    }
}

/// What compressing `data` into one zlib stream at the default level gives:
/// the bytes of the stream; `None` where the compressor fails.
pub uninterp spec fn zlib_deflate(data: Seq<u8>) -> Option<Seq<u8>>;

/// Compresses `data` into one zlib stream with `flate2::write::ZlibEncoder`
/// at the default level (`new`, `write_all`, `finish`), into a vector.
/// Trusted: the outcome depends on `data` alone, and where it is a stream,
/// inflating the stream gives `data` back.
#[verifier::external_body]
pub(crate) fn deflate(data: &[u8]) -> (res: Option<Vec<u8>>)
    ensures
        match zlib_deflate(data@) {
            Some(stream) => res matches Some(out) && out@ == stream,
            None => res is None,
        },
        res matches Some(out) ==> (zlib_inflate(out@) matches Some(r) && r.0 == data@),
{
    let mut encoder = ZlibEncoder::new(Vec::new(), Compression::default());
    match encoder.write_all(data) {
        Ok(_) => encoder.finish().ok(),
        Err(_) => None,
    }
}

} // verus!
