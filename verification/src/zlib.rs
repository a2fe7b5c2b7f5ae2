//! Zlib streams, by way of `flate2`.

use std::io::{Read, Write};
use vstd::prelude::*;

verus! {

/// What inflating the zlib stream at the start of `input` gives: the bytes
/// that come out and the count of input bytes that the stream takes; `None`
/// when `input` does not start with a complete zlib stream.
pub uninterp spec fn zlib_inflated(input: Seq<u8>) -> Option<(Seq<u8>, nat)>;

/// The zlib stream that compressing `input` at level 1 gives; `None` when
/// the compressor reports an error.
pub uninterp spec fn zlib_deflated(input: Seq<u8>) -> Option<Seq<u8>>;

/// Inflates with `flate2::bufread::ZlibDecoder`: `new` on `input`,
/// `read_to_end`, then `total_in`. The decoder stops at the end of the
/// first stream and leaves what follows unread; an error of `read_to_end`
/// becomes `None`. The contract only names the outcome.
#[verifier::external_body]
pub(crate) fn inflate(input: &[u8]) -> (r: Option<(Vec<u8>, u64)>)
    ensures
        match r {
            Some((out, used)) => zlib_inflated(input@) == Some((out@, used as nat)),
            None => zlib_inflated(input@) is None,
        },
{
    let mut decoder = flate2::bufread::ZlibDecoder::new(input);
    let mut out = Vec::new();
    match decoder.read_to_end(&mut out) {
        Ok(_) => Some((out, decoder.total_in())),
        Err(_) => None,
    }
}

/// Compresses with `flate2::write::ZlibEncoder`: `new` over an empty vector
/// at `Compression::new(1)`, `write_all` of `input`, then `finish`. An error
/// of either call becomes `None`. The contract only names the outcome.
#[verifier::external_body]
pub(crate) fn deflate(input: &[u8]) -> (r: Option<Vec<u8>>)
    ensures
        match r {
            Some(out) => zlib_deflated(input@) == Some(out@),
            None => zlib_deflated(input@) is None,
        },
{
    let mut encoder = flate2::write::ZlibEncoder::new(Vec::new(), flate2::Compression::new(1));
    match encoder.write_all(input) {
        Ok(()) => encoder.finish().ok(),
        Err(_) => None,
    }
}

} // verus!
