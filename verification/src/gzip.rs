//! Gzip streams, through flate2: the compressed form of native projects and
//! of pencil-gallery files.
use vstd::prelude::*;
use std::io::{Read, Write};

verus! {

/// The outcome of reading to the end, through at most `limit` bytes of
/// output, the gzip stream that starts `data`: the decompressed bytes, or
/// the reader's error text.
pub uninterp spec fn gzip_read_to_end(data: Seq<u8>, limit: nat) -> Result<Seq<u8>, Seq<char>>;

/// Decompress the gzip stream at the start of `data`, reading at most
/// `limit` bytes of output. Calls flate2's `read::GzDecoder` through
/// `Read::take` and `read_to_end`; the contract names the outcome, a
/// function of the bytes and the limit, and claims only that `take` bounds
/// the output by `limit`.
#[verifier::external_body]
pub(crate) fn gzip_read(data: &[u8], limit: u64) -> (res: Result<Vec<u8>, String>)
    ensures
        match (res, gzip_read_to_end(data@, limit as nat)) {
            (Ok(v), Ok(w)) => v@ == w && w.len() <= limit,
            (Err(e), Err(m)) => e@ == m,
            _ => false,
        },
{
    let mut output = Vec::new();
    match flate2::read::GzDecoder::new(data).take(limit).read_to_end(&mut output) {
        Ok(_) => Ok(output),
        Err(e) => Err(e.to_string()),
    }
}

/// The gzip stream flate2's `write::GzEncoder` writes for `data` at its
/// fast compression level, with the default header.
pub uninterp spec fn gzip_encode(data: Seq<u8>) -> Seq<u8>;

/// Compress `data` into a gzip stream at the fast level. Calls flate2's
/// `write::GzEncoder` over a `Vec`, `write_all` and `finish`. The contract
/// claims that this succeeds (the encoder fails only when its sink fails,
/// and a `Vec` never does; miniz reports no error on a full buffer), names
/// the stream, a function of the data alone (the default header carries no
/// time), and claims that flate2's decoder reads it back as `data` through
/// any output limit that `data` fits in.
#[verifier::external_body]
pub(crate) fn gzip_write(data: &[u8]) -> (res: Result<Vec<u8>, String>)
    ensures
        res is Ok,
        res matches Ok(v) ==> v@ == gzip_encode(data@),
        res matches Ok(v) ==> forall|limit: nat| data@.len() <= limit
            ==> (#[trigger] gzip_read_to_end(v@, limit) matches Ok(d) && d == data@),
{
    let mut e = flate2::write::GzEncoder::new(Vec::new(), flate2::Compression::fast());
    match e.write_all(data) {
        Ok(()) => {},
        Err(err) => return Err(err.to_string()),
    }
    match e.finish() {
        Ok(v) => Ok(v),
        Err(err) => Err(err.to_string()),
    }
}

} // verus!
