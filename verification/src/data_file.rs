//! The compression layer of the data file in which statistics are saved: gzip over the
//! encoded statistics.
use vstd::prelude::*;
use vstd::string::StringExecFns;
use std::io::{Read, Write};

verus! {

/// What `flate2::read::GzDecoder` reads to the end from `data`: the decompressed bytes, or
/// none where the bytes are not a well formed gzip stream.
pub uninterp spec fn gunzipped(data: Seq<u8>) -> Option<Seq<u8>>;

/// What `flate2::write::GzEncoder`, at the default compression, writes for `data`.
pub uninterp spec fn gzipped(data: Seq<u8>) -> Seq<u8>;

/// Decompresses gzip bytes with `flate2::read::GzDecoder` and `Read::read_to_end`: the bytes
/// read, or none where reading fails. The result is claimed to be a function of the bytes,
/// named [gunzipped].
#[verifier::external_body]
pub fn gunzip(data: &Vec<u8>) -> (r: Option<Vec<u8>>)
    ensures
        match gunzipped(data@) {
            Some(v) => r matches Some(w) && w@ == v,
            None => r is None,
        },
{
    let mut buf = Vec::new();
    match flate2::read::GzDecoder::new(data.as_slice()).read_to_end(&mut buf) {
        Ok(_) => Some(buf),
        Err(_) => None,
    }
}

/// Compresses bytes with `flate2::write::GzEncoder` at the default compression into a
/// vector: the compressed bytes, named [gzipped], from which `GzDecoder` reads the bytes
/// back. Writing into a vector does not fail (the encoder's only errors come from the
/// writer it wraps).
#[verifier::external_body]
pub fn gzip(data: &Vec<u8>) -> (r: Vec<u8>)
    ensures
        r@ == gzipped(data@),
        gunzipped(r@) == Some(data@),
{
    let mut encoder = flate2::write::GzEncoder::new(Vec::new(), flate2::Compression::default());
    match encoder.write_all(data.as_slice()) {
        Ok(()) => {},
        Err(_) => return Vec::new(),
    }
    match encoder.finish() {
        Ok(v) => v,
        Err(_) => Vec::new(),
    }
}

/// The encoded statistics inside the bytes of a data file, or that the file is invalid.
pub fn decode_data_file(data: &Vec<u8>) -> (r: Result<Vec<u8>, String>)
    ensures
        match gunzipped(data@) {
            Some(v) => r matches Ok(w) && w@ == v,
            None => r matches Err(e) && e@ == "Invalid file"@,
        },
{
    proof {
        reveal_strlit("Invalid file");
    }
    match gunzip(data) {
        Some(v) => Ok(v),
        None => Err(String::from_str("Invalid file")),
    }
}

/// The bytes of a data file holding the encoded statistics: what [decode_data_file] reads
/// them back from.
pub fn encode_data_file(encoded: &Vec<u8>) -> (r: Vec<u8>)
    ensures
        r@ == gzipped(encoded@),
        gunzipped(r@) == Some(encoded@),
{
    gzip(encoded)
}

} // verus!
