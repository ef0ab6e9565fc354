//! Compressing tiles and taking them apart again.

use std::io::{Read, Write};

use vstd::prelude::*;

use crate::tile::TileCompression;

verus! {

/// Level of gzip responses: a good balance between size and speed.
pub const GZIP_LEVEL: u32 = 6;

/// Level of zstd responses: zero asks for the default of zstd.
pub const ZSTD_LEVEL: i32 = 0;

/// What `flate2`'s gzip decoder makes of `data`: the plain bytes, or the text of its error.
pub uninterp spec fn gunzip_outcome(data: Seq<u8>) -> Result<Seq<u8>, Seq<char>>;

/// What `zstd`'s decoder makes of `data`: the plain bytes, or the text of its error.
pub uninterp spec fn unzstd_outcome(data: Seq<u8>) -> Result<Seq<u8>, Seq<char>>;

/// The gzip stream that `flate2`'s encoder makes of `data` at a level.
pub uninterp spec fn gzip_stream(data: Seq<u8>, level: u32) -> Seq<u8>;

/// The frame that `zstd`'s encoder makes of `data` at a level.
pub uninterp spec fn zstd_stream(data: Seq<u8>, level: i32) -> Seq<u8>;

/// Whether decoding succeeded and gave `plain`.
pub open spec fn restores(outcome: Result<Seq<u8>, Seq<char>>, plain: Seq<u8>) -> bool {
    outcome matches Ok(bytes) && bytes == plain
}

/// Reads a [`flate2::read::GzDecoder`] over `data` to its end. What comes out, bytes or error
/// text, is a function of `data` alone.
#[verifier::external_body]
fn gunzip(data: &[u8]) -> (r: Result<Vec<u8>, String>)
    ensures
        crate::error::result_view(r) == gunzip_outcome(data@),
{
    let mut out = Vec::new();
    match flate2::read::GzDecoder::new(data).read_to_end(&mut out) {
        Ok(_) => Ok(out),
        Err(e) => Err(e.to_string()),
    }
}

/// Reads a [`zstd::stream::Decoder`] over `data` to its end. What comes out, bytes or error
/// text, is a function of `data` alone.
#[verifier::external_body]
fn unzstd(data: &[u8]) -> (r: Result<Vec<u8>, String>)
    ensures
        crate::error::result_view(r) == unzstd_outcome(data@),
{
    let mut out = Vec::new();
    match zstd::stream::Decoder::new(data) {
        Err(e) => Err(e.to_string()),
        Ok(mut decoder) => match decoder.read_to_end(&mut out) {
            Ok(_) => Ok(out),
            Err(e) => Err(e.to_string()),
        },
    }
}

/// Writes `data` through a [`flate2::write::GzEncoder`]. The stream is a function of the data
/// and the level, starts with the two identification bytes of gzip, and decodes to the data
/// again. Writing into memory cannot fail.
#[verifier::external_body]
fn gzip_encode(data: &[u8], level: u32) -> (out: Vec<u8>)
    requires
        level <= 9,
    ensures
        out@ == gzip_stream(data@, level),
        out@.len() >= 2 && out@[0] == 0x1f && out@[1] == 0x8b,
        restores(gunzip_outcome(out@), data@),
{
    let mut encoder = flate2::write::GzEncoder::new(Vec::new(), flate2::Compression::new(level));
    encoder.write_all(data).expect("gzip write to Vec cannot fail");
    encoder.finish().expect("gzip finish on Vec cannot fail")
}

/// Compresses `data` with [`zstd::encode_all`]. The frame is a function of the data and the
/// level, and decodes to the data again. Writing into memory cannot fail.
#[verifier::external_body]
fn zstd_encode(data: &[u8], level: i32) -> (out: Vec<u8>)
    requires
        0 <= level <= 19,
    ensures
        out@ == zstd_stream(data@, level),
        restores(unzstd_outcome(out@), data@),
{
    zstd::encode_all(data, level).expect("zstd encode to Vec cannot fail")
}

/// Why stored bytes could not be decoded.
#[derive(Debug)]
pub struct DecodeError {
    pub message: String,
}

impl View for DecodeError {
    type V = Seq<char>;

    open spec fn view(&self) -> Seq<char> {
        self.message@
    }
}

/// The plain bytes of `data`, or why there are none.
pub open spec fn decoded(data: Seq<u8>, compression: TileCompression) -> Result<
    Seq<u8>,
    Seq<char>,
> {
    match compression {
        TileCompression::Plain => Ok(data),
        TileCompression::Gzip => gunzip_outcome(data),
        TileCompression::Zstd => unzstd_outcome(data),
    }
}

/// The bytes that a response carries for `plain`.
pub open spec fn encoded(plain: Seq<u8>, encoding: TileCompression) -> Seq<u8> {
    match encoding {
        TileCompression::Plain => plain,
        TileCompression::Gzip => gzip_stream(plain, GZIP_LEVEL),
        TileCompression::Zstd => zstd_stream(plain, ZSTD_LEVEL),
    }
}

/// Decompresses `data`. Plain data is given back unchanged.
pub fn decompress(data: Vec<u8>, compression: TileCompression) -> (r: Result<
    Vec<u8>,
    DecodeError,
>)
    ensures
        crate::error::result_view(r) == decoded(data@, compression),
{
    let out = match compression {
        TileCompression::Plain => return Ok(data),
        TileCompression::Gzip => gunzip(data.as_slice()),
        TileCompression::Zstd => unzstd(data.as_slice()),
    };
    match out {
        Ok(plain) => Ok(plain),
        Err(message) => Err(DecodeError { message }),
    }
}

/// Compresses a response body with gzip.
pub fn gzip_compress(data: &[u8]) -> (out: Vec<u8>)
    ensures
        out@ == encoded(data@, TileCompression::Gzip),
        out@.len() >= 2 && out@[0] == 0x1f && out@[1] == 0x8b,
        restores(decoded(out@, TileCompression::Gzip), data@),
{
    gzip_encode(data, GZIP_LEVEL)
}

/// Compresses a response body with zstd.
pub fn zstd_compress(data: &[u8]) -> (out: Vec<u8>)
    ensures
        out@ == encoded(data@, TileCompression::Zstd),
        restores(decoded(out@, TileCompression::Zstd), data@),
{
    zstd_encode(data, ZSTD_LEVEL)
}

/// Compresses plain tile bytes for a response. Decoding what it gives restores the bytes.
pub fn compress(plain: Vec<u8>, encoding: TileCompression) -> (out: Vec<u8>)
    ensures
        out@ == encoded(plain@, encoding),
        restores(decoded(out@, encoding), plain@),
{
    match encoding {
        TileCompression::Plain => plain,
        TileCompression::Gzip => gzip_compress(plain.as_slice()),
        TileCompression::Zstd => zstd_compress(plain.as_slice()),
    }
}

/// What decoding means: plain bytes are what they are, and the other codings are those of the two
/// libraries.
pub proof fn law_decoding(data: Seq<u8>)
    ensures
        decoded(data, TileCompression::Plain) matches Ok(plain) && plain == data,
        decoded(data, TileCompression::Gzip) == gunzip_outcome(data),
        decoded(data, TileCompression::Zstd) == unzstd_outcome(data),
{
}

/// What coding means: plain bytes are what they are, gzip is written at level 6 and zstd at its
/// default level.
pub proof fn law_coding(plain: Seq<u8>)
    ensures
        encoded(plain, TileCompression::Plain) == plain,
        encoded(plain, TileCompression::Gzip) == gzip_stream(plain, 6),
        encoded(plain, TileCompression::Zstd) == zstd_stream(plain, 0),
{
}

/// Decoding restores bytes when it succeeds with exactly these.
pub proof fn law_restores(bytes: Seq<u8>, plain: Seq<u8>, what: Seq<char>, error: DecodeError)
    ensures
        restores(Ok(bytes), plain) <==> bytes == plain,
        !restores(Err(what), plain),
        error@ == error.message@,
{
}

} // verus!
