//! Zlib streams.
use vstd::prelude::*;

verus! {

/// What `flate2::read::ZlibDecoder` decodes from a stream.
pub uninterp spec fn inflated(data: Seq<u8>) -> Option<Seq<u8>>;

/// The stream that `flate2::write::ZlibEncoder` makes of data at the default level.
pub uninterp spec fn deflated(data: Seq<u8>) -> Option<Seq<u8>>;

/// Calls `flate2::read::ZlibDecoder`: the bytes that the stream holds, or `None`
/// where it is not a whole zlib stream.
#[verifier::external_body]
pub(crate) fn inflate(data: &[u8]) -> (r: Option<Vec<u8>>)
    ensures
        match r {
            Some(b) => inflated(data@) == Some(b@),
            None => inflated(data@) is None,
        },
{
    let mut raw: Vec<u8> = Vec::new();
    std::io::Read::read_to_end(&mut flate2::read::ZlibDecoder::new(data), &mut raw).ok()?;
    Some(raw)
}

/// Calls `flate2::write::ZlibEncoder` at the default level. The stream that comes
/// out inflates to the data.
#[verifier::external_body]
pub(crate) fn deflate(data: &[u8]) -> (r: Option<Vec<u8>>)
    ensures
        match r {
            Some(b) => deflated(data@) == Some(b@) && inflated(b@) == Some(data@),
            None => deflated(data@) is None,
        },
{
    let level = flate2::Compression::default();
    let mut encoder = flate2::write::ZlibEncoder::new(Vec::new(), level);
    std::io::Write::write_all(&mut encoder, data).ok()?;
    encoder.finish().ok()
}

} // verus!
