//! The two compression schemes a sub-record may use, chosen by a one-byte tag.
use vstd::prelude::*;

verus! {

/// Tag of the gzip scheme.
pub const TAG_GZIP: u8 = 1;

/// Tag of the zlib scheme.
pub const TAG_ZLIB: u8 = 2;

/// What gzip decoding gives for a byte stream: the decoded bytes, or `None`
/// where the stream is not valid gzip.
pub uninterp spec fn gzip_decoded(body: Seq<u8>) -> Option<Seq<u8>>;

/// What zlib decoding gives for a byte stream: the decoded bytes, or `None`
/// where the stream is not valid zlib.
pub uninterp spec fn zlib_decoded(body: Seq<u8>) -> Option<Seq<u8>>;

/// Why a compressed body could not be turned into its payload.
#[derive(Clone, Copy, Debug, PartialEq, Eq, Structural)]
pub enum DecompressError {
    /// The tag names neither supported scheme.
    UnsupportedScheme { tag: u8 },
    /// The body is not a valid stream of the scheme its tag names.
    Corrupt,
}

/// The payload of a body stored under `tag`.
pub open spec fn decompressed(tag: u8, body: Seq<u8>) -> Result<Seq<u8>, DecompressError> {
    let decoded = if tag == TAG_GZIP {
        gzip_decoded(body)
    } else {
        zlib_decoded(body)
    };
    if tag != TAG_GZIP && tag != TAG_ZLIB {
        Err(DecompressError::UnsupportedScheme { tag })
    } else {
        match decoded {
            Some(p) => Ok(p),
            None => Err(DecompressError::Corrupt),
        }
    }
}

/// Relies on flate2::read::GzDecoder read to its end: decoding depends on the
/// bytes alone, and fails on a stream that is not valid gzip.
#[verifier::external_body]
fn gunzip(body: &Vec<u8>) -> (r: Option<Vec<u8>>)
    ensures
        r matches Some(v) ==> gzip_decoded(body@) == Some(v@),
        r is None ==> gzip_decoded(body@) is None,
{
    let mut out = Vec::new();
    let mut decoder = flate2::read::GzDecoder::new(body.as_slice());
    match std::io::Read::read_to_end(&mut decoder, &mut out) {
        Ok(_) => Some(out),
        Err(_) => None,
    }
}

/// Relies on flate2::read::ZlibDecoder read to its end: decoding depends on
/// the bytes alone, and fails on a stream that is not valid zlib.
#[verifier::external_body]
fn unzlib(body: &Vec<u8>) -> (r: Option<Vec<u8>>)
    ensures
        r matches Some(v) ==> zlib_decoded(body@) == Some(v@),
        r is None ==> zlib_decoded(body@) is None,
{
    let mut out = Vec::new();
    let mut decoder = flate2::read::ZlibDecoder::new(body.as_slice());
    match std::io::Read::read_to_end(&mut decoder, &mut out) {
        Ok(_) => Some(out),
        Err(_) => None,
    }
}

/// Decompresses a body stored under `tag`: 1 is gzip, 2 is zlib, any other tag
/// is an unsupported scheme.
pub fn decompress(tag: u8, body: &Vec<u8>) -> (r: Result<Vec<u8>, DecompressError>)
    ensures
        r matches Ok(p) ==> decompressed(tag, body@) == Ok::<Seq<u8>, DecompressError>(p@),
        r matches Err(e) ==> decompressed(tag, body@) == Err::<Seq<u8>, DecompressError>(e),
{
    let decoded = if tag == TAG_GZIP {
        gunzip(body)
    } else if tag == TAG_ZLIB {
        unzlib(body)
    } else {
        return Err(DecompressError::UnsupportedScheme { tag });
    };
    match decoded {
        Some(p) => Ok(p),
        None => Err(DecompressError::Corrupt),
    }
}

} // verus!
