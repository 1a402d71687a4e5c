//! P-256 points as they travel over the channel: their SEC1 octet-string encoding,
//! checked by `p256` when the bytes come in.
use vstd::prelude::*;

verus! {

/// Whether `b` is a SEC1 point encoding for a curve with 32-byte field elements: the
/// identity (`0x00` alone), a compressed or compact point (tag `0x02`, `0x03` or `0x05`
/// and one coordinate), or an uncompressed point (tag `0x04` and two coordinates).
pub open spec fn sec1_valid(b: Seq<u8>) -> bool {
    &&& b.len() >= 1
    &&& {
        ||| (b[0] == 0 && b.len() == 1)
        ||| ((b[0] == 2 || b[0] == 3 || b[0] == 5) && b.len() == 33)
        ||| (b[0] == 4 && b.len() == 65)
    }
}

/// The bytes of a point that passed the SEC1 checks.
pub struct EncodedPointBytes {
    pub bytes: Vec<u8>,
}

/// Why received bytes are not a point.
#[derive(Debug, Clone, Copy, PartialEq, Eq, Structural)]
pub enum PointDecodeError {
    /// The tag byte is unknown, or the length does not match the tag.
    PointEncoding,
}

/// `p256::EncodedPoint::from_bytes` (that is `sec1::point::EncodedPoint::from_bytes` with
/// 32-byte coordinates), followed by `as_bytes` on the point it returns. The source
/// accepts exactly the tags 0, 2, 3, 4 and 5 with the lengths 1, 33, 33, 65 and 33, and
/// keeps the input bytes as they are; the crate's error, which `p256` does not name, is
/// turned into `None`.
#[verifier::external_body]
fn sec1_from_bytes(bytes: &[u8]) -> (r: Option<Vec<u8>>)
    ensures
        r is Some <==> sec1_valid(bytes@),
        r matches Some(v) ==> v@ == bytes@,
{
    match p256::EncodedPoint::from_bytes(bytes) {
        Ok(p) => Some(p.as_bytes().to_vec()),
        Err(_) => None,
    }
}

/// Reads a point from the bytes received for it: `Ok` with those bytes exactly when they
/// are a SEC1 encoding of a P-256 point, `PointEncoding` otherwise.
pub fn decode_point(bytes: &[u8]) -> (r: Result<EncodedPointBytes, PointDecodeError>)
    ensures
        r is Ok <==> sec1_valid(bytes@),
        r matches Ok(p) ==> p.bytes@ == bytes@,
        r matches Err(e) ==> e == PointDecodeError::PointEncoding,
{
    match sec1_from_bytes(bytes) {
        Some(v) => Ok(EncodedPointBytes { bytes: v }),
        None => Err(PointDecodeError::PointEncoding),
    }
}

} // verus!
