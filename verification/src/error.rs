//! Error kinds surfaced by the library.

use vstd::prelude::*;

verus! {

/// The failure kinds of the renderer and its codec.
///
/// Reads outside an image surface fail with `OutOfBounds`, while writes are
/// silently ignored; decoding rejects a header with a bad channel depth or
/// zero dimensions as `MalformedHeader`, an image type code outside the
/// supported set as `UnsupportedCodec`, and truncated pixel data as
/// `IoFailure`. `MeshParseFailure` covers face records whose indices point
/// outside the arrays seen so far.
#[derive(Clone, Copy, Debug, PartialEq, Eq, Structural)]
pub enum ErrorKind {
    IoFailure,
    MalformedHeader,
    UnsupportedCodec,
    OutOfBounds,
    MeshParseFailure,
}

} // verus!
