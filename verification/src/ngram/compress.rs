//! zstd frames.

use vstd::prelude::*;

verus! {

/// The compression level of snapshots.
pub const SNAPSHOT_LEVEL: i32 = 3;

/// What `zstd::decode_all` makes of bytes: the content of the frames they are,
/// or nothing when they are not whole frames.
pub uninterp spec fn zstd_content(bytes: Seq<u8>) -> Option<Seq<u8>>;

/// The frame carries a checksum of its content: so says the third bit of the
/// descriptor, the byte behind the four magic ones.
pub open spec fn checksummed(frame: Seq<u8>) -> bool {
    frame.len() >= 5 && (frame[4] / 4) % 2 == 1
}

/// `zstd::decode_all`: the content depends on the bytes alone; every error is
/// reported as nothing.
#[verifier::external_body]
pub(crate) fn zstd_decode(bytes: &[u8]) -> (content: Option<Vec<u8>>)
    ensures
        match content {
            Some(c) => zstd_content(bytes@) == Some(c@),
            None => zstd_content(bytes@) is None,
        },
{
    zstd::decode_all(bytes).ok()
}

/// `zstd::stream::Encoder`: at whatever level, what it makes of bytes is one
/// frame, whose content is those bytes, and which carries a checksum exactly when
/// one is asked for. Which bytes the frame is made of otherwise is left open;
/// every error is reported as nothing.
#[verifier::external_body]
pub(crate) fn zstd_encode(content: &[u8], level: i32, checksum: bool) -> (frame: Option<Vec<u8>>)
    requires
        1 <= level <= 19,
    ensures
        match frame {
            Some(f) => zstd_content(f@) == Some(content@) && checksummed(f@) == checksum,
            None => true,
        },
{
    let mut encoder = zstd::stream::Encoder::new(Vec::new(), level).ok()?;
    encoder.include_checksum(checksum).ok()?;
    std::io::Write::write_all(&mut encoder, content).ok()?;
    encoder.finish().ok()
}

} // verus!
