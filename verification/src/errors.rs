use vstd::prelude::*;

verus! {

/// The ways an embedding or extraction can fail. All are reported to the
/// caller; none aborts the process.
#[derive(Clone, Copy, Debug, PartialEq, Eq, Structural)]
pub enum CodecError {
    /// The payload, once framed and packed into symbols, needs more
    /// blue-channel slots than the buffer provides.
    CapacityExceeded,
    /// The decoded byte stream contains no magic marker: the buffer holds
    /// no payload at all, as opposed to a damaged one.
    NoPayloadFound,
    /// A magic marker was found, but fewer than eight bytes follow its
    /// starting position, so the length field is incomplete.
    TruncatedHeader,
    /// The declared payload length exceeds the bytes remaining after the
    /// header.
    PayloadOverrun,
    /// Checksum-encoded data shorter than the configured checksum length.
    TooShort,
}

} // verus!
