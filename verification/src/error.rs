use vstd::prelude::*;

verus! {

/// The ways in which an operation of this library can fail.
#[derive(Debug, Clone, Copy, PartialEq, Eq, Structural)]
pub enum DnsError {
    /// The bytes being decoded do not form what was expected at the cursor.
    MalformedPacket,
    /// The size limit cannot hold the header, or the header and the OPT record.
    SizeTooSmall,
    /// A label of a name is longer than 63 bytes.
    LabelTooLong,
    /// The data of a record does not fit its 16-bit length field.
    DataTooLong,
    /// A position lies outside the buffer.
    OutOfBounds,
    /// The record kind is not one the list can hold.
    InvalidKind,
    /// A list entry lacks a field its kind requires, or carries an unknown kind.
    InvalidListEntry,
    /// The upstream resolver could not be reached or did not answer properly.
    UpstreamFailure,
    /// The upstream resolver truncated its answer even over TCP.
    UpstreamTruncation,
}

} // verus!
