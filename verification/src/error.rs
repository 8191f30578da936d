use vstd::prelude::*;

verus! {

/// Everything that can go wrong in the codec, the transport and the
/// command layers.  Framing, checksum and sequence errors are local to one
/// receive attempt; channel faults end the current operation.
#[derive(Clone, Copy, Debug, PartialEq, Eq, Structural)]
pub enum SbtError {
    /// Fewer than 4 bytes, or the start or end delimiter is wrong.
    MalformedFrame,
    /// The checksum recomputed over the escaped payload disagrees with the
    /// transmitted checksum byte.
    ChecksumMismatch,
    /// The channel refused a write.
    WriteFailure,
    /// Every retry of an acknowledged send ran out without an ACK.
    AckTimeout,
    /// The channel ran out of bytes before a complete frame was seen.
    ReceiveTimeout,
    /// A fragment arrived with an empty payload, which cannot even hold the
    /// sequence byte.
    EmptyPacket,
    /// A fragment arrived with a sequence byte other than the expected one.
    OutOfOrder,
    /// A response buffer too short for its header, or an argument whose
    /// declared length overruns the buffer.
    MalformedResponse,
}

impl SbtError {
    /// A short description of the error.
    pub fn message(&self) -> &'static str {
        match self {
            SbtError::MalformedFrame => "Invalid packet structure",
            SbtError::ChecksumMismatch => "Checksum mismatch",
            SbtError::WriteFailure => "Failed to send packet",
            SbtError::AckTimeout => "Failed to send packet after retries",
            SbtError::ReceiveTimeout => "Failed to receive packet",
            SbtError::EmptyPacket => "Empty packet received",
            SbtError::OutOfOrder => "Packet sequence out of order",
            SbtError::MalformedResponse => "Malformed response",
        }
    }
}

} // verus!
