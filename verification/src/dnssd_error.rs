use vstd::prelude::*;

verus! {

/// Every fault the library can report: transport errors surfaced by the
/// socket layer, and the parse faults that make a packet undecodable.
/// Parse faults are always isolated to the one offending packet.
#[derive(Copy, Clone, Debug, PartialEq, Eq, Structural)]
pub enum DnsSdError {
    Timeout,
    UdpSocketError,
    InvalidDnsSdHeader,
    NotDnsSdResponse,
    NoAnswers,
    InvalidMdnsType,
    LabelToLong,
    InvalidUtf8,
    LabelCompressionLoop,
    LabelPtrForward,
    LabelInvalid,
    InvalidDnsSdResponse,
}

} // verus!
