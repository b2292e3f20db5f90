use vstd::prelude::*;

verus! {

/// Transport-level error classes the framer can surface. The model transport
/// cannot fail arbitrarily, so the only kind the framer itself raises is
/// `UnexpectedEof`; `Other` is for adapters that carry foreign failures.
#[derive(Debug, Clone, Copy, PartialEq, Eq, Structural)]
pub enum IoErrorKind {
    UnexpectedEof,
    Other,
}

/// AEAD protocol error taxonomy.
///
/// `HeaderTooShort` is reserved for callers that validate decoded address
/// headers; the framer itself never raises it. All non-`IoError` variants are
/// fatal for the connection.
#[derive(Debug, Clone, Copy, PartialEq, Eq, Structural)]
pub enum ProtocolError {
    IoError(IoErrorKind),
    HeaderTooShort(usize, usize),
    DecryptDataError,
    DecryptLengthError,
    DataTooLong(usize),
}

/// The I/O error class a protocol error collapses to for callers that only
/// expose an I/O error channel: transport errors pass through by kind,
/// every other variant becomes the generic kind.
pub fn protocol_to_io_kind(e: ProtocolError) -> (r: IoErrorKind)
    ensures
        r == (match e {
            ProtocolError::IoError(k) => k,
            _ => IoErrorKind::Other,
        }),
{
    match e {
        ProtocolError::IoError(k) => k,
        _ => IoErrorKind::Other,
    }
}

} // verus!
