//! Error kinds of the framing layer and of the handshake.

use vstd::prelude::*;

verus! {

/// A violation of the framing rules found while reading frames or messages.
#[derive(Clone, Copy, Debug, PartialEq, Eq, Structural)]
pub enum ProtocolError {
    BadOpcode,
    BadRsv,
    BadFragmentation,
    BadControlSize,
    UnexpectedContinuation,
    UnexpectedNewData,
    InvalidUtf8,
    InvalidCloseCode,
    MaskPolicyViolation,
    LengthOverflow,
    /// A frame or an assembled message exceeds the configured ceiling.
    TooBig,
}

pub const CLOSE_PROTOCOL_ERROR: u16 = 1002;

pub const CLOSE_INVALID_PAYLOAD: u16 = 1007;

pub const CLOSE_TOO_BIG: u16 = 1009;

/// The close status that answers an error on the read path.
pub open spec fn close_code_of(e: ProtocolError) -> u16 {
    match e {
        ProtocolError::InvalidUtf8 => CLOSE_INVALID_PAYLOAD,
        ProtocolError::TooBig => CLOSE_TOO_BIG,
        _ => CLOSE_PROTOCOL_ERROR,
    }
}

impl ProtocolError {
    /// The close status to send before closing the connection on this error.
    pub fn close_code(&self) -> (r: u16)
        ensures
            r == close_code_of(*self),
    {
        match self {
            ProtocolError::InvalidUtf8 => CLOSE_INVALID_PAYLOAD,
            ProtocolError::TooBig => CLOSE_TOO_BIG,
            _ => CLOSE_PROTOCOL_ERROR,
        }
    }
}

} // verus!
