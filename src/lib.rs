//! A WebSocket protocol library (RFC 6455): the frame codec, payload masking,
//! message assembly and the opening handshake, with their behaviour stated
//! as Verus contracts and proved.
//!
//! - `frame`: one frame to and from bytes.
//! - `mask`: the XOR mask on payloads.
//! - `message`: frames into messages and messages into frames.
//! - `headers`: header lists and comma-separated header values.
//! - `handshake`: the accept key and the checks on a server's reply.
//! - `client`: the client's opening request.
//! - `server`: the checks on a client's request and the server's replies.
//! - `error`: framing errors and their close codes.

pub mod client;
pub mod error;
pub mod frame;
pub mod handshake;
pub mod headers;
pub mod mask;
pub mod message;
pub mod server;
