//! A secure, transport-agnostic command channel between a lightweight
//! client and a long-running host. Every message is sealed with an
//! authenticated cipher under a pre-shared 256-bit key; on byte streams the
//! sealed messages travel in length-prefixed frames, while message-mode
//! transports carry them whole.
//!
//! The verified core is the envelope ([`crypto`]), the wire framing
//! ([`framing`]), the message shapes and their text encoding ([`protocol`],
//! [`codec`]), and the two ends of an exchange ([`server`], [`client`]).
//! Transports, key storage and the environment itself live outside the
//! library: the host's dispatcher works on a plain snapshot and hands back
//! an effect value for its caller to perform.

use vstd::prelude::*;

pub mod client;
pub mod codec;
pub mod crypto;
pub mod framing;
pub mod protocol;
pub mod server;
pub mod text;

verus! {

/// Errors of the secure channel, one variant per failure class.
#[derive(Debug, PartialEq, Eq, Clone, Copy)]
pub enum ChannelError {
    /// Transport-level read/write/connect/bind failure.
    IoError,
    /// A frame's declared length exceeds the configured ceiling.
    MessageTooLarge,
    /// A sealed message shorter than the minimum, or decrypted bytes
    /// that are not valid UTF-8.
    MalformedInput,
    /// AEAD tag verification failed.
    AuthenticationFailure,
    /// Decrypted text does not match any known message variant.
    ProtocolError,
    /// A collaborator-reported failure, surfaced as an error response.
    OperationError,
}

} // verus!
