//! The ways a seal or an open can fail.
use vstd::prelude::*;

verus! {

/// Why sealing or opening did not succeed.
#[derive(Debug, Clone, Copy, PartialEq, Eq, Structural)]
pub enum SboxError {
    /// The key material holds no key.
    NoUsableKeys,
    /// The scope or the key id of a message names no known key.
    UnknownKeyId,
    /// A field is not valid base-85 text.
    InvalidEncoding,
    /// A token does not have exactly four fields, or its header is not text.
    MalformedMessage,
    /// The tag does not authenticate the message.
    AuthenticationFailure,
}

} // verus!
