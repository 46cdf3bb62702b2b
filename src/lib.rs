//! Authenticated sealing of byte payloads under named, rotating keyrings.
pub mod base85;
pub mod error;
pub mod spritz;
mod text;
pub mod keyring;
pub mod header;
pub mod protocol;
