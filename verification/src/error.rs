//! Error type shared by the library.
use vstd::prelude::*;

use crate::codec::CodecError;

verus! {

/// The operating system's I/O error, carried through unchanged.
#[verifier::external_type_specification]
#[verifier::external_body]
pub struct ExIoError(std::io::Error);

/// Errors returned by modem bring-up.
#[derive(Debug)]
pub enum Error {
    /// An operating-system call failed.
    Io(std::io::Error),
    /// A firmware payload could not be encoded or decoded.
    Codec(CodecError),
    /// The firmware responded in a way the protocol did not expect.
    Protocol(String),
    /// The configured configuration file could not be used.
    Config(String),
    /// The firmware did not answer within the allowed time.
    Timeout,
    /// The network refused the packet-data attach.
    AttachRefused,
    /// No address was assigned within the configured timeout.
    NoIp,
    /// The requested WWAN interface does not exist.
    InterfaceNotFound(String),
    /// A netlink request failed.
    Netlink(String),
    /// The modem could not be FCC-unlocked.
    FccUnlock,
}

impl Error {
    /// The process exit code this error maps to.
    ///
    /// Attach refusals and missing addresses are ordinary "no connectivity"
    /// conditions (exit code 2); everything else is a hard failure (exit code 1).
    pub fn exit_code(&self) -> (code: u8)
        ensures
            code == (if self is AttachRefused || self is NoIp {
                2u8
            } else {
                1u8
            }),
    {
        match self {
            Error::AttachRefused | Error::NoIp => 2,
            _ => 1,
        }
    }

    /// A netlink error with the given description.
    pub fn netlink(message: String) -> (e: Self)
        ensures
            e == Error::Netlink(message),
    {
        Error::Netlink(message)
    }
}

} // verus!
