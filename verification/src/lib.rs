//! Userspace RPC control for the Intel XMM7360 (Fibocom L850-GL) modem.
//!
//! The firmware speaks a reverse-engineered RPC protocol over the WWAN control
//! port of the in-tree `iosm` driver. This library holds the protocol logic:
//! the payload codec, request builders and response decoders, message framing
//! and the decisions of the bring-up sequence, each with a verified contract.

pub mod codec;
pub mod config;
pub mod digest;
pub mod error;
pub mod modem;
pub mod requests;
pub mod text;
pub mod transport;
