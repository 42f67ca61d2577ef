//! An XMODEM file-transfer engine over an abstract duplex byte channel,
//! together with the small fixed-capacity vector and command parser that
//! surround it.
//!
//! The protocol core frames a byte stream into 132-byte packets (start-of-
//! header byte, sequence number, its complement, 128 payload bytes, additive
//! checksum), drives the send and receive handshakes with bounded retry, and
//! reports progress once per acknowledged packet.

pub mod codec;
pub mod channel;
pub mod progress;
pub mod xmodem;
pub mod stack_vec;
pub mod shell;
