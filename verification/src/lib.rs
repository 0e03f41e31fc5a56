//! Outbound frame encoder for a byte-oriented serial link.
//!
//! A command payload of at most 32 bytes is framed as
//! `FRAME_END, <escaped payload>, <escaped checksum>, FRAME_END` and handed
//! out one byte at a time, so the encoder can feed an interrupt-driven
//! transmit routine without allocating. Delimiter-valued bytes inside the
//! frame body are replaced by two-byte escape sequences, and the payload is
//! protected by a CRC-16/X25 checksum sent high byte first.

pub mod checksum;
pub mod encoder;
