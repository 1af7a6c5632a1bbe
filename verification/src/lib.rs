//! A verified byte-stream writer for a narrow, word-oriented trace port.
//!
//! The port accepts 8-, 16- and 32-bit writes and must be polled for
//! readiness before each one.  The writer splits an arbitrary byte buffer
//! into at most one leading byte, at most one leading halfword, a run of
//! whole words, and at most one trailing halfword and trailing byte, so
//! that every byte is emitted exactly once, in order, with the fewest
//! possible transfers.

pub mod itm;
pub mod plan;
pub mod port;

pub use itm::Aligned;
pub use itm::forward_rendered;
pub use itm::write_aligned;
pub use itm::write_all;
pub use itm::write_fmt;
pub use itm::write_str;
pub use port::Port;
pub use port::WriteOp;
