//! Passive HTTP/2 client fingerprinting.
//!
//! The preamble of an HTTP/2 connection is emitted by the client's HTTP library:
//! its SETTINGS, the increment of the connection's window, PRIORITY frames, and
//! the order of the pseudo-headers in the first request. This crate derives a
//! fingerprint from those bytes, of the form
//!
//! ```text
//! 1:65536;2:0;4:6291456;6:262144|15663105|0|m,a,s,p
//! ```
//!
//! * settings: the first SETTINGS frame that is no acknowledgement, as `id:value`
//!   joined by `;`, in the order sent;
//! * window: the increment of the first WINDOW_UPDATE of the connection, or `0`;
//! * priorities: PRIORITY frames as `stream:exclusive:dependency:weight` joined by
//!   `,`, or `0`;
//! * order: the pseudo-headers as letters, `m` for `:method`, `a` for
//!   `:authority`, `s` for `:scheme` and `p` for `:path`, joined by `,`, and empty
//!   if the order could not be told with certainty.
//!
//! A wrong fingerprint is worse than none. Anything unexpected ends sniffing
//! without a fingerprint, or leaves the order empty if only the header block was
//! in doubt.
//!
//! [`preamble`] holds the model: what the bytes of a connection come to. The
//! [`Sniffer`] computes it as bytes arrive, [`hpack`] reads the header block, and
//! a [`Tap`] drives the sniffer from the reads of a stream and publishes the
//! fingerprint through an [`outlet`]. [`laws`] and [`hpack_laws`] state what holds of
//! them together. [`wire`] says from the other side what a client writes and how a
//! reader takes a fingerprint apart, and [`wire_laws`] and [`block_laws`] prove that
//! the fingerprint says what the client wrote.

pub mod block_laws;
pub mod hpack;
pub mod hpack_laws;
pub mod laws;
pub mod outlet;
pub mod preamble;
pub mod sniffer;
pub mod tap;
pub mod text;
pub mod wire;
pub mod wire_laws;

pub use preamble::{PREFACE, SNIFF_LIMIT};
pub use sniffer::{Feed, Sniffer};
pub use tap::{Tap, Watch};
