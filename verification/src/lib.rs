//! Core of a compressed web-graph reader in the BV format.
//!
//! The crate decodes, for any node `v` of a directed graph stored as a
//! compressed bitstream, its out-degree and its sorted successor list.  It is
//! layered: a word reader presents bytes as machine words, a bit reader
//! presents words as a bit stream, universal codes (unary, gamma, delta,
//! zeta, Rice, minimal binary) decode integers from bits, and the graph
//! layer reconstructs successor lists from copy blocks, interval runs and
//! residual deltas.

use vstd::prelude::*;

pub mod bits;
pub mod codes;
pub mod writer;
pub mod arc_list_graph;
pub mod bvcodec;
pub mod bvgraph;
pub mod properties;
pub mod perm;
pub mod encoder;

verus! {

/// Failures the core distinguishes at its API boundary.
#[derive(Clone, Copy, Debug, PartialEq, Eq, Structural)]
pub enum Error {
    /// Caller-side misuse, e.g. asking for more than 64 bits at once.
    BadArgument,
    /// A decoded structure violates an invariant of the format.
    CorruptStream,
    /// The backing storage failed; raised by callers that do I/O.
    IoError,
    /// The declared configuration is not supported by this decoder.
    FormatMismatch,
    /// A code was still incomplete when the backing ran out.
    UnexpectedEof,
}

} // verus!
