//! Publication core of a market-data writer: a fixed-point price parser, the
//! shared-memory header and slot layout, the single-writer seqlock protocol
//! of a quote slot, the symbol tables, and the decisions of the upstream
//! connection supervisor and of the per-quote write path.
//!
//! I/O, the memory mapping, atomics and the network transport are left to
//! the caller; every function here is verified against its contract.

pub mod price;
pub mod shm;
pub mod slot;
pub mod symbols;
pub mod text;
pub mod ws;
