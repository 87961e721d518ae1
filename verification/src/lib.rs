//! Rateless IBLT set reconciliation.
//!
//! Two parties, each holding a finite set of fixed-size records, discover the
//! symmetric difference of their sets by exchanging a stream of small "coded
//! symbols" -- without either side transmitting its full set.  An [`Encoder`]
//! turns a local set into an unbounded, resumable sequence of coded symbols;
//! a [`Decoder`] ingests the peer's coded symbols, combines them with its own
//! local contribution, and incrementally peels out the records that only one
//! side holds.
//!
//! [`Encoder`]: encoder::Encoder
//! [`Decoder`]: decoder::Decoder

pub mod symbol;
pub mod checksum;
pub mod schedule;
pub mod coded;
pub mod source;
pub mod encoder;
pub mod decoder;

pub use coded::CodedSymbol;
pub use coded::HashedSymbol;
pub use coded::RibltError;
pub use decoder::Decoder;
pub use encoder::Encoder;
pub use schedule::IndexSchedule;
pub use symbol::Symbol;
