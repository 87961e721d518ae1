//! Coded symbols, resolved symbols, and the error taxonomy.

use vstd::prelude::*;

use crate::checksum::sip_of;
use crate::symbol::Symbol;

verus! {

/// The errors of the library.
#[derive(Clone, Copy, Debug, PartialEq, Eq, Structural)]
pub enum RibltError {
    /// A byte buffer whose length does not equal the session's configured
    /// symbol size was supplied.  The call is rejected and the state is left
    /// unchanged; the caller may retry with correct input.
    InvalidLength,
    /// An internal consistency violation during peeling: corruption of the
    /// coded-symbol stream or a fingerprint collision.  The session should be
    /// treated as compromised; already-resolved symbols remain valid.
    DecodeError,
}

/// A resolved symbol together with its fingerprint.
pub struct HashedSymbol {
    pub symbol: Symbol,
    pub hash: u64,
}

impl View for HashedSymbol {
    type V = (Seq<u8>, u64);

    open spec fn view(&self) -> (Seq<u8>, u64) {
        (self.symbol@, self.hash)
    }
}

/// The mathematical value of a coded symbol.
pub ghost struct CodedModel {
    pub bytes: Seq<u8>,
    pub hash: u64,
    pub count: i64,
}

/// One slot of the coded-symbol stream: the XOR of the symbols believed to
/// occupy the slot, the XOR of their fingerprints, and the signed count of
/// contributors (local contributions add 1, the peer's subtract 1).
pub struct CodedSymbol {
    pub symbol: Symbol,
    pub hash: u64,
    pub count: i64,
}

impl View for CodedSymbol {
    type V = CodedModel;

    open spec fn view(&self) -> CodedModel {
        CodedModel { bytes: self.symbol@, hash: self.hash, count: self.count }
    }
}

/// A working entry is settled when its contributors cancel completely: no
/// net count and no net fingerprint.
pub open spec fn settled(e: CodedModel) -> bool {
    e.count == 0 && e.hash == 0
}

/// A working entry is pure when exactly one net contributor survives (count
/// 1 for a local-only symbol, -1 for a remote-only one) and the surviving
/// bytes hash to the surviving fingerprint under the session key.
pub open spec fn pure_entry(e: CodedModel, k0: u64, k1: u64) -> bool {
    (e.count == 1 || e.count == -1) && e.hash == sip_of(k0, k1, e.bytes)
}

} // verus!
