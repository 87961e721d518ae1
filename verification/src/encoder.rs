//! The encoder: holds a local set and emits coded symbols on demand.

use vstd::prelude::*;

use crate::checksum::sip_hash;
use crate::checksum::sip_of;
use crate::coded::CodedModel;
use crate::coded::CodedSymbol;
use crate::coded::RibltError;
use crate::schedule::lemma_sched_next_increases;
use crate::schedule::prng_step;
use crate::source::SourceEntry;
use crate::source::SourceModel;
use crate::source::advance_hits_model;
use crate::source::catch_up;
use crate::source::catch_up_sched;
use crate::source::contrib_count_from;
use crate::source::contrib_hash_from;
use crate::source::contrib_sym_from;
use crate::source::contribution_at;
use crate::source::advance_hits_at;
use crate::source::copy_bytes;
use crate::source::lemma_contrib_count_bounds;
use crate::source::models;
use crate::symbol::Symbol;
use crate::symbol::zero_bytes;

verus! {

/// The model of the source symbol a window gains when `bytes` is added under
/// the keys `k0`, `k1` while the next slot to be produced is `next`: the
/// fingerprint is the keyed checksum of the bytes, and the schedule is
/// forwarded past the slots already produced.
pub open spec fn added_model(k0: u64, k1: u64, bytes: Seq<u8>, next: int) -> SourceModel {
    SourceModel {
        bytes: bytes,
        fp: sip_of(k0, k1, bytes),
        prng: catch_up(sip_of(k0, k1, bytes), 0, next).0,
        slot: catch_up(sip_of(k0, k1, bytes), 0, next).1,
    }
}

/// Turns a local set of fixed-size symbols into an unbounded sequence of
/// coded symbols, one per slot index starting at 0.
pub struct Encoder {
    symbol_size: usize,
    k0: u64,
    k1: u64,
    window: Vec<SourceEntry>,
    next_slot: u64,
}

impl Encoder {
    /// The session's configured symbol size.
    pub closed spec fn size_spec(&self) -> usize {
        self.symbol_size
    }

    /// The first word of the checksum key.
    pub closed spec fn key0(&self) -> u64 {
        self.k0
    }

    /// The second word of the checksum key.
    pub closed spec fn key1(&self) -> u64 {
        self.k1
    }

    /// The models of the local set, in insertion order.
    pub closed spec fn sources(&self) -> Seq<SourceModel> {
        models(self.window@)
    }

    /// The index of the next coded symbol to be produced.
    pub closed spec fn produced(&self) -> u64 {
        self.next_slot
    }

    /// Well-formedness: every window entry holds exactly `symbol_size` bytes,
    /// no cursor is behind the next slot to produce, and the window is small
    /// enough for a contributor count to fit a signed 64-bit word.
    pub closed spec fn wf(&self) -> bool {
        &&& forall|j: int|
            0 <= j < self.sources().len() ==> (#[trigger] self.sources()[j].bytes.len())
                == self.symbol_size
        &&& forall|j: int|
            0 <= j < self.sources().len() ==> (#[trigger] self.sources()[j].slot)
                >= self.next_slot
        &&& self.sources().len() < 0x7fff_ffff_ffff_ffff
    }

    /// The state of a freshly constructed encoder with the given
    /// configuration: an empty set and slot counter 0.
    pub open spec fn is_fresh(&self, symbol_size: usize, k0: u64, k1: u64) -> bool {
        &&& self.size_spec() == symbol_size
        &&& self.key0() == k0
        &&& self.key1() == k1
        &&& self.sources() == Seq::<SourceModel>::empty()
        &&& self.produced() == 0
    }

    /// A new encoder for a session with the given symbol size and checksum
    /// key.
    pub fn new(symbol_size: usize, k0: u64, k1: u64) -> (r: Encoder)
        ensures
            r.wf(),
            r.is_fresh(symbol_size, k0, k1),
    {
        let r = Encoder { symbol_size, k0, k1, window: Vec::new(), next_slot: 0 };
        proof {
            assert(r.sources() =~= Seq::<SourceModel>::empty());
        }
        r
    }

    /// Add a symbol to the local set.  Fails with `InvalidLength`, leaving
    /// the state unchanged, exactly when the buffer's length is not the
    /// session's symbol size.  Already-produced coded symbols are not
    /// patched: the new symbol participates from the next coded symbol
    /// onward.
    pub fn add_symbol(&mut self, bytes: &Vec<u8>) -> (r: Result<(), RibltError>)
        requires
            old(self).wf(),
            old(self).sources().len() + 1 < 0x7fff_ffff_ffff_ffff,
        ensures
            final(self).wf(),
            final(self).size_spec() == old(self).size_spec(),
            final(self).key0() == old(self).key0(),
            final(self).key1() == old(self).key1(),
            final(self).produced() == old(self).produced(),
            bytes@.len() != old(self).size_spec() ==> (r == Err::<(), RibltError>(
                RibltError::InvalidLength,
            ) && final(self).sources() == old(self).sources()),
            bytes@.len() == old(self).size_spec() ==> (r == Ok::<(), RibltError>(())
                && final(self).sources() == old(self).sources().push(
                added_model(
                    old(self).key0(),
                    old(self).key1(),
                    bytes@,
                    old(self).produced() as int,
                ),
            )),
    {
        if bytes.len() != self.symbol_size {
            return Err(RibltError::InvalidLength);
        }
        let buf = copy_bytes(bytes);
        let fp = sip_hash(self.k0, self.k1, &buf);
        let sched = catch_up_sched(fp, self.next_slot);
        let entry = SourceEntry { symbol: buf, fp, sched };
        self.window.push(entry);
        proof {
            assert(self.sources() =~= old(self).sources().push(
                added_model(
                    old(self).key0(),
                    old(self).key1(),
                    bytes@,
                    old(self).produced() as int,
                ),
            ));
        }
        Ok(())
    }

    /// Produce the coded symbol for the next unseen slot: the XOR of every
    /// local symbol whose schedule includes the slot, the XOR of their
    /// fingerprints, and the (non-negative) number of contributors.  The
    /// contributing cursors advance past the slot.
    pub fn produce_next_coded_symbol(&mut self) -> (r: CodedSymbol)
        requires
            old(self).wf(),
            old(self).produced() < u64::MAX,
        ensures
            final(self).wf(),
            final(self).size_spec() == old(self).size_spec(),
            final(self).key0() == old(self).key0(),
            final(self).key1() == old(self).key1(),
            final(self).produced() == old(self).produced() + 1,
            final(self).sources() == advance_hits_model(old(self).sources(), old(self).produced()),
            r@ == (CodedModel {
                bytes: contrib_sym_from(
                    zero_bytes(old(self).size_spec() as nat),
                    old(self).sources(),
                    old(self).produced(),
                ),
                hash: contrib_hash_from(0u64, old(self).sources(), old(self).produced()),
                count: contrib_count_from(0, old(self).sources(), old(self).produced()) as i64,
            }),
            r@.bytes.len() == old(self).size_spec(),
            r@.count == contrib_count_from(0, old(self).sources(), old(self).produced()),
            0 <= r@.count <= old(self).sources().len(),
    {
        let slot = self.next_slot;
        proof {
            assert forall|j: int| 0 <= j < self.window@.len() implies (
            #[trigger] self.window@[j].symbol@.len()) == self.symbol_size by {
                assert(self.sources()[j].bytes.len() == self.symbol_size);
                assert(self.sources()[j] == self.window@[j].model());
            }
        }
        let (sym, hash, count) = contribution_at(&self.window, slot, self.symbol_size);
        proof {
            lemma_contrib_count_bounds(0, self.sources(), slot);
        }
        advance_hits_at(&mut self.window, slot);
        self.next_slot = slot + 1;
        proof {
            assert forall|j: int| 0 <= j < self.sources().len() implies (
            #[trigger] self.sources()[j].slot) >= self.next_slot by {
                let m = old(self).sources()[j];
                if m.slot == slot {
                    lemma_sched_next_increases(m.slot, prng_step(m.prng));
                }
            }
        }
        CodedSymbol { symbol: Symbol { bytes: sym }, hash, count: count as i64 }
    }

    /// Clear the local set and the slot counter back to the initial state.
    pub fn reset(&mut self)
        ensures
            final(self).wf(),
            final(self).is_fresh(old(self).size_spec(), old(self).key0(), old(self).key1()),
    {
        self.window = Vec::new();
        self.next_slot = 0;
        proof {
            assert(self.sources() =~= Seq::<SourceModel>::empty());
        }
    }
}

/// Law: a reset encoder behaves exactly as a freshly constructed one with
/// the same configuration.  Every contract of the encoder speaks only of its
/// set models, its slot counter and its configuration, and two fresh
/// encoders agree on all of them, so the coded symbols they go on to emit
/// for the same added symbols are equal.
pub proof fn lemma_fresh_encoders_agree(
    a: Encoder,
    b: Encoder,
    symbol_size: usize,
    k0: u64,
    k1: u64,
)
    requires
        a.is_fresh(symbol_size, k0, k1),
        b.is_fresh(symbol_size, k0, k1),
    ensures
        a.sources() == b.sources(),
        a.produced() == b.produced(),
        a.size_spec() == b.size_spec(),
        a.key0() == b.key0(),
        a.key1() == b.key1(),
{
}

} // verus!
