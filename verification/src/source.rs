//! Source-symbol windows.
//!
//! Both the encoder and the decoder hold their local set as a window of
//! source symbols, each with its precomputed fingerprint and its index
//! schedule cursor.  The spec functions here give the mathematical value of a
//! window and of the contribution a window makes to one coded-symbol slot.

use vstd::prelude::*;

use crate::schedule::IndexSchedule;
use crate::schedule::lemma_sched_next_increases;
use crate::schedule::prng_step;
use crate::schedule::sched_next;
use crate::symbol::byte_at;
use crate::symbol::xor_bytes;
use crate::symbol::zero_bytes;

verus! {

/// The mathematical value of one window entry: its byte content, its
/// fingerprint, and its schedule position.
pub ghost struct SourceModel {
    pub bytes: Seq<u8>,
    pub fp: u64,
    pub prng: u64,
    pub slot: u64,
}

/// One window entry: a source symbol, its fingerprint, and its schedule
/// cursor.
pub(crate) struct SourceEntry {
    pub symbol: Vec<u8>,
    pub fp: u64,
    pub sched: IndexSchedule,
}

impl SourceEntry {
    pub(crate) open spec fn model(&self) -> SourceModel {
        SourceModel {
            bytes: self.symbol@,
            fp: self.fp,
            prng: self.sched.prng,
            slot: self.sched.slot,
        }
    }
}

/// The mathematical value of a whole window.
pub(crate) open spec fn models(s: Seq<SourceEntry>) -> Seq<SourceModel> {
    s.map_values(|e: SourceEntry| e.model())
}

/// The XOR of `acc` with the bytes of every entry of `w` whose cursor stands
/// at `slot`, in window order.
pub open spec fn contrib_sym_from(acc: Seq<u8>, w: Seq<SourceModel>, slot: u64) -> Seq<u8>
    decreases w.len(),
{
    if w.len() == 0 {
        acc
    } else {
        let acc2 = if w.first().slot == slot {
            xor_bytes(acc, w.first().bytes)
        } else {
            acc
        };
        contrib_sym_from(acc2, w.drop_first(), slot)
    }
}

/// The XOR of `acc` with the fingerprint of every entry of `w` whose cursor
/// stands at `slot`.
pub open spec fn contrib_hash_from(acc: u64, w: Seq<SourceModel>, slot: u64) -> u64
    decreases w.len(),
{
    if w.len() == 0 {
        acc
    } else {
        let acc2 = if w.first().slot == slot {
            acc ^ w.first().fp
        } else {
            acc
        };
        contrib_hash_from(acc2, w.drop_first(), slot)
    }
}

/// `acc` plus the number of entries of `w` whose cursor stands at `slot`.
pub open spec fn contrib_count_from(acc: int, w: Seq<SourceModel>, slot: u64) -> int
    decreases w.len(),
{
    if w.len() == 0 {
        acc
    } else {
        let acc2 = if w.first().slot == slot {
            acc + 1
        } else {
            acc
        };
        contrib_count_from(acc2, w.drop_first(), slot)
    }
}

/// The contribution count lies between `acc` and `acc` plus the window
/// length.
pub proof fn lemma_contrib_count_bounds(acc: int, w: Seq<SourceModel>, slot: u64)
    ensures
        acc <= contrib_count_from(acc, w, slot) <= acc + w.len(),
    decreases w.len(),
{
    if w.len() == 0 {
    } else {
        if w.first().slot == slot {
            lemma_contrib_count_bounds(acc + 1, w.drop_first(), slot);
        } else {
            lemma_contrib_count_bounds(acc, w.drop_first(), slot);
        }
    }
}

/// One schedule step applied to a window entry's model.
pub open spec fn advance_model(m: SourceModel) -> SourceModel {
    SourceModel {
        bytes: m.bytes,
        fp: m.fp,
        prng: prng_step(m.prng),
        slot: sched_next(m.slot, prng_step(m.prng)),
    }
}

/// Every entry whose cursor stands at `slot` moves to its next schedule
/// index; the others are unchanged.
pub open spec fn advance_hits_model(w: Seq<SourceModel>, slot: u64) -> Seq<SourceModel> {
    w.map_values(
        |m: SourceModel|
            if m.slot == slot {
                advance_model(m)
            } else {
                m
            },
    )
}

/// The schedule state reached by advancing from `(prng, slot)` until the
/// cursor is at least `target`: where a symbol joins a session late, its
/// schedule is forwarded past the slots that were already produced.
pub open spec fn catch_up(prng: u64, slot: u64, target: int) -> (u64, u64)
    decreases u64::MAX - slot,
    when true
    via catch_up_decreases
{
    if slot >= target || slot == u64::MAX {
        (prng, slot)
    } else {
        let p = prng_step(prng);
        catch_up(p, sched_next(slot, p), target)
    }
}

#[via_fn]
proof fn catch_up_decreases(prng: u64, slot: u64, target: int) {
    if !(slot >= target || slot == u64::MAX) {
        lemma_sched_next_increases(slot, prng_step(prng));
    }
}

/// A fresh copy of a byte vector.
pub(crate) fn copy_bytes(v: &Vec<u8>) -> (r: Vec<u8>)
    ensures
        r@ == v@,
{
    let n = v.len();
    let mut out: Vec<u8> = Vec::new();
    let mut i: usize = 0;
    while i < n
        invariant
            i <= n,
            n == v@.len(),
            out@.len() == i,
            forall|k: int| 0 <= k < i ==> out@[k] == v@[k],
        decreases n - i,
    {
        out.push(v[i]);
        i = i + 1;
    }
    proof {
        assert(out@ =~= v@);
    }
    out
}

/// An all-zero byte vector of length `n`.
pub(crate) fn zero_vec(n: usize) -> (r: Vec<u8>)
    ensures
        r@ == zero_bytes(n as nat),
{
    let mut out: Vec<u8> = Vec::new();
    let mut i: usize = 0;
    while i < n
        invariant
            i <= n,
            out@.len() == i,
            forall|k: int| 0 <= k < i ==> out@[k] == 0u8,
        decreases n - i,
    {
        out.push(0u8);
        i = i + 1;
    }
    proof {
        assert(out@ =~= zero_bytes(n as nat));
    }
    out
}

/// An all-false flag vector of length `n`.
pub(crate) fn false_vec(n: usize) -> (r: Vec<bool>)
    ensures
        r@.len() == n,
        forall|k: int| 0 <= k < n ==> r@[k] == false,
{
    let mut out: Vec<bool> = Vec::new();
    let mut i: usize = 0;
    while i < n
        invariant
            i <= n,
            out@.len() == i,
            forall|k: int| 0 <= k < i ==> out@[k] == false,
        decreases n - i,
    {
        out.push(false);
        i = i + 1;
    }
    out
}

/// XOR the bytes of `b` into `acc` elementwise.
pub(crate) fn xor_into(acc: &mut Vec<u8>, b: &Vec<u8>)
    requires
        old(acc)@.len() == b@.len(),
    ensures
        final(acc)@ == xor_bytes(old(acc)@, b@),
{
    let n = acc.len();
    let mut i: usize = 0;
    while i < n
        invariant
            i <= n,
            n == b@.len(),
            acc@.len() == n,
            old(acc)@.len() == n,
            forall|k: int| 0 <= k < i ==> acc@[k] == (byte_at(old(acc)@, k) ^ byte_at(b@, k)),
            forall|k: int| i <= k < n ==> acc@[k] == old(acc)@[k],
        decreases n - i,
    {
        let x = acc[i] ^ b[i];
        acc[i] = x;
        i = i + 1;
    }
    proof {
        assert(acc@ =~= xor_bytes(old(acc)@, b@));
    }
}

/// The contribution a window makes to slot `slot`: the XOR of the bytes (over
/// an all-zero base of the session's symbol size), the XOR of the
/// fingerprints, and the number of contributing entries.
pub(crate) fn contribution_at(w: &Vec<SourceEntry>, slot: u64, size: usize) -> (r: (
    Vec<u8>,
    u64,
    usize,
))
    requires
        forall|j: int| 0 <= j < w@.len() ==> (#[trigger] w@[j].symbol@.len()) == size,
    ensures
        r.0@ == contrib_sym_from(zero_bytes(size as nat), models(w@), slot),
        r.1 == contrib_hash_from(0u64, models(w@), slot),
        r.2 == contrib_count_from(0, models(w@), slot),
        r.0@.len() == size,
{
    let n = w.len();
    let mut sym = zero_vec(size);
    let mut hash: u64 = 0;
    let mut count: usize = 0;
    let mut j: usize = 0;
    proof {
        assert(models(w@).skip(0) =~= models(w@));
    }
    while j < n
        invariant
            j <= n,
            n == w@.len(),
            forall|k: int| 0 <= k < n ==> (#[trigger] w@[k].symbol@.len()) == size,
            sym@.len() == size,
            count <= j,
            contrib_sym_from(zero_bytes(size as nat), models(w@), slot) == contrib_sym_from(
                sym@,
                models(w@).skip(j as int),
                slot,
            ),
            contrib_hash_from(0u64, models(w@), slot) == contrib_hash_from(
                hash,
                models(w@).skip(j as int),
                slot,
            ),
            contrib_count_from(0, models(w@), slot) == contrib_count_from(
                count as int,
                models(w@).skip(j as int),
                slot,
            ),
        decreases n - j,
    {
        proof {
            assert(models(w@).skip(j as int).first() == w@[j as int].model());
            assert(models(w@).skip(j as int).drop_first() =~= models(w@).skip(j as int + 1));
        }
        if w[j].sched.slot == slot {
            xor_into(&mut sym, &w[j].symbol);
            hash = hash ^ w[j].fp;
            count = count + 1;
        }
        j = j + 1;
    }
    proof {
        assert(models(w@).skip(n as int) =~= Seq::<SourceModel>::empty());
    }
    (sym, hash, count)
}

/// Advance the schedule cursor of every window entry that stands at `slot`.
pub(crate) fn advance_hits_at(w: &mut Vec<SourceEntry>, slot: u64)
    ensures
        final(w)@.len() == old(w)@.len(),
        models(final(w)@) == advance_hits_model(models(old(w)@), slot),
{
    let n = w.len();
    let mut j: usize = 0;
    while j < n
        invariant
            j <= n,
            n == w@.len(),
            n == old(w)@.len(),
            forall|k: int| j <= k < n ==> w@[k] == old(w)@[k],
            forall|k: int|
                0 <= k < j ==> (#[trigger] w@[k].model()) == advance_hits_model(
                    models(old(w)@),
                    slot,
                )[k],
        decreases n - j,
    {
        if w[j].sched.slot == slot {
            w[j].sched.advance();
        }
        j = j + 1;
    }
    proof {
        assert(models(w@) =~= advance_hits_model(models(old(w)@), slot));
    }
}

/// Forward a fresh schedule seeded from `fp` until its cursor is at least
/// `target`.
pub(crate) fn catch_up_sched(fp: u64, target: u64) -> (r: IndexSchedule)
    ensures
        (r.prng, r.slot) == catch_up(fp, 0, target as int),
        r.slot >= target,
{
    let mut sched = IndexSchedule::new(fp);
    while sched.slot < target
        invariant
            catch_up(fp, 0, target as int) == catch_up(sched.prng, sched.slot, target as int),
        decreases u64::MAX - sched.slot,
    {
        proof {
            lemma_sched_next_increases(sched.slot, prng_step(sched.prng));
        }
        sched.advance();
    }
    sched
}

} // verus!
