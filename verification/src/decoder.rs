//! The decoder: ingests the peer's coded symbols, combines them with its own
//! local contribution, and peels out the symmetric difference.
//!
//! The working table holds one entry per slot.  When a peer coded symbol for
//! the next slot arrives, the entry is formed by XOR-ing the peer's bytes and
//! fingerprint with the decoder's own contribution for that slot and
//! subtracting the peer's count; contributions of symbols that were already
//! resolved are removed in the same step, so an entry only ever reflects the
//! unresolved difference.  Peeling repeatedly finds a pure entry (net count
//! 1 or -1 whose bytes hash to its fingerprint), moves the surviving symbol
//! into the resolved local-only or remote-only collection, and removes its
//! contribution from every materialized slot of its schedule.

use vstd::prelude::*;

use crate::checksum::sip_hash;
use crate::checksum::sip_of;
use crate::coded::CodedModel;
use crate::coded::CodedSymbol;
use crate::coded::HashedSymbol;
use crate::coded::RibltError;
use crate::coded::pure_entry;
use crate::coded::settled;
use crate::encoder::added_model;
use crate::schedule::IndexSchedule;
use crate::schedule::lemma_sched_next_increases;
use crate::schedule::prng_step;
use crate::schedule::sched_next;
use crate::source::catch_up;
use crate::source::SourceEntry;
use crate::source::SourceModel;
use crate::source::advance_hits_at;
use crate::source::advance_hits_model;
use crate::source::contrib_count_from;
use crate::source::contrib_hash_from;
use crate::source::contrib_sym_from;
use crate::source::contribution_at;
use crate::source::copy_bytes;
use crate::source::false_vec;
use crate::source::catch_up_sched;
use crate::source::models;
use crate::symbol::Symbol;
use crate::symbol::byte_at;
use crate::symbol::lemma_byte_at_xor;
use crate::symbol::lemma_u64_xor_laws;
use crate::symbol::lemma_u8_xor_laws;
use crate::symbol::is_zero_bytes;
use crate::symbol::xor_bytes;
use crate::symbol::zero_bytes;

verus! {

/// The net count of the working entry for slot `s`, before it is clamped to
/// a signed 64-bit word: the decoder's own contributors add 1 each, the
/// peer's subtract 1 each, and contributors already resolved are taken back
/// out.
pub open spec fn merged_count(
    w: Seq<SourceModel>,
    rem: Seq<SourceModel>,
    loc: Seq<SourceModel>,
    c: CodedModel,
    s: u64,
) -> int {
    contrib_count_from(0, w, s) - c.count + contrib_count_from(0, rem, s) - contrib_count_from(
        0,
        loc,
        s,
    )
}

/// The working entry for slot `s`, formed from the decoder's own window `w`,
/// the resolved remote-only and local-only collections `rem` and `loc`, and
/// the peer's coded symbol `c`.
pub open spec fn merged_entry(
    n: nat,
    w: Seq<SourceModel>,
    rem: Seq<SourceModel>,
    loc: Seq<SourceModel>,
    c: CodedModel,
    s: u64,
) -> CodedModel {
    CodedModel {
        bytes: xor_bytes(
            xor_bytes(
                xor_bytes(contrib_sym_from(zero_bytes(n), w, s), c.bytes),
                contrib_sym_from(zero_bytes(n), rem, s),
            ),
            contrib_sym_from(zero_bytes(n), loc, s),
        ),
        hash: contrib_hash_from(0u64, w, s) ^ c.hash ^ contrib_hash_from(0u64, rem, s)
            ^ contrib_hash_from(0u64, loc, s),
        count: merged_count(w, rem, loc, c, s) as i64,
    }
}

/// The number of `true` flags in a sequence.
pub open spec fn count_trues(s: Seq<bool>) -> nat
    decreases s.len(),
{
    if s.len() == 0 {
        0
    } else {
        count_trues(s.drop_last()) + if s.last() {
            1nat
        } else {
            0nat
        }
    }
}

proof fn lemma_count_trues_le(s: Seq<bool>)
    ensures
        count_trues(s) <= s.len(),
    decreases s.len(),
{
    if s.len() > 0 {
        lemma_count_trues_le(s.drop_last());
    }
}

proof fn lemma_count_trues_update(s: Seq<bool>, j: int)
    requires
        0 <= j < s.len(),
        !s[j],
    ensures
        count_trues(s.update(j, true)) == count_trues(s) + 1,
    decreases s.len(),
{
    let t = s.update(j, true);
    if j == s.len() - 1 {
        assert(t.drop_last() =~= s.drop_last());
    } else {
        assert(t.drop_last() =~= s.drop_last().update(j, true));
        lemma_count_trues_update(s.drop_last(), j);
    }
}

proof fn lemma_count_trues_zero(s: Seq<bool>)
    requires
        forall|k: int| 0 <= k < s.len() ==> !s[k],
    ensures
        count_trues(s) == 0,
    decreases s.len(),
{
    if s.len() > 0 {
        lemma_count_trues_zero(s.drop_last());
    }
}

proof fn lemma_count_trues_pos(s: Seq<bool>, j: int)
    requires
        0 <= j < s.len(),
        s[j],
    ensures
        count_trues(s) >= 1,
    decreases s.len(),
{
    if j < s.len() - 1 {
        lemma_count_trues_pos(s.drop_last(), j);
    }
}

/// The mathematical value of a working table.
pub open spec fn coded_views(s: Seq<CodedSymbol>) -> Seq<CodedModel> {
    s.map_values(|c: CodedSymbol| c@)
}

/// The first slot at or after `i` whose working entry is pure, if any.
pub open spec fn first_pure_from(table: Seq<CodedModel>, k0: u64, k1: u64, i: int) -> Option<int>
    decreases table.len() - i,
{
    if i >= table.len() {
        None
    } else if pure_entry(table[i], k0, k1) {
        Some(i)
    } else {
        first_pure_from(table, k0, k1, i + 1)
    }
}

proof fn lemma_first_pure_some(table: Seq<CodedModel>, k0: u64, k1: u64, i: int, j: int)
    requires
        0 <= i,
        first_pure_from(table, k0, k1, i) == Some(j),
    ensures
        i <= j < table.len(),
        pure_entry(table[j], k0, k1),
    decreases table.len() - i,
{
    if i < table.len() && !pure_entry(table[i], k0, k1) {
        lemma_first_pure_some(table, k0, k1, i + 1, j);
    }
}

proof fn lemma_first_pure_none(table: Seq<CodedModel>, k0: u64, k1: u64, i: int)
    requires
        0 <= i,
        forall|k: int| 0 <= k < table.len() ==> !pure_entry(#[trigger] table[k], k0, k1),
    ensures
        first_pure_from(table, k0, k1, i) == None::<int>,
    decreases table.len() - i,
{
    if i < table.len() {
        assert(!pure_entry(table[i], k0, k1));
        lemma_first_pure_none(table, k0, k1, i + 1);
    }
}

/// A resolved symbol as it enters a resolved collection: its bytes, its
/// fingerprint, and its schedule forwarded past the `len` slots already
/// materialized, for the slots still to come.
pub open spec fn resolved_model(bytes: Seq<u8>, fp: u64, len: int) -> SourceModel {
    SourceModel { bytes, fp, prng: catch_up(fp, 0, len).0, slot: catch_up(fp, 0, len).1 }
}

/// The working table after a resolved symbol's contribution is removed along
/// its schedule from the cursor `(prng, slot)` on: at every materialized
/// schedule slot the bytes and fingerprint are XOR-ed out and the count is
/// adjusted by one against the side the symbol was resolved to.  `Err`
/// carries the table as it stood when a count left the signed 64-bit range.
pub open spec fn walk_result(
    table: Seq<CodedModel>,
    bytes: Seq<u8>,
    fp: u64,
    to_local: bool,
    prng: u64,
    slot: u64,
) -> Result<Seq<CodedModel>, Seq<CodedModel>>
    decreases u64::MAX - slot,
    when true
    via walk_result_decreases
{
    if slot >= table.len() || slot == u64::MAX {
        Ok(table)
    } else {
        let e = table[slot as int];
        let nc = if to_local {
            e.count - 1
        } else {
            e.count + 1
        };
        if nc < i64::MIN || nc > i64::MAX {
            Err(table)
        } else {
            let e2 = CodedModel {
                bytes: xor_bytes(e.bytes, bytes),
                hash: e.hash ^ fp,
                count: nc as i64,
            };
            let p2 = prng_step(prng);
            walk_result(table.update(slot as int, e2), bytes, fp, to_local, p2, sched_next(slot, p2))
        }
    }
}

#[via_fn]
proof fn walk_result_decreases(
    table: Seq<CodedModel>,
    bytes: Seq<u8>,
    fp: u64,
    to_local: bool,
    prng: u64,
    slot: u64,
) {
    if !(slot >= table.len() || slot == u64::MAX) {
        lemma_sched_next_increases(slot, prng_step(prng));
    }
}

/// The outcome of a full peeling drain: whether it succeeded, and the
/// working table and the two resolved collections it leaves behind.
pub ghost struct DrainOutcome {
    pub ok: bool,
    pub table: Seq<CodedModel>,
    pub remote: Seq<SourceModel>,
    pub local: Seq<SourceModel>,
}

/// The peeling drain as a function of the working state: repeatedly take the
/// first pure entry, place its pair into the local collection when its count
/// is 1 and into the remote one when it is -1, and remove its contribution
/// from every materialized slot of its schedule.  The drain succeeds when no
/// pure entry remains; it fails, leaving the state as it stood, when a slot
/// turns pure again after it was already resolved in this drain or a count
/// leaves the signed 64-bit range -- both determined by the initial state
/// alone.
pub open spec fn drain(
    table: Seq<CodedModel>,
    rem: Seq<SourceModel>,
    loc: Seq<SourceModel>,
    used: Seq<bool>,
    k0: u64,
    k1: u64,
) -> DrainOutcome
    decreases used.len() - count_trues(used),
    when true
    via drain_decreases
{
    match first_pure_from(table, k0, k1, 0) {
        None => DrainOutcome { ok: true, table, remote: rem, local: loc },
        Some(j) => {
            if j >= used.len() || used[j] {
                DrainOutcome { ok: false, table, remote: rem, local: loc }
            } else {
                let e = table[j];
                let to_local = e.count == 1;
                let m = resolved_model(e.bytes, e.hash, table.len() as int);
                let rem2 = if to_local {
                    rem
                } else {
                    rem.push(m)
                };
                let loc2 = if to_local {
                    loc.push(m)
                } else {
                    loc
                };
                match walk_result(table, e.bytes, e.hash, to_local, e.hash, 0) {
                    Err(t) => DrainOutcome { ok: false, table: t, remote: rem2, local: loc2 },
                    Ok(t) => drain(t, rem2, loc2, used.update(j, true), k0, k1),
                }
            }
        },
    }
}

#[via_fn]
proof fn drain_decreases(
    table: Seq<CodedModel>,
    rem: Seq<SourceModel>,
    loc: Seq<SourceModel>,
    used: Seq<bool>,
    k0: u64,
    k1: u64,
) {
    match first_pure_from(table, k0, k1, 0) {
        None => {},
        Some(j) => {
            if !(j >= used.len() || used[j]) {
                lemma_first_pure_some(table, k0, k1, 0, j);
                lemma_count_trues_update(used, j);
                lemma_count_trues_le(used);
                lemma_count_trues_le(used.update(j, true));
            }
        },
    }
}

/// Law: a working table with no pure entry has nothing to peel: the drain
/// succeeds and leaves every part of the state unchanged.
pub proof fn lemma_no_pure_drain(
    table: Seq<CodedModel>,
    rem: Seq<SourceModel>,
    loc: Seq<SourceModel>,
    used: Seq<bool>,
    k0: u64,
    k1: u64,
)
    requires
        forall|k: int| 0 <= k < table.len() ==> !pure_entry(#[trigger] table[k], k0, k1),
    ensures
        drain(table, rem, loc, used, k0, k1) == (DrainOutcome {
            ok: true,
            table: table,
            remote: rem,
            local: loc,
        }),
{
    lemma_first_pure_none(table, k0, k1, 0);
}

/// Law: completion is stable under the drain.  Once every working entry has
/// cancelled completely -- as after ingesting the slot-0 coded symbol of an
/// equal set -- a settled entry is not pure, so the drain succeeds and
/// changes nothing, and the decoder keeps reporting completion with both
/// resolved collections as they were.
pub proof fn lemma_settled_drain(
    table: Seq<CodedModel>,
    rem: Seq<SourceModel>,
    loc: Seq<SourceModel>,
    used: Seq<bool>,
    k0: u64,
    k1: u64,
)
    requires
        forall|k: int| 0 <= k < table.len() ==> settled(#[trigger] table[k]),
    ensures
        drain(table, rem, loc, used, k0, k1) == (DrainOutcome {
            ok: true,
            table: table,
            remote: rem,
            local: loc,
        }),
{
    assert forall|k: int| 0 <= k < table.len() implies !pure_entry(
        #[trigger] table[k],
        k0,
        k1,
    ) by {
        assert(settled(table[k]));
    }
    lemma_no_pure_drain(table, rem, loc, used, k0, k1);
}

/// Holds the receiving side's local set, the working coded-symbol table, and
/// the two growing collections of resolved symbols.
pub struct Decoder {
    symbol_size: usize,
    k0: u64,
    k1: u64,
    window: Vec<SourceEntry>,
    table: Vec<CodedSymbol>,
    remote: Vec<SourceEntry>,
    local: Vec<SourceEntry>,
}

impl Decoder {
    /// The session's configured symbol size.
    pub closed spec fn size_spec(&self) -> usize {
        self.symbol_size
    }

    /// The first word of the checksum key.
    pub closed spec fn key0(&self) -> u64 {
        self.k0
    }

    /// The second word of the checksum key.
    pub closed spec fn key1(&self) -> u64 {
        self.k1
    }

    /// The models of the decoder's own local set, in insertion order.
    pub closed spec fn sources(&self) -> Seq<SourceModel> {
        models(self.window@)
    }

    /// The models of the resolved remote-only symbols, in resolution order.
    pub closed spec fn remote_models(&self) -> Seq<SourceModel> {
        models(self.remote@)
    }

    /// The models of the resolved local-only symbols, in resolution order.
    pub closed spec fn local_models(&self) -> Seq<SourceModel> {
        models(self.local@)
    }

    /// The working table, one entry per materialized slot.
    pub closed spec fn table_view(&self) -> Seq<CodedModel> {
        coded_views(self.table@)
    }

    /// The resolved remote-only symbols as byte-content / fingerprint pairs.
    pub open spec fn remote_view(&self) -> Seq<(Seq<u8>, u64)> {
        self.remote_models().map_values(|m: SourceModel| (m.bytes, m.fp))
    }

    /// The resolved local-only symbols as byte-content / fingerprint pairs.
    pub open spec fn local_view(&self) -> Seq<(Seq<u8>, u64)> {
        self.local_models().map_values(|m: SourceModel| (m.bytes, m.fp))
    }

    /// Full resolution given all coded symbols received so far: every
    /// materialized working entry has cancelled completely.
    pub open spec fn is_decoded(&self) -> bool {
        forall|k: int| 0 <= k < self.table_view().len() ==> settled(#[trigger] self.table_view()[k])
    }

    /// Well-formedness: every held byte vector has the session's symbol
    /// size, and no schedule cursor is behind the next slot to materialize.
    pub closed spec fn wf(&self) -> bool {
        &&& forall|j: int|
            0 <= j < self.sources().len() ==> (#[trigger] self.sources()[j].bytes.len())
                == self.symbol_size
        &&& forall|j: int|
            0 <= j < self.sources().len() ==> (#[trigger] self.sources()[j].slot)
                >= self.table@.len()
        &&& forall|j: int|
            0 <= j < self.remote_models().len() ==> (#[trigger] self.remote_models()[j].bytes.len())
                == self.symbol_size
        &&& forall|j: int|
            0 <= j < self.remote_models().len() ==> (#[trigger] self.remote_models()[j].slot)
                >= self.table@.len()
        &&& forall|j: int|
            0 <= j < self.local_models().len() ==> (#[trigger] self.local_models()[j].bytes.len())
                == self.symbol_size
        &&& forall|j: int|
            0 <= j < self.local_models().len() ==> (#[trigger] self.local_models()[j].slot)
                >= self.table@.len()
        &&& forall|k: int|
            0 <= k < self.table_view().len() ==> (#[trigger] self.table_view()[k].bytes.len())
                == self.symbol_size
    }

    /// The state of a freshly constructed decoder with the given
    /// configuration: everything empty.
    pub open spec fn is_fresh(&self, symbol_size: usize, k0: u64, k1: u64) -> bool {
        &&& self.size_spec() == symbol_size
        &&& self.key0() == k0
        &&& self.key1() == k1
        &&& self.sources() == Seq::<SourceModel>::empty()
        &&& self.table_view() == Seq::<CodedModel>::empty()
        &&& self.remote_models() == Seq::<SourceModel>::empty()
        &&& self.local_models() == Seq::<SourceModel>::empty()
    }

    /// A new decoder for a session with the given symbol size and checksum
    /// key.
    pub fn new(symbol_size: usize, k0: u64, k1: u64) -> (r: Decoder)
        ensures
            r.wf(),
            r.is_fresh(symbol_size, k0, k1),
    {
        let r = Decoder {
            symbol_size,
            k0,
            k1,
            window: Vec::new(),
            table: Vec::new(),
            remote: Vec::new(),
            local: Vec::new(),
        };
        proof {
            assert(r.sources() =~= Seq::<SourceModel>::empty());
            assert(r.table_view() =~= Seq::<CodedModel>::empty());
            assert(r.remote_models() =~= Seq::<SourceModel>::empty());
            assert(r.local_models() =~= Seq::<SourceModel>::empty());
        }
        r
    }

    /// Add a symbol to the decoder's own local set, used to subtract the
    /// local contribution from the peer's coded stream.  Fails with
    /// `InvalidLength`, leaving the state unchanged, exactly when the
    /// buffer's length is not the session's symbol size.  Slots already
    /// materialized are not revisited: the symbol contributes from the next
    /// slot onward.
    pub fn add_symbol(&mut self, bytes: &Vec<u8>) -> (r: Result<(), RibltError>)
        requires
            old(self).wf(),
        ensures
            final(self).wf(),
            final(self).size_spec() == old(self).size_spec(),
            final(self).key0() == old(self).key0(),
            final(self).key1() == old(self).key1(),
            final(self).table_view() == old(self).table_view(),
            final(self).remote_models() == old(self).remote_models(),
            final(self).local_models() == old(self).local_models(),
            final(self).remote_view() == old(self).remote_view(),
            final(self).local_view() == old(self).local_view(),
            bytes@.len() != old(self).size_spec() ==> (r == Err::<(), RibltError>(
                RibltError::InvalidLength,
            ) && final(self).sources() == old(self).sources()),
            bytes@.len() == old(self).size_spec() ==> (r == Ok::<(), RibltError>(())
                && final(self).sources() == old(self).sources().push(
                added_model(
                    old(self).key0(),
                    old(self).key1(),
                    bytes@,
                    old(self).table_view().len() as int,
                ),
            )),
    {
        if bytes.len() != self.symbol_size {
            return Err(RibltError::InvalidLength);
        }
        let buf = copy_bytes(bytes);
        let fp = sip_hash(self.k0, self.k1, &buf);
        let sched = catch_up_sched(fp, self.table.len() as u64);
        let entry = SourceEntry { symbol: buf, fp, sched };
        self.window.push(entry);
        proof {
            assert(self.remote_models() == old(self).remote_models());
            assert(self.local_models() == old(self).local_models());
            assert(self.table_view() == old(self).table_view());
            assert(self.sources() =~= old(self).sources().push(
                added_model(
                    old(self).key0(),
                    old(self).key1(),
                    bytes@,
                    old(self).table_view().len() as int,
                ),
            ));
            assert forall|j: int| 0 <= j < self.sources().len() implies (
            #[trigger] self.sources()[j].bytes.len()) == self.symbol_size
                && self.sources()[j].slot >= self.table@.len() by {
                if j < old(self).sources().len() {
                    assert(self.sources()[j] == old(self).sources()[j]);
                    assert(old(self).sources()[j].bytes.len() == old(self).symbol_size);
                    assert(old(self).sources()[j].slot >= old(self).table@.len());
                } else {
                    assert(self.sources()[j] == entry.model());
                }
            }
        }
        Ok(())
    }

    /// Merge the peer's coded symbol for the next slot with the decoder's
    /// own contribution for that slot, producing the working entry.  Fails
    /// with `InvalidLength`, leaving the state unchanged, exactly when the
    /// peer symbol's byte length is not the session's symbol size; fails
    /// with `DecodeError`, leaving the state unchanged, exactly when the net
    /// count would leave the signed 64-bit range.
    pub fn add_coded_symbol(&mut self, c: &CodedSymbol) -> (r: Result<(), RibltError>)
        requires
            old(self).wf(),
            old(self).table_view().len() < u64::MAX,
        ensures
            final(self).wf(),
            final(self).size_spec() == old(self).size_spec(),
            final(self).key0() == old(self).key0(),
            final(self).key1() == old(self).key1(),
            final(self).remote_view() == old(self).remote_view(),
            final(self).local_view() == old(self).local_view(),
            c@.bytes.len() != old(self).size_spec() ==> (r == Err::<(), RibltError>(
                RibltError::InvalidLength,
            ) && final(self).sources() == old(self).sources() && final(self).table_view() == old(
                self,
            ).table_view()),
            c@.bytes.len() == old(self).size_spec() && !fits_i64(
                merged_count(
                    old(self).sources(),
                    old(self).remote_models(),
                    old(self).local_models(),
                    c@,
                    old(self).table_view().len() as u64,
                ),
            ) ==> (r == Err::<(), RibltError>(RibltError::DecodeError) && final(self).sources()
                == old(self).sources() && final(self).table_view() == old(self).table_view()),
            c@.bytes.len() == old(self).size_spec() && fits_i64(
                merged_count(
                    old(self).sources(),
                    old(self).remote_models(),
                    old(self).local_models(),
                    c@,
                    old(self).table_view().len() as u64,
                ),
            ) ==> (r == Ok::<(), RibltError>(()) && final(self).table_view() == old(
                self,
            ).table_view().push(
                merged_entry(
                    old(self).size_spec() as nat,
                    old(self).sources(),
                    old(self).remote_models(),
                    old(self).local_models(),
                    c@,
                    old(self).table_view().len() as u64,
                ),
            ) && final(self).sources() == advance_hits_model(
                old(self).sources(),
                old(self).table_view().len() as u64,
            )),
    {
        if c.symbol.bytes.len() != self.symbol_size {
            return Err(RibltError::InvalidLength);
        }
        let s: u64 = self.table.len() as u64;
        proof {
            self.lemma_wf_lengths();
        }
        let (mut sym, own_hash, own_cnt) = contribution_at(&self.window, s, self.symbol_size);
        let (rsym, rhash, rcnt) = contribution_at(&self.remote, s, self.symbol_size);
        let (lsym, lhash, lcnt) = contribution_at(&self.local, s, self.symbol_size);
        let total: i128 = own_cnt as i128 - c.count as i128 + rcnt as i128 - lcnt as i128;
        if total > i64::MAX as i128 || total < i64::MIN as i128 {
            return Err(RibltError::DecodeError);
        }
        crate::source::xor_into(&mut sym, &c.symbol.bytes);
        crate::source::xor_into(&mut sym, &rsym);
        crate::source::xor_into(&mut sym, &lsym);
        let hash = own_hash ^ c.hash ^ rhash ^ lhash;
        let count: i64 = total as i64;
        advance_hits_at(&mut self.window, s);
        advance_hits_at(&mut self.remote, s);
        advance_hits_at(&mut self.local, s);
        self.table.push(CodedSymbol { symbol: Symbol { bytes: sym }, hash, count });
        proof {
            let m = merged_entry(
                old(self).size_spec() as nat,
                old(self).sources(),
                old(self).remote_models(),
                old(self).local_models(),
                c@,
                s,
            );
            assert(self.table_view() =~= old(self).table_view().push(m));
            assert(self.remote_view() =~= old(self).remote_view());
            assert(self.local_view() =~= old(self).local_view());
            self.lemma_advanced_wf(*old(self), s);
        }
        Ok(())
    }

    /// After the three windows advance past slot `s` and one entry of size
    /// `symbol_size` is pushed, well-formedness holds again.
    proof fn lemma_advanced_wf(&self, prev: Decoder, s: u64)
        requires
            prev.wf(),
            s == prev.table@.len(),
            prev.table@.len() < u64::MAX,
            self.symbol_size == prev.symbol_size,
            self.sources() == advance_hits_model(prev.sources(), s),
            self.remote_models() == advance_hits_model(prev.remote_models(), s),
            self.local_models() == advance_hits_model(prev.local_models(), s),
            self.table@.len() == prev.table@.len() + 1,
            self.table_view().len() == prev.table_view().len() + 1,
            forall|k: int|
                0 <= k < prev.table_view().len() ==> (#[trigger] self.table_view()[k])
                    == prev.table_view()[k],
            self.table_view()[prev.table_view().len() as int].bytes.len() == self.symbol_size,
        ensures
            self.wf(),
    {
        assert forall|j: int| 0 <= j < self.sources().len() implies (
        #[trigger] self.sources()[j].slot) >= self.table@.len() && self.sources()[j].bytes.len()
            == self.symbol_size by {
            let m = prev.sources()[j];
            assert(m.slot >= s);
            if m.slot == s {
                lemma_sched_next_increases(m.slot, prng_step(m.prng));
            }
        }
        assert forall|j: int| 0 <= j < self.remote_models().len() implies (
        #[trigger] self.remote_models()[j].slot) >= self.table@.len() && self.remote_models()[
            j
        ].bytes.len() == self.symbol_size by {
            let m = prev.remote_models()[j];
            assert(m.slot >= s);
            if m.slot == s {
                lemma_sched_next_increases(m.slot, prng_step(m.prng));
            }
        }
        assert forall|j: int| 0 <= j < self.local_models().len() implies (
        #[trigger] self.local_models()[j].slot) >= self.table@.len() && self.local_models()[
            j
        ].bytes.len() == self.symbol_size by {
            let m = prev.local_models()[j];
            assert(m.slot >= s);
            if m.slot == s {
                lemma_sched_next_increases(m.slot, prng_step(m.prng));
            }
        }
    }

    /// Bridge from the window models to the stored byte vectors: every held
    /// vector has the session's symbol size.
    proof fn lemma_wf_lengths(&self)
        requires
            self.wf(),
        ensures
            forall|j: int|
                0 <= j < self.window@.len() ==> (#[trigger] self.window@[j].symbol@.len())
                    == self.symbol_size,
            forall|j: int|
                0 <= j < self.remote@.len() ==> (#[trigger] self.remote@[j].symbol@.len())
                    == self.symbol_size,
            forall|j: int|
                0 <= j < self.local@.len() ==> (#[trigger] self.local@[j].symbol@.len())
                    == self.symbol_size,
            forall|k: int|
                0 <= k < self.table@.len() ==> (#[trigger] self.table@[k].symbol@.len())
                    == self.symbol_size,
    {
        assert forall|j: int| 0 <= j < self.window@.len() implies (
        #[trigger] self.window@[j].symbol@.len()) == self.symbol_size by {
            assert(self.sources()[j].bytes.len() == self.symbol_size);
            assert(self.sources()[j] == self.window@[j].model());
        }
        assert forall|j: int| 0 <= j < self.remote@.len() implies (
        #[trigger] self.remote@[j].symbol@.len()) == self.symbol_size by {
            assert(self.remote_models()[j].bytes.len() == self.symbol_size);
            assert(self.remote_models()[j] == self.remote@[j].model());
        }
        assert forall|j: int| 0 <= j < self.local@.len() implies (
        #[trigger] self.local@[j].symbol@.len()) == self.symbol_size by {
            assert(self.local_models()[j].bytes.len() == self.symbol_size);
            assert(self.local_models()[j] == self.local@[j].model());
        }
        assert forall|k: int| 0 <= k < self.table@.len() implies (
        #[trigger] self.table@[k].symbol@.len()) == self.symbol_size by {
            assert(self.table_view()[k].bytes.len() == self.symbol_size);
            assert(self.table_view()[k] == self.table@[k]@);
        }
    }

    /// The first slot of the working table whose entry is pure, if any.
    fn find_pure_slot(&self) -> (r: Option<usize>)
        ensures
            first_pure_from(self.table_view(), self.key0(), self.key1(), 0) == (match r {
                Some(j) => Some(j as int),
                None => None::<int>,
            }),
            match r {
                Some(j) => 0 <= j < self.table_view().len() && pure_entry(
                    self.table_view()[j as int],
                    self.key0(),
                    self.key1(),
                ),
                None => forall|k: int|
                    0 <= k < self.table_view().len() ==> !pure_entry(
                        #[trigger] self.table_view()[k],
                        self.key0(),
                        self.key1(),
                    ),
            },
    {
        let n = self.table.len();
        let mut j: usize = 0;
        while j < n
            invariant
                j <= n,
                n == self.table@.len(),
                forall|k: int|
                    0 <= k < j ==> !pure_entry(
                        #[trigger] self.table_view()[k],
                        self.key0(),
                        self.key1(),
                    ),
                first_pure_from(self.table_view(), self.key0(), self.key1(), 0) == first_pure_from(
                    self.table_view(),
                    self.key0(),
                    self.key1(),
                    j as int,
                ),
            decreases n - j,
        {
            proof {
                assert(self.table_view()[j as int] == self.table@[j as int]@);
            }
            let is_candidate = self.table[j].count == 1 || self.table[j].count == -1;
            if is_candidate {
                let h = sip_hash(self.k0, self.k1, &self.table[j].symbol.bytes);
                if h == self.table[j].hash {
                    proof {
                        assert(pure_entry(self.table_view()[j as int], self.key0(), self.key1()));
                    }
                    return Some(j);
                }
            }
            proof {
                assert(!pure_entry(self.table_view()[j as int], self.key0(), self.key1()));
                assert(first_pure_from(self.table_view(), self.key0(), self.key1(), j as int)
                    == first_pure_from(self.table_view(), self.key0(), self.key1(), j as int + 1));
            }
            j = j + 1;
        }
        None
    }

    /// Drain the peeling work, computing exactly what [`drain`] describes of
    /// the working state: repeatedly resolve the first pure entry -- into
    /// the local collection when its count is 1, the remote one when it is
    /// -1 -- and remove its contribution from every materialized slot of its
    /// schedule.  On success no pure entry remains.  Fails with
    /// `DecodeError` on an internal consistency violation: a slot that turns
    /// pure again after it was already resolved in this drain, or a
    /// contributor count leaving the signed 64-bit range -- both signal
    /// corruption of the coded stream or a fingerprint collision, and both
    /// are determined by the state the drain started from.  Already-resolved
    /// symbols remain valid, and resolved collections only ever grow, with
    /// every resolved fingerprint the checksum of its bytes.
    pub fn try_decode(&mut self) -> (r: Result<(), RibltError>)
        requires
            old(self).wf(),
        ensures
            ({
                let o = drain(
                    old(self).table_view(),
                    old(self).remote_models(),
                    old(self).local_models(),
                    Seq::new(old(self).table_view().len(), |i: int| false),
                    old(self).key0(),
                    old(self).key1(),
                );
                &&& (r is Ok <==> o.ok)
                &&& final(self).table_view() == o.table
                &&& final(self).remote_models() == o.remote
                &&& final(self).local_models() == o.local
            }),
            final(self).wf(),
            final(self).size_spec() == old(self).size_spec(),
            final(self).key0() == old(self).key0(),
            final(self).key1() == old(self).key1(),
            final(self).sources() == old(self).sources(),
            final(self).table_view().len() == old(self).table_view().len(),
            old(self).remote_view().is_prefix_of(final(self).remote_view()),
            old(self).local_view().is_prefix_of(final(self).local_view()),
            forall|i: int|
                old(self).remote_view().len() <= i < final(self).remote_view().len() ==> (
                #[trigger] final(self).remote_view()[i]).1 == sip_of(
                    old(self).key0(),
                    old(self).key1(),
                    final(self).remote_view()[i].0,
                ),
            forall|i: int|
                old(self).local_view().len() <= i < final(self).local_view().len() ==> (
                #[trigger] final(self).local_view()[i]).1 == sip_of(
                    old(self).key0(),
                    old(self).key1(),
                    final(self).local_view()[i].0,
                ),
            r is Ok ==> forall|k: int|
                0 <= k < final(self).table_view().len() ==> !pure_entry(
                    #[trigger] final(self).table_view()[k],
                    old(self).key0(),
                    old(self).key1(),
                ),
            r is Err ==> r == Err::<(), RibltError>(RibltError::DecodeError) && (exists|k: int|
                0 <= k < final(self).table_view().len() && (pure_entry(
                    #[trigger] final(self).table_view()[k],
                    old(self).key0(),
                    old(self).key1(),
                ) || final(self).table_view()[k].count == i64::MAX
                    || final(self).table_view()[k].count == i64::MIN)),
            r is Err ==> final(self).remote_view().len() + final(self).local_view().len()
                > old(self).remote_view().len() + old(self).local_view().len(),
    {
        let n = self.table.len();
        let mut used = false_vec(n);
        proof {
            lemma_count_trues_le(used@);
            lemma_count_trues_zero(used@);
            assert(used@ =~= Seq::new(old(self).table_view().len(), |i: int| false));
        }
        loop
            invariant
                self.wf(),
                n == self.table@.len(),
                n == old(self).table@.len(),
                used@.len() == n,
                count_trues(used@) <= n,
                drain(
                    self.table_view(),
                    self.remote_models(),
                    self.local_models(),
                    used@,
                    old(self).key0(),
                    old(self).key1(),
                ) == drain(
                    old(self).table_view(),
                    old(self).remote_models(),
                    old(self).local_models(),
                    Seq::new(old(self).table_view().len(), |i: int| false),
                    old(self).key0(),
                    old(self).key1(),
                ),
                self.size_spec() == old(self).size_spec(),
                self.key0() == old(self).key0(),
                self.key1() == old(self).key1(),
                self.sources() == old(self).sources(),
                old(self).remote_view().is_prefix_of(self.remote_view()),
                old(self).local_view().is_prefix_of(self.local_view()),
                forall|i: int|
                    old(self).remote_view().len() <= i < self.remote_view().len() ==> (
                    #[trigger] self.remote_view()[i]).1 == sip_of(
                        old(self).key0(),
                        old(self).key1(),
                        self.remote_view()[i].0,
                    ),
                forall|i: int|
                    old(self).local_view().len() <= i < self.local_view().len() ==> (
                    #[trigger] self.local_view()[i]).1 == sip_of(
                        old(self).key0(),
                        old(self).key1(),
                        self.local_view()[i].0,
                    ),
                self.remote_view().len() + self.local_view().len() == old(self).remote_view().len()
                    + old(self).local_view().len() + count_trues(used@),
            decreases n - count_trues(used@),
        {
            let ghost at_entry = *self;
            let ghost used_at_entry = used@;
            let found = self.find_pure_slot();
            match found {
                None => {
                    proof {
                        assert(drain(
                            self.table_view(),
                            self.remote_models(),
                            self.local_models(),
                            used@,
                            old(self).key0(),
                            old(self).key1(),
                        ) == (DrainOutcome {
                            ok: true,
                            table: self.table_view(),
                            remote: self.remote_models(),
                            local: self.local_models(),
                        }));
                    }
                    return Ok(());
                },
                Some(j) => {
                    if used[j] {
                        proof {
                            lemma_count_trues_pos(used@, j as int);
                            assert(drain(
                                self.table_view(),
                                self.remote_models(),
                                self.local_models(),
                                used@,
                                old(self).key0(),
                                old(self).key1(),
                            ) == (DrainOutcome {
                                ok: false,
                                table: self.table_view(),
                                remote: self.remote_models(),
                                local: self.local_models(),
                            }));
                        }
                        return Err(RibltError::DecodeError);
                    }
                    let ghost used_before = used@;
                    used[j] = true;
                    proof {
                        lemma_count_trues_update(used_before, j as int);
                        lemma_count_trues_le(used@);
                        self.lemma_wf_lengths();
                    }
                    let bytes0 = copy_bytes(&self.table[j].symbol.bytes);
                    let bytes1 = copy_bytes(&bytes0);
                    let fp = self.table[j].hash;
                    let to_local = self.table[j].count == 1;
                    proof {
                        assert(self.table_view()[j as int] == self.table@[j as int]@);
                        assert(fp == sip_of(old(self).key0(), old(self).key1(), bytes0@));
                    }
                    // The symbol is resolved: record it, with its schedule
                    // forwarded past the materialized table for the slots
                    // still to come.
                    let sched = catch_up_sched(fp, self.table.len() as u64);
                    let entry = SourceEntry { symbol: bytes0, fp, sched };
                    let ghost prev = *self;
                    if to_local {
                        self.local.push(entry);
                    } else {
                        self.remote.push(entry);
                    }
                    proof {
                        self.lemma_resolved_push(prev, entry, to_local);
                        if to_local {
                            assert(old(self).local_view() =~= self.local_view().subrange(
                                0,
                                old(self).local_view().len() as int,
                            ));
                        } else {
                            assert(old(self).remote_view() =~= self.remote_view().subrange(
                                0,
                                old(self).remote_view().len() as int,
                            ));
                        }
                    }
                    // Remove its contribution from every materialized slot
                    // of its schedule.
                    let ghost pushed = *self;
                    let walk = apply_removals(
                        &mut self.table,
                        &bytes1,
                        fp,
                        to_local,
                        self.symbol_size,
                    );
                    proof {
                        self.lemma_frame_wf(pushed);
                        // The iteration performed exactly one step of the
                        // peeling drain.
                        let kk0 = old(self).key0();
                        let kk1 = old(self).key1();
                        let tv = at_entry.table_view();
                        let e = tv[j as int];
                        assert(first_pure_from(tv, kk0, kk1, 0) == Some(j as int));
                        assert(0 <= j < used_at_entry.len());
                        assert(!used_at_entry[j as int]);
                        assert(e == at_entry.table@[j as int]@);
                        assert(e.bytes == bytes1@ && e.hash == fp && (e.count == 1) == to_local);
                        assert(entry.model() == resolved_model(e.bytes, e.hash, tv.len() as int));
                        assert(pushed.remote_models() == (if to_local {
                            at_entry.remote_models()
                        } else {
                            at_entry.remote_models().push(resolved_model(e.bytes, e.hash, tv.len() as int))
                        }));
                        assert(pushed.local_models() == (if to_local {
                            at_entry.local_models().push(resolved_model(e.bytes, e.hash, tv.len() as int))
                        } else {
                            at_entry.local_models()
                        }));
                        assert(coded_views(pushed.table@) == tv);
                        assert(self.remote_models() == pushed.remote_models());
                        assert(self.local_models() == pushed.local_models());
                    }
                    match walk {
                        Err(_) => {
                            proof {
                                let k = choose|k: int|
                                    0 <= k < self.table@.len() && ((
                                    #[trigger] self.table@[k]).count == i64::MAX
                                        || self.table@[k].count == i64::MIN);
                                assert(self.table_view()[k] == self.table@[k]@);
                                assert(0 <= k < self.table_view().len() && (
                                self.table_view()[k].count == i64::MAX
                                    || self.table_view()[k].count == i64::MIN));
                                let kk0 = old(self).key0();
                                let kk1 = old(self).key1();
                                assert(drain(
                                    at_entry.table_view(),
                                    at_entry.remote_models(),
                                    at_entry.local_models(),
                                    used_at_entry,
                                    kk0,
                                    kk1,
                                ) == (DrainOutcome {
                                    ok: false,
                                    table: self.table_view(),
                                    remote: self.remote_models(),
                                    local: self.local_models(),
                                }));
                            }
                            return Err(RibltError::DecodeError);
                        },
                        Ok(_) => {
                            proof {
                                let kk0 = old(self).key0();
                                let kk1 = old(self).key1();
                                assert(used@ == used_at_entry.update(j as int, true));
                                assert(drain(
                                    at_entry.table_view(),
                                    at_entry.remote_models(),
                                    at_entry.local_models(),
                                    used_at_entry,
                                    kk0,
                                    kk1,
                                ) == drain(
                                    self.table_view(),
                                    self.remote_models(),
                                    self.local_models(),
                                    used@,
                                    kk0,
                                    kk1,
                                ));
                            }
                        },
                    }
                },
            }
        }
    }

    /// The table was mutated without changing its length or the byte sizes
    /// of its entries; everything else is untouched, so well-formedness is
    /// kept.
    proof fn lemma_frame_wf(&self, base: Decoder)
        requires
            base.wf(),
            self.symbol_size == base.symbol_size,
            self.window == base.window,
            self.remote == base.remote,
            self.local == base.local,
            self.table@.len() == base.table@.len(),
            forall|k: int|
                0 <= k < self.table@.len() ==> (#[trigger] self.table@[k].symbol@.len())
                    == self.symbol_size,
        ensures
            self.wf(),
    {
        assert(self.sources() == base.sources());
        assert(self.remote_models() == base.remote_models());
        assert(self.local_models() == base.local_models());
        assert forall|k: int| 0 <= k < self.table_view().len() implies (
        #[trigger] self.table_view()[k].bytes.len()) == self.symbol_size by {
            assert(self.table_view()[k] == self.table@[k]@);
            assert(self.table@[k].symbol@.len() == self.symbol_size);
        }
    }

    /// Pushing a resolved entry whose bytes have the symbol size and whose
    /// cursor is past the table keeps well-formedness, extends the resolved
    /// view by one pair, and leaves the other collections unchanged.
    proof fn lemma_resolved_push(&self, prev: Decoder, entry: SourceEntry, to_local: bool)
        requires
            prev.wf(),
            prev.symbol_size == self.symbol_size,
            prev.window == self.window,
            prev.table == self.table,
            to_local ==> self.local@ == prev.local@.push(entry) && self.remote == prev.remote,
            !to_local ==> self.remote@ == prev.remote@.push(entry) && self.local == prev.local,
            entry.symbol@.len() == prev.symbol_size,
            entry.sched.slot >= prev.table@.len(),
        ensures
            self.wf(),
            to_local ==> self.local_view() == prev.local_view().push(
                (entry.symbol@, entry.fp),
            ) && self.remote_view() == prev.remote_view(),
            !to_local ==> self.remote_view() == prev.remote_view().push(
                (entry.symbol@, entry.fp),
            ) && self.local_view() == prev.local_view(),
            to_local ==> self.local_models() == prev.local_models().push(
                entry.model(),
            ) && self.remote_models() == prev.remote_models(),
            !to_local ==> self.remote_models() == prev.remote_models().push(
                entry.model(),
            ) && self.local_models() == prev.local_models(),
    {
        assert(self.sources() == prev.sources());
        assert(self.table_view() == prev.table_view());
        if to_local {
            assert(self.local_models() =~= prev.local_models().push(entry.model()));
            assert(self.local_view() =~= prev.local_view().push((entry.symbol@, entry.fp)));
            assert(self.remote_models() == prev.remote_models());
            assert(self.remote_view() == prev.remote_view());
            assert forall|j: int| 0 <= j < self.local_models().len() implies (
            #[trigger] self.local_models()[j].bytes.len()) == self.symbol_size
                && self.local_models()[j].slot >= self.table@.len() by {
                if j < prev.local_models().len() {
                    assert(self.local_models()[j] == prev.local_models()[j]);
                    assert(prev.local_models()[j].bytes.len() == prev.symbol_size);
                    assert(prev.local_models()[j].slot >= prev.table@.len());
                } else {
                    assert(self.local_models()[j] == entry.model());
                }
            }
        } else {
            assert(self.remote_models() =~= prev.remote_models().push(entry.model()));
            assert(self.remote_view() =~= prev.remote_view().push((entry.symbol@, entry.fp)));
            assert(self.local_models() == prev.local_models());
            assert(self.local_view() == prev.local_view());
            assert forall|j: int| 0 <= j < self.remote_models().len() implies (
            #[trigger] self.remote_models()[j].bytes.len()) == self.symbol_size
                && self.remote_models()[j].slot >= self.table@.len() by {
                if j < prev.remote_models().len() {
                    assert(self.remote_models()[j] == prev.remote_models()[j]);
                    assert(prev.remote_models()[j].bytes.len() == prev.symbol_size);
                    assert(prev.remote_models()[j].slot >= prev.table@.len());
                } else {
                    assert(self.remote_models()[j] == entry.model());
                }
            }
        }
    }

    /// True once every materialized working entry has cancelled completely:
    /// full resolution given all coded symbols received so far.
    pub fn decoded(&self) -> (r: bool)
        ensures
            r == self.is_decoded(),
    {
        let n = self.table.len();
        let mut k: usize = 0;
        while k < n
            invariant
                k <= n,
                n == self.table@.len(),
                forall|i: int| 0 <= i < k ==> settled(#[trigger] self.table_view()[i]),
            decreases n - k,
        {
            let non_settled = self.table[k].count != 0 || self.table[k].hash != 0;
            proof {
                assert(self.table_view()[k as int] == self.table@[k as int]@);
            }
            if non_settled {
                return false;
            }
            k = k + 1;
        }
        true
    }

    /// The resolved remote-only symbols accumulated so far, each with its
    /// fingerprint.
    pub fn get_remote_symbols(&self) -> (r: Vec<HashedSymbol>)
        ensures
            r@.len() == self.remote_view().len(),
            forall|i: int| 0 <= i < r@.len() ==> (#[trigger] r@[i]@) == self.remote_view()[i],
    {
        let n = self.remote.len();
        let mut out: Vec<HashedSymbol> = Vec::new();
        let mut i: usize = 0;
        while i < n
            invariant
                i <= n,
                n == self.remote@.len(),
                out@.len() == i,
                forall|k: int| 0 <= k < i ==> (#[trigger] out@[k]@) == self.remote_view()[k],
            decreases n - i,
        {
            let h = HashedSymbol {
                symbol: Symbol { bytes: copy_bytes(&self.remote[i].symbol) },
                hash: self.remote[i].fp,
            };
            proof {
                assert(self.remote_models()[i as int] == self.remote@[i as int].model());
            }
            out.push(h);
            i = i + 1;
        }
        out
    }

    /// The resolved local-only symbols accumulated so far, each with its
    /// fingerprint.
    pub fn get_local_symbols(&self) -> (r: Vec<HashedSymbol>)
        ensures
            r@.len() == self.local_view().len(),
            forall|i: int| 0 <= i < r@.len() ==> (#[trigger] r@[i]@) == self.local_view()[i],
    {
        let n = self.local.len();
        let mut out: Vec<HashedSymbol> = Vec::new();
        let mut i: usize = 0;
        while i < n
            invariant
                i <= n,
                n == self.local@.len(),
                out@.len() == i,
                forall|k: int| 0 <= k < i ==> (#[trigger] out@[k]@) == self.local_view()[k],
            decreases n - i,
        {
            let h = HashedSymbol {
                symbol: Symbol { bytes: copy_bytes(&self.local[i].symbol) },
                hash: self.local[i].fp,
            };
            proof {
                assert(self.local_models()[i as int] == self.local@[i as int].model());
            }
            out.push(h);
            i = i + 1;
        }
        out
    }

    /// Clear all state back to the initial configuration.
    pub fn reset(&mut self)
        ensures
            final(self).wf(),
            final(self).is_fresh(old(self).size_spec(), old(self).key0(), old(self).key1()),
    {
        self.window = Vec::new();
        self.table = Vec::new();
        self.remote = Vec::new();
        self.local = Vec::new();
        proof {
            assert(self.sources() =~= Seq::<SourceModel>::empty());
            assert(self.table_view() =~= Seq::<CodedModel>::empty());
            assert(self.remote_models() =~= Seq::<SourceModel>::empty());
            assert(self.local_models() =~= Seq::<SourceModel>::empty());
        }
    }
}

/// Whether an unbounded integer fits a signed 64-bit word.
pub open spec fn fits_i64(x: int) -> bool {
    i64::MIN <= x <= i64::MAX
}

/// Remove a resolved symbol's contribution from every materialized slot of
/// its schedule, as `walk_result` describes: XOR its bytes and fingerprint
/// out and adjust the count by one against the side it was resolved to.  The
/// walk starts the schedule at slot 0, assuming the symbol contributed to
/// every materialized slot of its schedule; that holds whenever each side's
/// set was complete before its coded stream was produced, the discipline the
/// append-only sessions are made for.
fn apply_removals(
    table: &mut Vec<CodedSymbol>,
    bytes: &Vec<u8>,
    fp: u64,
    to_local: bool,
    size: usize,
) -> (r: Result<(), RibltError>)
    requires
        forall|k: int|
            0 <= k < old(table)@.len() ==> (#[trigger] old(table)@[k].symbol@.len()) == size,
        bytes@.len() == size,
    ensures
        final(table)@.len() == old(table)@.len(),
        forall|k: int|
            0 <= k < final(table)@.len() ==> (#[trigger] final(table)@[k].symbol@.len()) == size,
        ({
            match walk_result(coded_views(old(table)@), bytes@, fp, to_local, fp, 0) {
                Ok(t) => r is Ok && coded_views(final(table)@) == t,
                Err(t) => r is Err && coded_views(final(table)@) == t,
            }
        }),
        r is Err ==> exists|k: int|
            0 <= k < final(table)@.len() && ((#[trigger] final(table)@[k]).count == i64::MAX
                || final(table)@[k].count == i64::MIN),
{
    let n = table.len();
    let mut sched = IndexSchedule::new(fp);
    while sched.slot < n as u64
        invariant
            n == table@.len(),
            n == old(table)@.len(),
            bytes@.len() == size,
            forall|k: int| 0 <= k < n ==> (#[trigger] table@[k].symbol@.len()) == size,
            walk_result(coded_views(old(table)@), bytes@, fp, to_local, fp, 0) == walk_result(
                coded_views(table@),
                bytes@,
                fp,
                to_local,
                sched.prng,
                sched.slot,
            ),
        decreases u64::MAX - sched.slot,
    {
        let idx = sched.slot as usize;
        proof {
            assert(idx < n);
            assert(table@[idx as int].symbol@.len() == size);
            assert(coded_views(table@)[idx as int] == table@[idx as int]@);
        }
        let nc = if to_local {
            table[idx].count.checked_sub(1)
        } else {
            table[idx].count.checked_add(1)
        };
        match nc {
            None => {
                proof {
                    assert(table@[idx as int].count == i64::MAX || table@[idx as int].count
                        == i64::MIN);
                    assert(walk_result(coded_views(table@), bytes@, fp, to_local, sched.prng,
                    sched.slot) == Err::<Seq<CodedModel>, Seq<CodedModel>>(coded_views(table@)));
                }
                return Err(RibltError::DecodeError);
            },
            Some(v) => {
                let mut nb = copy_bytes(&table[idx].symbol.bytes);
                crate::source::xor_into(&mut nb, bytes);
                let h = table[idx].hash ^ fp;
                let ghost views_before = coded_views(table@);
                let ghost cursor_before = sched;
                table[idx] = CodedSymbol { symbol: Symbol { bytes: nb }, hash: h, count: v };
                proof {
                    let e = views_before[idx as int];
                    let e2 = CodedModel {
                        bytes: xor_bytes(e.bytes, bytes@),
                        hash: e.hash ^ fp,
                        count: (if to_local {
                            e.count - 1
                        } else {
                            e.count + 1
                        }) as i64,
                    };
                    assert(coded_views(table@) =~= views_before.update(idx as int, e2));
                    assert(walk_result(views_before, bytes@, fp, to_local, cursor_before.prng,
                    cursor_before.slot) == walk_result(
                        coded_views(table@),
                        bytes@,
                        fp,
                        to_local,
                        prng_step(cursor_before.prng),
                        sched_next(cursor_before.slot, prng_step(cursor_before.prng)),
                    ));
                }
            },
        }
        proof {
            lemma_sched_next_increases(sched.slot, prng_step(sched.prng));
        }
        sched.advance();
    }
    proof {
        assert(walk_result(coded_views(table@), bytes@, fp, to_local, sched.prng, sched.slot)
            == Ok::<Seq<CodedModel>, Seq<CodedModel>>(coded_views(table@)));
    }
    Ok(())
}

/// Law: if the two sets are equal, the first coded symbol cancels
/// completely.  A fresh decoder's window and the peer encoder's set make the
/// same contribution to slot 0 (every schedule starts there), so the merged
/// working entry has zero bytes, zero fingerprint and zero count: no coded
/// symbol beyond slot 0 is needed for the decoder to report completion.
pub proof fn lemma_empty_difference(n: nat, w: Seq<SourceModel>, c: CodedModel)
    requires
        forall|j: int| 0 <= j < w.len() ==> (#[trigger] w[j].slot) == 0,
        c.bytes == contrib_sym_from(zero_bytes(n), w, 0),
        c.hash == contrib_hash_from(0u64, w, 0),
        c.count == contrib_count_from(0, w, 0),
    ensures
        settled(merged_entry(n, w, Seq::<SourceModel>::empty(), Seq::<SourceModel>::empty(), c, 0)),
        is_zero_bytes(
            merged_entry(n, w, Seq::<SourceModel>::empty(), Seq::<SourceModel>::empty(), c, 0).bytes,
        ),
        merged_count(w, Seq::<SourceModel>::empty(), Seq::<SourceModel>::empty(), c, 0) == 0,
{
    lemma_u64_xor_laws();
    lemma_u8_xor_laws();
    let e = merged_entry(n, w, Seq::<SourceModel>::empty(), Seq::<SourceModel>::empty(), c, 0);
    assert(contrib_hash_from(0u64, Seq::<SourceModel>::empty(), 0) == 0u64);
    assert(contrib_sym_from(zero_bytes(n), Seq::<SourceModel>::empty(), 0) == zero_bytes(n));
    assert(contrib_count_from(0, Seq::<SourceModel>::empty(), 0) == 0);
    assert(e.hash == 0);
    assert(e.count == 0);
    let b = contrib_sym_from(zero_bytes(n), w, 0);
    assert forall|i: int| 0 <= i < e.bytes.len() implies e.bytes[i] == 0u8 by {
        lemma_byte_at_xor(xor_bytes(xor_bytes(b, c.bytes), zero_bytes(n)), zero_bytes(n), i);
        lemma_byte_at_xor(xor_bytes(b, c.bytes), zero_bytes(n), i);
        lemma_byte_at_xor(b, c.bytes, i);
        assert(byte_at(zero_bytes(n), i) == 0u8);
        assert(byte_at(e.bytes, i) == 0u8);
    }
}

/// Law: a reset decoder answers every query exactly as a freshly
/// constructed one with the same configuration: nothing resolved, nothing
/// materialized, and completion already reported.
pub proof fn lemma_fresh_decoders_agree(
    a: Decoder,
    b: Decoder,
    symbol_size: usize,
    k0: u64,
    k1: u64,
)
    requires
        a.is_fresh(symbol_size, k0, k1),
        b.is_fresh(symbol_size, k0, k1),
    ensures
        a.is_decoded() == b.is_decoded(),
        a.is_decoded(),
        a.remote_view() == b.remote_view(),
        a.local_view() == b.local_view(),
        a.table_view() == b.table_view(),
        a.sources() == b.sources(),
{
    assert(a.remote_view() =~= b.remote_view());
    assert(a.local_view() =~= b.local_view());
}

} // verus!
