//! The symbol algebra: byte vectors under elementwise XOR.
//!
//! A symbol is a byte vector.  Symbols form a commutative group under
//! [`Symbol::xor`], with [`Symbol::zero`] as the identity: a shorter operand is
//! treated as if it were padded with zero bytes, so the empty vector is neutral
//! for every length.

use vstd::prelude::*;

verus! {

/// A byte vector of a session's fixed symbol size (or empty, for the XOR
/// identity).
pub struct Symbol {
    pub bytes: Vec<u8>,
}

impl View for Symbol {
    type V = Seq<u8>;

    open spec fn view(&self) -> Seq<u8> {
        self.bytes@
    }
}

/// The byte of `s` at position `i`, reading positions past the end (and
/// before the start) as zero.
pub open spec fn byte_at(s: Seq<u8>, i: int) -> u8 {
    if 0 <= i < s.len() {
        s[i]
    } else {
        0u8
    }
}

/// The length of the XOR of two byte vectors: the longer of the two.
pub open spec fn xor_len(a: Seq<u8>, b: Seq<u8>) -> nat {
    if a.len() >= b.len() {
        a.len()
    } else {
        b.len()
    }
}

/// Elementwise XOR of two byte vectors, the shorter one read as padded with
/// zero bytes.
pub open spec fn xor_bytes(a: Seq<u8>, b: Seq<u8>) -> Seq<u8> {
    Seq::new(xor_len(a, b), |i: int| byte_at(a, i) ^ byte_at(b, i))
}

/// The all-zero byte vector of length `n`.
pub open spec fn zero_bytes(n: nat) -> Seq<u8> {
    Seq::new(n, |i: int| 0u8)
}

/// Every byte of `s` is zero.
pub open spec fn is_zero_bytes(s: Seq<u8>) -> bool {
    forall|i: int| 0 <= i < s.len() ==> s[i] == 0u8
}

/// Two byte vectors are equivalent when they agree at every position once
/// zero-padded; this is the equality of the XOR group.
pub open spec fn bytes_equiv(a: Seq<u8>, b: Seq<u8>) -> bool {
    forall|i: int| byte_at(a, i) == byte_at(b, i)
}

/// Bit-level facts about XOR on bytes: identity, self-inverse, commutativity
/// and associativity.
pub proof fn lemma_u8_xor_laws()
    by (bit_vector)
    ensures
        forall|x: u8| #[trigger] (x ^ 0u8) == x,
        forall|x: u8| #[trigger] (0u8 ^ x) == x,
        forall|x: u8| #[trigger] (x ^ x) == 0u8,
        forall|x: u8, y: u8| #[trigger] (x ^ y) == (y ^ x),
        forall|x: u8, y: u8, z: u8| #[trigger] ((x ^ y) ^ z) == (x ^ (y ^ z)),
{
}

/// Bit-level facts about XOR on 64-bit words, used for fingerprints.
pub proof fn lemma_u64_xor_laws()
    by (bit_vector)
    ensures
        forall|x: u64| #[trigger] (x ^ 0u64) == x,
        forall|x: u64| #[trigger] (0u64 ^ x) == x,
        forall|x: u64| #[trigger] (x ^ x) == 0u64,
        forall|x: u64, y: u64| #[trigger] (x ^ y) == (y ^ x),
        forall|x: u64, y: u64, z: u64| #[trigger] ((x ^ y) ^ z) == (x ^ (y ^ z)),
{
}

/// The padded byte of an XOR is the XOR of the padded bytes, at every
/// position.
pub proof fn lemma_byte_at_xor(a: Seq<u8>, b: Seq<u8>, i: int)
    ensures
        byte_at(xor_bytes(a, b), i) == (byte_at(a, i) ^ byte_at(b, i)),
{
    lemma_u8_xor_laws();
}

/// Law: `xor(a, zero())` is `a`.
pub proof fn lemma_xor_identity(a: Seq<u8>)
    ensures
        xor_bytes(a, Seq::<u8>::empty()) == a,
{
    lemma_u8_xor_laws();
    assert(xor_bytes(a, Seq::<u8>::empty()) =~= a);
}

/// Law: `xor(a, a)` is the zero symbol -- every byte cancels, so the result
/// is equivalent to `zero()`.
pub proof fn lemma_xor_self_inverse(a: Seq<u8>)
    ensures
        is_zero_bytes(xor_bytes(a, a)),
        bytes_equiv(xor_bytes(a, a), Seq::<u8>::empty()),
{
    lemma_u8_xor_laws();
    assert forall|i: int| byte_at(xor_bytes(a, a), i) == byte_at(Seq::<u8>::empty(), i) by {
        lemma_byte_at_xor(a, a, i);
    }
}

/// Law: `xor(a, b) == xor(b, a)`.
pub proof fn lemma_xor_commutative(a: Seq<u8>, b: Seq<u8>)
    ensures
        xor_bytes(a, b) == xor_bytes(b, a),
{
    lemma_u8_xor_laws();
    assert(xor_bytes(a, b) =~= xor_bytes(b, a));
}

/// Law: `xor(xor(a, b), c) == xor(a, xor(b, c))`.
pub proof fn lemma_xor_associative(a: Seq<u8>, b: Seq<u8>, c: Seq<u8>)
    ensures
        xor_bytes(xor_bytes(a, b), c) == xor_bytes(a, xor_bytes(b, c)),
{
    lemma_u8_xor_laws();
    assert forall|i: int|
        byte_at(xor_bytes(xor_bytes(a, b), c), i) == byte_at(
            xor_bytes(a, xor_bytes(b, c)),
            i,
        ) by {
        lemma_byte_at_xor(xor_bytes(a, b), c, i);
        lemma_byte_at_xor(a, b, i);
        lemma_byte_at_xor(a, xor_bytes(b, c), i);
        lemma_byte_at_xor(b, c, i);
    }
    assert(xor_bytes(xor_bytes(a, b), c) =~= xor_bytes(a, xor_bytes(b, c)));
}

impl Symbol {
    /// The XOR identity: the empty byte vector.
    pub fn zero() -> (r: Symbol)
        ensures
            r@ == Seq::<u8>::empty(),
    {
        Symbol { bytes: Vec::new() }
    }

    /// Elementwise XOR; the shorter operand is read as zero-padded, so the
    /// result adopts the length of the longer one.
    pub fn xor(&self, other: &Symbol) -> (r: Symbol)
        ensures
            r@ == xor_bytes(self@, other@),
    {
        let a_len = self.bytes.len();
        let b_len = other.bytes.len();
        let n = if a_len >= b_len {
            a_len
        } else {
            b_len
        };
        let mut out: Vec<u8> = Vec::new();
        let mut i: usize = 0;
        while i < n
            invariant
                i <= n,
                n == xor_len(self@, other@),
                a_len == self@.len(),
                b_len == other@.len(),
                out@.len() == i,
                forall|k: int| 0 <= k < i ==> out@[k] == (byte_at(self@, k) ^ byte_at(other@, k)),
            decreases n - i,
        {
            let x = if i < a_len {
                self.bytes[i]
            } else {
                0u8
            };
            let y = if i < b_len {
                other.bytes[i]
            } else {
                0u8
            };
            out.push(x ^ y);
            i = i + 1;
        }
        proof {
            assert(out@ =~= xor_bytes(self@, other@));
        }
        Symbol { bytes: out }
    }

    /// The byte content, for callers outside the library.
    pub fn as_bytes(&self) -> (r: &Vec<u8>)
        ensures
            r@ == self@,
    {
        &self.bytes
    }
}

} // verus!
