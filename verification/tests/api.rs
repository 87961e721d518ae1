use riblt_core::CodedSymbol;
use riblt_core::Decoder;
use riblt_core::Encoder;
use riblt_core::IndexSchedule;
use riblt_core::RibltError;
use riblt_core::Symbol;

const K0: u64 = 7;
const K1: u64 = 9;

#[test]
fn encoder_rejects_wrong_length() {
    let mut enc = Encoder::new(4, K0, K1);
    assert_eq!(enc.add_symbol(&vec![1, 2, 3]), Err(RibltError::InvalidLength));
    assert_eq!(enc.add_symbol(&vec![1, 2, 3, 4, 5]), Err(RibltError::InvalidLength));
    assert_eq!(enc.add_symbol(&vec![1, 2, 3, 4]), Ok(()));
}

#[test]
fn decoder_rejects_wrong_length() {
    let mut dec = Decoder::new(4, K0, K1);
    assert_eq!(dec.add_symbol(&vec![1, 2, 3]), Err(RibltError::InvalidLength));
    assert_eq!(dec.add_symbol(&vec![1, 2, 3, 4]), Ok(()));
    let bad = CodedSymbol { symbol: Symbol { bytes: vec![0, 0] }, hash: 0, count: 0 };
    assert_eq!(dec.add_coded_symbol(&bad), Err(RibltError::InvalidLength));
}

#[test]
fn decoder_rejects_count_overflow() {
    // A peer count of i64::MIN cannot be negated into the signed 64-bit
    // range: the decoder reports corruption.
    let mut dec = Decoder::new(2, K0, K1);
    let bad = CodedSymbol { symbol: Symbol { bytes: vec![0, 0] }, hash: 0, count: i64::MIN };
    assert_eq!(dec.add_coded_symbol(&bad), Err(RibltError::DecodeError));
    // The state is unchanged; a lawful coded symbol is still accepted.
    let ok = CodedSymbol { symbol: Symbol { bytes: vec![0, 0] }, hash: 0, count: 0 };
    assert_eq!(dec.add_coded_symbol(&ok), Ok(()));
    assert!(dec.decoded());
}

#[test]
fn fresh_decoder_reports_decoded() {
    // With no coded symbol materialized there is nothing left to resolve.
    let dec = Decoder::new(8, K0, K1);
    assert!(dec.decoded());
    assert!(dec.get_remote_symbols().is_empty());
    assert!(dec.get_local_symbols().is_empty());
}

#[test]
fn schedule_starts_at_zero_and_increases() {
    let mut sched = IndexSchedule::new(0xdead_beef);
    assert_eq!(sched.slot, 0);
    let mut prev = sched.slot;
    for _ in 0..64 {
        sched.advance();
        assert!(sched.slot > prev);
        prev = sched.slot;
    }
}

#[test]
fn schedule_is_deterministic_per_fingerprint() {
    let mut s1 = IndexSchedule::new(42);
    let mut s2 = IndexSchedule::new(42);
    let mut s3 = IndexSchedule::new(43);
    let mut same3 = true;
    for _ in 0..32 {
        s1.advance();
        s2.advance();
        s3.advance();
        assert_eq!(s1.slot, s2.slot);
        assert_eq!(s1.prng, s2.prng);
        if s1.slot != s3.slot {
            same3 = false;
        }
    }
    assert!(!same3, "distinct fingerprints should give distinct schedules");
}

#[test]
fn slot_zero_covers_every_symbol() {
    // Every symbol participates in slot 0, so the first coded symbol is the
    // XOR of the whole set with a count equal to the set size.
    let mut enc = Encoder::new(2, K0, K1);
    enc.add_symbol(&vec![0x0f, 0x10]).unwrap();
    enc.add_symbol(&vec![0xf0, 0x01]).unwrap();
    enc.add_symbol(&vec![0x01, 0x02]).unwrap();
    let c = enc.produce_next_coded_symbol();
    assert_eq!(c.count, 3);
    assert_eq!(c.symbol.bytes, vec![0x0f ^ 0xf0 ^ 0x01, 0x10 ^ 0x01 ^ 0x02]);
}

#[test]
fn single_symbol_slot_zero_is_the_symbol() {
    let mut enc = Encoder::new(3, K0, K1);
    enc.add_symbol(&vec![4, 5, 6]).unwrap();
    let c = enc.produce_next_coded_symbol();
    assert_eq!(c.count, 1);
    assert_eq!(c.symbol.bytes, vec![4, 5, 6]);

    // The fingerprint of a pure slot matches the one another session derives
    // for the same bytes and key.
    let mut enc2 = Encoder::new(3, K0, K1);
    enc2.add_symbol(&vec![4, 5, 6]).unwrap();
    let c2 = enc2.produce_next_coded_symbol();
    assert_eq!(c.hash, c2.hash);
    assert_ne!(c.hash, 0);
}

#[test]
fn empty_encoder_emits_neutral_slots() {
    let mut enc = Encoder::new(2, K0, K1);
    for _ in 0..4 {
        let c = enc.produce_next_coded_symbol();
        assert_eq!(c.count, 0);
        assert_eq!(c.hash, 0);
        assert_eq!(c.symbol.bytes, vec![0, 0]);
    }
}

#[test]
fn late_added_symbol_joins_later_slots() {
    // A symbol added after slots were produced does not patch past output,
    // but a decoder that saw the earlier stream still converges on the
    // difference from the next slots onward.
    let mut enc = Encoder::new(2, K0, K1);
    enc.add_symbol(&vec![1, 1]).unwrap();
    let c0 = enc.produce_next_coded_symbol();
    assert_eq!(c0.count, 1);
    enc.add_symbol(&vec![2, 2]).unwrap();
    // The late symbol never contributes to the already-produced slot 0, and
    // from now on every emitted slot reflects the larger set lawfully.
    let mut counts = 0;
    for _ in 0..50 {
        let c = enc.produce_next_coded_symbol();
        counts += c.count;
    }
    assert!(counts > 0);
}

#[test]
fn different_keys_give_different_fingerprints() {
    let mut enc1 = Encoder::new(2, 1, 2);
    enc1.add_symbol(&vec![8, 8]).unwrap();
    let mut enc2 = Encoder::new(2, 3, 4);
    enc2.add_symbol(&vec![8, 8]).unwrap();
    let c1 = enc1.produce_next_coded_symbol();
    let c2 = enc2.produce_next_coded_symbol();
    assert_ne!(c1.hash, c2.hash);
}

#[test]
fn symbol_zero_is_empty() {
    let z = Symbol::zero();
    assert!(z.as_bytes().is_empty());
    // XOR with a longer symbol adopts its length, so the identity reproduces
    // the other operand exactly.
    let a = Symbol { bytes: vec![1, 2, 3, 4] };
    assert_eq!(z.xor(&a).bytes, vec![1, 2, 3, 4]);
}
