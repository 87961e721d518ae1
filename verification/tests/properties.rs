use riblt_core::Decoder;
use riblt_core::Encoder;
use riblt_core::Symbol;

const K0: u64 = 0x0123_4567_89ab_cdef;
const K1: u64 = 0xfedc_ba98_7654_3210;

fn to_vec(bytes: &[u8]) -> Vec<u8> {
    bytes.to_vec()
}

/// Run one direction of a reconciliation: `ours` is the decoder side's set,
/// `theirs` the peer's.  Returns the resolved (local_only, remote_only) byte
/// vectors once the decoder reports completion.
fn reconcile(ours: &[&[u8]], theirs: &[&[u8]], size: usize) -> (Vec<Vec<u8>>, Vec<Vec<u8>>) {
    let mut enc = Encoder::new(size, K0, K1);
    for s in theirs {
        enc.add_symbol(&to_vec(s)).unwrap();
    }
    let mut dec = Decoder::new(size, K0, K1);
    for s in ours {
        dec.add_symbol(&to_vec(s)).unwrap();
    }
    let mut rounds = 0;
    loop {
        let c = enc.produce_next_coded_symbol();
        dec.add_coded_symbol(&c).unwrap();
        dec.try_decode().unwrap();
        if dec.decoded() {
            break;
        }
        rounds += 1;
        assert!(rounds < 2000, "reconciliation did not converge");
    }
    let local: Vec<Vec<u8>> = dec.get_local_symbols().iter().map(|h| h.symbol.bytes.clone()).collect();
    let remote: Vec<Vec<u8>> = dec.get_remote_symbols().iter().map(|h| h.symbol.bytes.clone()).collect();
    (local, remote)
}

fn as_sorted(mut v: Vec<Vec<u8>>) -> Vec<Vec<u8>> {
    v.sort();
    v
}

#[test]
fn p1_xor_identity() {
    let a = Symbol { bytes: vec![0x5a, 0x00, 0xff] };
    let z = Symbol::zero();
    assert_eq!(a.xor(&z).bytes, vec![0x5a, 0x00, 0xff]);
    assert_eq!(z.xor(&a).bytes, vec![0x5a, 0x00, 0xff]);
}

#[test]
fn p1_xor_self_inverse() {
    let a = Symbol { bytes: vec![0x5a, 0x13, 0xff, 0x01] };
    let r = a.xor(&a);
    assert!(r.bytes.iter().all(|&b| b == 0));
}

#[test]
fn p1_xor_commutative() {
    let a = Symbol { bytes: vec![1, 2, 3] };
    let b = Symbol { bytes: vec![9, 8, 7] };
    assert_eq!(a.xor(&b).bytes, b.xor(&a).bytes);
}

#[test]
fn p1_xor_associative() {
    let a = Symbol { bytes: vec![1, 2, 3] };
    let b = Symbol { bytes: vec![9, 8, 7] };
    let c = Symbol { bytes: vec![0xf0, 0x0f, 0x55] };
    assert_eq!(a.xor(&b).xor(&c).bytes, a.xor(&b.xor(&c)).bytes);
}

#[test]
fn p2_single_peer_round_trip() {
    let s1: &[u8] = &[1, 0, 0, 0];
    let s2: &[u8] = &[2, 0, 0, 0];
    let s3: &[u8] = &[3, 0, 0, 0];
    let (local, remote) = reconcile(&[], &[s1, s2, s3], 4);
    assert!(local.is_empty());
    assert_eq!(
        as_sorted(remote),
        as_sorted(vec![s1.to_vec(), s2.to_vec(), s3.to_vec()])
    );
}

#[test]
fn p3_symmetric_difference_both_directions() {
    let x1: &[u8] = b"x1";
    let x2: &[u8] = b"x2";
    let y1: &[u8] = b"y1";
    let c1: &[u8] = b"c1";
    let c2: &[u8] = b"c2";
    let a: &[&[u8]] = &[x1, x2, c1, c2];
    let b: &[&[u8]] = &[y1, c1, c2];

    let (a_local, a_remote) = reconcile(a, b, 2);
    assert_eq!(as_sorted(a_local), as_sorted(vec![x1.to_vec(), x2.to_vec()]));
    assert_eq!(as_sorted(a_remote), as_sorted(vec![y1.to_vec()]));

    let (b_local, b_remote) = reconcile(b, a, 2);
    assert_eq!(as_sorted(b_local), as_sorted(vec![y1.to_vec()]));
    assert_eq!(as_sorted(b_remote), as_sorted(vec![x1.to_vec(), x2.to_vec()]));
}

#[test]
fn p4_empty_difference_terminates_at_slot_zero() {
    let r1 = vec![0xaa, 0xbb];
    let r2 = vec![0xcc, 0xdd];
    let mut enc = Encoder::new(2, K0, K1);
    enc.add_symbol(&r1).unwrap();
    enc.add_symbol(&r2).unwrap();
    let mut dec = Decoder::new(2, K0, K1);
    dec.add_symbol(&r1).unwrap();
    dec.add_symbol(&r2).unwrap();

    let c0 = enc.produce_next_coded_symbol();
    dec.add_coded_symbol(&c0).unwrap();
    assert!(dec.decoded(), "equal sets must cancel at slot 0");
    dec.try_decode().unwrap();
    assert!(dec.decoded());
    assert!(dec.get_remote_symbols().is_empty());
    assert!(dec.get_local_symbols().is_empty());
}

#[test]
fn p5_monotonic_resolution() {
    let a: &[&[u8]] = &[b"aa", b"bb", b"cc", b"dd", b"ee"];
    let b: &[&[u8]] = &[b"cc", b"dd", b"ff"];
    let mut enc = Encoder::new(2, K0, K1);
    for s in b {
        enc.add_symbol(&to_vec(s)).unwrap();
    }
    let mut dec = Decoder::new(2, K0, K1);
    for s in a {
        dec.add_symbol(&to_vec(s)).unwrap();
    }
    let mut seen_local: Vec<(Vec<u8>, u64)> = Vec::new();
    let mut seen_remote: Vec<(Vec<u8>, u64)> = Vec::new();
    let mut rounds = 0;
    loop {
        let c = enc.produce_next_coded_symbol();
        dec.add_coded_symbol(&c).unwrap();
        dec.try_decode().unwrap();
        let local: Vec<(Vec<u8>, u64)> =
            dec.get_local_symbols().iter().map(|h| (h.symbol.bytes.clone(), h.hash)).collect();
        let remote: Vec<(Vec<u8>, u64)> =
            dec.get_remote_symbols().iter().map(|h| (h.symbol.bytes.clone(), h.hash)).collect();
        assert!(local.len() >= seen_local.len());
        assert!(remote.len() >= seen_remote.len());
        assert_eq!(&local[..seen_local.len()], &seen_local[..]);
        assert_eq!(&remote[..seen_remote.len()], &seen_remote[..]);
        seen_local = local;
        seen_remote = remote;
        if dec.decoded() {
            break;
        }
        rounds += 1;
        assert!(rounds < 2000, "reconciliation did not converge");
    }
    assert_eq!(seen_local.len(), 3);
    assert_eq!(seen_remote.len(), 1);
}

#[test]
fn p6_decoder_reset_equals_fresh() {
    let mut dec = Decoder::new(2, K0, K1);
    dec.add_symbol(&vec![1, 2]).unwrap();
    let mut enc = Encoder::new(2, K0, K1);
    enc.add_symbol(&vec![3, 4]).unwrap();
    for _ in 0..5 {
        let c = enc.produce_next_coded_symbol();
        dec.add_coded_symbol(&c).unwrap();
        dec.try_decode().unwrap();
    }
    dec.reset();

    let fresh = Decoder::new(2, K0, K1);
    assert_eq!(dec.decoded(), fresh.decoded());
    assert!(dec.decoded());
    assert!(dec.get_remote_symbols().is_empty());
    assert!(dec.get_local_symbols().is_empty());

    // After reset the decoder behaves exactly like a fresh one on the same
    // stream.
    let mut enc1 = Encoder::new(2, K0, K1);
    enc1.add_symbol(&vec![9, 9]).unwrap();
    let mut enc2 = Encoder::new(2, K0, K1);
    enc2.add_symbol(&vec![9, 9]).unwrap();
    let mut fresh = Decoder::new(2, K0, K1);
    let mut done1 = false;
    let mut done2 = false;
    for _ in 0..20 {
        let c1 = enc1.produce_next_coded_symbol();
        let c2 = enc2.produce_next_coded_symbol();
        assert_eq!(c1.symbol.bytes, c2.symbol.bytes);
        assert_eq!(c1.hash, c2.hash);
        assert_eq!(c1.count, c2.count);
        dec.add_coded_symbol(&c1).unwrap();
        fresh.add_coded_symbol(&c2).unwrap();
        dec.try_decode().unwrap();
        fresh.try_decode().unwrap();
        done1 = dec.decoded();
        done2 = fresh.decoded();
        assert_eq!(done1, done2);
        if done1 {
            break;
        }
    }
    assert!(done1 && done2);
    let r1: Vec<Vec<u8>> = dec.get_remote_symbols().iter().map(|h| h.symbol.bytes.clone()).collect();
    let r2: Vec<Vec<u8>> = fresh.get_remote_symbols().iter().map(|h| h.symbol.bytes.clone()).collect();
    assert_eq!(r1, r2);
    assert_eq!(r1, vec![vec![9, 9]]);
}

#[test]
fn p6_encoder_reset_equals_fresh() {
    let mut enc = Encoder::new(3, K0, K1);
    enc.add_symbol(&vec![1, 2, 3]).unwrap();
    let _ = enc.produce_next_coded_symbol();
    let _ = enc.produce_next_coded_symbol();
    enc.reset();

    let mut fresh = Encoder::new(3, K0, K1);
    enc.add_symbol(&vec![7, 8, 9]).unwrap();
    fresh.add_symbol(&vec![7, 8, 9]).unwrap();
    for _ in 0..10 {
        let c1 = enc.produce_next_coded_symbol();
        let c2 = fresh.produce_next_coded_symbol();
        assert_eq!(c1.symbol.bytes, c2.symbol.bytes);
        assert_eq!(c1.hash, c2.hash);
        assert_eq!(c1.count, c2.count);
    }
}

#[test]
fn p7_scenario() {
    let a1: &[u8] = b"A1";
    let a2: &[u8] = b"A2";
    let b1: &[u8] = b"B1";
    let a: &[&[u8]] = &[a1, a2];
    let b: &[&[u8]] = &[a2, b1];
    let (a_local, a_remote) = reconcile(a, b, 2);
    assert_eq!(as_sorted(a_local), vec![a1.to_vec()]);
    assert_eq!(as_sorted(a_remote), vec![b1.to_vec()]);
}

#[test]
fn resolved_fingerprints_agree_across_sessions() {
    // The same record resolved by two independent sessions with the same key
    // carries the same fingerprint, and distinct records carry distinct ones.
    let a1: &[u8] = b"A1";
    let a2: &[u8] = b"A2";
    let b1: &[u8] = b"B1";
    let a: &[&[u8]] = &[a1, a2];
    let b: &[&[u8]] = &[a2, b1];

    let mut enc_b = Encoder::new(2, K0, K1);
    for s in b {
        enc_b.add_symbol(&to_vec(s)).unwrap();
    }
    let mut dec_a = Decoder::new(2, K0, K1);
    for s in a {
        dec_a.add_symbol(&to_vec(s)).unwrap();
    }
    let mut enc_a = Encoder::new(2, K0, K1);
    for s in a {
        enc_a.add_symbol(&to_vec(s)).unwrap();
    }
    let mut dec_b = Decoder::new(2, K0, K1);
    for s in b {
        dec_b.add_symbol(&to_vec(s)).unwrap();
    }
    for _ in 0..2000 {
        let cb = enc_b.produce_next_coded_symbol();
        dec_a.add_coded_symbol(&cb).unwrap();
        dec_a.try_decode().unwrap();
        let ca = enc_a.produce_next_coded_symbol();
        dec_b.add_coded_symbol(&ca).unwrap();
        dec_b.try_decode().unwrap();
        if dec_a.decoded() && dec_b.decoded() {
            break;
        }
    }
    assert!(dec_a.decoded() && dec_b.decoded());

    // A sees "A1" as local-only; B sees "A1" as remote-only.
    let a_local = dec_a.get_local_symbols();
    let b_remote = dec_b.get_remote_symbols();
    let fp_a1_at_a = a_local.iter().find(|h| h.symbol.bytes == a1).unwrap().hash;
    let fp_a1_at_b = b_remote.iter().find(|h| h.symbol.bytes == a1).unwrap().hash;
    assert_eq!(fp_a1_at_a, fp_a1_at_b);

    let fp_b1_at_a = dec_a.get_remote_symbols().iter().find(|h| h.symbol.bytes == b1).unwrap().hash;
    assert_ne!(fp_a1_at_a, fp_b1_at_a);
}
