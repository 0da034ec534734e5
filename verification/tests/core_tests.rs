use rand::rngs::StdRng;
use rand::SeedableRng;
use voltaire::dkg;
use voltaire::elgamal::{encrypt, Ciphertext, PublicKey};
use voltaire::group::{bounded_dlog, encode_u64, g, g_mul, Point, Scalar};
use voltaire::jcj::{encrypt_credential, pet};
use voltaire::threshold::{combine, decrypt, partial_decrypt};
use voltaire::validity::{prove_ballot, prove_bit, prove_sum_one, verify_ballot, BallotProof};

fn rng(seed: u64) -> StdRng {
    StdRng::seed_from_u64(seed)
}

#[test]
fn public_key_matches_reconstructed_secret() {
    let mut r = rng(101);
    let dkg = dkg::run(3, 5, &mut r);
    // Reconstruct x from 3 shares via Lagrange at 0 and check x*G == pk.
    let idx: Vec<u64> = dkg.trustees[..3].iter().map(|k| k.index).collect();
    let mut x = Scalar::zero();
    for k in &dkg.trustees[..3] {
        let mut num = Scalar::one();
        let mut den = Scalar::one();
        for &j in &idx {
            if j != k.index {
                num = num.mul(&Scalar::from_u64(j));
                den = den.mul(&Scalar::from_u64(j).sub(&Scalar::from_u64(k.index)));
            }
        }
        let lambda = num.mul(&den.invert());
        x = x.add(&lambda.mul(&k.share));
    }
    assert_eq!(g().mul(&x), dkg.public_key.0);
    // Encrypt a small m and decrypt with the reconstructed x.
    let (ct, _) = encrypt(&dkg.public_key, 42, &mut r);
    let mpt = ct.c2.sub(&ct.c1.mul(&x));
    assert_eq!(bounded_dlog(mpt, 100), Some(42));
}

#[test]
fn homomorphic_sum_decrypts_to_sum() {
    let mut r = rng(102);
    let x = Scalar::random(&mut r);
    let pk = PublicKey(g_mul(&x));
    let mut acc = Ciphertext::identity();
    let mut total = 0u64;
    for m in [3u64, 5, 7, 11] {
        let (ct, _) = encrypt(&pk, m, &mut r);
        acc = acc.add(&ct);
        total += m;
    }
    let m_point = acc.c2.sub(&acc.c1.mul(&x));
    assert_eq!(bounded_dlog(m_point, 1000), Some(total));
}

#[test]
fn dlog_roundtrip() {
    for &m in &[0u64, 1, 2, 999, 12345, 100_000] {
        let p = encode_u64(m);
        assert_eq!(bounded_dlog(p, 200_000), Some(m), "m={m}");
    }
}

#[test]
fn dlog_rejects_out_of_range() {
    let p = encode_u64(500);
    assert_eq!(bounded_dlog(p, 100), None);
}

#[test]
fn pet_detects_equal_and_unequal() {
    let mut r = rng(103);
    let d = dkg::run(3, 5, &mut r);
    let cred = g().mul(&Scalar::random(&mut r));
    let other = g().mul(&Scalar::random(&mut r));
    let a = encrypt_credential(&d.public_key, cred, &mut r);
    let a2 = encrypt_credential(&d.public_key, cred, &mut r); // re-encryption
    let b = encrypt_credential(&d.public_key, other, &mut r);
    assert!(pet(&d, &a, &a2, &mut r), "same credential must match");
    assert!(!pet(&d, &a, &b, &mut r), "different credential must not match");
}

#[test]
fn threshold_decrypt_roundtrip() {
    let mut r = rng(104);
    let d = dkg::run(3, 5, &mut r);
    let (ct, _) = encrypt(&d.public_key, 123, &mut r);
    let partials: Vec<_> = d.trustees[..3].iter().map(|k| partial_decrypt(k, &ct, &mut r)).collect();
    assert_eq!(decrypt(&d, &ct, &partials, 1000), Some(123));
}

#[test]
fn t_minus_1_cannot_decrypt() {
    // Any t-1 subset returns None (cannot decrypt).
    let mut r = rng(105);
    let d = dkg::run(3, 5, &mut r);
    let (ct, _) = encrypt(&d.public_key, 7, &mut r);
    for combo in [[0usize, 1], [0, 2], [1, 3], [2, 4], [3, 4]] {
        let partials: Vec<_> = combo.iter().map(|&i| partial_decrypt(&d.trustees[i], &ct, &mut r)).collect();
        assert_eq!(decrypt(&d, &ct, &partials, 1000), None, "t-1 must not decrypt");
        assert!(combine(&d, &ct, &partials).is_none());
    }
}

#[test]
fn homomorphic_then_threshold() {
    let mut r = rng(106);
    let d = dkg::run(3, 5, &mut r);
    let mut acc = Ciphertext::identity();
    let mut sum = 0;
    for m in [10u64, 20, 30, 40] {
        let (ct, _) = encrypt(&d.public_key, m, &mut r);
        acc = acc.add(&ct);
        sum += m;
    }
    let partials: Vec<_> = [0, 2, 4].iter().map(|&i| partial_decrypt(&d.trustees[i], &acc, &mut r)).collect();
    assert_eq!(decrypt(&d, &acc, &partials, 1000), Some(sum));
}

#[test]
fn valid_ballot_verifies() {
    let mut r = rng(107);
    let d = dkg::run(3, 5, &mut r);
    for choice in 0..3 {
        let (cts, proof) = prove_ballot(&d.public_key, choice, 3, &mut r);
        assert!(verify_ballot(&d.public_key, &cts, &proof), "choice {choice}");
    }
}

#[test]
fn cheating_ballot_two_ones_is_rejected() {
    // Encrypt [1,1,0] and try to pass it off: the sum==1 proof must fail.
    let mut r = rng(108);
    let d = dkg::run(3, 5, &mut r);
    let (c0, r0) = encrypt(&d.public_key, 1, &mut r);
    let (c1, r1) = encrypt(&d.public_key, 1, &mut r);
    let (c2, r2) = encrypt(&d.public_key, 0, &mut r);
    let cts = vec![c0, c1, c2];
    // The attacker builds honest bit proofs (they are bits) ...
    let bits = vec![
        prove_bit(&d.public_key, &cts[0], r0, 1, &mut r),
        prove_bit(&d.public_key, &cts[1], r1, 1, &mut r),
        prove_bit(&d.public_key, &cts[2], r2, 0, &mut r),
    ];
    // ... but the sum is 2, so no valid sum==1 proof exists.
    let csum = cts.iter().fold(Ciphertext::identity(), |a, c| a.add(c));
    let rsum = r0.add(&r1).add(&r2);
    let sum_one = prove_sum_one(&d.public_key, &csum, rsum, &mut r);
    let proof = BallotProof { bits, sum_one };
    assert!(!verify_ballot(&d.public_key, &cts, &proof), "double vote must be rejected");
}

#[test]
fn identity_point_is_zero() {
    assert_eq!(Point::identity(), encode_u64(0));
    assert!(Point::identity().eq(&g().sub(&g())));
}

#[test]
fn any_three_of_five_trustees_decrypt() {
    let mut r = rng(131);
    let d = dkg::run(3, 5, &mut r);
    let (ct, _) = encrypt(&d.public_key, 123, &mut r);
    for a in 0..5 {
        for b in (a + 1)..5 {
            for c in (b + 1)..5 {
                let parts: Vec<_> = [a, b, c]
                    .iter()
                    .map(|&i| partial_decrypt(&d.trustees[i], &ct, &mut r))
                    .collect();
                assert_eq!(decrypt(&d, &ct, &parts, 1000), Some(123), "trustees {a},{b},{c}");
            }
        }
    }
    // More than t partials interpolate to the same plaintext.
    let all: Vec<_> = d.trustees.iter().map(|k| partial_decrypt(k, &ct, &mut r)).collect();
    assert_eq!(decrypt(&d, &ct, &all, 1000), Some(123));
}

#[test]
fn ceremony_from_given_polynomials() {
    // Dealers' polynomials: 3 + 5x, 7 + 11x, 2 + 1x. F(x) = 12 + 17x.
    let s = |v: u64| Scalar::from_u64(v);
    let coeffs = vec![vec![s(3), s(5)], vec![s(7), s(11)], vec![s(2), s(1)]];
    let d = dkg::from_coefficients(2, 3, coeffs);
    assert_eq!(d.t, 2);
    assert_eq!(d.n, 3);
    assert!(d.public_key.0.eq(&g().mul(&s(12))));
    for (i, k) in d.trustees.iter().enumerate() {
        let x = i as u64 + 1;
        assert_eq!(k.index, x);
        assert!(k.share.eq(&s(12 + 17 * x)));
        assert!(k.public_share.eq(&g().mul(&s(12 + 17 * x))));
    }
}
