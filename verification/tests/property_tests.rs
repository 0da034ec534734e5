use rand::rngs::StdRng;
use rand::SeedableRng;
use voltaire::board::Policy;
use voltaire::dkg;
use voltaire::election::{check_p1, check_p3, run_election, CastEvent};
use voltaire::elgamal::encrypt;
use voltaire::group::{scalar_from_hex, scalar_to_hex, Scalar};
use voltaire::tally::verify_transcript;
use voltaire::threshold::{decrypt, partial_decrypt};

fn opts() -> Vec<String> {
    vec!["Yes".into(), "No".into(), "Abstain".into()]
}

/// One person, one vote: a double-cast with the same secret (so the same
/// nullifier) is rejected; N credentials produce at most N counted ballots.
#[test]
fn p1_one_person_one_vote() {
    let mut rng = StdRng::seed_from_u64(11);
    let n = 300u64;
    let mut events: Vec<CastEvent> = (0..n).map(|v| CastEvent { voter: v, choice: (v % 3) as usize }).collect();
    // Three separate double-cast attempts.
    events.push(CastEvent { voter: 1, choice: 0 });
    events.push(CastEvent { voter: 2, choice: 1 });
    events.push(CastEvent { voter: 3, choice: 2 });

    let r = run_election(n, &opts(), 3, 5, Policy::RejectDuplicate, 1, &events, &mut rng);
    let counted: u64 = r.counts.iter().sum();

    assert_eq!(r.rejected_duplicates, 3, "all 3 double-casts must be rejected");
    assert_eq!(r.distinct_voters as u64, n, "exactly N distinct voters");
    assert!(counted <= n, "counted {counted} must be <= N {n}");
    assert_eq!(counted, n, "every distinct voter counted exactly once");
}

/// No single-ballot decryption: every (t-1)-subset of trustees fails to
/// decrypt; t partials on a ciphertext work.
#[test]
fn p2_no_single_ballot_decryption() {
    let mut rng = StdRng::seed_from_u64(22);
    let d = dkg::run(3, 5, &mut rng);
    let (ct, _) = encrypt(&d.public_key, 1, &mut rng);

    // All C(5,2) = 10 subsets of size t-1 = 2 must fail.
    let mut count = 0;
    for i in 0..5 {
        for j in (i + 1)..5 {
            let parts = vec![
                partial_decrypt(&d.trustees[i], &ct, &mut rng),
                partial_decrypt(&d.trustees[j], &ct, &mut rng),
            ];
            assert!(decrypt(&d, &ct, &parts, 100).is_none(), "t-1 subset ({i},{j}) must NOT decrypt");
            count += 1;
        }
    }
    assert_eq!(count, 10);

    let parts_t = vec![
        partial_decrypt(&d.trustees[0], &ct, &mut rng),
        partial_decrypt(&d.trustees[1], &ct, &mut rng),
        partial_decrypt(&d.trustees[4], &ct, &mut rng),
    ];
    assert_eq!(decrypt(&d, &ct, &parts_t, 100), Some(1));
}

/// Universal verifiability: the independent verifier reproduces the tally
/// from the transcript alone, and tampering flips it to FAIL.
#[test]
fn p3_universal_verifiability_and_tamper_evidence() {
    let mut rng = StdRng::seed_from_u64(33);
    let n = 150u64;
    let events: Vec<CastEvent> = (0..n).map(|v| CastEvent { voter: v, choice: (v % 3) as usize }).collect();
    let r = run_election(n, &opts(), 3, 5, Policy::RejectDuplicate, 5, &events, &mut rng);

    // Clean transcript verifies and matches the published counts.
    let clean = verify_transcript(&r.transcript);
    assert!(clean.pass, "clean transcript must verify: {}", clean.reason);
    assert_eq!(clean.counts, r.counts);

    // Tamper 1: replace a ballot's ciphertexts with another valid ballot's.
    let mut t1 = r.transcript.clone();
    let victim = t1.ballots[7].ballot.cts.clone();
    t1.ballots[3].ballot.cts = victim;
    assert!(!verify_transcript(&t1).pass, "swapped-ballot tamper must be caught");

    // Tamper 2: forge the published result.
    let mut t2 = r.transcript.clone();
    if let Some(tl) = t2.tally.as_mut() {
        tl.results[0] += 1;
    }
    assert!(!verify_transcript(&t2).pass, "forged result must be caught");

    // Tamper 3: corrupt a trustee partial decryption.
    let mut t3 = r.transcript.clone();
    if let Some(tl) = t3.tally.as_mut() {
        let bad = scalar_to_hex(&scalar_from_hex(&tl.partials[0][0].z).unwrap().add(&Scalar::from_u64(1)));
        tl.partials[0][0].z = bad;
    }
    assert!(!verify_transcript(&t3).pass, "corrupted partial-decryption proof must be caught");
}

#[test]
fn check_p1_reports_its_numbers() {
    let mut rng = StdRng::seed_from_u64(42);
    let c = check_p1(&mut rng);
    assert!(c.pass);
    assert_eq!(c.name, "P1 1p1v");
    assert_eq!(c.detail, "202 cast attempts, 2 duplicates rejected, 200 distinct voters, 200 counted (≤ N=200)");
}

#[test]
fn check_p3_catches_the_swap() {
    let mut rng = StdRng::seed_from_u64(42);
    let c = check_p3(&mut rng);
    assert!(c.pass);
    assert_eq!(c.name, "P3 universal verifiability");
    assert!(c.detail.starts_with("clean transcript: PASS ("));
    assert!(c.detail.contains("tampered transcript: FAIL (good — tamper caught)"));
}
