use rand::rngs::StdRng;
use rand::SeedableRng;
use voltaire::board::{AppendResult, Ballot, Board, Policy};
use voltaire::coercer::{analyze, analyze_nullifiers};
use voltaire::dkg;
use voltaire::election::{check_p2, run_election, CastEvent};
use voltaire::elgamal::encrypt;
use voltaire::group::{
    g, hash_to_scalar, hex_to_bytes32, point_from_hex, point_to_hex, scalar_from_hex, scalar_to_hex,
    Point, Scalar,
};
use voltaire::jcj::{count_duplicates, encrypt_credential, measure_dedup, pet_fast, PetCtx};
use voltaire::tally::{decode_commitments, run_tally, verify_transcript, Header, TallySection, Transcript};
use voltaire::text::fmt;
use voltaire::threshold::{combine, partial_decrypt};
use voltaire::validity::{decode_ballot, encode_ballot, prove_ballot};
use voltaire::zk::{
    commitment, field_from_u64, nullifier, poseidon_config, poseidon_hash, voter_secret, MerkleTree,
};

fn opts() -> Vec<String> {
    vec!["Yes".into(), "No".into(), "Abstain".into()]
}

fn small_election(seed: u64, policy: Policy) -> voltaire::election::ElectionResult {
    let mut rng = StdRng::seed_from_u64(seed);
    let mut events: Vec<CastEvent> = (0..12u64).map(|v| CastEvent { voter: v, choice: (v % 3) as usize }).collect();
    events.push(CastEvent { voter: 4, choice: 0 });
    run_election(12, &opts(), 3, 5, policy, 7, &events, &mut rng)
}

#[test]
fn policy_names() {
    assert_eq!(Policy::RejectDuplicate.as_str(), "reject_duplicate");
    assert_eq!(Policy::LastWriteWins.as_str(), "last_write_wins");
}

#[test]
fn fmt_groups_thousands() {
    assert_eq!(fmt(0), "0");
    assert_eq!(fmt(999), "999");
    assert_eq!(fmt(1000), "1,000");
    assert_eq!(fmt(1234567), "1,234,567");
    assert_eq!(fmt(1_000_001), "1,000,001");
}

#[test]
fn board_rejects_or_replaces_a_repeated_nullifier() {
    let mut rng = StdRng::seed_from_u64(201);
    let d = dkg::run(2, 3, &mut rng);
    let make = |rng: &mut StdRng, null: u8, choice: usize| {
        let (cts, proof) = prove_ballot(&d.public_key, choice, 2, rng);
        Ballot { nullifier: [null; 32], cts, proof, membership: None }
    };
    let mut strict = Board::new(Policy::RejectDuplicate);
    assert_eq!(strict.append(&d.public_key, make(&mut rng, 1, 0)), AppendResult::Accepted);
    assert_eq!(strict.append(&d.public_key, make(&mut rng, 1, 1)), AppendResult::RejectedDuplicate);
    assert_eq!(strict.append(&d.public_key, make(&mut rng, 2, 1)), AppendResult::Accepted);
    assert_eq!(strict.rejected_duplicates, 1);
    assert_eq!(strict.distinct_voters(), 2);
    assert_eq!(strict.counted().len(), 2);

    let mut lenient = Board::new(Policy::LastWriteWins);
    assert_eq!(lenient.append(&d.public_key, make(&mut rng, 1, 0)), AppendResult::Accepted);
    assert_eq!(lenient.append(&d.public_key, make(&mut rng, 2, 0)), AppendResult::Accepted);
    assert_eq!(lenient.append(&d.public_key, make(&mut rng, 1, 1)), AppendResult::Replaced);
    assert_eq!(lenient.records.len(), 3);
    let counted = lenient.counted();
    assert_eq!(counted.len(), 2);
    // The latest ballot of nullifier 1 is the one counted, in first-appearance order.
    assert_eq!(counted[0].nullifier, [1u8; 32]);
    assert_eq!(counted[0].cts[0], lenient.records[2].cts[0]);
    assert_eq!(counted[1].nullifier, [2u8; 32]);

    // An invalid proof never enters the board.
    let mut bad = make(&mut rng, 3, 0);
    bad.cts.swap(0, 1);
    let before = lenient.records.len();
    let res = lenient.append(&d.public_key, bad);
    assert_eq!(res, AppendResult::RejectedInvalidProof);
    assert_eq!(lenient.records.len(), before);
}

#[test]
fn clean_transcript_reports_its_counts() {
    let r = small_election(202, Policy::LastWriteWins);
    // Voter 4 re-voted for option 0 instead of option 1.
    assert_eq!(r.counts, vec![5, 3, 4]);
    let out = verify_transcript(&r.transcript);
    assert!(out.pass);
    assert_eq!(out.counts, vec![5, 3, 4]);
    assert_eq!(out.reason, "verified 12 ballots, counts [5, 3, 4]");
    assert_eq!(r.cast_count, 13);
    assert_eq!(r.rejected_duplicates, 0);
    assert_eq!(r.transcript.header.election, "posada-voltaire/election/7");
    assert_eq!(r.transcript.header.policy, "last_write_wins");
}

#[test]
fn forged_counts_are_reported() {
    let r = small_election(203, Policy::RejectDuplicate);
    assert_eq!(r.counts, vec![4, 4, 4]);
    let mut t: Transcript = r.transcript.clone();
    t.tally.as_mut().unwrap().results[2] = 9;
    let out = verify_transcript(&t);
    assert!(!out.pass);
    assert_eq!(out.counts, vec![4, 4, 4]);
    assert_eq!(out.reason, "recomputed counts [4, 4, 4] != published [4, 4, 9] → transcript inconsistent");
}

#[test]
fn verifier_names_each_defect() {
    let r = small_election(204, Policy::RejectDuplicate);
    let mut t = r.transcript.clone();
    t.header.public_key = "zz".into();
    assert_eq!(verify_transcript(&t).reason, "malformed public key");

    let mut t = r.transcript.clone();
    t.header.commitments[0][0] = "00".into();
    assert_eq!(verify_transcript(&t).reason, "malformed commitments");

    let mut t = r.transcript.clone();
    t.header.policy = "first_write_wins".into();
    assert_eq!(verify_transcript(&t).reason, "unknown policy first_write_wins");

    let mut t = r.transcript.clone();
    t.ballots[2].nullifier = "abc".into();
    assert_eq!(verify_transcript(&t).reason, "ballot 2: bad nullifier");

    let mut t = r.transcript.clone();
    t.ballots[1].ballot.sum_one[0] = "nothex".into();
    assert_eq!(verify_transcript(&t).reason, "ballot 1: undecodable");

    let mut t = r.transcript.clone();
    t.ballots[0].ballot.cts.pop();
    assert_eq!(verify_transcript(&t).reason, "ballot 0: wrong option count");

    let mut t = r.transcript.clone();
    t.ballots[3].ballot.cts.swap(0, 1);
    assert_eq!(
        verify_transcript(&t).reason,
        "ballot 3: INVALID validity proof (exactly-one-choice broken)"
    );

    let mut t = r.transcript.clone();
    let again = t.ballots[0].clone();
    t.ballots.push(again);
    assert_eq!(verify_transcript(&t).reason, "ballot 12: duplicate nullifier under reject policy");

    let mut t = r.transcript.clone();
    t.tally = None;
    let out = verify_transcript(&t);
    assert_eq!(out.reason, "no tally section");
    assert!(out.counts.is_empty());

    let mut t = r.transcript.clone();
    t.tally.as_mut().unwrap().results.pop();
    assert_eq!(verify_transcript(&t).reason, "tally shape mismatch");

    let mut t = r.transcript.clone();
    t.tally.as_mut().unwrap().partials[1][0].d = "00".into();
    assert_eq!(verify_transcript(&t).reason, "bad partial point");

    let mut t = r.transcript.clone();
    t.tally.as_mut().unwrap().partials[1][0].e = "xy".into();
    assert_eq!(verify_transcript(&t).reason, "bad partial scalar");

    let mut t = r.transcript.clone();
    let other = t.tally.as_ref().unwrap().partials[0][1].clone();
    t.tally.as_mut().unwrap().partials[2][1] = other;
    assert_eq!(
        verify_transcript(&t).reason,
        "option 2: partial-decryption proof FAILED against recomputed tally → ballot tampering or forged tally detected"
    );

    let mut t = r.transcript.clone();
    t.tally.as_mut().unwrap().partials[0].pop();
    assert_eq!(verify_transcript(&t).reason, "option 0: could not combine ≥ t partials");

    let mut t = r.transcript.clone();
    t.tally.as_mut().unwrap().max = 1;
    assert_eq!(verify_transcript(&t).reason, "option 0: could not combine ≥ t partials");
}

#[test]
fn coercer_links_repeated_nullifiers() {
    let nulls: Vec<String> = ["a", "b", "a", "c", "b", "a"].iter().map(|s| s.to_string()).collect();
    let rep = analyze_nullifiers(&nulls);
    assert_eq!(rep.board_ballots, 6);
    assert_eq!(rep.distinct_nullifiers, 3);
    assert_eq!(rep.revote_nullifiers, 2);
    assert_eq!(rep.linked_ballots, 5);
    assert_eq!(rep.example_link, Some((0, 2, "a".to_string())));
    assert!(rep.can_detect_revote);
    assert!(rep.can_link_two_ballots);

    let distinct: Vec<String> = ["x", "y"].iter().map(|s| s.to_string()).collect();
    let rep = analyze_nullifiers(&distinct);
    assert_eq!(rep.revote_nullifiers, 0);
    assert_eq!(rep.linked_ballots, 0);
    assert_eq!(rep.example_link, None);
    assert!(!rep.can_detect_revote);
}

#[test]
fn coercer_sees_revotes_on_the_board() {
    let r = small_election(205, Policy::LastWriteWins);
    let rep = analyze(&r.transcript);
    assert_eq!(rep.board_ballots, 13);
    assert_eq!(rep.distinct_nullifiers, 12);
    assert_eq!(rep.revote_nullifiers, 1);
    assert_eq!(rep.linked_ballots, 2);
    let (a, b, _) = rep.example_link.unwrap();
    assert_eq!((a, b), (4, 12));
}

#[test]
fn merkle_paths_lead_to_the_root() {
    let cfg = poseidon_config();
    let leaves: Vec<[u8; 32]> = (0..5u64).map(|i| commitment(&cfg, voter_secret(i))).collect();
    let tree = MerkleTree::build(cfg, leaves.clone());
    assert_eq!(tree.depth, 3);
    let root = tree.root();
    for index in 0..8usize {
        let (siblings, bits) = tree.path(index);
        assert_eq!(siblings.len(), 3);
        let mut cur = if index < 5 { leaves[index] } else { [0u8; 32] };
        for d in 0..3 {
            cur = if bits[d] {
                poseidon_hash(&cfg, &[siblings[d], cur])
            } else {
                poseidon_hash(&cfg, &[cur, siblings[d]])
            };
        }
        assert_eq!(cur, root, "leaf {index}");
    }
    let single = MerkleTree::build(cfg, vec![[7u8; 32]]);
    assert_eq!(single.depth, 0);
    assert_eq!(single.root(), [7u8; 32]);
}

#[test]
fn nullifiers_are_deterministic_and_distinct() {
    let cfg = poseidon_config();
    let e = field_from_u64(2024);
    let s5 = voter_secret(5);
    let n1 = nullifier(&cfg, s5, e);
    assert_eq!(n1, nullifier(&cfg, voter_secret(5), field_from_u64(2024)));
    assert_ne!(n1, nullifier(&cfg, voter_secret(6), e));
    assert_ne!(n1, nullifier(&cfg, s5, field_from_u64(2025)));
    assert_ne!(n1, s5);
    assert_ne!(commitment(&cfg, s5), n1);
}

#[test]
fn field_elements_are_little_endian() {
    let mut expected = [0u8; 32];
    expected[0] = 2;
    expected[1] = 1;
    assert_eq!(field_from_u64(258), expected);
    let mut one = [0u8; 32];
    one[0] = 1;
    assert_eq!(voter_secret(0), one);
    // 0x9E3779B97F4A7C15 + 1
    assert_eq!(voter_secret(1)[..8], 0x9E3779B97F4A7C16u64.to_le_bytes());
}

#[test]
fn hex_encodings_round_trip() {
    let mut rng = StdRng::seed_from_u64(206);
    let s = Scalar::random(&mut rng);
    let p = g().mul(&s);
    let ph = point_to_hex(&p);
    assert_eq!(ph.len(), 64);
    assert_eq!(point_from_hex(&ph), Some(p));
    assert_eq!(point_from_hex(&ph.to_uppercase()), Some(p));
    assert_eq!(scalar_from_hex(&scalar_to_hex(&s)), Some(s));
    assert_eq!(point_from_hex("00"), None);
    assert_eq!(scalar_from_hex(&"ff".repeat(32)), None);
    assert_eq!(hex_to_bytes32(&"0a".repeat(32)), Some([10u8; 32]));
    assert_eq!(hex_to_bytes32("0a0"), None);
    assert_eq!(Scalar::from_u64(5).add(&Scalar::from_u64(7)), Scalar::from_u64(12));
    assert_eq!(Scalar::from_u64(5).sub(&Scalar::from_u64(7)).add(&Scalar::from_u64(2)), Scalar::zero());
    assert_eq!(Scalar::from_u64(6).mul(&Scalar::from_u64(7)), Scalar::from_u64(42));
    assert_eq!(Scalar::from_u64(7).invert().mul(&Scalar::from_u64(7)), Scalar::one());
    assert_eq!(g().add(&g()), g().mul(&Scalar::from_u64(2)));
}

#[test]
fn fiat_shamir_challenges_depend_on_everything() {
    let a = hash_to_scalar(b"label-a", &[g()], &[Scalar::one()]);
    let b = hash_to_scalar(b"label-b", &[g()], &[Scalar::one()]);
    let c = hash_to_scalar(b"label-a", &[Point::identity()], &[Scalar::one()]);
    let d = hash_to_scalar(b"label-a", &[g()], &[Scalar::zero()]);
    assert_ne!(a, b);
    assert_ne!(a, c);
    assert_ne!(a, d);
    assert_eq!(a, hash_to_scalar(b"label-a", &[g()], &[Scalar::one()]));
}

#[test]
fn ballots_round_trip_through_hex() {
    let mut rng = StdRng::seed_from_u64(207);
    let d = dkg::run(2, 3, &mut rng);
    let (cts, proof) = prove_ballot(&d.public_key, 1, 4, &mut rng);
    let enc = encode_ballot(&cts, &proof);
    let (cts2, proof2) = decode_ballot(&enc).unwrap();
    assert_eq!(cts2, cts);
    assert_eq!(proof2.bits.len(), 4);
    assert_eq!(proof2.sum_one.e, proof.sum_one.e);
    assert_eq!(proof2.sum_one.z, proof.sum_one.z);
    let mut broken = enc.clone();
    broken.cts[2].c1 = "01".into();
    assert!(decode_ballot(&broken).is_none());
}

#[test]
fn tally_decrypts_only_the_combined_ciphertexts() {
    let mut rng = StdRng::seed_from_u64(208);
    let d = dkg::run(3, 5, &mut rng);
    let mut ballots = Vec::new();
    for choice in [0usize, 1, 1, 2, 1] {
        let (cts, proof) = prove_ballot(&d.public_key, choice, 3, &mut rng);
        ballots.push(voltaire::board::Ballot { nullifier: [choice as u8; 32], cts, proof, membership: None });
    }
    let refs: Vec<&voltaire::board::Ballot> = ballots.iter().collect();
    let ts = run_tally(&d, &refs, 3, 5, &mut rng).unwrap();
    assert_eq!(ts.results, vec![1, 3, 1]);
    assert_eq!(ts.partials.len(), 3);
    assert_eq!(ts.partials[0].len(), 3);
    assert_eq!(ts.max, 5);
    // A bound below a count fails to decrypt.
    assert!(run_tally(&d, &refs, 3, 2, &mut rng).is_none());
    // The published commitments decode.
    let t = voltaire::tally::build_transcript("e", &opts(), &d, &Board::new(Policy::RejectDuplicate), 0, None);
    assert_eq!(decode_commitments(&t.header).unwrap(), d.commitments);
}

#[test]
fn fast_pet_and_dedup_count() {
    let mut rng = StdRng::seed_from_u64(209);
    let d = dkg::run(3, 5, &mut rng);
    let ctx = PetCtx::new(&d);
    let cred = g().mul(&Scalar::random(&mut rng));
    let a = encrypt_credential(&d.public_key, cred, &mut rng);
    let a2 = encrypt_credential(&d.public_key, cred, &mut rng);
    let b = encrypt_credential(&d.public_key, g(), &mut rng);
    assert!(pet_fast(&ctx, &a, &a2, &mut rng));
    assert!(!pet_fast(&ctx, &a, &b, &mut rng));
    let m = measure_dedup(&d, 12, 3, &mut rng);
    assert_eq!(m.n, 12);
    assert_eq!(m.pets_run, 66);
    assert_eq!(m.duplicates_found, 3);
}

#[test]
fn combine_ignores_duplicated_partials() {
    let mut rng = StdRng::seed_from_u64(210);
    let d = dkg::run(3, 5, &mut rng);
    let (ct, _) = encrypt(&d.public_key, 9, &mut rng);
    let p0 = partial_decrypt(&d.trustees[0], &ct, &mut rng);
    let p1 = partial_decrypt(&d.trustees[1], &ct, &mut rng);
    // Three partials but only two distinct trustees: below the threshold.
    assert!(combine(&d, &ct, &[p0, p1, p0]).is_none());
}

#[test]
fn check_p2_reports_threshold_secrecy() {
    let mut rng = StdRng::seed_from_u64(211);
    let c = check_p2(&mut rng);
    assert_eq!(c.name, "P2 no single-ballot decrypt");
    assert!(c.pass);
    assert_eq!(
        c.detail,
        "all 5 tested (t-1)=2 subsets returned None: true; t=3 on combined ct works: true; tally path decrypts ONLY the homomorphic product"
    );
}

#[test]
fn published_combined_ciphertexts_are_checked() {
    let r = small_election(221, Policy::RejectDuplicate);
    assert!(verify_transcript(&r.transcript).pass);

    let mut t = r.transcript.clone();
    t.tally.as_mut().unwrap().combined = vec![];
    let out = verify_transcript(&t);
    assert!(!out.pass);
    assert_eq!(out.reason, "tally shape mismatch");

    let mut t = r.transcript.clone();
    t.tally.as_mut().unwrap().combined.swap(0, 1);
    let out = verify_transcript(&t);
    assert!(!out.pass);
    assert_eq!(out.reason, "option 0: published combined ciphertext differs from the recomputed one");
}

#[test]
fn each_counted_ballot_carries_its_events_choice() {
    // Voter 4 re-votes for option 0 (first vote was option 1).
    let reject = small_election(222, Policy::RejectDuplicate);
    assert_eq!(reject.counts, vec![4, 4, 4]);
    let lww = small_election(223, Policy::LastWriteWins);
    assert_eq!(lww.counts, vec![5, 3, 4]);
}

#[test]
fn coercer_report_ignores_order() {
    let a: Vec<String> = ["n1", "n2", "n1", "n3", "n2", "n1"].iter().map(|s| s.to_string()).collect();
    let mut b = a.clone();
    b.reverse();
    let (ra, rb) = (analyze_nullifiers(&a), analyze_nullifiers(&b));
    assert_eq!(ra.board_ballots, rb.board_ballots);
    assert_eq!(ra.distinct_nullifiers, 3);
    assert_eq!(rb.distinct_nullifiers, 3);
    assert_eq!(ra.revote_nullifiers, 2);
    assert_eq!(rb.revote_nullifiers, 2);
    assert_eq!(ra.linked_ballots, 5);
    assert_eq!(rb.linked_ballots, 5);
    assert_eq!(ra.example_link.is_some(), rb.example_link.is_some());
}

#[test]
fn coercer_handles_a_large_board() {
    // 200 000 distinct hex nullifiers, then 1 000 of them cast again.
    let mut nulls: Vec<String> = (0..200_000u64)
        .map(|i| format!("{:016x}{:016x}", i.wrapping_mul(0x9e37_79b9_7f4a_7c15), i))
        .collect();
    for i in 0..1_000usize {
        let again = nulls[i * 7].clone();
        nulls.push(again);
    }
    let rep = analyze_nullifiers(&nulls);
    assert_eq!(rep.board_ballots, 201_000);
    assert_eq!(rep.distinct_nullifiers, 200_000);
    assert_eq!(rep.revote_nullifiers, 1_000);
    assert_eq!(rep.linked_ballots, 2_000);
    assert_eq!(rep.example_link, Some((0, 200_000, nulls[0].clone())));
    assert!(rep.can_detect_revote);
}

#[test]
fn too_few_partials_is_reported_before_the_combined_ciphertexts() {
    let t = Transcript {
        header: Header {
            election: "e".to_string(),
            options: vec!["A".to_string(), "B".to_string()],
            t: 3,
            n: 5,
            enrolled: 0,
            policy: "reject_duplicate".to_string(),
            public_key: "00".repeat(32),
            commitments: vec![],
        },
        ballots: vec![],
        tally: Some(TallySection { combined: vec![], partials: vec![vec![], vec![]], results: vec![0, 0], max: 0 }),
    };
    let r = verify_transcript(&t);
    assert!(!r.pass);
    assert_eq!(r.reason, "option 0: could not combine ≥ t partials");
    assert!(r.counts.is_empty());
}

#[test]
fn duplicates_are_counted_over_all_pairs() {
    let mut rng = StdRng::seed_from_u64(231);
    let d = dkg::run(3, 5, &mut rng);
    let ctx = PetCtx::new(&d);
    let c1 = g().mul(&Scalar::random(&mut rng));
    let c2 = g().mul(&Scalar::random(&mut rng));
    // Credentials c1, c2, c1, c1: three equal pairs among six.
    let ballots = vec![
        encrypt_credential(&d.public_key, c1, &mut rng),
        encrypt_credential(&d.public_key, c2, &mut rng),
        encrypt_credential(&d.public_key, c1, &mut rng),
        encrypt_credential(&d.public_key, c1, &mut rng),
    ];
    let (pets, dups) = count_duplicates(&d, &ctx, &ballots, &mut rng);
    assert_eq!(pets, 6);
    assert_eq!(dups, 3);
}
