//! A complete election end to end: the ceremony, casting with
//! deterministic nullifiers, the homomorphic tally, the public transcript and
//! its independent verification; and the property checks of the harness.
use vstd::prelude::*;
use crate::board::{
    ballot_verifies, counted_indices, first_appearances, lemma_first_appearances_contains,
    lemma_first_appearances_len,
    lemma_first_appearances_distinct, lemma_first_appearances_of_distinct, nullifiers, Ballot,
    Board, Policy,
};
use crate::dkg::{self, comm_views, dkg_wf, share_sum, Dkg};
use crate::elgamal::{
    ct_add, ct_view, ct_views, encrypt, encrypts, lemma_add_encrypts, lemma_decrypts, Ciphertext,
    CiphertextHex,
};
use crate::group::{group_order, le_bytes};
use crate::interpolation::{lemma_combine_decrypts, lemma_threshold_decrypts_encryption, scalar_field};
use crate::threshold::{
    decrypt, lemma_all_accepted, lemma_below_threshold_cannot_combine, partial_decrypt, partial_valid,
    partial_view, partial_views, threshold_plaintext, PartialDecryption,
};
use crate::tally::{
    self, build_transcript, deref_ballots, entry_encodes, header_describes, lemma_clean_transcript_verifies,
    option_column, option_total, publishes_tally, run_tally, transcript_accepted, transcript_verdict,
    verdict_reason, BallotEntry, Fault, Transcript,
};
use crate::text::{decimal, push_decimal};
use crate::validity::{ct_sum, encrypts_some, prove_ballot, BallotProofHex};
use crate::zk::{
    field_from_u64, poseidon_config, poseidon_hash_many, spec_poseidon_hash, voter_secret,
    voter_secret_value,
};
use rand::rngs::StdRng;
use crate::clock::{clock_now, micros_since};

verus! {

/// A single cast event (a voter may appear more than once: a re-vote).
#[derive(Clone, Copy, Debug)]
pub struct CastEvent {
    pub voter: u64,
    pub choice: usize,
}

/// Wall-clock time of each phase, in microseconds.
#[derive(Clone, Copy, Debug)]
pub struct Timings {
    pub setup_us: u64,
    pub cast_us: u64,
    pub tally_us: u64,
    pub verify_us: u64,
}

pub struct ElectionResult {
    pub transcript: Transcript,
    pub dkg: Dkg,
    pub board: Board,
    pub counts: Vec<u64>,
    pub timings: Timings,
    pub distinct_voters: usize,
    pub rejected_duplicates: u64,
    pub cast_count: usize,
}

/// The 32-byte field element with value `v`.
pub open spec fn field_element(v: nat) -> [u8; 32] {
    choose|a: [u8; 32]| a@ == le_bytes(v, 32)
}

/// The nullifier `H(s_v, E)` of voter `v` in election `E`.
pub open spec fn voter_nullifier(election_id: u64, voter: u64) -> [u8; 32] {
    spec_poseidon_hash(
        seq![field_element(voter_secret_value(voter)), field_element(election_id as nat)],
    )
}

/// The nullifiers of the cast events, in order.
pub open spec fn event_nullifiers(election_id: u64, events: Seq<CastEvent>) -> Seq<[u8; 32]> {
    Seq::new(events.len(), |i: int| voter_nullifier(election_id, events[i].voter))
}

/// The nullifiers that reach the board: all of them when re-votes are
/// appended, the first of each under `RejectDuplicate`.
pub open spec fn board_nullifiers(policy: Policy, ns: Seq<[u8; 32]>) -> Seq<[u8; 32]> {
    match policy {
        Policy::RejectDuplicate => first_appearances(ns),
        Policy::LastWriteWins => ns,
    }
}

/// The text `posada-voltaire/election/{id}`.
pub open spec fn election_name(election_id: u64) -> Seq<char> {
    "posada-voltaire/election/"@ + decimal(election_id as nat)
}

/// `cts` encrypts the one-hot vector of choice `c` under `pk`.
pub open spec fn encrypts_choice(cts: Seq<(nat, nat)>, pk: nat, c: int) -> bool {
    forall|o: int|
        0 <= o < cts.len() ==> encrypts_some(
            #[trigger] cts[o],
            pk,
            if o == c {
                1nat
            } else {
                0nat
            },
        )
}

/// A ballot encrypts a one-hot vector over `k` options.
pub open spec fn one_hot_ballot(b: Ballot, pk: nat, k: nat) -> bool {
    &&& b.cts@.len() == k
    &&& exists|c: int| 0 <= c < k && #[trigger] encrypts_choice(ct_views(b.cts@), pk, c)
}

/// The choices of the cast events, in order.
pub open spec fn event_choices(events: Seq<CastEvent>) -> Seq<int> {
    Seq::new(events.len(), |i: int| events[i].choice as int)
}

/// The choices of the events whose nullifier appears for the first time.
pub open spec fn first_appearance_choices(ns: Seq<[u8; 32]>, cs: Seq<int>) -> Seq<int>
    decreases ns.len(),
{
    if ns.len() == 0 {
        Seq::empty()
    } else {
        let rest = first_appearance_choices(ns.drop_last(), cs.drop_last());
        if ns.drop_last().contains(ns.last()) {
            rest
        } else {
            rest.push(cs.last())
        }
    }
}

/// The choices of the events whose ballots reach the board, in board order:
/// all of them when re-votes are appended, those of first appearances under
/// `RejectDuplicate`.
pub open spec fn board_choices(policy: Policy, ns: Seq<[u8; 32]>, cs: Seq<int>) -> Seq<int> {
    match policy {
        Policy::RejectDuplicate => first_appearance_choices(ns, cs),
        Policy::LastWriteWins => cs,
    }
}

/// How many of `choices` pick option `o`.
pub open spec fn choice_count(choices: Seq<int>, o: int) -> nat
    decreases choices.len(),
{
    if choices.len() == 0 {
        0
    } else {
        choice_count(choices.drop_last(), o) + if choices.last() == o {
            1nat
        } else {
            0nat
        }
    }
}

/// The homomorphic sum of option `o`'s ciphertexts encrypts the number of
/// ballots that chose `o`.
proof fn lemma_column_encrypts_count(bs: Seq<Ballot>, pk: nat, choices: Seq<int>, o: int)
    requires
        bs.len() == choices.len(),
        0 <= o,
        forall|j: int|
            0 <= j < bs.len() ==> o < (#[trigger] bs[j]).cts@.len() && encrypts_choice(
                ct_views(bs[j].cts@),
                pk,
                choices[j],
            ),
    ensures
        encrypts_some(option_total(bs, o), pk, choice_count(choices, o)),
    decreases bs.len(),
{
    if bs.len() == 0 {
        assert(option_column(bs, o).len() == 0);
        assert(encrypts(option_total(bs, o), pk, 0, 0));
    } else {
        let n = bs.len() - 1;
        let rest = bs.drop_last();
        assert forall|j: int| 0 <= j < rest.len() implies o < (#[trigger] rest[j]).cts@.len()
            && encrypts_choice(ct_views(rest[j].cts@), pk, choices.drop_last()[j]) by {
            assert(rest[j] == bs[j]);
        }
        lemma_column_encrypts_count(rest, pk, choices.drop_last(), o);
        assert(option_column(rest, o) =~= option_column(bs, o).drop_last());
        let last = option_column(bs, o).last();
        assert(last == ct_views(bs[n].cts@)[o]);
        let m = if o == choices[n] {
            1nat
        } else {
            0nat
        };
        assert(encrypts_choice(ct_views(bs[n].cts@), pk, choices[n]));
        assert(encrypts_some(last, pk, m));
        let a = option_total(rest, o);
        let m1 = choice_count(choices.drop_last(), o);
        let r1 = choose|r: nat| #[trigger] encrypts(a, pk, m1, r);
        let r2 = choose|r: nat| #[trigger] encrypts(last, pk, m, r);
        lemma_add_encrypts(a, last, pk, m1, r1, m, r2);
        assert(option_total(bs, o) == ct_add(a, last));
        assert(encrypts(option_total(bs, o), pk, m1 + m, r1 + r2));
    }
}

/// **The tally counts the votes.** After a completed key generation, for
/// ballots that each encrypt the one-hot vector of a choice under the joint
/// key, the first `t` trustees' honest partial decryptions of option `o`'s
/// homomorphic total combine to the number of ballots that chose `o`:
/// the count that `run_tally` publishes for `o`.
pub proof fn lemma_tally_counts_votes(dkg: Dkg, bs: Seq<Ballot>, choices: Seq<int>, o: int)
    requires
        scalar_field(),
        dkg_wf(dkg),
        bs.len() == choices.len(),
        bs.len() < group_order(),
        0 <= o,
        forall|j: int|
            0 <= j < bs.len() ==> o < (#[trigger] bs[j]).cts@.len() && encrypts_choice(
                ct_views(bs[j].cts@),
                dkg.public_key.0@,
                choices[j],
            ),
    ensures
        threshold_plaintext(comm_views(dkg.commitments@), dkg.t as nat, option_total(bs, o))
            == choice_count(choices, o),
{
    let pk = dkg.public_key.0@;
    lemma_column_encrypts_count(bs, pk, choices, o);
    let c = option_total(bs, o);
    let m = choice_count(choices, o);
    let r = choose|r: nat| #[trigger] encrypts(c, pk, m, r);
    lemma_threshold_decrypts_encryption(dkg, c, m, r);
    lemma_choice_count_bound(choices, o);
    vstd::arithmetic::div_mod::lemma_small_mod(m, group_order());
}

proof fn lemma_choice_count_bound(choices: Seq<int>, o: int)
    ensures
        choice_count(choices, o) <= choices.len(),
    decreases choices.len(),
{
    if choices.len() > 0 {
        lemma_choice_count_bound(choices.drop_last(), o);
    }
}

/// First appearances are their own first appearances.
proof fn lemma_first_appearances_idempotent(ns: Seq<[u8; 32]>)
    ensures
        first_appearances(first_appearances(ns)) == first_appearances(ns),
{
    lemma_first_appearances_distinct(ns);
    lemma_first_appearances_of_distinct(first_appearances(ns));
}

/// What a run of the election returns: the key ceremony, the board of the
/// accepted ballots (each encrypting its event's choice), the transcript
/// describing them, and the counts.
pub open spec fn election_outcome(
    r: ElectionResult,
    n_enrolled: u64,
    options: Seq<String>,
    t: usize,
    nn: usize,
    policy: Policy,
    election_id: u64,
    events: Seq<CastEvent>,
) -> bool {
    let k = options.len();
    let ens = event_nullifiers(election_id, events);
    let records = r.board.records@;
    let ci = counted_indices(policy, nullifiers(records));
    let counted = Seq::new(ci.len(), |j: int| records[ci[j]]);
    let bc = board_choices(policy, ens, event_choices(events));
    let max: u64 = if ci.len() > 1 {
        ci.len() as u64
    } else {
        1
    };
    &&& r.dkg.t == t
    &&& r.dkg.n == nn
    &&& dkg_wf(r.dkg)
    &&& r.board.wf()
    &&& r.board.policy == policy
    &&& nullifiers(records) == board_nullifiers(policy, ens)
    &&& forall|i: int|
        0 <= i < records.len() ==> ballot_verifies(r.dkg.public_key, #[trigger] records[i])
            && one_hot_ballot(records[i], r.dkg.public_key.0@, k)
    &&& forall|i: int|
        0 <= i < r.counts@.len() ==> #[trigger] r.counts@[i] <= if events.len() > 1 {
            events.len()
        } else {
            1
        }
    &&& r.cast_count == records.len()
    &&& r.rejected_duplicates == events.len() - records.len()
    &&& r.distinct_voters == first_appearances(ens).len()
    &&& header_describes(
        r.transcript.header,
        election_name(election_id),
        options,
        r.dkg,
        policy,
        n_enrolled,
    )
    &&& r.transcript.ballots@.len() == records.len()
    &&& forall|i: int|
        0 <= i < records.len() ==> entry_encodes(
            #[trigger] r.transcript.ballots@[i],
            records[i],
        )
    &&& match r.transcript.tally {
        Some(ts) => {
            &&& publishes_tally(ts, r.dkg, counted, k, max)
            &&& r.counts@ == ts.results@
            &&& transcript_verdict(r.transcript) == Ok::<Seq<u64>, Fault>(r.counts@)
            &&& transcript_accepted(r.transcript)
        },
        None => r.counts@.len() == 0,
    }
    &&& bc.len() == records.len()
    &&& forall|i: int|
        0 <= i < records.len() ==> encrypts_choice(
            ct_views((#[trigger] records[i]).cts@),
            r.dkg.public_key.0@,
            bc[i],
        )
    &&& scalar_field() ==> {
        &&& r.transcript.tally is Some
        &&& r.counts@.len() == k
        &&& forall|o: int|
            0 <= o < k ==> #[trigger] r.counts@[o] == choice_count(
                Seq::new(ci.len(), |j: int| bc[ci[j]]),
                o,
            )
    }
}

/// Run a complete election end to end.
#[verifier::rlimit(50)]
pub fn run_election(
    n_enrolled: u64,
    options: &[String],
    t: usize,
    nn: usize,
    policy: Policy,
    election_id: u64,
    events: &[CastEvent],
    rng: &mut StdRng,
) -> (r: ElectionResult)
    requires
        1 <= t <= nn,
        forall|i: int| 0 <= i < events@.len() ==> (#[trigger] events@[i]).choice < options@.len(),
    ensures
        election_outcome(r, n_enrolled, options@, t, nn, policy, election_id, events@),
{
    let k = options.len();
    let cfg = poseidon_config();
    let e_field = field_from_u64(election_id);
    proof {
        assert(e_field == field_element(election_id as nat));
    }
    let s0 = clock_now();
    let dkg = dkg::run(t, nn, rng);
    let setup_us = micros_since(&s0);
    let ghost pk = dkg.public_key.0@;
    let ghost ens = event_nullifiers(election_id, events@);
    let mut board = Board::new(policy);
    let c0 = clock_now();
    // Each voter's deterministic nullifier H(s, E).
    let mut inputs: Vec<Vec<[u8; 32]>> = Vec::with_capacity(events.len());
    let mut i: usize = 0;
    while i < events.len()
        invariant
            i <= events@.len(),
            e_field == field_element(election_id as nat),
            inputs@.len() == i,
            forall|j: int|
                0 <= j < i ==> (#[trigger] inputs@[j])@ == seq![
                    field_element(voter_secret_value(events@[j].voter)),
                    e_field,
                ],
        decreases events@.len() - i,
    {
        let secret = voter_secret(events[i].voter);
        let mut pair: Vec<[u8; 32]> = Vec::with_capacity(2);
        pair.push(secret);
        pair.push(e_field);
        proof {
            assert(secret == field_element(voter_secret_value(events@[i as int].voter)));
            assert(pair@ =~= seq![secret, e_field]);
        }
        inputs.push(pair);
        i = i + 1;
    }
    let nulls = poseidon_hash_many(&cfg, inputs.as_slice());
    assert forall|j: int| 0 <= j < events@.len() implies #[trigger] nulls@[j] == ens[j] by {
        assert(inputs@[j]@ == seq![
            field_element(voter_secret_value(events@[j].voter)),
            field_element(election_id as nat),
        ]);
    }
    let mut i: usize = 0;
    while i < events.len()
        invariant
            i <= events@.len(),
            k == options@.len(),
            forall|j: int| 0 <= j < events@.len() ==> (#[trigger] events@[j]).choice < k,
            ens == event_nullifiers(election_id, events@),
            nulls@.len() == events@.len(),
            forall|j: int| 0 <= j < events@.len() ==> #[trigger] nulls@[j] == ens[j],
            pk == dkg.public_key.0@,
            board.wf(),
            board.policy == policy,
            nullifiers(board.records@) == board_nullifiers(policy, ens.take(i as int)),
            board.rejected_duplicates == i - board.records@.len(),
            board.records@.len() <= i,
            forall|j: int|
                0 <= j < board.records@.len() ==> ballot_verifies(
                    dkg.public_key,
                    #[trigger] board.records@[j],
                ) && one_hot_ballot(board.records@[j], pk, k as nat),
            board_choices(policy, ens.take(i as int), event_choices(events@).take(i as int)).len()
                == board.records@.len(),
            forall|j: int|
                0 <= j < board.records@.len() ==> encrypts_choice(
                    ct_views((#[trigger] board.records@[j]).cts@),
                    pk,
                    board_choices(policy, ens.take(i as int), event_choices(events@).take(i as int))[j],
                ),
        decreases events@.len() - i,
    {
        let ev = events[i];
        let null = nulls[i];
        let (cts, proof) = prove_ballot(&dkg.public_key, ev.choice, k, rng);
        let ballot = Ballot { nullifier: null, cts, proof, membership: None };
        let ghost before = board.records@;
        let ghost prefix = ens.take(i as int);
        proof {
            assert(null == ens[i as int]);
            assert(ens.take(i + 1) =~= prefix.push(null));
            assert(ens.take(i + 1).drop_last() =~= prefix);
            assert(encrypts_choice(ct_views(ballot.cts@), pk, ev.choice as int)) by {
                assert forall|o: int| 0 <= o < k implies encrypts_some(
                    #[trigger] ct_views(ballot.cts@)[o],
                    pk,
                    if o == ev.choice {
                        1nat
                    } else {
                        0nat
                    },
                ) by {
                    assert(ct_views(ballot.cts@)[o] == ct_view(ballot.cts@[o]));
                }
            }
            assert(one_hot_ballot(ballot, pk, k as nat));
            lemma_first_appearances_contains(prefix);
            lemma_first_appearances_contains(nullifiers(before));
            lemma_first_appearances_idempotent(prefix);
        }
        let ghost cs_all = event_choices(events@);
        let ghost bc_before = board_choices(policy, prefix, cs_all.take(i as int));
        board.append(&dkg.public_key, ballot);
        proof {
            assert(nullifiers(before.push(ballot)) =~= nullifiers(before).push(null));
            if policy == Policy::LastWriteWins {
                assert(board.records@ == before.push(ballot));
            }
            let cs1 = cs_all.take(i + 1);
            assert(cs1.drop_last() =~= cs_all.take(i as int));
            assert(cs1.last() == ev.choice as int);
            let bc_after = board_choices(policy, ens.take(i + 1), cs1);
            if board.records@.len() == before.len() + 1 {
                assert(board.records@ == before.push(ballot));
                assert(bc_after == bc_before.push(ev.choice as int)) by {
                    if policy == Policy::RejectDuplicate {
                        assert(!prefix.contains(null));
                    }
                }
            } else {
                assert(board.records@ == before);
                assert(policy == Policy::RejectDuplicate);
                assert(prefix.contains(null));
                assert(bc_after == bc_before);
            }
            assert forall|j: int| 0 <= j < board.records@.len() implies encrypts_choice(
                ct_views((#[trigger] board.records@[j]).cts@),
                pk,
                bc_after[j],
            ) by {
                if j < before.len() {
                    assert(board.records@[j] == before[j]);
                }
            }
        }
        i = i + 1;
    }
    assert(ens.take(events@.len() as int) =~= ens);
    assert(event_choices(events@).take(events@.len() as int) =~= event_choices(events@));
    let cast_us = micros_since(&c0);
    let counted = board.counted();
    let max: u64 = if counted.len() > 1 {
        counted.len() as u64
    } else {
        1
    };
    let t0 = clock_now();
    proof {
        assert forall|j: int| 0 <= j < counted@.len() implies k <= (#[trigger] counted@[j]).cts@.len() by {
            crate::board::lemma_one_vote_per_nullifier(board);
        }
    }
    let tally_section = run_tally(&dkg, counted.as_slice(), k, max, rng);
    let tally_us = micros_since(&t0);
    let counts = match &tally_section {
        Some(ts) => copy_counts(&ts.results),
        None => Vec::new(),
    };
    let distinct_voters = board.distinct_voters();
    let rejected_duplicates = board.rejected_duplicates;
    let cast_count = board.records.len();
    let mut name = String::from_str("posada-voltaire/election/");
    push_decimal(&mut name, election_id);
    let ghost ts_ghost = tally_section;
    let transcript = build_transcript(name.as_str(), options, &dkg, &board, n_enrolled, tally_section);
    let v0 = clock_now();
    let _ = tally::verify_transcript(&transcript);
    let verify_us = micros_since(&v0);
    proof {
        let records = board.records@;
        let ci = counted_indices(policy, nullifiers(records));
        let cs = Seq::new(ci.len(), |j: int| records[ci[j]]);
        assert(deref_ballots(counted@) =~= cs);
        lemma_first_appearances_idempotent(ens);
        crate::board::lemma_one_vote_per_nullifier(board);
        crate::board::lemma_first_appearances_len(nullifiers(records));
        match ts_ghost {
            Some(ts) => {
                lemma_clean_transcript_verifies(transcript, dkg, board, ts, cs, max);
            },
            None => {},
        }
        if scalar_field() {
            let pk = dkg.public_key.0@;
            let bc = board_choices(policy, ens, event_choices(events@));
            let choices = Seq::new(ci.len(), |j: int| bc[ci[j]]);
            let cv = comm_views(dkg.commitments@);
            assert forall|j: int| 0 <= j < cs.len() implies (#[trigger] cs[j]).cts@.len() == k
                && encrypts_choice(ct_views(cs[j].cts@), pk, choices[j]) by {
                assert(0 <= ci[j] < records.len());
                assert(one_hot_ballot(records[ci[j]], pk, k as nat));
            }
            assert forall|o: int| 0 <= o < k implies #[trigger] threshold_plaintext(
                cv,
                dkg.t as nat,
                option_total(cs, o),
            ) == choice_count(choices, o) by {
                lemma_tally_counts_votes(dkg, cs, choices, o);
            }
            assert forall|o: int| 0 <= o < k implies #[trigger] threshold_plaintext(
                cv,
                dkg.t as nat,
                option_total(cs, o),
            ) <= max by {
                lemma_choice_count_bound(choices, o);
            }
        }
    }
    ElectionResult {
        transcript,
        dkg,
        board,
        counts,
        timings: Timings { setup_us, cast_us, tally_us, verify_us },
        distinct_voters,
        rejected_duplicates,
        cast_count,
    }
}

fn copy_counts(v: &Vec<u64>) -> (r: Vec<u64>)
    ensures
        r@ == v@,
{
    let mut out: Vec<u64> = Vec::with_capacity(v.len());
    let mut i: usize = 0;
    while i < v.len()
        invariant
            i <= v@.len(),
            out@ == v@.take(i as int),
        decreases v@.len() - i,
    {
        out.push(v[i]);
        assert(out@ =~= v@.take(i + 1));
        i = i + 1;
    }
    assert(v@.take(v@.len() as int) =~= v@);
    out
}


// ---------------------------------------------------------------------------
// Property checks for the harness's one-screen verdict.
// ---------------------------------------------------------------------------

#[derive(Clone, Debug)]
pub struct Check {
    pub name: &'static str,
    pub pass: bool,
    pub detail: String,
}

/// Three options, named.
fn option_names(a: &str, b: &str, c: &str) -> (r: Vec<String>)
    ensures
        r@.len() == 3,
        r@[0]@ == a@,
        r@[1]@ == b@,
        r@[2]@ == c@,
{
    let mut v: Vec<String> = Vec::with_capacity(3);
    v.push(String::from_str(a));
    v.push(String::from_str(b));
    v.push(String::from_str(c));
    v
}

/// Voters `0..n`, voter `v` choosing option `v mod 3`.
pub open spec fn round_robin_events(n: nat) -> Seq<CastEvent> {
    Seq::new(n, |v: int| CastEvent { voter: v as u64, choice: (v % 3) as usize })
}

fn round_robin(n: u64) -> (r: Vec<CastEvent>)
    requires
        n <= usize::MAX,
    ensures
        r@ == round_robin_events(n as nat),
{
    let mut events: Vec<CastEvent> = Vec::with_capacity(n as usize);
    let mut v: u64 = 0;
    while v < n
        invariant
            v <= n,
            events@ == round_robin_events(v as nat),
        decreases n - v,
    {
        events.push(CastEvent { voter: v, choice: (v % 3) as usize });
        assert(events@ =~= round_robin_events((v + 1) as nat));
        v = v + 1;
    }
    events
}

/// The events of the one-person-one-vote check: 200 voters, then voters 7
/// and 42 cast again.
pub open spec fn p1_events() -> Seq<CastEvent> {
    round_robin_events(200).push(CastEvent { voter: 7, choice: 2 }).push(
        CastEvent { voter: 42, choice: 0 },
    )
}

/// The sum of the first `n` counts.
pub open spec fn count_total(counts: Seq<u64>, n: nat) -> nat
    decreases n,
{
    if n == 0 {
        0
    } else {
        count_total(counts, (n - 1) as nat) + counts[n - 1] as nat
    }
}

/// `Σ_{o<k}` of how many of `choices` pick `o`.
spec fn choice_total(choices: Seq<int>, k: nat) -> nat
    decreases k,
{
    if k == 0 {
        0
    } else {
        choice_total(choices, (k - 1) as nat) + choice_count(choices, k - 1)
    }
}

proof fn lemma_choice_total_step(choices: Seq<int>, k: nat)
    requires
        choices.len() > 0,
    ensures
        choice_total(choices, k) == choice_total(choices.drop_last(), k) + if 0 <= choices.last() < k {
            1nat
        } else {
            0nat
        },
    decreases k,
{
    if k > 0 {
        lemma_choice_total_step(choices, (k - 1) as nat);
    }
}

/// Choices all among `0..k` are counted once each.
proof fn lemma_choice_total(choices: Seq<int>, k: nat)
    requires
        forall|j: int| 0 <= j < choices.len() ==> 0 <= #[trigger] choices[j] < k,
    ensures
        choice_total(choices, k) == choices.len(),
    decreases choices.len(),
{
    if choices.len() == 0 {
        assert(choices =~= Seq::<int>::empty());
        lemma_choice_total_zero(k);
    } else {
        assert(choices.last() == choices[choices.len() - 1]);
        let d = choices.drop_last();
        assert forall|j: int| 0 <= j < d.len() implies 0 <= #[trigger] d[j] < k by {
            assert(d[j] == choices[j]);
        }
        lemma_choice_total(d, k);
        lemma_choice_total_step(choices, k);
    }
}

proof fn lemma_choice_total_zero(k: nat)
    ensures
        choice_total(Seq::<int>::empty(), k) == 0,
    decreases k,
{
    if k > 0 {
        lemma_choice_total_zero((k - 1) as nat);
    }
}

/// The choices that reach the board come from the events.
proof fn lemma_first_appearance_choices_range(ns: Seq<[u8; 32]>, cs: Seq<int>, k: int)
    requires
        cs.len() == ns.len(),
        forall|j: int| 0 <= j < cs.len() ==> 0 <= #[trigger] cs[j] < k,
    ensures
        forall|j: int|
            0 <= j < first_appearance_choices(ns, cs).len() ==> 0 <= #[trigger] first_appearance_choices(
                ns,
                cs,
            )[j] < k,
    decreases ns.len(),
{
    if ns.len() > 0 {
        let dc = cs.drop_last();
        assert forall|j: int| 0 <= j < dc.len() implies 0 <= #[trigger] dc[j] < k by {
            assert(dc[j] == cs[j]);
        }
        lemma_first_appearance_choices_range(ns.drop_last(), dc, k);
        assert(cs.last() == cs[cs.len() - 1]);
        let rest = first_appearance_choices(ns.drop_last(), dc);
        let f = first_appearance_choices(ns, cs);
        assert forall|j: int| 0 <= j < f.len() implies 0 <= #[trigger] f[j] < k by {
            if j < rest.len() {
                assert(f[j] == rest[j]);
            }
        }
    }
}

proof fn lemma_count_total_matches(counts: Seq<u64>, choices: Seq<int>, k: nat)
    requires
        k <= counts.len(),
        forall|o: int| 0 <= o < k ==> #[trigger] counts[o] == choice_count(choices, o),
    ensures
        count_total(counts, k) == choice_total(choices, k),
    decreases k,
{
    if k > 0 {
        lemma_count_total_matches(counts, choices, (k - 1) as nat);
        assert(counts[k - 1] == choice_count(choices, k - 1));
    }
}

/// Under `RejectDuplicate`, the counts over `k` options of the ballots that
/// reach the board add up to the number of ballots.
proof fn lemma_reject_counts_total(
    ens: Seq<[u8; 32]>,
    ec: Seq<int>,
    records: Seq<Ballot>,
    counts: Seq<u64>,
    k: nat,
)
    requires
        ec.len() == ens.len(),
        forall|j: int| 0 <= j < ec.len() ==> 0 <= #[trigger] ec[j] < k,
        nullifiers(records) == first_appearances(ens),
        board_choices(Policy::RejectDuplicate, ens, ec).len() == records.len(),
        counts.len() == k,
        forall|o: int|
            0 <= o < k ==> #[trigger] counts[o] == choice_count(
                Seq::new(
                    counted_indices(Policy::RejectDuplicate, nullifiers(records)).len(),
                    |j: int|
                        board_choices(Policy::RejectDuplicate, ens, ec)[counted_indices(
                            Policy::RejectDuplicate,
                            nullifiers(records),
                        )[j]],
                ),
                o,
            ),
    ensures
        count_total(counts, k) == records.len(),
{
    let ci = counted_indices(Policy::RejectDuplicate, nullifiers(records));
    let bc = board_choices(Policy::RejectDuplicate, ens, ec);
    let choices = Seq::new(ci.len(), |j: int| bc[ci[j]]);
    lemma_first_appearance_choices_range(ens, ec, k as int);
    assert forall|j: int| 0 <= j < choices.len() implies 0 <= #[trigger] choices[j] < k by {
        assert(ci[j] == j);
    }
    lemma_choice_total(choices, k);
    lemma_count_total_matches(counts, choices, k);
}

/// The detail line of P1 for `distinct` distinct voters and `total` counted
/// ballots.
pub open spec fn p1_detail(distinct: nat, total: nat) -> Seq<char> {
    decimal(202) + " cast attempts, "@ + decimal((202 - distinct) as nat) + " duplicates rejected, "@
        + decimal(distinct) + " distinct voters, "@ + decimal(total) + " counted (≤ N="@ + decimal(200)
        + ")"@
}

/// P1, one person one vote: the two double-casts are rejected, there are as
/// many distinct voters as enrolled, and no more counted than enrolled.
pub fn check_p1(rng: &mut StdRng) -> (c: Check)
    ensures
        c.name@ == "P1 1p1v"@,
        c.pass ==> first_appearances(event_nullifiers(1, p1_events())).len() == 200,
        scalar_field() ==> (c.pass <==> first_appearances(event_nullifiers(1, p1_events())).len()
            == 200),
        exists|total: nat|
            {
                &&& c.detail@ == p1_detail(
                    first_appearances(event_nullifiers(1, p1_events())).len(),
                    total,
                )
                &&& scalar_field() ==> total == first_appearances(
                    event_nullifiers(1, p1_events()),
                ).len()
            },
{
    let opts = option_names("A", "B", "C");
    let n: u64 = 200;
    let mut events = round_robin(n);
    // Voter 7 double-casts (same secret, so same nullifier).
    events.push(CastEvent { voter: 7, choice: 2 });
    events.push(CastEvent { voter: 42, choice: 0 });
    assert(events@ =~= p1_events());
    let r = run_election(n, opts.as_slice(), 3, 5, Policy::RejectDuplicate, 1, events.as_slice(), rng);
    let ghost ens = event_nullifiers(1, p1_events());
    let ghost d = first_appearances(ens).len();
    let mut counted_total: u64 = 0;
    let mut i: usize = 0;
    while i < r.counts.len()
        invariant
            i <= r.counts@.len(),
            r.counts@.len() <= 3,
            forall|j: int| 0 <= j < r.counts@.len() ==> #[trigger] r.counts@[j] <= 202,
            counted_total <= 202 * i,
            counted_total == count_total(r.counts@, i as nat),
        decreases r.counts@.len() - i,
    {
        counted_total = counted_total + r.counts[i];
        i = i + 1;
    }
    proof {
        let records = r.board.records@;
        lemma_first_appearances_len(ens);
        assert(nullifiers(records).len() == records.len());
        assert(records.len() == d);
        if scalar_field() {
            let ec = event_choices(p1_events());
            assert forall|j: int| 0 <= j < ec.len() implies 0 <= #[trigger] ec[j] < 3 by {}
            lemma_reject_counts_total(ens, ec, records, r.counts@, 3);
            assert(counted_total == d);
        }
    }
    let pass = r.rejected_duplicates == 2 && counted_total <= n && r.distinct_voters as u64 == n;
    let mut detail = String::new();
    push_decimal(&mut detail, (r.cast_count as u64) + r.rejected_duplicates);
    detail.append(" cast attempts, ");
    push_decimal(&mut detail, r.rejected_duplicates);
    detail.append(" duplicates rejected, ");
    push_decimal(&mut detail, r.distinct_voters as u64);
    detail.append(" distinct voters, ");
    push_decimal(&mut detail, counted_total);
    detail.append(" counted (≤ N=");
    push_decimal(&mut detail, n);
    detail.append(")");
    proof {
        assert(detail@ =~= p1_detail(d, counted_total as nat));
    }
    Check { name: "P1 1p1v", pass, detail }
}


/// `true` or `false`.
pub open spec fn bool_text(b: bool) -> Seq<char> {
    if b {
        "true"@
    } else {
        "false"@
    }
}

fn push_bool(out: &mut String, b: bool)
    ensures
        final(out)@ == old(out)@ + bool_text(b),
{
    if b {
        out.append("true");
    } else {
        out.append("false");
    }
}

/// Partial decryptions of `ct` by two trustees.
fn two_partials(d: &Dkg, a: usize, b: usize, ct: &Ciphertext, rng: &mut StdRng) -> (r: Vec<
    PartialDecryption,
>)
    requires
        a < d.trustees@.len(),
        b < d.trustees@.len(),
    ensures
        r@.len() == 2,
        r@[0].index == d.trustees@[a as int].index,
        r@[1].index == d.trustees@[b as int].index,
{
    let mut parts: Vec<PartialDecryption> = Vec::with_capacity(2);
    parts.push(partial_decrypt(&d.trustees[a], ct, rng));
    parts.push(partial_decrypt(&d.trustees[b], ct, rng));
    parts
}

/// P2, no single-ballot decryption: every tested set of `t - 1` trustees
/// fails to decrypt, and `t` trustees succeed on the same ciphertext.
pub fn check_p2(rng: &mut StdRng) -> (c: Check)
    ensures
        c.name@ == "P2 no single-ballot decrypt"@,
        scalar_field() ==> c.pass,
        c.detail@ == "all 5 tested (t-1)=2 subsets returned None: "@ + bool_text(true)
            + "; t=3 on combined ct works: "@ + bool_text(c.pass)
            + "; tally path decrypts ONLY the homomorphic product"@,
{
    let d = dkg::run(3, 5, rng);
    let (ct, r) = encrypt(&d.public_key, 1, rng);
    let ghost cv = comm_views(d.commitments@);
    // (a) every tested (t-1)-subset fails to decrypt.
    let subsets: [[usize; 2]; 5] = [[0, 1], [0, 2], [1, 3], [2, 4], [3, 4]];
    let mut t_minus_1_all_fail = true;
    let mut s: usize = 0;
    while s < 5
        invariant
            s <= 5,
            dkg_wf(d),
            d.t == 3,
            d.n == 5,
            cv == comm_views(d.commitments@),
            subsets@ == seq![[0usize, 1usize], [0, 2], [1, 3], [2, 4], [3, 4]],
            t_minus_1_all_fail,
        decreases 5 - s,
    {
        let combo = subsets[s];
        assert(combo[0] < 5 && combo[1] < 5);
        let parts = two_partials(&d, combo[0], combo[1], &ct, rng);
        proof {
            let pv = partial_views(parts@);
            let ids = set![parts@[0].index, parts@[1].index];
            assert(ids.len() <= 2);
            assert forall|j: int| 0 <= j < pv.len() implies ids.contains(#[trigger] pv[j].0) by {
                if j == 0 {} else {}
            }
            lemma_below_threshold_cannot_combine(3, cv, ct.c1@, ct.c2@, pv, ids);
        }
        if decrypt(&d, &ct, parts.as_slice(), 10).is_some() {
            t_minus_1_all_fail = false;
        }
        s = s + 1;
    }
    // (b) t trustees decrypt the same ciphertext.
    let mut parts_t: Vec<PartialDecryption> = Vec::with_capacity(3);
    parts_t.push(partial_decrypt(&d.trustees[0], &ct, rng));
    parts_t.push(partial_decrypt(&d.trustees[2], &ct, rng));
    parts_t.push(partial_decrypt(&d.trustees[4], &ct, rng));
    proof {
        if scalar_field() {
            let pv = partial_views(parts_t@);
            let who = seq![0int, 2, 4];
            assert forall|k: int| 0 <= k < 3 implies {
                &&& (#[trigger] pv[k]).0 == who[k] + 1
                &&& pv[k].1 == (share_sum(cv, (who[k] + 1) as nat) * ct.c1@) % group_order()
                &&& partial_valid(ct.c1@, share_sum(cv, pv[k].0 as nat), pv[k])
            } by {
                assert(pv[k] == partial_view(parts_t@[k]));
                assert(d.trustees@[who[k]].index == who[k] + 1);
            }
            assert forall|a: int, b: int| 0 <= a < b < pv.len() implies pv[a].0 != pv[b].0 by {
                assert(pv[a].0 == who[a] + 1 && pv[b].0 == who[b] + 1);
            }
            assert forall|k: int| 0 <= k < pv.len() implies partial_valid(
                ct.c1@,
                share_sum(cv, pv[k].0 as nat),
                #[trigger] pv[k],
            ) by {}
            lemma_all_accepted(cv, ct.c1@, pv);
            assert forall|j: int| 0 <= j < cv.len() implies (#[trigger] cv[j]).len() <= 3 by {
                assert(d.commitments@[j]@.len() == d.t);
            }
            assert forall|k: int| 0 <= k < pv.len() implies (#[trigger] pv[k]).1 == (share_sum(
                cv,
                pv[k].0 as nat,
            ) * ct.c1@) % group_order() by {}
            lemma_combine_decrypts(3, cv, ct.c1@, ct.c2@, pv);
            let x = share_sum(cv, 0);
            crate::interpolation::lemma_share_sum_below(cv, 0);
            vstd::arithmetic::div_mod::lemma_small_mod(x, group_order());
            lemma_decrypts(ct_view(ct), x, 1, r@);
            vstd::arithmetic::div_mod::lemma_small_mod(1, group_order());
        }
    }
    let t_works = decrypt(&d, &ct, parts_t.as_slice(), 10).is_some();
    let mut detail = String::from_str("all 5 tested (t-1)=2 subsets returned None: ");
    push_bool(&mut detail, t_minus_1_all_fail);
    detail.append("; t=3 on combined ct works: ");
    push_bool(&mut detail, t_works);
    detail.append("; tally path decrypts ONLY the homomorphic product");
    Check { name: "P2 no single-ballot decrypt", pass: t_minus_1_all_fail && t_works, detail }
}

/// `tampered` is `clean` with the first ballot's ciphertexts replaced by
/// the second ballot's (nothing else changed), when there are two ballots.
pub open spec fn swaps_first_ciphertexts(clean: Transcript, tampered: Transcript) -> bool {
    if clean.ballots@.len() >= 2 {
        let e0 = clean.ballots@[0];
        let f0 = tampered.ballots@[0];
        &&& tampered.header == clean.header
        &&& tampered.tally == clean.tally
        &&& tampered.ballots@.len() == clean.ballots@.len()
        &&& forall|i: int|
            1 <= i < clean.ballots@.len() ==> #[trigger] tampered.ballots@[i] == clean.ballots@[i]
        &&& f0.nullifier == e0.nullifier
        &&& f0.membership == e0.membership
        &&& f0.ballot.bits == e0.ballot.bits
        &&& f0.ballot.sum_one == e0.ballot.sum_one
        &&& f0.ballot.cts@ == clean.ballots@[1].ballot.cts@
    } else {
        tampered == clean
    }
}

/// The detail line of P3.
pub open spec fn p3_detail(clean_pass: bool, clean_reason: Seq<char>, tampered_pass: bool, tampered_reason: Seq<char>) -> Seq<char> {
    "clean transcript: "@ + (if clean_pass {
        "PASS"@
    } else {
        "FAIL"@
    }) + " ("@ + clean_reason + "); tampered transcript: "@ + (if tampered_pass {
        "PASS (BAD)"@
    } else {
        "FAIL (good — tamper caught)"@
    }) + " ("@ + tampered_reason + ")"@
}

fn copy_ciphertexts(v: &Vec<CiphertextHex>) -> (r: Vec<CiphertextHex>)
    ensures
        r@ == v@,
{
    let mut out: Vec<CiphertextHex> = Vec::with_capacity(v.len());
    let mut i: usize = 0;
    while i < v.len()
        invariant
            i <= v@.len(),
            out@ == v@.take(i as int),
        decreases v@.len() - i,
    {
        out.push(CiphertextHex { c1: v[i].c1.clone(), c2: v[i].c2.clone() });
        assert(out@ =~= v@.take(i + 1));
        i = i + 1;
    }
    assert(v@.take(v@.len() as int) =~= v@);
    out
}

/// `opts` are the three options named `a`, `b`, `c`.
pub open spec fn named_options(opts: Seq<String>, a: Seq<char>, b: Seq<char>, c: Seq<char>) -> bool {
    &&& opts.len() == 3
    &&& opts[0]@ == a
    &&& opts[1]@ == b
    &&& opts[2]@ == c
}

/// P3, universal verifiability: the clean transcript verifies, and one with
/// a ballot's ciphertexts swapped for another's does not.
pub fn check_p3(rng: &mut StdRng) -> (c: Check)
    ensures
        c.name@ == "P3 universal verifiability"@,
        exists|r: ElectionResult, opts: Seq<String>, tampered: Transcript|
            #![trigger
                election_outcome(r, 120, opts, 3, 5, Policy::RejectDuplicate, 9, round_robin_events(120)),
                swaps_first_ciphertexts(r.transcript, tampered),
            ]
            {
                let clean = r.transcript;
                let ens = event_nullifiers(9, round_robin_events(120));
                &&& named_options(opts, "Yes"@, "No"@, "Abstain"@)
                &&& election_outcome(
                    r,
                    120,
                    opts,
                    3,
                    5,
                    Policy::RejectDuplicate,
                    9,
                    round_robin_events(120),
                )
                &&& clean.ballots@.len() == first_appearances(ens).len()
                &&& ens.no_duplicates() ==> clean.ballots@.len() == 120
                &&& scalar_field() ==> transcript_accepted(clean)
                &&& swaps_first_ciphertexts(clean, tampered)
                &&& c.pass == (transcript_accepted(clean) && !transcript_accepted(tampered))
                &&& c.detail@ == p3_detail(
                    transcript_accepted(clean),
                    verdict_reason(clean),
                    transcript_accepted(tampered),
                    verdict_reason(tampered),
                )
            },
{
    let opts = option_names("Yes", "No", "Abstain");
    let n: u64 = 120;
    let events = round_robin(n);
    let r = run_election(n, opts.as_slice(), 3, 5, Policy::RejectDuplicate, 9, events.as_slice(), rng);
    let ghost r0 = r;
    let mut t = r.transcript;
    let ghost clean_t = t;
    proof {
        let ens = event_nullifiers(9, round_robin_events(120));
        let records = r0.board.records@;
        assert(nullifiers(records).len() == records.len());
        assert(clean_t.ballots@.len() == first_appearances(ens).len());
        if ens.no_duplicates() {
            lemma_first_appearances_of_distinct(ens);
            assert(ens.len() == 120);
        }
    }
    // The clean transcript must verify.
    let clean = tally::verify_transcript(&t);
    // Tamper: swap one ballot's ciphertexts for another valid ballot's,
    // leaving the published tally and partials unchanged.
    if t.ballots.len() >= 2 {
        let victim = copy_ciphertexts(&t.ballots[1].ballot.cts);
        let e0 = t.ballots.remove(0);
        let first = BallotEntry {
            nullifier: e0.nullifier,
            ballot: BallotProofHex { cts: victim, bits: e0.ballot.bits, sum_one: e0.ballot.sum_one },
            membership: e0.membership,
        };
        t.ballots.insert(0, first);
        proof {
            assert forall|i: int| 1 <= i < clean_t.ballots@.len() implies #[trigger] t.ballots@[i]
                == clean_t.ballots@[i] by {}
        }
    }
    let after = tally::verify_transcript(&t);
    let pass = clean.pass && !after.pass;
    let mut detail = String::from_str("clean transcript: ");
    if clean.pass {
        detail.append("PASS");
    } else {
        detail.append("FAIL");
    }
    detail.append(" (");
    detail.append(clean.reason.as_str());
    detail.append("); tampered transcript: ");
    if after.pass {
        detail.append("PASS (BAD)");
    } else {
        detail.append("FAIL (good — tamper caught)");
    }
    detail.append(" (");
    detail.append(after.reason.as_str());
    detail.append(")");
    proof {
        assert(detail@ =~= p3_detail(clean.pass, clean.reason@, after.pass, after.reason@));
        assert(swaps_first_ciphertexts(clean_t, t));
        assert(election_outcome(r0, 120, opts@, 3, 5, Policy::RejectDuplicate, 9, round_robin_events(120)));
        assert(named_options(opts@, "Yes"@, "No"@, "Abstain"@));
    }
    Check { name: "P3 universal verifiability", pass, detail }
}

} // verus!
