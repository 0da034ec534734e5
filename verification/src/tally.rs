//! The homomorphic tally, its threshold decryption, the public transcript,
//! and the independent transcript verifier.
//!
//! The verifier recomputes the per-option combined ciphertexts from the
//! public ballots alone, then checks the trustees' Chaum-Pedersen
//! partial-decryption proofs against those recomputed ciphertexts. Each proof
//! is bound by its Fiat-Shamir challenge to the ciphertext's `c1`, so a
//! tampered ballot changes the combined `c1` and the proofs fail: the
//! verifier needs no secret to detect it.
use vstd::prelude::*;
use crate::board::{
    ballot_verifies, counted_indices, first_appearances, index_matches, nullifiers, NullifierIndex,
    lemma_counted_from_index, lemma_first_appearances_contains,
    policy_name, Ballot, Board, Policy,
};
use crate::dkg::{comm_views, dkg_wf, share_sum, Dkg};
use crate::elgamal::{ct_hex_spec, ct_view, ct_views, Ciphertext, CiphertextHex, PublicKey};
use crate::group::{
    group_order, hex32_spec, hex_encode, hex_encode_spec, hex_to_bytes32, point_encoding, point_hex_spec, point_to_hex, point_views,
    scalar_hex_spec, scalar_to_hex, Point,
};
use crate::threshold::{
    combine_spec, decrypt, lemma_honest_combination, partial_decrypt, partial_valid, partial_view,
    partial_views, threshold_plaintext, PartialDecryption,
};
use crate::validity::{
    BallotProof, ballot_hex_spec, ballot_valid, bit_views, cp_view, ct_sum, decode_ballot, encode_ballot,
    encodes_ballot, scalar_hex, verify_ballot, BallotProofHex,
};
use crate::text::{decimal, list_text, push_decimal, push_list};
use rand::rngs::StdRng;

verus! {

/// The public header of an election transcript.
#[derive(Clone, Debug)]
pub struct Header {
    pub election: String,
    pub options: Vec<String>,
    pub t: usize,
    pub n: usize,
    pub enrolled: u64,
    pub policy: String,
    pub public_key: String,
    /// `n × t` Feldman commitments (hex points).
    pub commitments: Vec<Vec<String>>,
}

/// A trustee's published partial decryption and its proof, hex-encoded.
#[derive(Clone, Debug)]
pub struct PartialHex {
    pub index: u64,
    pub d: String,
    pub e: String,
    pub z: String,
}

#[derive(Clone, Debug)]
pub struct TallySection {
    /// Per-option combined ciphertext (the only ciphertexts ever decrypted).
    pub combined: Vec<CiphertextHex>,
    /// Per-option list of trustee partial decryptions.
    pub partials: Vec<Vec<PartialHex>>,
    /// Published per-option counts.
    pub results: Vec<u64>,
    pub max: u64,
}

#[derive(Clone, Debug)]
pub struct BallotEntry {
    pub nullifier: String,
    pub ballot: BallotProofHex,
    pub membership: Option<String>,
}

#[derive(Clone, Debug)]
pub struct Transcript {
    pub header: Header,
    pub ballots: Vec<BallotEntry>,
    pub tally: Option<TallySection>,
}

// ---------------------------------------------------------------------------
// Feldman commitments in the header.
// ---------------------------------------------------------------------------

/// The hex rows `rows` encode the commitment rows `c`.
pub open spec fn commitments_hex(rows: Seq<Vec<String>>, c: Seq<Vec<Point>>) -> bool {
    &&& rows.len() == c.len()
    &&& forall|j: int| 0 <= j < c.len() ==> (#[trigger] rows[j])@.len() == c[j]@.len()
    &&& forall|j: int, k: int|
        0 <= j < c.len() && 0 <= k < c[j]@.len() ==> (#[trigger] rows[j]@[k])@ == hex_encode_spec(
            point_encoding(c[j]@[k]@),
        )
}

/// What the hex commitment rows decode to, by the discrete logs of their
/// points; `None` when one of them is not a group element.
pub open spec fn commitments_hex_spec(rows: Seq<Vec<String>>) -> Option<Seq<Seq<nat>>> {
    if forall|j: int, k: int|
        0 <= j < rows.len() && 0 <= k < rows[j]@.len() ==> (#[trigger] point_hex_spec(
            rows[j]@[k]@,
        )) is Some {
        Some(
            Seq::new(
                rows.len(),
                |j: int| Seq::new(rows[j]@.len(), |k: int| point_hex_spec(rows[j]@[k]@).unwrap()),
            ),
        )
    } else {
        None
    }
}

fn encode_commitments(dkg: &Dkg) -> (r: Vec<Vec<String>>)
    ensures
        commitments_hex(r@, dkg.commitments@),
        commitments_hex_spec(r@) == Some(comm_views(dkg.commitments@)),
{
    let ghost c = dkg.commitments@;
    let mut rows: Vec<Vec<String>> = Vec::with_capacity(dkg.commitments.len());
    let mut j: usize = 0;
    while j < dkg.commitments.len()
        invariant
            j <= c.len(),
            c == dkg.commitments@,
            rows@.len() == j,
            forall|j2: int| 0 <= j2 < j ==> (#[trigger] rows@[j2])@.len() == c[j2]@.len(),
            forall|j2: int, k: int|
                0 <= j2 < j && 0 <= k < c[j2]@.len() ==> (#[trigger] rows@[j2]@[k])@
                    == hex_encode_spec(point_encoding(c[j2]@[k]@)) && point_hex_spec(
                    rows@[j2]@[k]@,
                ) == Some(c[j2]@[k]@),
        decreases c.len() - j,
    {
        let src = &dkg.commitments[j];
        let mut row: Vec<String> = Vec::with_capacity(src.len());
        let mut k: usize = 0;
        while k < src.len()
            invariant
                k <= src@.len(),
                row@.len() == k,
                forall|k2: int|
                    0 <= k2 < k ==> (#[trigger] row@[k2])@ == hex_encode_spec(
                        point_encoding(src@[k2]@),
                    ) && point_hex_spec(row@[k2]@) == Some(src@[k2]@),
            decreases src@.len() - k,
        {
            src[k].hex_decodes_back();
            row.push(point_to_hex(&src[k]));
            k = k + 1;
        }
        rows.push(row);
        j = j + 1;
    }
    proof {
        assert forall|j2: int, k: int|
            0 <= j2 < rows@.len() && 0 <= k < rows@[j2]@.len() implies (#[trigger] point_hex_spec(
            rows@[j2]@[k]@,
        )) is Some by {
            assert(point_hex_spec(rows@[j2]@[k]@) == Some(c[j2]@[k]@));
        }
        let dec = commitments_hex_spec(rows@).unwrap();
        assert forall|j2: int| 0 <= j2 < c.len() implies dec[j2] == comm_views(c)[j2] by {
            assert(dec[j2] =~= point_views(c[j2]@));
        }
        assert(dec =~= comm_views(c));
    }
    rows
}

/// Decode the header's commitments; `None` when one is not a group element.
pub fn decode_commitments(h: &Header) -> (r: Option<Vec<Vec<Point>>>)
    ensures
        match r {
            Some(c) => commitments_hex_spec(h.commitments@) == Some(comm_views(c@)),
            None => commitments_hex_spec(h.commitments@) is None,
        },
{
    let ghost rows = h.commitments@;
    let mut out: Vec<Vec<Point>> = Vec::with_capacity(h.commitments.len());
    let mut j: usize = 0;
    while j < h.commitments.len()
        invariant
            j <= rows.len(),
            rows == h.commitments@,
            out@.len() == j,
            forall|j2: int| 0 <= j2 < j ==> (#[trigger] out@[j2])@.len() == rows[j2]@.len(),
            forall|j2: int, k: int|
                0 <= j2 < j && 0 <= k < rows[j2]@.len() ==> point_hex_spec(
                    #[trigger] rows[j2]@[k]@,
                ) == Some(out@[j2]@[k]@),
        decreases rows.len() - j,
    {
        let src = &h.commitments[j];
        let mut row: Vec<Point> = Vec::with_capacity(src.len());
        let mut k: usize = 0;
        while k < src.len()
            invariant
                k <= src@.len(),
                j < rows.len(),
                rows == h.commitments@,
                src@ == rows[j as int]@,
                row@.len() == k,
                forall|k2: int| 0 <= k2 < k ==> point_hex_spec(#[trigger] src@[k2]@) == Some(
                    row@[k2]@,
                ),
            decreases src@.len() - k,
        {
            match crate::group::point_from_hex(src[k].as_str()) {
                Some(p) => row.push(p),
                None => {
                    proof {
                        assert(point_hex_spec(rows[j as int]@[k as int]@) is None);
                    }
                    return None;
                },
            }
            k = k + 1;
        }
        out.push(row);
        j = j + 1;
    }
    proof {
        assert forall|j2: int, k: int|
            0 <= j2 < rows.len() && 0 <= k < rows[j2]@.len() implies (#[trigger] point_hex_spec(
            rows[j2]@[k]@,
        )) is Some by {
            assert(point_hex_spec(rows[j2]@[k]@) == Some(out@[j2]@[k]@));
        }
        let dec = commitments_hex_spec(rows).unwrap();
        assert forall|j2: int| 0 <= j2 < rows.len() implies dec[j2] == comm_views(out@)[j2] by {
            assert(dec[j2] =~= point_views(out@[j2]@));
        }
        assert(dec =~= comm_views(out@));
    }
    Some(out)
}

// ---------------------------------------------------------------------------
// The homomorphic tally.
// ---------------------------------------------------------------------------

/// The ballots behind a sequence of references.
pub open spec fn deref_ballots(s: Seq<&Ballot>) -> Seq<Ballot> {
    s.map_values(|b: &Ballot| *b)
}

/// The ciphertexts for option `i` across a sequence of ballots.
pub open spec fn option_column(bs: Seq<Ballot>, i: int) -> Seq<(nat, nat)> {
    Seq::new(bs.len(), |j: int| ct_view(bs[j].cts@[i]))
}

/// The homomorphic sum of the ballots' ciphertexts for option `i`.
pub open spec fn option_total(bs: Seq<Ballot>, i: int) -> (nat, nat) {
    ct_sum(option_column(bs, i))
}

/// Homomorphically sum the per-option ciphertexts across a set of ballots.
pub fn combine_ballots(ballots: &[&Ballot], k: usize) -> (r: Vec<Ciphertext>)
    requires
        forall|j: int| 0 <= j < ballots@.len() ==> k <= (#[trigger] ballots@[j]).cts@.len(),
    ensures
        r@.len() == k,
        forall|i: int|
            0 <= i < k ==> ct_view(#[trigger] r@[i]) == option_total(deref_ballots(ballots@), i),
{
    let ghost bs = deref_ballots(ballots@);
    let mut acc: Vec<Ciphertext> = Vec::with_capacity(k);
    let mut i: usize = 0;
    while i < k
        invariant
            i <= k,
            acc@.len() == i,
            forall|i2: int| 0 <= i2 < i ==> ct_view(#[trigger] acc@[i2]) == (0nat, 0nat),
        decreases k - i,
    {
        acc.push(Ciphertext::identity());
        i = i + 1;
    }
    let mut j: usize = 0;
    while j < ballots.len()
        invariant
            j <= ballots@.len(),
            bs == deref_ballots(ballots@),
            forall|j2: int| 0 <= j2 < ballots@.len() ==> k <= (#[trigger] ballots@[j2]).cts@.len(),
            acc@.len() == k,
            forall|i2: int|
                0 <= i2 < k ==> ct_view(#[trigger] acc@[i2]) == ct_sum(
                    option_column(bs.take(j as int), i2),
                ),
        decreases ballots@.len() - j,
    {
        let b: &Ballot = ballots[j];
        let mut i: usize = 0;
        while i < k
            invariant
                i <= k,
                j < ballots@.len(),
                bs == deref_ballots(ballots@),
                *b == bs[j as int],
                k <= b.cts@.len(),
                acc@.len() == k,
                forall|i2: int|
                    0 <= i2 < i ==> ct_view(#[trigger] acc@[i2]) == ct_sum(
                        option_column(bs.take(j + 1), i2),
                    ),
                forall|i2: int|
                    i <= i2 < k ==> ct_view(#[trigger] acc@[i2]) == ct_sum(
                        option_column(bs.take(j as int), i2),
                    ),
            decreases k - i,
        {
            let s = acc[i].add(&b.cts[i]);
            acc.set(i, s);
            proof {
                let col = option_column(bs.take(j + 1), i as int);
                assert(col.drop_last() =~= option_column(bs.take(j as int), i as int));
                assert(col.last() == ct_view(b.cts@[i as int]));
            }
            i = i + 1;
        }
        j = j + 1;
    }
    assert(bs.take(ballots@.len() as int) =~= bs);
    acc
}

/// The decoded contents `(index, d, e, z)` of a published partial.
pub open spec fn partial_hex_value(p: PartialHex) -> (u64, nat, nat, nat) {
    (
        p.index,
        point_hex_spec(p.d@).unwrap(),
        scalar_hex_spec(p.e@).unwrap(),
        scalar_hex_spec(p.z@).unwrap(),
    )
}

/// The decoded contents of published partials.
pub open spec fn partials_hex_view(ps: Seq<PartialHex>) -> Seq<(u64, nat, nat, nat)> {
    ps.map_values(|p: PartialHex| partial_hex_value(p))
}

/// `p` is the canonical hex encoding of the partial `v`.
pub open spec fn partial_hex_encodes(p: PartialHex, v: (u64, nat, nat, nat)) -> bool {
    &&& p.index == v.0
    &&& p.d@ == hex_encode_spec(point_encoding(v.1))
    &&& p.e@ == scalar_hex(v.2)
    &&& p.z@ == scalar_hex(v.3)
    &&& point_hex_spec(p.d@) == Some(v.1)
    &&& scalar_hex_spec(p.e@) == Some(v.2)
    &&& scalar_hex_spec(p.z@) == Some(v.3)
}

/// `ts` publishes the tally of `bs` over `k` options decrypted by the
/// first `t` trustees of `dkg`: the combined ciphertexts, each trustee's
/// partial decryption `F_j·c1` with its proof, and the counts that those
/// partials combine to.
pub open spec fn publishes_tally(ts: TallySection, dkg: Dkg, bs: Seq<Ballot>, k: nat, max: u64) -> bool {
    let cv = comm_views(dkg.commitments@);
    &&& ts.max == max
    &&& ts.combined@.len() == k
    &&& ts.partials@.len() == k
    &&& ts.results@.len() == k
    &&& forall|i: int|
        0 <= i < k ==> {
            let c = option_total(bs, i);
            let pv = partials_hex_view((#[trigger] ts.partials@[i])@);
            &&& ts.combined@[i].c1@ == hex_encode_spec(point_encoding(c.0))
            &&& ts.combined@[i].c2@ == hex_encode_spec(point_encoding(c.1))
            &&& point_hex_spec(ts.combined@[i].c1@) == Some(c.0)
            &&& point_hex_spec(ts.combined@[i].c2@) == Some(c.1)
            &&& pv.len() == dkg.t
            &&& forall|j: int|
                0 <= j < dkg.t ==> {
                    &&& partial_hex_encodes(ts.partials@[i]@[j], #[trigger] pv[j])
                    &&& pv[j].0 == dkg.trustees@[j].index
                    &&& pv[j].1 == (dkg.trustees@[j].share@ * c.0) % group_order()
                    &&& dkg_wf(dkg) ==> partial_valid(c.0, share_sum(cv, pv[j].0 as nat), pv[j])
                }
            &&& combine_spec(dkg.t as nat, cv, c.0, c.1, pv) == Some(ts.results@[i] as nat)
            &&& ts.results@[i] <= max
        }
}

/// Build the tally section by decrypting only the combined ciphertexts.
///
/// For a completed ceremony the first `t` trustees' partials always combine,
/// so the section exists exactly when every option's combined plaintext is
/// at most `max`; the count published for it is then that plaintext.
pub fn run_tally(dkg: &Dkg, counted: &[&Ballot], k: usize, max: u64, rng: &mut StdRng) -> (r:
    Option<TallySection>)
    requires
        dkg.t <= dkg.trustees@.len(),
        forall|j: int| 0 <= j < counted@.len() ==> k <= (#[trigger] counted@[j]).cts@.len(),
    ensures
        match r {
            Some(ts) => publishes_tally(ts, *dkg, deref_ballots(counted@), k as nat, max),
            None => true,
        },
        dkg_wf(*dkg) ==> (r is Some <==> forall|i: int|
            0 <= i < k ==> #[trigger] threshold_plaintext(
                comm_views(dkg.commitments@),
                dkg.t as nat,
                option_total(deref_ballots(counted@), i),
            ) <= max),
        dkg_wf(*dkg) && r is Some ==> forall|i: int|
            0 <= i < k ==> #[trigger] r->0.results@[i] == threshold_plaintext(
                comm_views(dkg.commitments@),
                dkg.t as nat,
                option_total(deref_ballots(counted@), i),
            ),
{
    let ghost bs = deref_ballots(counted@);
    let ghost cv = comm_views(dkg.commitments@);
    let combined = combine_ballots(counted, k);
    let mut partials_out: Vec<Vec<PartialHex>> = Vec::with_capacity(k);
    let mut results: Vec<u64> = Vec::with_capacity(k);
    let mut combined_hex: Vec<CiphertextHex> = Vec::with_capacity(k);
    let mut i: usize = 0;
    while i < k
        invariant
            i <= k,
            dkg.t <= dkg.trustees@.len(),
            bs == deref_ballots(counted@),
            cv == comm_views(dkg.commitments@),
            combined@.len() == k,
            forall|i2: int| 0 <= i2 < k ==> ct_view(#[trigger] combined@[i2]) == option_total(bs, i2),
            partials_out@.len() == i,
            results@.len() == i,
            combined_hex@.len() == i,
            forall|i2: int|
                0 <= i2 < i ==> {
                    let c = option_total(bs, i2);
                    let pv = partials_hex_view((#[trigger] partials_out@[i2])@);
                    &&& combined_hex@[i2].c1@ == hex_encode_spec(point_encoding(c.0))
                    &&& combined_hex@[i2].c2@ == hex_encode_spec(point_encoding(c.1))
                    &&& point_hex_spec(combined_hex@[i2].c1@) == Some(c.0)
                    &&& point_hex_spec(combined_hex@[i2].c2@) == Some(c.1)
                    &&& pv.len() == dkg.t
                    &&& forall|j: int|
                        0 <= j < dkg.t ==> {
                            &&& partial_hex_encodes(partials_out@[i2]@[j], #[trigger] pv[j])
                            &&& pv[j].0 == dkg.trustees@[j].index
                            &&& pv[j].1 == (dkg.trustees@[j].share@ * c.0) % group_order()
                            &&& dkg_wf(*dkg) ==> partial_valid(
                                c.0,
                                share_sum(cv, pv[j].0 as nat),
                                pv[j],
                            )
                        }
                    &&& combine_spec(dkg.t as nat, cv, c.0, c.1, pv) == Some(
                        results@[i2] as nat,
                    )
                    &&& results@[i2] <= max
                },
            forall|i2: int|
                0 <= i2 < i ==> #[trigger] results@[i2] <= max && (dkg_wf(*dkg)
                    ==> results@[i2] == threshold_plaintext(cv, dkg.t as nat, option_total(bs, i2))),
        decreases k - i,
    {
        let ct = combined[i];
        let ghost c = ct_view(ct);
        // The first t trustees decrypt this single combined ciphertext.
        let mut parts: Vec<PartialDecryption> = Vec::with_capacity(dkg.t);
        let mut j: usize = 0;
        while j < dkg.t
            invariant
                j <= dkg.t,
                dkg.t <= dkg.trustees@.len(),
                parts@.len() == j,
                forall|j2: int|
                    0 <= j2 < j ==> {
                        &&& (#[trigger] parts@[j2]).index == dkg.trustees@[j2].index
                        &&& parts@[j2].d@ == (dkg.trustees@[j2].share@ * ct.c1@) % group_order()
                        &&& dkg.trustees@[j2].public_share@ == dkg.trustees@[j2].share@
                            ==> partial_valid(
                            ct.c1@,
                            dkg.trustees@[j2].public_share@,
                            partial_view(parts@[j2]),
                        )
                    },
            decreases dkg.t - j,
        {
            parts.push(partial_decrypt(&dkg.trustees[j], &ct, rng));
            j = j + 1;
        }
        let ghost pv = partial_views(parts@);
        proof {
            if dkg_wf(*dkg) {
                assert forall|j2: int| 0 <= j2 < dkg.t implies {
                    &&& (#[trigger] pv[j2]).0 == j2 + 1
                    &&& pv[j2].1 == (share_sum(cv, (j2 + 1) as nat) * c.0) % group_order()
                    &&& partial_valid(c.0, share_sum(cv, (j2 + 1) as nat), pv[j2])
                } by {
                    assert(pv[j2] == partial_view(parts@[j2]));
                }
                lemma_honest_combination(cv, dkg.t as nat, c.0, c.1, pv);
            }
        }
        let count = match decrypt(dkg, &ct, parts.as_slice(), max) {
            Some(m) => m,
            None => {
                proof {
                    if dkg_wf(*dkg) {
                        assert(threshold_plaintext(cv, dkg.t as nat, option_total(bs, i as int))
                            > max);
                    }
                }
                return None;
            },
        };
        results.push(count);
        let mut enc: Vec<PartialHex> = Vec::with_capacity(parts.len());
        let mut j: usize = 0;
        while j < parts.len()
            invariant
                j <= parts@.len(),
                pv == partial_views(parts@),
                enc@.len() == j,
                forall|j2: int|
                    0 <= j2 < j ==> partial_hex_encodes(#[trigger] enc@[j2], pv[j2])
                        && partials_hex_view(enc@)[j2] == pv[j2],
            decreases parts@.len() - j,
        {
            let p = parts[j];
            p.d.hex_decodes_back();
            p.proof.e.reduced();
            p.proof.z.reduced();
            proof {
                crate::group::lemma_scalar_hex_roundtrip(p.proof.e@);
                crate::group::lemma_scalar_hex_roundtrip(p.proof.z@);
            }
            enc.push(
                PartialHex {
                    index: p.index,
                    d: point_to_hex(&p.d),
                    e: scalar_to_hex(&p.proof.e),
                    z: scalar_to_hex(&p.proof.z),
                },
            );
            j = j + 1;
        }
        assert(partials_hex_view(enc@) =~= pv);
        partials_out.push(enc);
        ct.c1.hex_decodes_back();
        ct.c2.hex_decodes_back();
        combined_hex.push(ct.to_hex());
        i = i + 1;
    }
    proof {
        if dkg_wf(*dkg) {
            assert forall|i2: int| 0 <= i2 < k implies #[trigger] threshold_plaintext(
                cv,
                dkg.t as nat,
                option_total(bs, i2),
            ) <= max && results@[i2] == threshold_plaintext(cv, dkg.t as nat, option_total(bs, i2)) by {
                assert(results@[i2] <= max);
            }
        }
    }
    Some(TallySection { combined: combined_hex, partials: partials_out, results, max })
}


// ---------------------------------------------------------------------------
// Building the transcript.
// ---------------------------------------------------------------------------

/// `e` is the public entry of the board record `b`.
pub open spec fn entry_encodes(e: BallotEntry, b: Ballot) -> bool {
    &&& e.nullifier@ == hex_encode_spec(b.nullifier@)
    &&& hex32_spec(e.nullifier@) == Some(b.nullifier)
    &&& encodes_ballot(e.ballot, b.cts@, b.proof)
    &&& ballot_hex_spec(e.ballot) == Some(
        (ct_views(b.cts@), bit_views(b.proof.bits@), cp_view(b.proof.sum_one)),
    )
    &&& e.membership == b.membership
}

/// `h` is the public header of an election with these parameters.
pub open spec fn header_describes(
    h: Header,
    election: Seq<char>,
    options: Seq<String>,
    dkg: Dkg,
    policy: Policy,
    enrolled: u64,
) -> bool {
    &&& h.election@ == election
    &&& h.options@ == options
    &&& h.t == dkg.t
    &&& h.n == dkg.n
    &&& h.enrolled == enrolled
    &&& h.policy@ == policy_name(policy)
    &&& h.public_key@ == hex_encode_spec(point_encoding(dkg.public_key.0@))
    &&& point_hex_spec(h.public_key@) == Some(dkg.public_key.0@)
    &&& commitments_hex(h.commitments@, dkg.commitments@)
    &&& commitments_hex_spec(h.commitments@) == Some(comm_views(dkg.commitments@))
}

fn copy_strings(v: &[String]) -> (r: Vec<String>)
    ensures
        r@ == v@,
{
    let mut out: Vec<String> = Vec::with_capacity(v.len());
    let mut i: usize = 0;
    while i < v.len()
        invariant
            i <= v@.len(),
            out@ == v@.take(i as int),
        decreases v@.len() - i,
    {
        out.push(v[i].clone());
        assert(out@ =~= v@.take(i + 1));
        i = i + 1;
    }
    assert(v@.take(v@.len() as int) =~= v@);
    out
}

fn copy_membership(m: &Option<String>) -> (r: Option<String>)
    ensures
        r == *m,
{
    match m {
        Some(s) => Some(s.clone()),
        None => None,
    }
}

/// Serialize a full transcript from a finished board.
pub fn build_transcript(
    header_election: &str,
    options: &[String],
    dkg: &Dkg,
    board: &Board,
    enrolled: u64,
    tally: Option<TallySection>,
) -> (r: Transcript)
    ensures
        header_describes(r.header, header_election@, options@, *dkg, board.policy, enrolled),
        r.ballots@.len() == board.records@.len(),
        forall|i: int|
            0 <= i < board.records@.len() ==> entry_encodes(
                #[trigger] r.ballots@[i],
                board.records@[i],
            ),
        r.tally == tally,
{
    let mut ballots: Vec<BallotEntry> = Vec::with_capacity(board.records.len());
    let mut i: usize = 0;
    while i < board.records.len()
        invariant
            i <= board.records@.len(),
            ballots@.len() == i,
            forall|j: int| 0 <= j < i ==> entry_encodes(#[trigger] ballots@[j], board.records@[j]),
        decreases board.records@.len() - i,
    {
        let b = &board.records[i];
        proof {
            crate::group::lemma_hex32_roundtrip(b.nullifier);
        }
        ballots.push(
            BallotEntry {
                nullifier: hex_encode(&b.nullifier),
                ballot: encode_ballot(b.cts.as_slice(), &b.proof),
                membership: copy_membership(&b.membership),
            },
        );
        i = i + 1;
    }
    dkg.public_key.0.hex_decodes_back();
    let header = Header {
        election: header_election.to_owned(),
        options: copy_strings(options),
        t: dkg.t,
        n: dkg.n,
        enrolled,
        policy: board.policy.as_str().to_owned(),
        public_key: point_to_hex(&dkg.public_key.0),
        commitments: encode_commitments(dkg),
    };
    Transcript { header, ballots, tally }
}


// ---------------------------------------------------------------------------
// The independent verifier.
// ---------------------------------------------------------------------------

/// The first defect that the verifier finds in a transcript.
#[derive(Clone, Copy, Debug, PartialEq, Eq, Structural)]
pub enum Fault {
    MalformedPublicKey,
    MalformedCommitments,
    UnknownPolicy,
    BadNullifier(usize),
    Undecodable(usize),
    WrongOptionCount(usize),
    InvalidValidityProof(usize),
    DuplicateNullifier(usize),
    NoTally,
    ShapeMismatch,
    BadPartialPoint,
    BadPartialScalar,
    PartialProofFailed(usize),
    CannotCombine(usize),
    CombinedMismatch(usize),
}

/// The earliest defect in a sequence of checks.
pub open spec fn first_fault(fs: Seq<Option<Fault>>) -> Option<Fault>
    decreases fs.len(),
{
    if fs.len() == 0 {
        None
    } else if fs[0] is Some {
        fs[0]
    } else {
        first_fault(fs.drop_first())
    }
}

/// When the checks before `i` pass, the earliest defect is found from `i` on.
proof fn lemma_first_fault_skip(fs: Seq<Option<Fault>>, i: int)
    requires
        0 <= i <= fs.len(),
        forall|j: int| 0 <= j < i ==> fs[j] is None,
    ensures
        first_fault(fs) == first_fault(fs.skip(i)),
    decreases i,
{
    if i > 0 {
        let rest = fs.drop_first();
        assert(fs[0] is None);
        assert(first_fault(fs) == first_fault(rest));
        assert forall|j: int| 0 <= j < i - 1 implies rest[j] is None by {
            assert(rest[j] == fs[j + 1]);
        }
        lemma_first_fault_skip(rest, i - 1);
        assert(rest.skip(i - 1) =~= fs.skip(i));
    } else {
        assert(fs.skip(0) =~= fs);
    }
}

/// The defect found at `i`, when every check before it passes.
proof fn lemma_first_fault_at(fs: Seq<Option<Fault>>, i: int)
    requires
        0 <= i < fs.len(),
        forall|j: int| 0 <= j < i ==> fs[j] is None,
        fs[i] is Some,
    ensures
        first_fault(fs) == fs[i],
{
    lemma_first_fault_skip(fs, i);
    assert(fs.skip(i)[0] == fs[i]);
}

/// No defect when every check passes.
proof fn lemma_first_fault_none(fs: Seq<Option<Fault>>)
    requires
        forall|j: int| 0 <= j < fs.len() ==> fs[j] is None,
    ensures
        first_fault(fs) is None,
{
    lemma_first_fault_skip(fs, fs.len() as int);
    assert(fs.skip(fs.len() as int) =~= Seq::<Option<Fault>>::empty());
}

/// The policy that a transcript names.
pub open spec fn policy_from_name(s: Seq<char>) -> Option<Policy> {
    if s == policy_name(Policy::RejectDuplicate) {
        Some(Policy::RejectDuplicate)
    } else if s == policy_name(Policy::LastWriteWins) {
        Some(Policy::LastWriteWins)
    } else {
        None
    }
}

/// The decoded nullifier of entry `i`.
pub open spec fn entry_nullifier(t: Transcript, i: int) -> [u8; 32] {
    hex32_spec(t.ballots@[i].nullifier@).unwrap()
}

/// The decoded ciphertexts and proofs of entry `i`.
pub open spec fn entry_decoded(t: Transcript, i: int) -> (
    Seq<(nat, nat)>,
    Seq<(nat, nat, nat, nat)>,
    (nat, nat),
) {
    ballot_hex_spec(t.ballots@[i].ballot).unwrap()
}

/// The defect of entry `i` under the key `pk` and the policy, checked in
/// order: nullifier, encoding, option count, validity proof, and under
/// `RejectDuplicate` a nullifier that an earlier entry already carries.
pub open spec fn entry_fault(t: Transcript, pk: nat, policy: Policy, i: int) -> Option<Fault> {
    match entry_own_fault(t, pk, i) {
        Some(f) => Some(f),
        None => if policy == Policy::RejectDuplicate && (exists|j: int|
            0 <= j < i && #[trigger] entry_nullifier(t, j) == entry_nullifier(t, i)) {
            Some(Fault::DuplicateNullifier(i as usize))
        } else {
            None
        },
    }
}

/// The defect of entry `i` on its own: nullifier, encoding, option count
/// and validity proof, in that order.
pub open spec fn entry_own_fault(t: Transcript, pk: nat, i: int) -> Option<Fault> {
    let be = t.ballots@[i];
    let dec = entry_decoded(t, i);
    if hex32_spec(be.nullifier@) is None {
        Some(Fault::BadNullifier(i as usize))
    } else if ballot_hex_spec(be.ballot) is None {
        Some(Fault::Undecodable(i as usize))
    } else if dec.0.len() != t.header.options@.len() {
        Some(Fault::WrongOptionCount(i as usize))
    } else if !ballot_valid(pk, dec.0, dec.1, dec.2) {
        Some(Fault::InvalidValidityProof(i as usize))
    } else {
        None
    }
}

pub open spec fn entry_faults(t: Transcript, pk: nat, policy: Policy) -> Seq<Option<Fault>> {
    Seq::new(t.ballots@.len(), |i: int| entry_fault(t, pk, policy, i))
}

/// The decoded nullifiers of all entries.
pub open spec fn entry_nullifiers(t: Transcript) -> Seq<[u8; 32]> {
    Seq::new(t.ballots@.len(), |i: int| entry_nullifier(t, i))
}

/// The entries that count under the policy.
pub open spec fn counted_entries(t: Transcript, policy: Policy) -> Seq<int> {
    counted_indices(policy, entry_nullifiers(t))
}

/// The homomorphic sum of option `o` over the counted entries.
pub open spec fn recomputed_total(t: Transcript, policy: Policy, o: int) -> (nat, nat) {
    let ci = counted_entries(t, policy);
    ct_sum(Seq::new(ci.len(), |j: int| entry_decoded(t, ci[j]).0[o]))
}

/// The defect of a published partial decryption of option `opt`, whose
/// combined ciphertext begins with `c1`.
#[verifier::opaque]
pub open spec fn partial_hex_fault(ph: PartialHex, c1: nat, cv: Seq<Seq<nat>>, opt: int) -> Option<
    Fault,
> {
    if point_hex_spec(ph.d@) is None {
        Some(Fault::BadPartialPoint)
    } else if scalar_hex_spec(ph.e@) is None || scalar_hex_spec(ph.z@) is None {
        Some(Fault::BadPartialScalar)
    } else if !partial_valid(c1, share_sum(cv, ph.index as nat), partial_hex_value(ph)) {
        Some(Fault::PartialProofFailed(opt as usize))
    } else {
        None
    }
}

pub open spec fn partial_faults(ps: Seq<PartialHex>, c1: nat, cv: Seq<Seq<nat>>, opt: int) -> Seq<
    Option<Fault>,
> {
    Seq::new(ps.len(), |p: int| partial_hex_fault(ps[p], c1, cv, opt))
}

/// The count that option `opt` decrypts to from its published partials,
/// or the defect that stops it.
#[verifier::opaque]
pub open spec fn option_outcome(
    ps: Seq<PartialHex>,
    t: nat,
    cv: Seq<Seq<nat>>,
    c: (nat, nat),
    max: u64,
    opt: int,
) -> Result<u64, Fault> {
    match first_fault(partial_faults(ps, c.0, cv, opt)) {
        Some(f) => Err(f),
        None => match combine_spec(t, cv, c.0, c.1, partials_hex_view(ps)) {
            Some(m) => if m <= max {
                Ok(m as u64)
            } else {
                Err(Fault::CannotCombine(opt as usize))
            },
            None => Err(Fault::CannotCombine(opt as usize)),
        },
    }
}

pub open spec fn outcome_fault(r: Result<u64, Fault>) -> Option<Fault> {
    match r {
        Ok(_) => None,
        Err(f) => Some(f),
    }
}

pub open spec fn outcome_count(r: Result<u64, Fault>) -> u64 {
    match r {
        Ok(c) => c,
        Err(_) => 0,
    }
}

/// Every option's outcome, against the totals recomputed from the ballots.
pub open spec fn option_outcomes(t: Transcript, ts: TallySection, cv: Seq<Seq<nat>>, policy: Policy) -> Seq<
    Result<u64, Fault>,
> {
    Seq::new(
        t.header.options@.len(),
        |o: int|
            option_outcome(
                ts.partials@[o]@,
                t.header.t as nat,
                cv,
                recomputed_total(t, policy, o),
                ts.max,
                o,
            ),
    )
}

/// Whether each published combined ciphertext is the one recomputed from
/// the counted ballots.
pub open spec fn combined_checks(t: Transcript, ts: TallySection, policy: Policy) -> Seq<Option<Fault>> {
    Seq::new(
        t.header.options@.len(),
        |o: int|
            if ct_hex_spec(ts.combined@[o].c1@, ts.combined@[o].c2@) != Some(
                recomputed_total(t, policy, o),
            ) {
                Some(Fault::CombinedMismatch(o as usize))
            } else {
                None
            },
    )
}

/// The published combined ciphertexts, checked last: a wrong number of
/// them, or the first that differs from the recomputed one.
#[verifier::opaque]
pub open spec fn combined_fault(t: Transcript) -> Option<Fault> {
    let ts = t.tally.unwrap();
    if ts.combined@.len() != t.header.options@.len() {
        Some(Fault::ShapeMismatch)
    } else {
        first_fault(combined_checks(t, ts, policy_from_name(t.header.policy@).unwrap()))
    }
}

/// What the verifier concludes from the transcript alone: the first defect,
/// or the counts that it recomputes.
pub open spec fn transcript_verdict(t: Transcript) -> Result<Seq<u64>, Fault> {
    let k = t.header.options@.len();
    match point_hex_spec(t.header.public_key@) {
        None => Err(Fault::MalformedPublicKey),
        Some(pk) => match commitments_hex_spec(t.header.commitments@) {
            None => Err(Fault::MalformedCommitments),
            Some(cv) => match policy_from_name(t.header.policy@) {
                None => Err(Fault::UnknownPolicy),
                Some(policy) => match first_fault(entry_faults(t, pk, policy)) {
                    Some(f) => Err(f),
                    None => match t.tally {
                        None => Err(Fault::NoTally),
                        Some(ts) => if ts.partials@.len() != k || ts.results@.len() != k {
                            Err(Fault::ShapeMismatch)
                        } else {
                            let outs = option_outcomes(t, ts, cv, policy);
                            match first_fault(outs.map_values(|r: Result<u64, Fault>| outcome_fault(r))) {
                                Some(f) => Err(f),
                                None => Ok(outs.map_values(|r: Result<u64, Fault>| outcome_count(r))),
                            }
                        },
                    },
                },
            },
        },
    }
}

/// How many ballots count, once the header and entries check out.
pub open spec fn counted_count(t: Transcript) -> nat {
    counted_entries(t, policy_from_name(t.header.policy@).unwrap()).len()
}

fn parse_policy(s: &String) -> (r: Option<Policy>)
    ensures
        r == policy_from_name(s@),
{
    let rd = String::from_str("reject_duplicate");
    let lw = String::from_str("last_write_wins");
    proof {
        reveal_strlit("reject_duplicate");
        reveal_strlit("last_write_wins");
        assert(rd@ == policy_name(Policy::RejectDuplicate));
        assert(lw@ == policy_name(Policy::LastWriteWins));
    }
    if *s == rd {
        Some(Policy::RejectDuplicate)
    } else if *s == lw {
        Some(Policy::LastWriteWins)
    } else {
        None
    }
}

/// Decode and check entry `i` on its own.
fn decode_entry(t: &Transcript, i: usize, pk: &PublicKey, k: usize) -> (r: Result<
    ([u8; 32], Vec<Ciphertext>, BallotProof),
    Fault,
>)
    requires
        i < t.ballots@.len(),
        k == t.header.options@.len(),
    ensures
        match r {
            Err(f) => entry_own_fault(*t, pk.0@, i as int) == Some(f),
            Ok((null, cts, proof)) => {
                &&& entry_own_fault(*t, pk.0@, i as int) is None
                &&& null == entry_nullifier(*t, i as int)
                &&& cts@.len() == k
                &&& ct_views(cts@) == entry_decoded(*t, i as int).0
            },
        },
{
    let be = &t.ballots[i];
    let null = match hex_to_bytes32(be.nullifier.as_str()) {
        Some(n) => n,
        None => {
            return Err(Fault::BadNullifier(i));
        },
    };
    let (cts, proof) = match decode_ballot(&be.ballot) {
        Some(x) => x,
        None => {
            return Err(Fault::Undecodable(i));
        },
    };
    if cts.len() != k {
        return Err(Fault::WrongOptionCount(i));
    }
    if !verify_ballot(pk, cts.as_slice(), &proof) {
        return Err(Fault::InvalidValidityProof(i));
    }
    Ok((null, cts, proof))
}

/// Under `RejectDuplicate`, an entry whose nullifier is new keeps the
/// nullifiers so far pairwise distinct.
proof fn lemma_push_distinct(ns: Seq<[u8; 32]>, x: [u8; 32])
    requires
        ns.no_duplicates(),
        !ns.contains(x),
    ensures
        ns.push(x).no_duplicates(),
{
    let ns2 = ns.push(x);
    assert forall|a: int, b: int|
        0 <= a < ns2.len() && 0 <= b < ns2.len() && a != b implies ns2[a] != ns2[b] by {
        if a == ns.len() {
            assert(ns.contains(ns2[b]));
        } else if b == ns.len() {
            assert(ns.contains(ns2[a]));
        }
    }
}

/// An earlier entry carries the nullifier of entry `i` exactly when it is
/// among the nullifiers before `i`.
proof fn lemma_seen_before(t: Transcript, i: int)
    requires
        0 <= i < t.ballots@.len(),
    ensures
        entry_nullifiers(t).take(i).contains(entry_nullifier(t, i)) <==> exists|j: int|
            0 <= j < i && #[trigger] entry_nullifier(t, j) == entry_nullifier(t, i),
{
    let ns = entry_nullifiers(t).take(i);
    let x = entry_nullifier(t, i);
    if ns.contains(x) {
        let j = choose|j: int| 0 <= j < ns.len() && ns[j] == x;
        assert(entry_nullifier(t, j) == x);
    }
    if exists|j: int| 0 <= j < i && #[trigger] entry_nullifier(t, j) == x {
        let j = choose|j: int| 0 <= j < i && #[trigger] entry_nullifier(t, j) == x;
        assert(ns[j] == x);
    }
}

/// Decode and check every entry in order; on success, the decoded ballots
/// and the first-appearance index of their nullifiers.
fn check_ballots(t: &Transcript, pk: &PublicKey, policy: Policy, k: usize) -> (r: Result<
    (Vec<Ballot>, Vec<([u8; 32], usize)>),
    Fault,
>)
    requires
        k == t.header.options@.len(),
    ensures
        match r {
            Err(f) => first_fault(entry_faults(*t, pk.0@, policy)) == Some(f),
            Ok((decoded, index)) => {
                &&& first_fault(entry_faults(*t, pk.0@, policy)) is None
                &&& decoded@.len() == t.ballots@.len()
                &&& forall|i: int|
                    0 <= i < decoded@.len() ==> (#[trigger] decoded@[i]).cts@.len() == k
                        && ct_views(decoded@[i].cts@) == entry_decoded(*t, i).0
                &&& index_matches(index@, entry_nullifiers(*t))
                &&& policy == Policy::RejectDuplicate ==> entry_nullifiers(*t).no_duplicates()
            },
        },
{
    let ghost fs = entry_faults(*t, pk.0@, policy);
    let ghost all_ns = entry_nullifiers(*t);
    let mut index = NullifierIndex::new();
    let mut decoded: Vec<Ballot> = Vec::with_capacity(t.ballots.len());
    let mut i: usize = 0;
    while i < t.ballots.len()
        invariant
            i <= t.ballots@.len(),
            k == t.header.options@.len(),
            fs == entry_faults(*t, pk.0@, policy),
            all_ns == entry_nullifiers(*t),
            forall|j: int| 0 <= j < i ==> fs[j] is None,
            decoded@.len() == i,
            forall|j: int|
                0 <= j < i ==> (#[trigger] decoded@[j]).cts@.len() == k && ct_views(
                    decoded@[j].cts@,
                ) == entry_decoded(*t, j).0,
            index.indexes(all_ns.take(i as int)),
            policy == Policy::RejectDuplicate ==> all_ns.take(i as int).no_duplicates(),
        decreases t.ballots@.len() - i,
    {
        let (null, cts, proof) = match decode_entry(t, i, pk, k) {
            Ok(x) => x,
            Err(f) => {
                proof {
                    assert(fs[i as int] == Some(f));
                    lemma_first_fault_at(fs, i as int);
                }
                return Err(f);
            },
        };
        let ghost ns = all_ns.take(i as int);
        proof {
            lemma_first_appearances_contains(ns);
            lemma_seen_before(*t, i as int);
        }
        let found = index.find(Ghost(ns), &null);
        if found.is_some() && policy == Policy::RejectDuplicate {
            proof {
                let kk = found.unwrap();
                assert(first_appearances(ns)[kk as int] == null);
                assert(first_appearances(ns).contains(null));
                assert(fs[i as int] == Some(Fault::DuplicateNullifier(i)));
                lemma_first_fault_at(fs, i as int);
            }
            return Err(Fault::DuplicateNullifier(i));
        }
        index.note(Ghost(ns), null, i, found);
        let membership = copy_membership(&t.ballots[i].membership);
        decoded.push(Ballot { nullifier: null, cts, proof, membership });
        proof {
            assert(all_ns.take(i + 1) =~= ns.push(null));
            assert(fs[i as int] is None);
            if policy == Policy::RejectDuplicate {
                lemma_push_distinct(ns, null);
            }
        }
        i = i + 1;
    }
    proof {
        lemma_first_fault_none(fs);
        assert(all_ns.take(t.ballots@.len() as int) =~= all_ns);
    }
    Ok((decoded, index.entries))
}

/// Decode and check one published partial of option `opt`.
fn decode_partial(ph: &PartialHex, vdkg: &Dkg, ct: &Ciphertext, opt: usize) -> (r: Result<
    PartialDecryption,
    Fault,
>)
    ensures
        match r {
            Err(f) => partial_hex_fault(*ph, ct.c1@, comm_views(vdkg.commitments@), opt as int)
                == Some(f),
            Ok(part) => partial_hex_fault(*ph, ct.c1@, comm_views(vdkg.commitments@), opt as int)
                is None && partial_view(part) == partial_hex_value(*ph),
        },
{
    proof {
        reveal(partial_hex_fault);
    }
    let d = match crate::group::point_from_hex(ph.d.as_str()) {
        Some(x) => x,
        None => {
            return Err(Fault::BadPartialPoint);
        },
    };
    let e = crate::group::scalar_from_hex(ph.e.as_str());
    let z = crate::group::scalar_from_hex(ph.z.as_str());
    let (e, z) = match (e, z) {
        (Some(e), Some(z)) => (e, z),
        _ => {
            return Err(Fault::BadPartialScalar);
        },
    };
    let part = PartialDecryption { index: ph.index, d, proof: crate::threshold::CpProof { e, z } };
    let pubshare = crate::dkg::public_share_from_commitments(vdkg.commitments.as_slice(), ph.index);
    if !crate::threshold::verify_partial(&part, ct, pubshare) {
        return Err(Fault::PartialProofFailed(opt));
    }
    Ok(part)
}

/// Decode and check option `opt`'s published partials against the
/// recomputed combined ciphertext, then decrypt it.
fn check_option(ps: &Vec<PartialHex>, vdkg: &Dkg, ct: &Ciphertext, max: u64, opt: usize) -> (r:
    Result<u64, Fault>)
    ensures
        r == option_outcome(
            ps@,
            vdkg.t as nat,
            comm_views(vdkg.commitments@),
            ct_view(*ct),
            max,
            opt as int,
        ),
{
    proof {
        reveal(option_outcome);
    }
    let ghost cv = comm_views(vdkg.commitments@);
    let ghost fs = partial_faults(ps@, ct.c1@, cv, opt as int);
    let mut parts: Vec<PartialDecryption> = Vec::with_capacity(ps.len());
    let mut p: usize = 0;
    while p < ps.len()
        invariant
            p <= ps@.len(),
            cv == comm_views(vdkg.commitments@),
            fs == partial_faults(ps@, ct.c1@, cv, opt as int),
            forall|j: int| 0 <= j < p ==> fs[j] is None,
            partial_views(parts@) == partials_hex_view(ps@.take(p as int)),
        decreases ps@.len() - p,
    {
        let part = match decode_partial(&ps[p], vdkg, ct, opt) {
            Ok(x) => x,
            Err(f) => {
                proof {
                    assert(fs[p as int] == Some(f));
                    lemma_first_fault_at(fs, p as int);
                    reveal(option_outcome);
                }
                return Err(f);
            },
        };
        let ghost before = parts@;
        parts.push(part);
        proof {
            assert(fs[p as int] is None);
            assert(partials_hex_view(ps@.take(p + 1)) =~= partials_hex_view(ps@.take(p as int)).push(
                partial_hex_value(ps@[p as int]),
            ));
            assert(partial_views(parts@) =~= partial_views(before).push(partial_view(part)));
        }
        p = p + 1;
    }
    proof {
        lemma_first_fault_none(fs);
        assert(ps@.take(ps@.len() as int) =~= ps@);
        reveal(option_outcome);
    }
    match decrypt(vdkg, ct, parts.as_slice(), max) {
        Some(c) => Ok(c),
        None => Err(Fault::CannotCombine(opt)),
    }
}


/// Run every check of the verifier; on success, the recomputed counts and
/// the number of ballots that count.
fn check_transcript(t: &Transcript) -> (r: Result<(Vec<u64>, usize, Vec<Ciphertext>), Fault>)
    ensures
        match r {
            Ok((c, n, cb)) => {
                &&& transcript_verdict(*t) == Ok::<Seq<u64>, Fault>(c@)
                &&& n == counted_count(*t)
                &&& t.tally is Some
                &&& policy_from_name(t.header.policy@) is Some
                &&& cb@.len() == t.header.options@.len()
                &&& forall|o: int|
                    0 <= o < cb@.len() ==> ct_view(#[trigger] cb@[o]) == recomputed_total(
                        *t,
                        policy_from_name(t.header.policy@).unwrap(),
                        o,
                    )
            },
            Err(f) => transcript_verdict(*t) == Err::<Seq<u64>, Fault>(f),
        },
{
    let k = t.header.options.len();
    let pk = match crate::group::point_from_hex(t.header.public_key.as_str()) {
        Some(p) => PublicKey(p),
        None => {
            return Err(Fault::MalformedPublicKey);
        },
    };
    let commitments = match decode_commitments(&t.header) {
        Some(c) => c,
        None => {
            return Err(Fault::MalformedCommitments);
        },
    };
    let ghost cv = comm_views(commitments@);
    let policy = match parse_policy(&t.header.policy) {
        Some(p) => p,
        None => {
            return Err(Fault::UnknownPolicy);
        },
    };
    // 1. Decode and validity-check every ballot, enforcing the policy.
    let (decoded, index) = match check_ballots(t, &pk, policy, k) {
        Ok(x) => x,
        Err(f) => {
            return Err(f);
        },
    };
    let ghost ns = entry_nullifiers(*t);
    let ghost ci = counted_entries(*t, policy);
    proof {
        lemma_counted_from_index(policy, ns, index@);
        lemma_first_appearances_contains(ns);
        assert forall|j: int| 0 <= j < index@.len() implies 0 <= #[trigger] index@[j].1 < ns.len() by {
            let fa = first_appearances(ns);
            assert(fa.contains(fa[j]));
            crate::board::lemma_last_index_in_range(ns, fa[j]);
        }
    }
    let mut counted: Vec<&Ballot> = Vec::with_capacity(index.len());
    let mut j: usize = 0;
    while j < index.len()
        invariant
            j <= index@.len(),
            decoded@.len() == ns.len(),
            ci == index@.map_values(|e: ([u8; 32], usize)| e.1 as int),
            forall|j2: int| 0 <= j2 < index@.len() ==> 0 <= #[trigger] index@[j2].1 < ns.len(),
            counted@.len() == j,
            forall|j2: int| 0 <= j2 < j ==> *(#[trigger] counted@[j2]) == decoded@[ci[j2]],
        decreases index@.len() - j,
    {
        let pos = index[j].1;
        counted.push(&decoded[pos]);
        j = j + 1;
    }
    // 2. Recompute the combined ciphertexts from the counted ballots alone.
    let combined = combine_ballots(counted.as_slice(), k);
    proof {
        let bs = deref_ballots(counted@);
        assert forall|o: int| 0 <= o < k implies option_total(bs, o) == recomputed_total(
            *t,
            policy,
            o,
        ) by {
            assert(option_column(bs, o) =~= Seq::new(
                ci.len(),
                |j: int| entry_decoded(*t, ci[j]).0[o],
            )) by {
                assert forall|j2: int| 0 <= j2 < ci.len() implies option_column(bs, o)[j2]
                    == entry_decoded(*t, ci[j2]).0[o] by {
                    assert(bs[j2] == decoded@[ci[j2]]);
                    assert(ct_views(decoded@[ci[j2]].cts@)[o] == ct_view(decoded@[ci[j2]].cts@[o]));
                }
            }
        }
    }
    let ts = match &t.tally {
        Some(ts) => ts,
        None => {
            return Err(Fault::NoTally);
        },
    };
    if ts.partials.len() != k || ts.results.len() != k {
        return Err(Fault::ShapeMismatch);
    }
    // 3. Check the partial decryptions against the recomputed ciphertexts,
    //    then decrypt.
    let vdkg = Dkg { t: t.header.t, n: t.header.n, public_key: pk, trustees: Vec::new(), commitments };
    let ghost outs = option_outcomes(*t, *ts, cv, policy);
    let ghost ofs = outs.map_values(|r: Result<u64, Fault>| outcome_fault(r));
    let mut counts: Vec<u64> = Vec::with_capacity(k);
    let mut o: usize = 0;
    while o < k
        invariant
            o <= k,
            k == t.header.options@.len(),
            ts.partials@.len() == k,
            cv == comm_views(vdkg.commitments@),
            vdkg.t == t.header.t,
            outs == option_outcomes(*t, *ts, cv, policy),
            ofs == outs.map_values(|r: Result<u64, Fault>| outcome_fault(r)),
            point_hex_spec(t.header.public_key@) == Some(pk.0@),
            commitments_hex_spec(t.header.commitments@) == Some(cv),
            policy_from_name(t.header.policy@) == Some(policy),
            first_fault(entry_faults(*t, pk.0@, policy)) is None,
            t.tally == Some(*ts),
            ts.results@.len() == k,
            combined@.len() == k,
            forall|o2: int|
                0 <= o2 < k ==> ct_view(#[trigger] combined@[o2]) == recomputed_total(
                    *t,
                    policy,
                    o2,
                ),
            forall|o2: int| 0 <= o2 < o ==> ofs[o2] is None,
            counts@ == outs.map_values(|r: Result<u64, Fault>| outcome_count(r)).take(o as int),
        decreases k - o,
    {
        let res = check_option(&ts.partials[o], &vdkg, &combined[o], ts.max, o);
        assert(res == outs[o as int]);
        match res {
            Ok(c) => {
                counts.push(c);
                proof {
                    assert(counts@ =~= outs.map_values(
                        |r: Result<u64, Fault>| outcome_count(r),
                    ).take(o + 1));
                }
            },
            Err(f) => {
                proof {
                    lemma_first_fault_at(ofs, o as int);
                }
                return Err(f);
            },
        }
        o = o + 1;
    }
    proof {
        lemma_first_fault_none(ofs);
        assert(outs.map_values(|r: Result<u64, Fault>| outcome_count(r)).take(k as int) =~= outs.map_values(
            |r: Result<u64, Fault>| outcome_count(r),
        ));
    }
    Ok((counts, counted.len(), combined))
}

/// Check the published combined ciphertexts against the recomputed ones.
fn check_combined(t: &Transcript, ts: &TallySection, combined: &Vec<Ciphertext>, Ghost(policy): Ghost<Policy>) -> (r: Option<Fault>)
    requires
        t.tally == Some(*ts),
        policy_from_name(t.header.policy@) == Some(policy),
        combined@.len() == t.header.options@.len(),
        forall|o: int|
            0 <= o < combined@.len() ==> ct_view(#[trigger] combined@[o]) == recomputed_total(*t, policy, o),
    ensures
        r == combined_fault(*t),
{
    let k = combined.len();
    proof {
        reveal(combined_fault);
        assert(t.tally.unwrap() == *ts);
    }
    if ts.combined.len() != k {
        return Some(Fault::ShapeMismatch);
    }
    let ghost cs = combined_checks(*t, *ts, policy);
    let mut o: usize = 0;
    while o < k
        invariant
            o <= k,
            k == combined@.len(),
            k == ts.combined@.len(),
            k == t.header.options@.len(),
            cs == combined_checks(*t, *ts, policy),
            t.tally == Some(*ts),
            policy_from_name(t.header.policy@) == Some(policy),
            forall|o2: int|
                0 <= o2 < k ==> ct_view(#[trigger] combined@[o2]) == recomputed_total(*t, policy, o2),
            forall|o2: int| 0 <= o2 < o ==> cs[o2] is None,
        decreases k - o,
    {
        let published = ts.combined[o].decode();
        let matches = match published {
            Some(pc) => pc.c1.eq(&combined[o].c1) && pc.c2.eq(&combined[o].c2),
            None => false,
        };
        if !matches {
            proof {
                reveal(combined_fault);
                assert(cs[o as int] == Some(Fault::CombinedMismatch(o)));
                lemma_first_fault_at(cs, o as int);
                assert(combined_fault(*t) == first_fault(cs));
            }
            return Some(Fault::CombinedMismatch(o));
        }
        o = o + 1;
    }
    proof {
        reveal(combined_fault);
        lemma_first_fault_none(cs);
        assert(combined_fault(*t) == first_fault(cs));
    }
    None
}


/// The verifier's account of a defect.
pub open spec fn fault_reason(f: Fault, policy: Seq<char>) -> Seq<char> {
    match f {
        Fault::MalformedPublicKey => "malformed public key"@,
        Fault::MalformedCommitments => "malformed commitments"@,
        Fault::UnknownPolicy => "unknown policy "@ + policy,
        Fault::BadNullifier(i) => "ballot "@ + decimal(i as nat) + ": bad nullifier"@,
        Fault::Undecodable(i) => "ballot "@ + decimal(i as nat) + ": undecodable"@,
        Fault::WrongOptionCount(i) => "ballot "@ + decimal(i as nat) + ": wrong option count"@,
        Fault::InvalidValidityProof(i) => "ballot "@ + decimal(i as nat)
            + ": INVALID validity proof (exactly-one-choice broken)"@,
        Fault::DuplicateNullifier(i) => "ballot "@ + decimal(i as nat)
            + ": duplicate nullifier under reject policy"@,
        Fault::NoTally => "no tally section"@,
        Fault::ShapeMismatch => "tally shape mismatch"@,
        Fault::BadPartialPoint => "bad partial point"@,
        Fault::BadPartialScalar => "bad partial scalar"@,
        Fault::PartialProofFailed(o) => "option "@ + decimal(o as nat)
            + ": partial-decryption proof FAILED against recomputed tally → ballot tampering or forged tally detected"@,
        Fault::CannotCombine(o) => "option "@ + decimal(o as nat)
            + ": could not combine ≥ t partials"@,
        Fault::CombinedMismatch(o) => "option "@ + decimal(o as nat)
            + ": published combined ciphertext differs from the recomputed one"@,
    }
}

/// The verifier's account of its verdict.
pub open spec fn verdict_reason(t: Transcript) -> Seq<char> {
    match transcript_verdict(t) {
        Err(f) => fault_reason(f, t.header.policy@),
        Ok(c) => if c == t.tally.unwrap().results@ {
            match combined_fault(t) {
                Some(f) => fault_reason(f, t.header.policy@),
                None => "verified "@ + decimal(counted_count(t)) + " ballots, counts "@ + list_text(c),
            }
        } else {
            "recomputed counts "@ + list_text(c) + " != published "@ + list_text(
                t.tally.unwrap().results@,
            ) + " → transcript inconsistent"@
        },
    }
}

/// `prefix`, the decimal `i`, `suffix`.
fn numbered(prefix: &str, i: usize, suffix: &str) -> (r: String)
    ensures
        r@ == prefix@ + decimal(i as nat) + suffix@,
{
    let mut s = String::from_str(prefix);
    push_decimal(&mut s, i as u64);
    s.append(suffix);
    s
}

fn fault_text(f: Fault, policy: &String) -> (r: String)
    ensures
        r@ == fault_reason(f, policy@),
{
    match f {
        Fault::MalformedPublicKey => String::from_str("malformed public key"),
        Fault::MalformedCommitments => String::from_str("malformed commitments"),
        Fault::UnknownPolicy => {
            let mut s = String::from_str("unknown policy ");
            s.append(policy.as_str());
            s
        },
        Fault::BadNullifier(i) => numbered("ballot ", i, ": bad nullifier"),
        Fault::Undecodable(i) => numbered("ballot ", i, ": undecodable"),
        Fault::WrongOptionCount(i) => numbered("ballot ", i, ": wrong option count"),
        Fault::InvalidValidityProof(i) => numbered(
            "ballot ",
            i,
            ": INVALID validity proof (exactly-one-choice broken)",
        ),
        Fault::DuplicateNullifier(i) => numbered(
            "ballot ",
            i,
            ": duplicate nullifier under reject policy",
        ),
        Fault::NoTally => String::from_str("no tally section"),
        Fault::ShapeMismatch => String::from_str("tally shape mismatch"),
        Fault::BadPartialPoint => String::from_str("bad partial point"),
        Fault::BadPartialScalar => String::from_str("bad partial scalar"),
        Fault::PartialProofFailed(o) => numbered(
            "option ",
            o,
            ": partial-decryption proof FAILED against recomputed tally → ballot tampering or forged tally detected",
        ),
        Fault::CannotCombine(o) => numbered("option ", o, ": could not combine ≥ t partials"),
        Fault::CombinedMismatch(o) => numbered(
            "option ",
            o,
            ": published combined ciphertext differs from the recomputed one",
        ),
    }
}

/// The outcome of the independent verifier.
#[derive(Clone, Debug)]
pub struct VerifyOutcome {
    pub pass: bool,
    pub reason: String,
    pub counts: Vec<u64>,
}

fn fail(msg: &str) -> (r: VerifyOutcome)
    ensures
        !r.pass,
        r.reason@ == msg@,
        r.counts@ == Seq::<u64>::empty(),
{
    VerifyOutcome { pass: false, reason: String::from_str(msg), counts: Vec::new() }
}

fn same_counts(a: &Vec<u64>, b: &Vec<u64>) -> (r: bool)
    ensures
        r == (a@ == b@),
{
    if a.len() != b.len() {
        return false;
    }
    let mut i: usize = 0;
    while i < a.len()
        invariant
            i <= a@.len(),
            a@.len() == b@.len(),
            forall|j: int| 0 <= j < i ==> a@[j] == b@[j],
        decreases a@.len() - i,
    {
        if a[i] != b[i] {
            return false;
        }
        i = i + 1;
    }
    assert(a@ =~= b@);
    true
}

/// The verifier accepts a transcript: it finds no defect, and the counts it
/// recomputes are the published ones.
pub open spec fn transcript_accepted(t: Transcript) -> bool {
    match transcript_verdict(t) {
        Ok(c) => c == t.tally.unwrap().results@ && combined_fault(t) is None,
        Err(_) => false,
    }
}

/// **Forged counts are caught.** Two transcripts with the same header,
/// ballots, combined ciphertexts, partial decryptions and bound, but
/// different published counts,
/// are never both accepted: the counts are fixed by the public data.
pub proof fn lemma_forged_counts_rejected(t1: Transcript, t2: Transcript)
    requires
        t1.header == t2.header,
        t1.ballots == t2.ballots,
        t1.tally is Some,
        t2.tally is Some,
        t1.tally->0.combined == t2.tally->0.combined,
        t1.tally->0.partials == t2.tally->0.partials,
        t1.tally->0.max == t2.tally->0.max,
        t1.tally->0.results@ != t2.tally->0.results@,
    ensures
        !(transcript_accepted(t1) && transcript_accepted(t2)),
{
    let ts1 = t1.tally->0;
    let ts2 = t2.tally->0;
    let k = t1.header.options@.len();
    assert(entry_nullifiers(t1) =~= entry_nullifiers(t2));
    assert forall|pk: nat, policy: Policy| #[trigger] entry_faults(t1, pk, policy) == entry_faults(
        t2,
        pk,
        policy,
    ) by {
        assert forall|i: int| 0 <= i < t1.ballots@.len() implies entry_fault(t1, pk, policy, i)
            == entry_fault(t2, pk, policy, i) by {
            assert(entry_own_fault(t1, pk, i) == entry_own_fault(t2, pk, i));
            assert forall|j: int| 0 <= j < i implies entry_nullifier(t1, j) == entry_nullifier(t2, j) by {}
        }
        assert(entry_faults(t1, pk, policy) =~= entry_faults(t2, pk, policy));
    }
    if ts1.results@.len() == k && ts2.results@.len() == k {
        assert forall|cv: Seq<Seq<nat>>, policy: Policy| #[trigger] option_outcomes(t1, ts1, cv, policy)
            == option_outcomes(t2, ts2, cv, policy) by {
            assert(counted_entries(t1, policy) == counted_entries(t2, policy));
            assert forall|o: int| 0 <= o < k implies recomputed_total(t1, policy, o) == recomputed_total(
                t2,
                policy,
                o,
            ) by {
                let ci = counted_entries(t1, policy);
                assert(Seq::new(ci.len(), |j: int| entry_decoded(t1, ci[j]).0[o]) =~= Seq::new(
                    ci.len(),
                    |j: int| entry_decoded(t2, ci[j]).0[o],
                ));
            }
            assert(option_outcomes(t1, ts1, cv, policy) =~= option_outcomes(t2, ts2, cv, policy));
        }
        assert(transcript_verdict(t1) == transcript_verdict(t2));
    }
}

/// The independent verifier: recompute and check everything from the
/// transcript alone. It passes exactly when the transcript has no defect
/// and the counts it recomputes are the published ones.
pub fn verify_transcript(t: &Transcript) -> (out: VerifyOutcome)
    ensures
        out.pass == transcript_accepted(*t),
        out.counts@ == (match transcript_verdict(*t) {
            Ok(c) => c,
            Err(_) => Seq::<u64>::empty(),
        }),
        out.reason@ == verdict_reason(*t),
{
    match check_transcript(t) {
        Err(f) => {
            let msg = fault_text(f, &t.header.policy);
            fail(msg.as_str())
        },
        Ok((counts, n_counted, combined)) => {
            let ts = match &t.tally {
                Some(ts) => ts,
                None => {
                    proof {
                        assert(false);
                    }
                    return fail("no tally section");
                },
            };
            let published = &ts.results;
            // 4. Cross-check against the published results.
            if !same_counts(&counts, published) {
                let mut reason = String::from_str("recomputed counts ");
                push_list(&mut reason, counts.as_slice());
                reason.append(" != published ");
                push_list(&mut reason, published.as_slice());
                reason.append(" → transcript inconsistent");
                return VerifyOutcome { pass: false, reason, counts };
            }
            // 5. The published combined ciphertexts must be the recomputed ones.
            let ghost policy = policy_from_name(t.header.policy@).unwrap();
            match check_combined(t, ts, &combined, Ghost(policy)) {
                Some(f) => {
                    let reason = fault_text(f, &t.header.policy);
                    return VerifyOutcome { pass: false, reason, counts };
                },
                None => {},
            }
            let mut reason = String::from_str("verified ");
            push_decimal(&mut reason, n_counted as u64);
            reason.append(" ballots, counts ");
            push_list(&mut reason, counts.as_slice());
            VerifyOutcome { pass: true, reason, counts }
        },
    }
}


/// The two policy names differ.
proof fn lemma_policy_names_differ()
    ensures
        policy_name(Policy::RejectDuplicate) != policy_name(Policy::LastWriteWins),
{
    assert(policy_name(Policy::RejectDuplicate).len() != policy_name(Policy::LastWriteWins).len());
}

/// A policy is read back from its name.
pub proof fn lemma_policy_roundtrip(p: Policy)
    ensures
        policy_from_name(policy_name(p)) == Some(p),
{
    lemma_policy_names_differ();
}

/// Universal verifiability: a transcript published from a completed
/// ceremony and a board of valid ballots, with the tally of the counted
/// ballots as `run_tally` publishes it, verifies, and the verifier
/// recomputes exactly the published counts.
pub proof fn lemma_clean_transcript_verifies(
    t: Transcript,
    dkg: Dkg,
    board: Board,
    ts: TallySection,
    counted: Seq<Ballot>,
    max: u64,
)
    requires
        dkg_wf(dkg),
        board.wf(),
        forall|i: int|
            0 <= i < board.records@.len() ==> ballot_verifies(
                dkg.public_key,
                #[trigger] board.records@[i],
            ) && board.records@[i].cts@.len() == t.header.options@.len(),
        point_hex_spec(t.header.public_key@) == Some(dkg.public_key.0@),
        commitments_hex_spec(t.header.commitments@) == Some(comm_views(dkg.commitments@)),
        t.header.policy@ == policy_name(board.policy),
        t.header.t == dkg.t,
        t.ballots@.len() == board.records@.len(),
        forall|i: int|
            0 <= i < board.records@.len() ==> entry_encodes(
                #[trigger] t.ballots@[i],
                board.records@[i],
            ),
        t.tally == Some(ts),
        counted.len() == counted_indices(board.policy, nullifiers(board.records@)).len(),
        forall|j: int|
            0 <= j < counted.len() ==> #[trigger] counted[j] == board.records@[counted_indices(
                board.policy,
                nullifiers(board.records@),
            )[j]],
        publishes_tally(ts, dkg, counted, t.header.options@.len(), max),
    ensures
        transcript_verdict(t) == Ok::<Seq<u64>, Fault>(ts.results@),
        transcript_accepted(t),
{
    lemma_clean_verdict(t, dkg, board, ts, counted, max);
    lemma_clean_combined(t, dkg, board, ts, counted, max);
}

/// The verdict on a clean transcript is its published counts.
#[verifier::rlimit(40)]
proof fn lemma_clean_verdict(
    t: Transcript,
    dkg: Dkg,
    board: Board,
    ts: TallySection,
    counted: Seq<Ballot>,
    max: u64,
)
    requires
        dkg_wf(dkg),
        board.wf(),
        forall|i: int|
            0 <= i < board.records@.len() ==> ballot_verifies(
                dkg.public_key,
                #[trigger] board.records@[i],
            ) && board.records@[i].cts@.len() == t.header.options@.len(),
        point_hex_spec(t.header.public_key@) == Some(dkg.public_key.0@),
        commitments_hex_spec(t.header.commitments@) == Some(comm_views(dkg.commitments@)),
        t.header.policy@ == policy_name(board.policy),
        t.header.t == dkg.t,
        t.ballots@.len() == board.records@.len(),
        forall|i: int|
            0 <= i < board.records@.len() ==> entry_encodes(
                #[trigger] t.ballots@[i],
                board.records@[i],
            ),
        t.tally == Some(ts),
        counted.len() == counted_indices(board.policy, nullifiers(board.records@)).len(),
        forall|j: int|
            0 <= j < counted.len() ==> #[trigger] counted[j] == board.records@[counted_indices(
                board.policy,
                nullifiers(board.records@),
            )[j]],
        publishes_tally(ts, dkg, counted, t.header.options@.len(), max),
    ensures
        transcript_verdict(t) == Ok::<Seq<u64>, Fault>(ts.results@),
{
    let k = t.header.options@.len();
    let pk = dkg.public_key.0@;
    let cv = comm_views(dkg.commitments@);
    let policy = board.policy;
    let records = board.records@;
    let ns = nullifiers(records);
    let ci = counted_indices(policy, ns);
    lemma_policy_roundtrip(policy);
    // Every entry decodes to its record and passes.
    let fs = entry_faults(t, pk, policy);
    assert forall|i: int| 0 <= i < fs.len() implies fs[i] is None by {
        let r = records[i];
        assert(entry_encodes(t.ballots@[i], r));
        assert(ballot_verifies(dkg.public_key, r));
        assert(entry_nullifier(t, i) == r.nullifier);
        assert(entry_own_fault(t, pk, i) is None);
        if policy == Policy::RejectDuplicate {
            if exists|j: int| 0 <= j < i && #[trigger] entry_nullifier(t, j) == entry_nullifier(t, i) {
                let j = choose|j: int|
                    0 <= j < i && #[trigger] entry_nullifier(t, j) == entry_nullifier(t, i);
                assert(entry_encodes(t.ballots@[j], records[j]));
                assert(ns[j] == ns[i]);
            }
        }
    }
    lemma_first_fault_none(fs);
    assert(entry_nullifiers(t) =~= ns) by {
        assert forall|i: int| 0 <= i < ns.len() implies entry_nullifiers(t)[i] == ns[i] by {
            assert(entry_encodes(t.ballots@[i], records[i]));
        }
    }
    // The recomputed totals are the totals of the counted ballots.
    crate::board::lemma_one_vote_per_nullifier(board);
    assert forall|o: int| 0 <= o < k implies recomputed_total(t, policy, o) == option_total(
        counted,
        o,
    ) by {
        assert(Seq::new(ci.len(), |j: int| entry_decoded(t, ci[j]).0[o]) =~= option_column(
            counted,
            o,
        )) by {
            assert forall|j: int| 0 <= j < ci.len() implies entry_decoded(t, ci[j]).0[o]
                == option_column(counted, o)[j] by {
                assert(0 <= ci[j] < ns.len());
                assert(entry_encodes(t.ballots@[ci[j]], records[ci[j]]));
                assert(counted[j] == records[ci[j]]);
                assert(ct_views(records[ci[j]].cts@)[o] == ct_view(records[ci[j]].cts@[o]));
            }
        }
    }
    // Every option's published partials verify and combine to its count.
    let outs = option_outcomes(t, ts, cv, policy);
    assert forall|o: int| 0 <= o < k implies #[trigger] outs[o] == Ok::<u64, Fault>(
        ts.results@[o],
    ) by {
        reveal(option_outcome);
        let c = option_total(counted, o);
        let ps = ts.partials@[o]@;
        let pv = partials_hex_view(ps);
        assert(pv.len() == dkg.t);
        let pf = partial_faults(ps, c.0, cv, o);
        assert forall|p: int| 0 <= p < pf.len() implies pf[p] is None by {
            reveal(partial_hex_fault);
            assert(partial_hex_encodes(ps[p], pv[p]));
            assert(partial_hex_value(ps[p]) == pv[p]);
            assert(partial_valid(c.0, share_sum(cv, pv[p].0 as nat), pv[p]));
        }
        lemma_first_fault_none(pf);
    }
    let ofs = outs.map_values(|r: Result<u64, Fault>| outcome_fault(r));
    assert forall|o: int| 0 <= o < ofs.len() implies ofs[o] is None by {
        assert(outs[o] == Ok::<u64, Fault>(ts.results@[o]));
    }
    lemma_first_fault_none(ofs);
    assert(outs.map_values(|r: Result<u64, Fault>| outcome_count(r)) =~= ts.results@) by {
        assert forall|o: int| 0 <= o < k implies outs.map_values(
            |r: Result<u64, Fault>| outcome_count(r),
        )[o] == ts.results@[o] by {
            assert(outs[o] == Ok::<u64, Fault>(ts.results@[o]));
        }
    }
}

/// The published combined ciphertexts of a clean transcript are the
/// recomputed ones.
proof fn lemma_clean_combined(
    t: Transcript,
    dkg: Dkg,
    board: Board,
    ts: TallySection,
    counted: Seq<Ballot>,
    max: u64,
)
    requires
        dkg_wf(dkg),
        board.wf(),
        forall|i: int|
            0 <= i < board.records@.len() ==> ballot_verifies(
                dkg.public_key,
                #[trigger] board.records@[i],
            ) && board.records@[i].cts@.len() == t.header.options@.len(),
        point_hex_spec(t.header.public_key@) == Some(dkg.public_key.0@),
        commitments_hex_spec(t.header.commitments@) == Some(comm_views(dkg.commitments@)),
        t.header.policy@ == policy_name(board.policy),
        t.header.t == dkg.t,
        t.ballots@.len() == board.records@.len(),
        forall|i: int|
            0 <= i < board.records@.len() ==> entry_encodes(
                #[trigger] t.ballots@[i],
                board.records@[i],
            ),
        t.tally == Some(ts),
        counted.len() == counted_indices(board.policy, nullifiers(board.records@)).len(),
        forall|j: int|
            0 <= j < counted.len() ==> #[trigger] counted[j] == board.records@[counted_indices(
                board.policy,
                nullifiers(board.records@),
            )[j]],
        publishes_tally(ts, dkg, counted, t.header.options@.len(), max),
    ensures
        combined_fault(t) is None,
{
    let k = t.header.options@.len();
    let pk = dkg.public_key.0@;
    let cv = comm_views(dkg.commitments@);
    let policy = board.policy;
    let records = board.records@;
    let ns = nullifiers(records);
    let ci = counted_indices(policy, ns);
    lemma_policy_roundtrip(policy);
    assert(entry_nullifiers(t) =~= ns) by {
        assert forall|i: int| 0 <= i < ns.len() implies entry_nullifiers(t)[i] == ns[i] by {
            assert(entry_encodes(t.ballots@[i], records[i]));
        }
    }
    // The recomputed totals are the totals of the counted ballots.
    crate::board::lemma_one_vote_per_nullifier(board);
    assert forall|o: int| 0 <= o < k implies recomputed_total(t, policy, o) == option_total(
        counted,
        o,
    ) by {
        assert(Seq::new(ci.len(), |j: int| entry_decoded(t, ci[j]).0[o]) =~= option_column(
            counted,
            o,
        )) by {
            assert forall|j: int| 0 <= j < ci.len() implies entry_decoded(t, ci[j]).0[o]
                == option_column(counted, o)[j] by {
                assert(0 <= ci[j] < ns.len());
                assert(entry_encodes(t.ballots@[ci[j]], records[ci[j]]));
                assert(counted[j] == records[ci[j]]);
                assert(ct_views(records[ci[j]].cts@)[o] == ct_view(records[ci[j]].cts@[o]));
            }
        }
    }
    lemma_combined_published(t, ts, policy, dkg, counted, max);
}

/// Combined ciphertexts published as the totals of the counted ballots pass
/// the check.
proof fn lemma_combined_published(
    t: Transcript,
    ts: TallySection,
    policy: Policy,
    dkg: Dkg,
    counted: Seq<Ballot>,
    max: u64,
)
    requires
        t.tally == Some(ts),
        policy_from_name(t.header.policy@) == Some(policy),
        forall|o: int|
            0 <= o < t.header.options@.len() ==> #[trigger] recomputed_total(t, policy, o)
                == option_total(counted, o),
        publishes_tally(ts, dkg, counted, t.header.options@.len(), max),
    ensures
        combined_fault(t) is None,
{
    reveal(combined_fault);
    let cs = combined_checks(t, ts, policy);
    assert forall|o: int| 0 <= o < cs.len() implies cs[o] is None by {
        let c = option_total(counted, o);
        assert(recomputed_total(t, policy, o) == c);
        assert(0 <= o < t.header.options@.len());
        let pv = partials_hex_view(ts.partials@[o]@);
        assert(pv.len() == dkg.t);
        assert(point_hex_spec(ts.combined@[o].c1@) == Some(c.0));
        assert(point_hex_spec(ts.combined@[o].c2@) == Some(c.1));
        assert((c.0, c.1) == c);
    }
    lemma_first_fault_none(cs);
}


} // verus!
