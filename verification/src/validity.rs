//! Ballot validity proofs (Helios-style), proving "exactly one valid choice"
//! without revealing which:
//!   * each option ciphertext encrypts a bit (disjunctive Chaum-Pedersen),
//!   * the homomorphic sum of the option ciphertexts encrypts exactly 1.
use vstd::prelude::*;
use crate::algebra::{lemma_challenge_split, lemma_remove_one, lemma_response};
use crate::elgamal::{
    ct_add, ct_view, ct_views, encrypt, encrypts, lemma_add_encrypts, Ciphertext, CiphertextHex,
    PublicKey, ct_hex_spec,
};
use crate::group::{
    fs_challenge, g, g_mul, group_order, hash_to_scalar, hex_encode_spec, point_views,
    scalar_encoding, scalar_from_hex, scalar_hex_spec, scalar_to_hex, sub_mod, Point, Scalar,
};
use rand::rngs::StdRng;

verus! {

/// Disjunctive proof that one ciphertext encrypts 0 or 1.
#[derive(Clone, Copy, Debug)]
pub struct BitProof {
    pub e0: Scalar,
    pub z0: Scalar,
    pub e1: Scalar,
    pub z1: Scalar,
}

/// Chaum-Pedersen equality-of-discrete-log proof (the "sum == 1" clause).
#[derive(Clone, Copy, Debug)]
pub struct CpEq {
    pub e: Scalar,
    pub z: Scalar,
}

/// A ballot's proof: one bit proof per option and the sum proof.
#[derive(Clone, Debug)]
pub struct BallotProof {
    pub bits: Vec<BitProof>,
    pub sum_one: CpEq,
}

pub open spec fn bit_view(p: BitProof) -> (nat, nat, nat, nat) {
    (p.e0@, p.z0@, p.e1@, p.z1@)
}

pub open spec fn bit_views(s: Seq<BitProof>) -> Seq<(nat, nat, nat, nat)> {
    s.map_values(|p: BitProof| bit_view(p))
}

pub open spec fn cp_view(p: CpEq) -> (nat, nat) {
    (p.e@, p.z@)
}

/// The ASCII bytes of "voltaire/bit".
pub open spec fn bit_label() -> Seq<u8> {
    seq![118u8, 111u8, 108u8, 116u8, 97u8, 105u8, 114u8, 101u8, 47u8, 98u8, 105u8, 116u8]
}

/// The ASCII bytes of "voltaire/sumone".
pub open spec fn sum_one_label() -> Seq<u8> {
    seq![
        118u8,
        111u8,
        108u8,
        116u8,
        97u8,
        105u8,
        114u8,
        101u8,
        47u8,
        115u8,
        117u8,
        109u8,
        111u8,
        110u8,
        101u8,
    ]
}

/// The verifier's recomputed commitments `(z·B - e·a, z·pk - e·b)` of a
/// Chaum-Pedersen statement `(a, b) = (r·B, r·pk)`.
pub open spec fn cp_commitments(e: nat, z: nat, a: nat, b: nat, pk: nat) -> (nat, nat) {
    (
        sub_mod(z % group_order(), (e * a) % group_order()),
        sub_mod((z * pk) % group_order(), (e * b) % group_order()),
    )
}

/// The points hashed for a bit proof's challenge.
pub open spec fn bit_transcript(pk: nat, c: (nat, nat), p: (nat, nat, nat, nat)) -> Seq<nat> {
    let t0 = cp_commitments(p.0, p.1, c.0, c.1, pk);
    let t1 = cp_commitments(p.2, p.3, c.0, sub_mod(c.1, 1), pk);
    seq![pk, c.0, c.1, t0.0, t0.1, t1.0, t1.1]
}

/// A bit proof verifies: the two branch challenges add up to the hash.
pub open spec fn bit_proof_valid(pk: nat, c: (nat, nat), p: (nat, nat, nat, nat)) -> bool {
    fs_challenge(bit_label(), bit_transcript(pk, c, p), Seq::empty()) == (p.0 + p.2)
        % group_order()
}

/// The points hashed for the sum proof's challenge.
pub open spec fn sum_one_transcript(pk: nat, c: (nat, nat), p: (nat, nat)) -> Seq<nat> {
    let b = sub_mod(c.1, 1);
    let t = cp_commitments(p.0, p.1, c.0, b, pk);
    seq![pk, c.0, b, t.0, t.1]
}

/// The sum proof verifies against the summed ciphertext.
pub open spec fn sum_one_valid(pk: nat, c: (nat, nat), p: (nat, nat)) -> bool {
    fs_challenge(sum_one_label(), sum_one_transcript(pk, c, p), Seq::empty()) == p.0
}

/// The homomorphic sum of ciphertexts, added in order from the identity.
pub open spec fn ct_sum(s: Seq<(nat, nat)>) -> (nat, nat)
    decreases s.len(),
{
    if s.len() == 0 {
        (0nat, 0nat)
    } else {
        ct_add(ct_sum(s.drop_last()), s.last())
    }
}

/// A ballot is valid: one verifying bit proof per ciphertext, and a
/// verifying proof that their sum encrypts 1.
pub open spec fn ballot_valid(
    pk: nat,
    cts: Seq<(nat, nat)>,
    bits: Seq<(nat, nat, nat, nat)>,
    sum_one: (nat, nat),
) -> bool {
    &&& cts.len() == bits.len()
    &&& cts.len() > 0
    &&& forall|i: int| 0 <= i < cts.len() ==> bit_proof_valid(pk, cts[i], #[trigger] bits[i])
    &&& sum_one_valid(pk, ct_sum(cts), sum_one)
}

/// **Every bit proof is checked.** A valid ballot's bit proof at each
/// position verifies against the ciphertext at that same position, the last
/// one included.
pub proof fn lemma_valid_ballot_checks_every_bit(
    pk: nat,
    cts: Seq<(nat, nat)>,
    bits: Seq<(nat, nat, nat, nat)>,
    sum_one: (nat, nat),
    i: int,
)
    requires
        ballot_valid(pk, cts, bits, sum_one),
        0 <= i < cts.len(),
    ensures
        i < bits.len(),
        bit_proof_valid(pk, cts[i], bits[i]),
{
}

/// **Swapping one bit proof.** In a valid ballot, putting another proof
/// `p` in place of the bit proof at position `i` keeps the ballot valid
/// exactly when `p` verifies for the ciphertext at `i`: a proof made for a
/// different ciphertext that does not verify there makes the ballot
/// invalid.
pub proof fn lemma_replaced_bit_proof(
    pk: nat,
    cts: Seq<(nat, nat)>,
    bits: Seq<(nat, nat, nat, nat)>,
    sum_one: (nat, nat),
    i: int,
    p: (nat, nat, nat, nat),
)
    requires
        ballot_valid(pk, cts, bits, sum_one),
        0 <= i < cts.len(),
    ensures
        ballot_valid(pk, cts, bits.update(i, p), sum_one) <==> bit_proof_valid(pk, cts[i], p),
{
    let b2 = bits.update(i, p);
    if bit_proof_valid(pk, cts[i], p) {
        assert forall|j: int| 0 <= j < cts.len() implies bit_proof_valid(pk, cts[j], #[trigger] b2[j]) by {
            if j != i {
                assert(b2[j] == bits[j]);
            }
        }
    } else {
        assert(b2[i] == p);
    }
}

/// `c` encrypts `m` under `pk` with some randomness.
pub open spec fn encrypts_some(c: (nat, nat), pk: nat, m: nat) -> bool {
    exists|r: nat| #[trigger] encrypts(c, pk, m, r)
}

/// The sum of a sequence of naturals.
pub open spec fn nat_sum(s: Seq<nat>) -> nat
    decreases s.len(),
{
    if s.len() == 0 {
        0
    } else {
        nat_sum(s.drop_last()) + s.last()
    }
}

/// The sum of ciphertexts that encrypt `ms` with randomness `rs` encrypts
/// the sum of `ms` with the sum of `rs`.
pub proof fn lemma_sum_encrypts(cts: Seq<(nat, nat)>, pk: nat, ms: Seq<nat>, rs: Seq<nat>)
    requires
        cts.len() == ms.len(),
        cts.len() == rs.len(),
        forall|i: int| 0 <= i < cts.len() ==> encrypts(#[trigger] cts[i], pk, ms[i], rs[i]),
    ensures
        encrypts(ct_sum(cts), pk, nat_sum(ms), nat_sum(rs)),
    decreases cts.len(),
{
    if cts.len() == 0 {
        assert(encrypts((0nat, 0nat), pk, 0, 0));
    } else {
        let n = cts.len() - 1;
        lemma_sum_encrypts(cts.drop_last(), pk, ms.drop_last(), rs.drop_last());
        assert(encrypts(cts[n], pk, ms[n], rs[n]));
        lemma_add_encrypts(
            ct_sum(cts.drop_last()),
            cts.last(),
            pk,
            nat_sum(ms.drop_last()),
            nat_sum(rs.drop_last()),
            ms.last(),
            rs.last(),
        );
    }
}

fn bit_label_bytes() -> (r: [u8; 12])
    ensures
        r@ == bit_label(),
{
    [118, 111, 108, 116, 97, 105, 114, 101, 47, 98, 105, 116]
}

fn sum_one_label_bytes() -> (r: [u8; 15])
    ensures
        r@ == sum_one_label(),
{
    [118, 111, 108, 116, 97, 105, 114, 101, 47, 115, 117, 109, 111, 110, 101]
}

fn bit_challenge(pk: &PublicKey, ct: &Ciphertext, t0: Point, t1: Point, t2: Point, t3: Point) -> (r:
    Scalar)
    ensures
        r@ == fs_challenge(
            bit_label(),
            seq![pk.0@, ct.c1@, ct.c2@, t0@, t1@, t2@, t3@],
            Seq::empty(),
        ),
{
    let label = bit_label_bytes();
    let pts = [pk.0, ct.c1, ct.c2, t0, t1, t2, t3];
    let none: [Scalar; 0] = [];
    let r = hash_to_scalar(&label, &pts, &none);
    assert(point_views(pts@) =~= seq![pk.0@, ct.c1@, ct.c2@, t0@, t1@, t2@, t3@]);
    assert(crate::group::scalar_views(none@) =~= Seq::<nat>::empty());
    r
}

/// The commitments `(z·B - e·a, z·pk - e·b)` recomputed from a response.
fn cp_commit(e: &Scalar, z: &Scalar, a: &Point, b: &Point, pk: &Point) -> (r: (Point, Point))
    ensures
        (r.0@, r.1@) == cp_commitments(e@, z@, a@, b@, pk@),
{
    (g_mul(z).sub(&a.mul(e)), pk.mul(z).sub(&b.mul(e)))
}

/// Prove that `ct` (with randomness `r`) encrypts the bit `b`.
pub fn prove_bit(pk: &PublicKey, ct: &Ciphertext, r: Scalar, b: u64, rng: &mut StdRng) -> (proof:
    BitProof)
    requires
        b <= 1,
    ensures
        encrypts(ct_view(*ct), pk.0@, b as nat, r@) ==> bit_proof_valid(
            pk.0@,
            ct_view(*ct),
            bit_view(proof),
        ),
{
    // Targets for the two statements (bases B and pk):
    //   branch 0: (c1, c2)       [encrypts 0]
    //   branch 1: (c1, c2 - B)   [encrypts 1]
    let bm = ct.c2.sub(&g());
    // Simulate the fake branch.
    let e_fake = Scalar::random(rng);
    let z_fake = Scalar::random(rng);
    let fake_b = if b == 0 {
        bm
    } else {
        ct.c2
    };
    let tf = cp_commit(&e_fake, &z_fake, &ct.c1, &fake_b, &pk.0);
    // Commit the real branch.
    let w = Scalar::random(rng);
    let tr1 = g_mul(&w);
    let tr2 = pk.0.mul(&w);
    // Order commitments by branch index for the hash.
    let e = if b == 0 {
        bit_challenge(pk, ct, tr1, tr2, tf.0, tf.1)
    } else {
        bit_challenge(pk, ct, tf.0, tf.1, tr1, tr2)
    };
    let e_real = e.sub(&e_fake);
    let z_real = w.add(&e_real.mul(&r));
    let proof = if b == 0 {
        BitProof { e0: e_real, z0: z_real, e1: e_fake, z1: z_fake }
    } else {
        BitProof { e0: e_fake, z0: z_fake, e1: e_real, z1: z_real }
    };
    e.reduced();
    w.reduced();
    proof {
        let l = group_order();
        if encrypts(ct_view(*ct), pk.0@, b as nat, r@) {
            lemma_response(w@, e_real@, r@, 1);
            lemma_response(w@, e_real@, r@, pk.0@);
            lemma_challenge_split(e@, e_fake@);
            vstd::arithmetic::div_mod::lemma_small_mod(w@, l);
            if b == 1 {
                lemma_remove_one(r@ * pk.0@);
            } else {
                assert(ct.c2@ == (r@ * pk.0@) % l);
            }
            assert(bit_transcript(pk.0@, ct_view(*ct), bit_view(proof)) =~= if b == 0 {
                seq![pk.0@, ct.c1@, ct.c2@, tr1@, tr2@, tf.0@, tf.1@]
            } else {
                seq![pk.0@, ct.c1@, ct.c2@, tf.0@, tf.1@, tr1@, tr2@]
            });
        }
    }
    proof
}

fn verify_bit(pk: &PublicKey, ct: &Ciphertext, proof: &BitProof) -> (r: bool)
    ensures
        r == bit_proof_valid(pk.0@, ct_view(*ct), bit_view(*proof)),
{
    let bm = ct.c2.sub(&g());
    let t0 = cp_commit(&proof.e0, &proof.z0, &ct.c1, &ct.c2, &pk.0);
    let t1 = cp_commit(&proof.e1, &proof.z1, &ct.c1, &bm, &pk.0);
    let e = bit_challenge(pk, ct, t0.0, t0.1, t1.0, t1.1);
    assert(bit_transcript(pk.0@, ct_view(*ct), bit_view(*proof)) =~= seq![
        pk.0@,
        ct.c1@,
        ct.c2@,
        t0.0@,
        t0.1@,
        t1.0@,
        t1.1@,
    ]);
    e.eq(&proof.e0.add(&proof.e1))
}

fn sum_one_challenge(pk: &PublicKey, csum: &Ciphertext, t1: Point, t2: Point) -> (r: Scalar)
    ensures
        r@ == fs_challenge(
            sum_one_label(),
            seq![pk.0@, csum.c1@, sub_mod(csum.c2@, 1), t1@, t2@],
            Seq::empty(),
        ),
{
    let b = csum.c2.sub(&g());
    let label = sum_one_label_bytes();
    let pts = [pk.0, csum.c1, b, t1, t2];
    let none: [Scalar; 0] = [];
    let r = hash_to_scalar(&label, &pts, &none);
    assert(point_views(pts@) =~= seq![pk.0@, csum.c1@, sub_mod(csum.c2@, 1), t1@, t2@]);
    assert(crate::group::scalar_views(none@) =~= Seq::<nat>::empty());
    r
}

/// Prove that `(csum.c1, csum.c2 - B)` is a Diffie-Hellman pair under
/// `(B, pk)` with witness `rsum`, i.e. that `csum` encrypts 1.
pub fn prove_sum_one(pk: &PublicKey, csum: &Ciphertext, rsum: Scalar, rng: &mut StdRng) -> (proof:
    CpEq)
    ensures
        encrypts(ct_view(*csum), pk.0@, 1, rsum@) ==> sum_one_valid(
            pk.0@,
            ct_view(*csum),
            cp_view(proof),
        ),
{
    let w = Scalar::random(rng);
    let t1 = g_mul(&w);
    let t2 = pk.0.mul(&w);
    let e = sum_one_challenge(pk, csum, t1, t2);
    let z = w.add(&e.mul(&rsum));
    let proof = CpEq { e, z };
    w.reduced();
    proof {
        let l = group_order();
        if encrypts(ct_view(*csum), pk.0@, 1, rsum@) {
            vstd::arithmetic::div_mod::lemma_small_mod(w@, l);
            lemma_response(w@, e@, rsum@, 1);
            lemma_response(w@, e@, rsum@, pk.0@);
            lemma_remove_one(rsum@ * pk.0@);
            assert(sum_one_transcript(pk.0@, ct_view(*csum), cp_view(proof)) =~= seq![
                pk.0@,
                csum.c1@,
                sub_mod(csum.c2@, 1),
                t1@,
                t2@,
            ]);
        }
    }
    proof
}

fn verify_sum_one(pk: &PublicKey, csum: &Ciphertext, proof: &CpEq) -> (r: bool)
    ensures
        r == sum_one_valid(pk.0@, ct_view(*csum), cp_view(*proof)),
{
    let b = csum.c2.sub(&g());
    let t = cp_commit(&proof.e, &proof.z, &csum.c1, &b, &pk.0);
    let e = sum_one_challenge(pk, csum, t.0, t.1);
    assert(sum_one_transcript(pk.0@, ct_view(*csum), cp_view(*proof)) =~= seq![
        pk.0@,
        csum.c1@,
        sub_mod(csum.c2@, 1),
        t.0@,
        t.1@,
    ]);
    e.eq(&proof.e)
}

/// The homomorphic sum of a slice of ciphertexts.
fn sum_ciphertexts(cts: &[Ciphertext]) -> (r: Ciphertext)
    ensures
        ct_view(r) == ct_sum(ct_views(cts@)),
{
    let mut acc = Ciphertext::identity();
    let mut i: usize = 0;
    while i < cts.len()
        invariant
            i <= cts@.len(),
            ct_view(acc) == ct_sum(ct_views(cts@).take(i as int)),
        decreases cts@.len() - i,
    {
        acc = acc.add(&cts[i]);
        assert(ct_views(cts@).take(i + 1).drop_last() =~= ct_views(cts@).take(i as int));
        i = i + 1;
    }
    assert(ct_views(cts@).take(cts@.len() as int) =~= ct_views(cts@));
    acc
}

/// Construct a valid ballot for `choice` among `k` options, and its proof.
pub fn prove_ballot(pk: &PublicKey, choice: usize, k: usize, rng: &mut StdRng) -> (res: (
    Vec<Ciphertext>,
    BallotProof,
))
    requires
        choice < k,
    ensures
        res.0@.len() == k,
        forall|i: int|
            0 <= i < k ==> encrypts_some(
                #[trigger] ct_view(res.0@[i]),
                pk.0@,
                if i == choice {
                    1nat
                } else {
                    0nat
                },
            ),
        ballot_valid(pk.0@, ct_views(res.0@), bit_views(res.1.bits@), cp_view(res.1.sum_one)),
{
    let mut cts: Vec<Ciphertext> = Vec::with_capacity(k);
    let mut rs: Vec<Scalar> = Vec::with_capacity(k);
    let ghost mut ms: Seq<nat> = Seq::empty();
    let mut i: usize = 0;
    while i < k
        invariant
            i <= k,
            cts@.len() == i,
            rs@.len() == i,
            ms.len() == i,
            forall|j: int| 0 <= j < i ==> ms[j] == if j == choice { 1nat } else { 0nat },
            forall|j: int|
                0 <= j < i ==> encrypts(#[trigger] ct_view(cts@[j]), pk.0@, ms[j], rs@[j]@),
        decreases k - i,
    {
        let m: u64 = if i == choice {
            1
        } else {
            0
        };
        let (ct, r) = encrypt(pk, m, rng);
        cts.push(ct);
        rs.push(r);
        proof {
            ms = ms.push(m as nat);
        }
        i = i + 1;
    }
    let mut bits: Vec<BitProof> = Vec::with_capacity(k);
    let mut i: usize = 0;
    while i < k
        invariant
            i <= k,
            cts@.len() == k,
            rs@.len() == k,
            ms.len() == k,
            forall|j: int| 0 <= j < k ==> ms[j] == if j == choice { 1nat } else { 0nat },
            forall|j: int|
                0 <= j < k ==> encrypts(#[trigger] ct_view(cts@[j]), pk.0@, ms[j], rs@[j]@),
            bits@.len() == i,
            forall|j: int|
                0 <= j < i ==> bit_proof_valid(pk.0@, ct_view(cts@[j]), #[trigger] bit_view(bits@[j])),
        decreases k - i,
    {
        let b: u64 = if i == choice {
            1
        } else {
            0
        };
        let bp = prove_bit(pk, &cts[i], rs[i], b, rng);
        bits.push(bp);
        i = i + 1;
    }
    let csum = sum_ciphertexts(cts.as_slice());
    let mut rsum = Scalar::zero();
    let ghost rvs: Seq<nat> = rs@.map_values(|x: Scalar| x@);
    let mut i: usize = 0;
    while i < k
        invariant
            i <= k,
            rs@.len() == k,
            rvs == rs@.map_values(|x: Scalar| x@),
            rsum@ == nat_sum(rvs.take(i as int)) % group_order(),
        decreases k - i,
    {
        rs[i].reduced();
        rsum = rsum.add(&rs[i]);
        proof {
            assert(rvs.take(i + 1).drop_last() =~= rvs.take(i as int));
            vstd::arithmetic::div_mod::lemma_add_mod_noop_right(
                rvs[i as int] as int,
                nat_sum(rvs.take(i as int)) as int,
                group_order() as int,
            );
        }
        i = i + 1;
    }
    proof {
        assert(rvs.take(k as int) =~= rvs);
        let cv = ct_views(cts@);
        lemma_sum_encrypts(cv, pk.0@, ms, rvs);
        lemma_nat_sum_one_hot(ms, choice as int);
        // encrypts only depends on the randomness modulo L
        vstd::arithmetic::div_mod::lemma_mod_twice(nat_sum(rvs) as int, group_order() as int);
        vstd::arithmetic::div_mod::lemma_mul_mod_noop_left(
            nat_sum(rvs) as int,
            pk.0@ as int,
            group_order() as int,
        );
        vstd::arithmetic::div_mod::lemma_add_mod_noop_right(
            1,
            (nat_sum(rvs) * pk.0@) as int,
            group_order() as int,
        );
        vstd::arithmetic::div_mod::lemma_add_mod_noop_right(
            1,
            (rsum@ * pk.0@) as int,
            group_order() as int,
        );
        assert(encrypts(ct_view(csum), pk.0@, 1, rsum@));
    }
    let sum_one = prove_sum_one(pk, &csum, rsum, rng);
    proof {
        assert forall|i: int| 0 <= i < k implies encrypts_some(
            #[trigger] ct_view(cts@[i]),
            pk.0@,
            if i == choice {
                1nat
            } else {
                0nat
            },
        ) by {
            assert(encrypts(ct_view(cts@[i]), pk.0@, ms[i], rs@[i]@));
        }
        assert forall|i: int| 0 <= i < k implies bit_proof_valid(
            pk.0@,
            ct_views(cts@)[i],
            #[trigger] bit_views(bits@)[i],
        ) by {
            assert(bit_proof_valid(pk.0@, ct_view(cts@[i]), bit_view(bits@[i])));
        }
    }
    (cts, BallotProof { bits, sum_one })
}

/// A one-hot vector of 0/1 values sums to 1.
proof fn lemma_nat_sum_one_hot(ms: Seq<nat>, c: int)
    requires
        0 <= c < ms.len(),
        forall|j: int| 0 <= j < ms.len() ==> ms[j] == if j == c { 1nat } else { 0nat },
    ensures
        nat_sum(ms) == 1,
    decreases ms.len(),
{
    let n = ms.len() - 1;
    if c == n {
        lemma_nat_sum_zero(ms.drop_last());
    } else {
        lemma_nat_sum_one_hot(ms.drop_last(), c);
    }
}

proof fn lemma_nat_sum_zero(ms: Seq<nat>)
    requires
        forall|j: int| 0 <= j < ms.len() ==> ms[j] == 0,
    ensures
        nat_sum(ms) == 0,
    decreases ms.len(),
{
    if ms.len() > 0 {
        lemma_nat_sum_zero(ms.drop_last());
    }
}

/// Verify a ballot: the bit proofs and the sum proof. This is the "exactly
/// one valid choice" guarantee.
pub fn verify_ballot(pk: &PublicKey, cts: &[Ciphertext], proof: &BallotProof) -> (r: bool)
    ensures
        r == ballot_valid(pk.0@, ct_views(cts@), bit_views(proof.bits@), cp_view(proof.sum_one)),
        r ==> cts@.len() == proof.bits@.len() && cts@.len() > 0,
        r ==> forall|i: int|
            0 <= i < cts@.len() ==> bit_proof_valid(
                pk.0@,
                ct_view(cts@[i]),
                bit_view(#[trigger] proof.bits@[i]),
            ),
        r ==> sum_one_valid(pk.0@, ct_sum(ct_views(cts@)), cp_view(proof.sum_one)),
        (cts@.len() == proof.bits@.len() && cts@.len() > 0 && (forall|i: int|
            0 <= i < cts@.len() ==> bit_proof_valid(
                pk.0@,
                ct_view(cts@[i]),
                bit_view(#[trigger] proof.bits@[i]),
            )) && sum_one_valid(pk.0@, ct_sum(ct_views(cts@)), cp_view(proof.sum_one))) ==> r,
{
    if cts.len() != proof.bits.len() || cts.len() == 0 {
        return false;
    }
    let mut i: usize = 0;
    while i < cts.len()
        invariant
            i <= cts@.len(),
            cts@.len() == proof.bits@.len(),
            forall|j: int|
                0 <= j < i ==> bit_proof_valid(
                    pk.0@,
                    ct_views(cts@)[j],
                    #[trigger] bit_views(proof.bits@)[j],
                ),
        decreases cts@.len() - i,
    {
        if !verify_bit(pk, &cts[i], &proof.bits[i]) {
            assert(!bit_proof_valid(
                pk.0@,
                ct_views(cts@)[i as int],
                bit_views(proof.bits@)[i as int],
            ));
            return false;
        }
        i = i + 1;
    }
    proof {
        assert forall|j: int| 0 <= j < cts@.len() implies bit_proof_valid(
            pk.0@,
            ct_view(cts@[j]),
            bit_view(#[trigger] proof.bits@[j]),
        ) by {
            assert(ct_views(cts@)[j] == ct_view(cts@[j]));
            assert(bit_views(proof.bits@)[j] == bit_view(proof.bits@[j]));
        }
    }
    let csum = sum_ciphertexts(cts);
    verify_sum_one(pk, &csum, &proof.sum_one)
}

// ---- hex encodings for the on-disk transcript ----

#[derive(Clone, Debug)]
pub struct BallotProofHex {
    pub cts: Vec<CiphertextHex>,
    pub bits: Vec<[String; 4]>,
    pub sum_one: [String; 2],
}

/// The hex encoding of a scalar value.
pub open spec fn scalar_hex(v: nat) -> Seq<char> {
    hex_encode_spec(scalar_encoding(v))
}

/// `enc` is the hex encoding of the ballot `(cts, proof)`.
pub open spec fn encodes_ballot(enc: BallotProofHex, cts: Seq<Ciphertext>, proof: BallotProof) -> bool {
    &&& enc.cts@.len() == cts.len()
    &&& forall|i: int|
        0 <= i < cts.len() ==> (#[trigger] enc.cts@[i]).c1@ == hex_encode_spec(
            crate::group::point_encoding(cts[i].c1@),
        ) && enc.cts@[i].c2@ == hex_encode_spec(crate::group::point_encoding(cts[i].c2@))
    &&& enc.bits@.len() == proof.bits@.len()
    &&& forall|i: int|
        0 <= i < proof.bits@.len() ==> {
            let b = #[trigger] enc.bits@[i];
            let p = proof.bits@[i];
            &&& b@[0]@ == scalar_hex(p.e0@)
            &&& b@[1]@ == scalar_hex(p.z0@)
            &&& b@[2]@ == scalar_hex(p.e1@)
            &&& b@[3]@ == scalar_hex(p.z1@)
        }
    &&& enc.sum_one@[0]@ == scalar_hex(proof.sum_one.e@)
    &&& enc.sum_one@[1]@ == scalar_hex(proof.sum_one.z@)
}

pub fn encode_ballot(cts: &[Ciphertext], proof: &BallotProof) -> (r: BallotProofHex)
    ensures
        encodes_ballot(r, cts@, *proof),
        ballot_hex_spec(r) == Some(
            (ct_views(cts@), bit_views(proof.bits@), cp_view(proof.sum_one)),
        ),
{
    let mut cts_hex: Vec<CiphertextHex> = Vec::with_capacity(cts.len());
    let mut i: usize = 0;
    while i < cts.len()
        invariant
            i <= cts@.len(),
            cts_hex@.len() == i,
            forall|j: int|
                0 <= j < i ==> (#[trigger] cts_hex@[j]).c1@ == hex_encode_spec(
                    crate::group::point_encoding(cts@[j].c1@),
                ) && cts_hex@[j].c2@ == hex_encode_spec(
                    crate::group::point_encoding(cts@[j].c2@),
                ),
            forall|j: int|
                0 <= j < i ==> ct_hex_spec((#[trigger] cts_hex@[j]).c1@, cts_hex@[j].c2@) == Some(
                    ct_view(cts@[j]),
                ),
        decreases cts@.len() - i,
    {
        cts[i].c1.hex_decodes_back();
        cts[i].c2.hex_decodes_back();
        cts_hex.push(cts[i].to_hex());
        i = i + 1;
    }
    let mut bits: Vec<[String; 4]> = Vec::with_capacity(proof.bits.len());
    let mut i: usize = 0;
    while i < proof.bits.len()
        invariant
            i <= proof.bits@.len(),
            bits@.len() == i,
            forall|j: int|
                0 <= j < i ==> {
                    let b = #[trigger] bits@[j];
                    let p = proof.bits@[j];
                    &&& b@[0]@ == scalar_hex(p.e0@)
                    &&& b@[1]@ == scalar_hex(p.z0@)
                    &&& b@[2]@ == scalar_hex(p.e1@)
                    &&& b@[3]@ == scalar_hex(p.z1@)
                    &&& bit_hex_ok(b)
                    &&& bit_hex_view(b) == bit_view(p)
                },
        decreases proof.bits@.len() - i,
    {
        let b = &proof.bits[i];
        b.e0.reduced();
        b.z0.reduced();
        b.e1.reduced();
        b.z1.reduced();
        proof {
            crate::group::lemma_scalar_hex_roundtrip(b.e0@);
            crate::group::lemma_scalar_hex_roundtrip(b.z0@);
            crate::group::lemma_scalar_hex_roundtrip(b.e1@);
            crate::group::lemma_scalar_hex_roundtrip(b.z1@);
        }
        bits.push(
            [scalar_to_hex(&b.e0), scalar_to_hex(&b.z0), scalar_to_hex(&b.e1), scalar_to_hex(&b.z1)],
        );
        i = i + 1;
    }
    proof.sum_one.e.reduced();
    proof.sum_one.z.reduced();
    proof {
        crate::group::lemma_scalar_hex_roundtrip(proof.sum_one.e@);
        crate::group::lemma_scalar_hex_roundtrip(proof.sum_one.z@);
    }
    let sum_one = [scalar_to_hex(&proof.sum_one.e), scalar_to_hex(&proof.sum_one.z)];
    let r = BallotProofHex { cts: cts_hex, bits, sum_one };
    proof {
        assert forall|i: int| 0 <= i < r.cts@.len() implies (#[trigger] ct_hex_spec(
            r.cts@[i].c1@,
            r.cts@[i].c2@,
        )) is Some by {
            assert(ct_hex_spec(r.cts@[i].c1@, r.cts@[i].c2@) == Some(ct_view(cts@[i])));
        }
        assert forall|i: int| 0 <= i < r.bits@.len() implies bit_hex_ok(#[trigger] r.bits@[i]) by {
            assert(bit_hex_ok(r.bits@[i]));
        }
        let dec = ballot_hex_spec(r).unwrap();
        assert(dec.0 =~= ct_views(cts@));
        assert(dec.1 =~= bit_views(proof.bits@));
    }
    r
}

/// The four scalars of a bit proof decode.
pub open spec fn bit_hex_ok(b: [String; 4]) -> bool {
    forall|j: int| 0 <= j < 4 ==> (#[trigger] scalar_hex_spec(b@[j]@)) is Some
}

pub open spec fn bit_hex_view(b: [String; 4]) -> (nat, nat, nat, nat) {
    (
        scalar_hex_spec(b@[0]@).unwrap(),
        scalar_hex_spec(b@[1]@).unwrap(),
        scalar_hex_spec(b@[2]@).unwrap(),
        scalar_hex_spec(b@[3]@).unwrap(),
    )
}

/// What a hex ballot decodes to: ciphertexts, bit proofs and the sum proof.
pub open spec fn ballot_hex_spec(enc: BallotProofHex) -> Option<
    (Seq<(nat, nat)>, Seq<(nat, nat, nat, nat)>, (nat, nat)),
> {
    if (forall|i: int|
        0 <= i < enc.cts@.len() ==> (#[trigger] ct_hex_spec(
            enc.cts@[i].c1@,
            enc.cts@[i].c2@,
        )) is Some) && (forall|i: int| 0 <= i < enc.bits@.len() ==> bit_hex_ok(
        #[trigger] enc.bits@[i],
    )) && scalar_hex_spec(enc.sum_one@[0]@) is Some && scalar_hex_spec(enc.sum_one@[1]@) is Some {
        Some(
            (
                Seq::new(
                    enc.cts@.len(),
                    |i: int| ct_hex_spec(enc.cts@[i].c1@, enc.cts@[i].c2@).unwrap(),
                ),
                Seq::new(enc.bits@.len(), |i: int| bit_hex_view(enc.bits@[i])),
                (scalar_hex_spec(enc.sum_one@[0]@).unwrap(), scalar_hex_spec(
                    enc.sum_one@[1]@,
                ).unwrap()),
            ),
        )
    } else {
        None
    }
}

pub fn decode_ballot(enc: &BallotProofHex) -> (r: Option<(Vec<Ciphertext>, BallotProof)>)
    ensures
        match r {
            Some((cts, proof)) => ballot_hex_spec(*enc) == Some(
                (ct_views(cts@), bit_views(proof.bits@), cp_view(proof.sum_one)),
            ),
            None => ballot_hex_spec(*enc) is None,
        },
{
    let mut cts: Vec<Ciphertext> = Vec::with_capacity(enc.cts.len());
    let mut i: usize = 0;
    while i < enc.cts.len()
        invariant
            i <= enc.cts@.len(),
            cts@.len() == i,
            forall|j: int|
                0 <= j < i ==> ct_hex_spec(enc.cts@[j].c1@, enc.cts@[j].c2@) == Some(
                    ct_view(#[trigger] cts@[j]),
                ),
        decreases enc.cts@.len() - i,
    {
        match enc.cts[i].decode() {
            Some(c) => cts.push(c),
            None => {
                return None;
            },
        }
        i = i + 1;
    }
    let mut bits: Vec<BitProof> = Vec::with_capacity(enc.bits.len());
    let mut i: usize = 0;
    while i < enc.bits.len()
        invariant
            i <= enc.bits@.len(),
            bits@.len() == i,
            cts@.len() == enc.cts@.len(),
            forall|j: int|
                0 <= j < enc.cts@.len() ==> ct_hex_spec(enc.cts@[j].c1@, enc.cts@[j].c2@) == Some(
                    ct_view(#[trigger] cts@[j]),
                ),
            forall|j: int|
                0 <= j < i ==> bit_hex_ok(#[trigger] enc.bits@[j]) && bit_hex_view(enc.bits@[j])
                    == bit_view(bits@[j]),
        decreases enc.bits@.len() - i,
    {
        let b = &enc.bits[i];
        let e0 = match scalar_from_hex(b[0].as_str()) {
            Some(x) => x,
            None => return None,
        };
        let z0 = match scalar_from_hex(b[1].as_str()) {
            Some(x) => x,
            None => return None,
        };
        let e1 = match scalar_from_hex(b[2].as_str()) {
            Some(x) => x,
            None => return None,
        };
        let z1 = match scalar_from_hex(b[3].as_str()) {
            Some(x) => x,
            None => return None,
        };
        proof {
            assert forall|j: int| 0 <= j < 4 implies (#[trigger] scalar_hex_spec(b@[j]@)) is Some by {
                if j == 0 {} else if j == 1 {} else if j == 2 {} else {}
            }
        }
        bits.push(BitProof { e0, z0, e1, z1 });
        i = i + 1;
    }
    let e = match scalar_from_hex(enc.sum_one[0].as_str()) {
        Some(x) => x,
        None => return None,
    };
    let z = match scalar_from_hex(enc.sum_one[1].as_str()) {
        Some(x) => x,
        None => return None,
    };
    let proof = BallotProof { bits, sum_one: CpEq { e, z } };
    assert forall|i: int| 0 <= i < enc.cts@.len() implies (#[trigger] ct_hex_spec(
        enc.cts@[i].c1@,
        enc.cts@[i].c2@,
    )) is Some by {
        assert(ct_hex_spec(enc.cts@[i].c1@, enc.cts@[i].c2@) == Some(ct_view(cts@[i])));
    }
    assert(scalar_hex_spec(enc.sum_one@[0]@) == Some(e@));
    assert(scalar_hex_spec(enc.sum_one@[1]@) == Some(z@));
    assert(ct_views(cts@) =~= Seq::new(
        enc.cts@.len(),
        |i: int| ct_hex_spec(enc.cts@[i].c1@, enc.cts@[i].c2@).unwrap(),
    ));
    assert(bit_views(proof.bits@) =~= Seq::new(
        enc.bits@.len(),
        |i: int| bit_hex_view(enc.bits@[i]),
    ));
    Some((cts, proof))
}

} // verus!
