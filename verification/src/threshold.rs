//! Threshold decryption of exponential-ElGamal ciphertexts, with a
//! Chaum-Pedersen proof of correct partial decryption per trustee.
//!
//! The only function that recovers a plaintext is [`decrypt`], and it needs
//! at least `t` verified partial decryptions with distinct trustee indices
//! of a single ciphertext; with fewer it returns `None`.
use vstd::prelude::*;
use crate::algebra::lemma_response;
use crate::dkg::{comm_views, public_share_from_commitments, share_sum, Dkg, TrusteeKey};
use crate::elgamal::Ciphertext;
use crate::group::{
    bounded_dlog, fs_challenge, g, g_mul, group_order, hash_to_scalar, inv_mod, point_views,
    sub_mod, Point, Scalar,
};
use crate::validity::cp_commitments;
use rand::rngs::StdRng;

verus! {

/// Chaum-Pedersen proof that `log_B(public_share) == log_{c1}(d)`.
#[derive(Clone, Copy, Debug)]
pub struct CpProof {
    pub e: Scalar,
    pub z: Scalar,
}

#[derive(Clone, Copy, Debug)]
pub struct PartialDecryption {
    pub index: u64,
    /// `d_i = x_i·c1`
    pub d: Point,
    pub proof: CpProof,
}

/// A partial decryption as `(index, d, e, z)`.
pub open spec fn partial_view(p: PartialDecryption) -> (u64, nat, nat, nat) {
    (p.index, p.d@, p.proof.e@, p.proof.z@)
}

pub open spec fn partial_views(s: Seq<PartialDecryption>) -> Seq<(u64, nat, nat, nat)> {
    s.map_values(|p: PartialDecryption| partial_view(p))
}

/// The ASCII bytes of "voltaire/cp/partial".
pub open spec fn partial_label() -> Seq<u8> {
    seq![
        118u8,
        111u8,
        108u8,
        116u8,
        97u8,
        105u8,
        114u8,
        101u8,
        47u8,
        99u8,
        112u8,
        47u8,
        112u8,
        97u8,
        114u8,
        116u8,
        105u8,
        97u8,
        108u8,
    ]
}

/// The points hashed for a partial decryption's challenge, given the
/// commitments `t1, t2`.
pub open spec fn partial_transcript(c1: nat, share_pub: nat, d: nat, t1: nat, t2: nat) -> Seq<nat> {
    seq![1nat, c1, share_pub, d, t1, t2]
}

/// A partial decryption's proof verifies against the ciphertext's `c1` and
/// the trustee's public share.
pub open spec fn partial_valid(c1: nat, share_pub: nat, p: (u64, nat, nat, nat)) -> bool {
    let t = cp_commitments(p.2, p.3, share_pub, p.1, c1);
    fs_challenge(partial_label(), partial_transcript(c1, share_pub, p.1, t.0, t.1), Seq::empty())
        == p.2
}

fn partial_label_bytes() -> (r: [u8; 19])
    ensures
        r@ == partial_label(),
{
    [118, 111, 108, 116, 97, 105, 114, 101, 47, 99, 112, 47, 112, 97, 114, 116, 105, 97, 108]
}

fn partial_challenge(c1: &Point, share_pub: &Point, d: &Point, t1: Point, t2: Point) -> (r: Scalar)
    ensures
        r@ == fs_challenge(
            partial_label(),
            partial_transcript(c1@, share_pub@, d@, t1@, t2@),
            Seq::empty(),
        ),
{
    let label = partial_label_bytes();
    let pts = [g(), *c1, *share_pub, *d, t1, t2];
    let none: [Scalar; 0] = [];
    let r = hash_to_scalar(&label, &pts, &none);
    assert(point_views(pts@) =~= partial_transcript(c1@, share_pub@, d@, t1@, t2@));
    assert(crate::group::scalar_views(none@) =~= Seq::<nat>::empty());
    r
}

/// Produce a partial decryption `d_i = x_i·c1` together with a proof that
/// the same `x_i` is the discrete log of the trustee's public share.
pub fn partial_decrypt(trustee: &TrusteeKey, ct: &Ciphertext, rng: &mut StdRng) -> (r:
    PartialDecryption)
    ensures
        r.index == trustee.index,
        r.d@ == (trustee.share@ * ct.c1@) % group_order(),
        trustee.public_share@ == trustee.share@ ==> partial_valid(
            ct.c1@,
            trustee.public_share@,
            partial_view(r),
        ),
{
    let d = ct.c1.mul(&trustee.share);
    // Chaum-Pedersen (equality of discrete logs) over bases B and c1.
    let w = Scalar::random(rng);
    let t1 = g_mul(&w);
    let t2 = ct.c1.mul(&w);
    let e = partial_challenge(&ct.c1, &trustee.public_share, &d, t1, t2);
    let z = w.add(&e.mul(&trustee.share));
    let r = PartialDecryption { index: trustee.index, d, proof: CpProof { e, z } };
    w.reduced();
    trustee.share.reduced();
    proof {
        if trustee.public_share@ == trustee.share@ {
            let x = trustee.share@;
            lemma_response(w@, e@, x, 1);
            lemma_response(w@, e@, x, ct.c1@);
            vstd::arithmetic::div_mod::lemma_small_mod(w@, group_order());
            vstd::arithmetic::div_mod::lemma_small_mod(x, group_order());
            vstd::arithmetic::mul::lemma_mul_is_commutative(x as int, ct.c1@ as int);
            vstd::arithmetic::mul::lemma_mul_is_commutative(w@ as int, ct.c1@ as int);
        }
    }
    r
}

/// Verify a partial decryption against the trustee's public share.
pub fn verify_partial(part: &PartialDecryption, ct: &Ciphertext, public_share: Point) -> (r: bool)
    ensures
        r == partial_valid(ct.c1@, public_share@, partial_view(*part)),
{
    // Recompute the commitments: T1 = z·B - e·A, T2 = z·c1 - e·d.
    let t1 = g_mul(&part.proof.z).sub(&public_share.mul(&part.proof.e));
    let t2 = ct.c1.mul(&part.proof.z).sub(&part.d.mul(&part.proof.e));
    let e = partial_challenge(&ct.c1, &public_share, &part.d, t1, t2);
    e.eq(&part.proof.e)
}

/// `Π_{j ≠ i} x_j` modulo `L` over the listed indices.
pub open spec fn lagrange_num(idx: Seq<u64>, i: u64) -> nat
    decreases idx.len(),
{
    if idx.len() == 0 {
        1
    } else if idx.last() != i {
        (lagrange_num(idx.drop_last(), i) * (idx.last() as nat)) % group_order()
    } else {
        lagrange_num(idx.drop_last(), i)
    }
}

/// `Π_{j ≠ i} (x_j - x_i)` modulo `L` over the listed indices.
pub open spec fn lagrange_den(idx: Seq<u64>, i: u64) -> nat
    decreases idx.len(),
{
    if idx.len() == 0 {
        1
    } else if idx.last() != i {
        (lagrange_den(idx.drop_last(), i) * sub_mod(idx.last() as nat, i as nat)) % group_order()
    } else {
        lagrange_den(idx.drop_last(), i)
    }
}

/// The Lagrange coefficient `λ_i(0) = Π_{j ≠ i} x_j / (x_j - x_i)`.
pub open spec fn lagrange(idx: Seq<u64>, i: u64) -> nat {
    (lagrange_num(idx, i) * inv_mod(lagrange_den(idx, i))) % group_order()
}

/// Lagrange coefficient `λ_i(0)` for the given set of indices.
pub(crate) fn lagrange_at_zero(indices: &[u64], i: u64) -> (r: Scalar)
    ensures
        r@ == lagrange(indices@, i),
{
    let xi = Scalar::from_u64(i);
    let mut num = Scalar::one();
    let mut den = Scalar::one();
    let mut k: usize = 0;
    while k < indices.len()
        invariant
            k <= indices@.len(),
            xi@ == i as nat,
            num@ == lagrange_num(indices@.take(k as int), i),
            den@ == lagrange_den(indices@.take(k as int), i),
        decreases indices@.len() - k,
    {
        let j = indices[k];
        if j != i {
            let xj = Scalar::from_u64(j);
            num = num.mul(&xj);
            den = den.mul(&xj.sub(&xi));
        }
        assert(indices@.take(k + 1).drop_last() =~= indices@.take(k as int));
        k = k + 1;
    }
    assert(indices@.take(indices@.len() as int) =~= indices@);
    num.mul(&den.invert())
}

/// No earlier partial carries the index of partial `k`.
pub open spec fn first_with_index(ps: Seq<(u64, nat, nat, nat)>, k: int) -> bool {
    forall|j: int| 0 <= j < k ==> ps[j].0 != ps[k].0
}

/// The partials that `combine` keeps: the first partial of each index, when
/// its proof verifies against the public share that the commitments give
/// for that index.
pub open spec fn accepted_partials(cv: Seq<Seq<nat>>, c1: nat, ps: Seq<(u64, nat, nat, nat)>) -> Seq<
    (u64, nat, nat, nat),
>
    decreases ps.len(),
{
    if ps.len() == 0 {
        Seq::empty()
    } else {
        let k = ps.len() - 1;
        let rest = accepted_partials(cv, c1, ps.drop_last());
        if first_with_index(ps, k) && partial_valid(c1, share_sum(cv, ps[k].0 as nat), ps[k]) {
            rest.push(ps[k])
        } else {
            rest
        }
    }
}

/// The indices of a list of partials.
pub open spec fn partial_indices(ps: Seq<(u64, nat, nat, nat)>) -> Seq<u64> {
    ps.map_values(|p: (u64, nat, nat, nat)| p.0)
}

/// `Σ λ_i·d_i` modulo `L`, in list order, for the indices `idx`, over
/// pairs `(i, d_i)`.
pub open spec fn lagrange_sum(idx: Seq<u64>, ps: Seq<(u64, nat)>) -> nat
    decreases ps.len(),
{
    if ps.len() == 0 {
        0
    } else {
        (lagrange_sum(idx, ps.drop_last()) + (lagrange(idx, ps.last().0) * ps.last().1)
            % group_order()) % group_order()
    }
}

/// The `(index, d)` pairs of a list of partials.
pub open spec fn index_d_pairs(ps: Seq<(u64, nat, nat, nat)>) -> Seq<(u64, nat)> {
    ps.map_values(|p: (u64, nat, nat, nat)| (p.0, p.1))
}

/// What `combine` returns: `c2 - Σ λ_i·d_i` over the accepted partials,
/// when there are at least `t` of them.
pub open spec fn combine_spec(
    t: nat,
    cv: Seq<Seq<nat>>,
    c1: nat,
    c2: nat,
    ps: Seq<(u64, nat, nat, nat)>,
) -> Option<nat> {
    let acc = accepted_partials(cv, c1, ps);
    if acc.len() < t {
        None
    } else {
        Some(sub_mod(c2, lagrange_sum(partial_indices(acc), index_d_pairs(acc))))
    }
}

fn contains_u64(v: &Vec<u64>, x: u64) -> (r: bool)
    ensures
        r == v@.contains(x),
{
    let mut k: usize = 0;
    while k < v.len()
        invariant
            k <= v@.len(),
            forall|j: int| 0 <= j < k ==> v@[j] != x,
        decreases v@.len() - k,
    {
        if v[k] == x {
            return true;
        }
        k = k + 1;
    }
    false
}

/// Combine partials for a single ciphertext and recover `m·B`.
///
/// Returns `None` if fewer than `t` distinct-index valid partials are
/// given: `t - 1` partials cannot decrypt.
pub fn combine(dkg: &Dkg, ct: &Ciphertext, partials: &[PartialDecryption]) -> (r: Option<Point>)
    ensures
        match r {
            Some(p) => combine_spec(
                dkg.t as nat,
                comm_views(dkg.commitments@),
                ct.c1@,
                ct.c2@,
                partial_views(partials@),
            ) == Some(p@),
            None => combine_spec(
                dkg.t as nat,
                comm_views(dkg.commitments@),
                ct.c1@,
                ct.c2@,
                partial_views(partials@),
            ) is None,
        },
{
    let ghost cv = comm_views(dkg.commitments@);
    let ghost pv = partial_views(partials@);
    // Deduplicate by index and verify each proof.
    let mut seen: Vec<u64> = Vec::new();
    let mut valid: Vec<PartialDecryption> = Vec::new();
    let mut k: usize = 0;
    while k < partials.len()
        invariant
            k <= partials@.len(),
            pv == partial_views(partials@),
            cv == comm_views(dkg.commitments@),
            seen@ == partial_indices(pv.take(k as int)),
            partial_views(valid@) == accepted_partials(cv, ct.c1@, pv.take(k as int)),
        decreases partials@.len() - k,
    {
        let p = partials[k];
        let is_seen = contains_u64(&seen, p.index);
        proof {
            let pk = pv.take(k + 1);
            assert(pk.drop_last() =~= pv.take(k as int));
            assert(pk[k as int] == partial_view(p));
            assert(first_with_index(pk, k as int) == !is_seen) by {
                if is_seen {
                    let j = choose|j: int| 0 <= j < seen@.len() && seen@[j] == p.index;
                    assert(pk[j].0 == p.index);
                } else {
                    assert forall|j: int| 0 <= j < k implies pk[j].0 != pk[k as int].0 by {
                        assert(seen@[j] == pk[j].0);
                    }
                }
            }
        }
        seen.push(p.index);
        proof {
            assert(partial_indices(pv.take(k + 1)) =~= partial_indices(pv.take(k as int)).push(
                p.index,
            ));
        }
        if !is_seen {
            let pubshare = public_share_from_commitments(dkg.commitments.as_slice(), p.index);
            if verify_partial(&p, ct, pubshare) {
                valid.push(p);
                proof {
                    assert(partial_views(valid@) =~= accepted_partials(
                        cv,
                        ct.c1@,
                        pv.take(k as int),
                    ).push(partial_view(p)));
                }
            }
        }
        k = k + 1;
    }
    assert(pv.take(partials@.len() as int) =~= pv);
    let ghost acc = accepted_partials(cv, ct.c1@, pv);
    if valid.len() < dkg.t {
        return None;
    }
    let mut idx: Vec<u64> = Vec::with_capacity(valid.len());
    let mut k: usize = 0;
    while k < valid.len()
        invariant
            k <= valid@.len(),
            idx@ == partial_indices(partial_views(valid@).take(k as int)),
        decreases valid@.len() - k,
    {
        idx.push(valid[k].index);
        assert(partial_indices(partial_views(valid@).take(k + 1)) =~= idx@);
        k = k + 1;
    }
    assert(partial_views(valid@).take(valid@.len() as int) =~= partial_views(valid@));
    // x·c1 = Σ λ_i·d_i
    let mut xc1 = Point::identity();
    let mut k: usize = 0;
    while k < valid.len()
        invariant
            k <= valid@.len(),
            idx@ == partial_indices(acc),
            partial_views(valid@) == acc,
            xc1@ == lagrange_sum(idx@, index_d_pairs(acc.take(k as int))),
        decreases valid@.len() - k,
    {
        let p = valid[k];
        let lambda = lagrange_at_zero(idx.as_slice(), p.index);
        xc1 = xc1.add(&p.d.mul(&lambda));
        proof {
            assert(index_d_pairs(acc.take(k + 1)).drop_last() =~= index_d_pairs(
                acc.take(k as int),
            ));
            assert(acc[k as int] == partial_view(p));
        }
        k = k + 1;
    }
    assert(acc.take(valid@.len() as int) =~= acc);
    Some(ct.c2.sub(&xc1))
}

/// Full threshold decryption of a single ciphertext to a bounded integer.
pub fn decrypt(dkg: &Dkg, ct: &Ciphertext, partials: &[PartialDecryption], max: u64) -> (r:
    Option<u64>)
    ensures
        r == match combine_spec(
            dkg.t as nat,
            comm_views(dkg.commitments@),
            ct.c1@,
            ct.c2@,
            partial_views(partials@),
        ) {
            Some(m) => if m <= max as nat {
                Some(m as u64)
            } else {
                None::<u64>
            },
            None => None::<u64>,
        },
{
    match combine(dkg, ct, partials) {
        Some(m_point) => bounded_dlog(m_point, max),
        None => None,
    }
}

/// The indices `1..=t` of the first `t` trustees.
pub open spec fn first_indices(t: nat) -> Seq<u64> {
    Seq::new(t, |i: int| (i + 1) as u64)
}

/// The `(index, d)` pairs of honest partial decryptions of a ciphertext
/// whose first point is `c1` by the trustees `1..=t`: `d_i = F(i)·c1`.
pub open spec fn honest_pairs(cv: Seq<Seq<nat>>, t: nat, c1: nat) -> Seq<(u64, nat)> {
    Seq::new(t, |i: int| ((i + 1) as u64, (share_sum(cv, (i + 1) as nat) * c1) % group_order()))
}

/// The point that trustees `1..=t` recover from `(c1, c2)` by combining
/// their honest partial decryptions: `c2 - Σ λ_i·F(i)·c1`.
pub open spec fn threshold_plaintext(cv: Seq<Seq<nat>>, t: nat, c: (nat, nat)) -> nat {
    sub_mod(c.1, lagrange_sum(first_indices(t), honest_pairs(cv, t, c.0)))
}

/// Partials with pairwise distinct indices whose proofs all verify are all
/// accepted.
pub proof fn lemma_all_accepted(cv: Seq<Seq<nat>>, c1: nat, ps: Seq<(u64, nat, nat, nat)>)
    requires
        forall|a: int, b: int| 0 <= a < b < ps.len() ==> ps[a].0 != ps[b].0,
        forall|k: int|
            0 <= k < ps.len() ==> partial_valid(c1, share_sum(cv, ps[k].0 as nat), #[trigger] ps[k]),
    ensures
        accepted_partials(cv, c1, ps) == ps,
    decreases ps.len(),
{
    if ps.len() > 0 {
        let n = ps.len() - 1;
        let p = ps.drop_last();
        assert forall|k: int| 0 <= k < p.len() implies partial_valid(
            c1,
            share_sum(cv, p[k].0 as nat),
            #[trigger] p[k],
        ) by {
            assert(p[k] == ps[k]);
        }
        lemma_all_accepted(cv, c1, p);
        assert(first_with_index(ps, n));
        assert(partial_valid(c1, share_sum(cv, ps[n].0 as nat), ps[n]));
        assert(ps =~= p.push(ps[n]));
    }
}

/// Honest partial decryptions by trustees `1..=t` combine to
/// [`threshold_plaintext`].
pub proof fn lemma_honest_combination(
    cv: Seq<Seq<nat>>,
    t: nat,
    c1: nat,
    c2: nat,
    ps: Seq<(u64, nat, nat, nat)>,
)
    requires
        ps.len() == t,
        forall|j: int|
            0 <= j < t ==> {
                &&& (#[trigger] ps[j]).0 == j + 1
                &&& ps[j].1 == (share_sum(cv, (j + 1) as nat) * c1) % group_order()
                &&& partial_valid(c1, share_sum(cv, (j + 1) as nat), ps[j])
            },
    ensures
        combine_spec(t, cv, c1, c2, ps) == Some(threshold_plaintext(cv, t, (c1, c2))),
{
    assert forall|k: int| 0 <= k < ps.len() implies partial_valid(
        c1,
        share_sum(cv, ps[k].0 as nat),
        #[trigger] ps[k],
    ) by {
        assert(ps[k].0 as nat == (k + 1) as nat);
    }
    assert forall|a: int, b: int| 0 <= a < b < ps.len() implies ps[a].0 != ps[b].0 by {
        assert(ps[a].0 == a + 1);
        assert(ps[b].0 == b + 1);
    }
    lemma_all_accepted(cv, c1, ps);
    assert(partial_indices(ps) =~= first_indices(t));
    assert(index_d_pairs(ps) =~= honest_pairs(cv, t, c1));
}

/// The accepted partials come from the list, carry pairwise distinct
/// trustee indices, and each verifies against its trustee's public share.
pub proof fn lemma_accepted_partials(cv: Seq<Seq<nat>>, c1: nat, ps: Seq<(u64, nat, nat, nat)>)
    ensures
        accepted_partials(cv, c1, ps).len() <= ps.len(),
        partial_indices(accepted_partials(cv, c1, ps)).no_duplicates(),
        forall|k: int|
            0 <= k < accepted_partials(cv, c1, ps).len() ==> {
                &&& ps.contains(#[trigger] accepted_partials(cv, c1, ps)[k])
                &&& partial_valid(
                    c1,
                    share_sum(cv, accepted_partials(cv, c1, ps)[k].0 as nat),
                    accepted_partials(cv, c1, ps)[k],
                )
            },
    decreases ps.len(),
{
    if ps.len() > 0 {
        let n = ps.len() - 1;
        let rest = accepted_partials(cv, c1, ps.drop_last());
        lemma_accepted_partials(cv, c1, ps.drop_last());
        assert forall|k: int| 0 <= k < rest.len() implies ps.contains(#[trigger] rest[k]) by {
            let j = choose|j: int| 0 <= j < ps.drop_last().len() && ps.drop_last()[j] == rest[k];
            assert(ps[j] == rest[k]);
        }
        if first_with_index(ps, n) && partial_valid(c1, share_sum(cv, ps[n].0 as nat), ps[n]) {
            let acc = rest.push(ps[n]);
            assert(acc[acc.len() - 1] == ps[n]);
            assert(ps.contains(ps[n]));
            assert forall|a: int, b: int|
                0 <= a < acc.len() && 0 <= b < acc.len() && a != b implies partial_indices(
                    acc,
                )[a] != partial_indices(acc)[b] by {
                if a < rest.len() && b < rest.len() {
                    assert(partial_indices(rest)[a] != partial_indices(rest)[b]);
                } else if a < rest.len() {
                    let j = choose|j: int| 0 <= j < ps.drop_last().len() && ps.drop_last()[j] == rest[a];
                    assert(ps[j].0 != ps[n].0);
                } else {
                    let j = choose|j: int| 0 <= j < ps.drop_last().len() && ps.drop_last()[j] == rest[b];
                    assert(ps[j].0 != ps[n].0);
                }
            }
        }
    }
}

/// Threshold secrecy of `combine`: when every partial's trustee index lies
/// in a set of fewer than `t` indices, no plaintext is recovered.
pub proof fn lemma_below_threshold_cannot_combine(
    t: nat,
    cv: Seq<Seq<nat>>,
    c1: nat,
    c2: nat,
    ps: Seq<(u64, nat, nat, nat)>,
    indices: Set<u64>,
)
    requires
        indices.finite(),
        indices.len() < t,
        forall|k: int| 0 <= k < ps.len() ==> indices.contains(#[trigger] ps[k].0),
    ensures
        combine_spec(t, cv, c1, c2, ps) is None,
{
    let acc = accepted_partials(cv, c1, ps);
    lemma_accepted_partials(cv, c1, ps);
    let ids = partial_indices(acc);
    ids.unique_seq_to_set();
    assert forall|x: u64| ids.to_set().contains(x) implies indices.contains(x) by {
        let k = choose|k: int| 0 <= k < ids.len() && ids[k] == x;
        assert(ps.contains(acc[k]));
        let j = choose|j: int| 0 <= j < ps.len() && ps[j] == acc[k];
        assert(indices.contains(ps[j].0));
    }
    vstd::set_lib::lemma_len_subset(ids.to_set(), indices);
}

} // verus!
