//! Joint-Feldman distributed key generation for a t-of-n threshold ElGamal
//! key.
//!
//! No dealer ever holds the whole secret: each trustee contributes a random
//! polynomial of degree `t - 1`, publishes Feldman commitments to its
//! coefficients, and hands every other trustee a share. Trustee i's secret
//! share is the sum of the shares it received; the group public key is the
//! sum of the constant-term commitments. The implicit secret is never
//! assembled.
use vstd::prelude::*;
use crate::algebra::{horner, lemma_horner_is_powsum, lemma_powsum_at_zero, pow_mod, powsum};
use crate::elgamal::PublicKey;
use crate::group::{g, group_order, point_views, scalar_views, Point, Scalar};
use rand::rngs::StdRng;

verus! {

/// One trustee's private key material after the DKG completes.
#[derive(Clone, Copy, Debug)]
pub struct TrusteeKey {
    /// Evaluation index (1..=n), never 0.
    pub index: u64,
    /// Secret share `x_i = F(i)` of the implicit secret `x = F(0)`.
    pub share: Scalar,
    /// Public share `x_i·B` (publicly derivable from the commitments).
    pub public_share: Point,
}

/// Public and private output of the ceremony.
#[derive(Clone, Debug)]
pub struct Dkg {
    pub t: usize,
    pub n: usize,
    pub public_key: PublicKey,
    pub trustees: Vec<TrusteeKey>,
    /// Per-trustee Feldman commitments: `commitments[j][k] = a_{j,k}·B`.
    pub commitments: Vec<Vec<Point>>,
}

/// The discrete logs of every dealer's commitments: the coefficients of
/// the dealers' polynomials.
pub open spec fn comm_views(c: Seq<Vec<Point>>) -> Seq<Seq<nat>> {
    c.map_values(|v: Vec<Point>| point_views(v@))
}

/// `Σ_j f_j(x)` modulo `L` for the dealers' polynomials `f_j`, whose
/// coefficients are `cv[j]`: the joint polynomial `F` at `x`.
pub open spec fn share_sum(cv: Seq<Seq<nat>>, x: nat) -> nat
    decreases cv.len(),
{
    if cv.len() == 0 {
        0
    } else {
        (share_sum(cv.drop_last(), x) + powsum(cv.last(), x)) % group_order()
    }
}

/// A completed ceremony: `t`-of-`n` shape, trustee `i` holds `F(i + 1)`
/// and its public share, and the public key is `F(0)·B`.
pub open spec fn dkg_wf(d: Dkg) -> bool {
    let cv = comm_views(d.commitments@);
    &&& 1 <= d.t <= d.n
    &&& d.commitments@.len() == d.n
    &&& forall|j: int| 0 <= j < d.n ==> (#[trigger] d.commitments@[j])@.len() == d.t
    &&& d.trustees@.len() == d.n
    &&& forall|i: int|
        0 <= i < d.n ==> {
            &&& (#[trigger] d.trustees@[i]).index == i + 1
            &&& d.trustees@[i].share@ == share_sum(cv, (i + 1) as nat)
            &&& d.trustees@[i].public_share@ == d.trustees@[i].share@
        }
    &&& d.public_key.0@ == share_sum(cv, 0)
}

/// Horner evaluation of a polynomial's coefficients at `x`.
fn eval_poly(coeffs: &[Scalar], x: &Scalar) -> (r: Scalar)
    ensures
        r@ == horner(scalar_views(coeffs@), x@),
{
    let ghost cv = scalar_views(coeffs@);
    let mut acc = Scalar::zero();
    let mut k: usize = coeffs.len();
    assert(cv.subrange(k as int, k as int) =~= Seq::<nat>::empty());
    while k > 0
        invariant
            k <= coeffs@.len(),
            cv == scalar_views(coeffs@),
            acc@ == horner(cv.subrange(k as int, cv.len() as int), x@),
        decreases k,
    {
        k = k - 1;
        let ghost prev = acc@;
        acc = acc.mul(x).add(&coeffs[k]);
        proof {
            let l = group_order() as int;
            let sub = cv.subrange(k as int, cv.len() as int);
            assert(sub.drop_first() =~= cv.subrange(k + 1, cv.len() as int));
            assert(sub[0] == cv[k as int]);
            vstd::arithmetic::div_mod::lemma_add_mod_noop_right(
                cv[k as int] as int,
                (prev * x@) as int,
                l,
            );
            vstd::arithmetic::mul::lemma_mul_is_commutative(prev as int, x@ as int);
        }
    }
    assert(cv.subrange(0, cv.len() as int) =~= cv);
    acc
}

/// `Σ_k commit[k]·x^k`: the dealer's polynomial at `x`, in the exponent.
fn feldman_rhs(commit: &[Point], xi: &Scalar) -> (r: Point)
    ensures
        r@ == powsum(point_views(commit@), xi@),
{
    let ghost cv = point_views(commit@);
    let mut xpow = Scalar::one();
    let mut rhs = Point::identity();
    let mut k: usize = 0;
    while k < commit.len()
        invariant
            k <= commit@.len(),
            cv == point_views(commit@),
            xpow@ == pow_mod(xi@, k as nat),
            rhs@ == powsum(cv.take(k as int), xi@),
        decreases commit@.len() - k,
    {
        rhs = rhs.add(&commit[k].mul(&xpow));
        xpow = xpow.mul(xi);
        proof {
            assert(cv.take(k + 1).drop_last() =~= cv.take(k as int));
            vstd::arithmetic::mul::lemma_mul_is_commutative(
                cv[k as int] as int,
                pow_mod(xi@, k as nat) as int,
            );
        }
        k = k + 1;
    }
    assert(cv.take(commit@.len() as int) =~= cv);
    rhs
}

/// Public share `x_i·B` reconstructed from all trustees' Feldman
/// commitments: `Σ_j Σ_k commitments[j][k]·i^k`.
pub fn public_share_from_commitments(commitments: &[Vec<Point>], index: u64) -> (r: Point)
    ensures
        r@ == share_sum(comm_views(commitments@), index as nat),
{
    let ghost cv = comm_views(commitments@);
    let xi = Scalar::from_u64(index);
    let mut total = Point::identity();
    let mut j: usize = 0;
    while j < commitments.len()
        invariant
            j <= commitments@.len(),
            cv == comm_views(commitments@),
            xi@ == index as nat,
            total@ == share_sum(cv.take(j as int), index as nat),
        decreases commitments@.len() - j,
    {
        let sub = feldman_rhs(commitments[j].as_slice(), &xi);
        total = total.add(&sub);
        proof {
            assert(cv.take(j + 1).drop_last() =~= cv.take(j as int));
        }
        j = j + 1;
    }
    assert(cv.take(commitments@.len() as int) =~= cv);
    total
}

/// Verify a received share against the dealer's Feldman commitments:
/// `share·B == Σ_k commit[k]·i^k`.
fn verify_share(share: Scalar, commit: &[Point], index: u64) -> (r: bool)
    ensures
        r == ((share@ * 1) % group_order() == powsum(point_views(commit@), index as nat)),
{
    let xi = Scalar::from_u64(index);
    let rhs = feldman_rhs(commit, &xi);
    g().mul(&share).eq(&rhs)
}

/// Run the ceremony for `t`-of-`n`: every trustee draws the coefficients
/// of its polynomial at random, then the ceremony proceeds from them.
pub fn run(t: usize, n: usize, rng: &mut StdRng) -> (d: Dkg)
    requires
        1 <= t <= n,
    ensures
        d.t == t,
        d.n == n,
        dkg_wf(d),
{
    let mut all_coeffs: Vec<Vec<Scalar>> = Vec::with_capacity(n);
    let mut j: usize = 0;
    while j < n
        invariant
            j <= n,
            all_coeffs@.len() == j,
            forall|j2: int| 0 <= j2 < j ==> (#[trigger] all_coeffs@[j2])@.len() == t,
        decreases n - j,
    {
        let mut coeffs: Vec<Scalar> = Vec::with_capacity(t);
        let mut k: usize = 0;
        while k < t
            invariant
                k <= t,
                coeffs@.len() == k,
            decreases t - k,
        {
            coeffs.push(Scalar::random(rng));
            k = k + 1;
        }
        all_coeffs.push(coeffs);
        j = j + 1;
    }
    from_coefficients(t, n, all_coeffs)
}

/// The ceremony for `t`-of-`n` from the dealers' polynomials: dealer `j`
/// has coefficients `all_coeffs[j]`, lowest degree first. Each dealer
/// commits to its coefficients, every trustee collects and checks its
/// shares, and the public key is the sum of the constant-term commitments.
pub fn from_coefficients(t: usize, n: usize, all_coeffs: Vec<Vec<Scalar>>) -> (d: Dkg)
    requires
        1 <= t <= n,
        all_coeffs@.len() == n,
        forall|j: int| 0 <= j < n ==> (#[trigger] all_coeffs@[j])@.len() == t,
    ensures
        d.t == t,
        d.n == n,
        dkg_wf(d),
        forall|j: int|
            0 <= j < n ==> #[trigger] comm_views(d.commitments@)[j] == scalar_views(all_coeffs@[j]@),
{
    // Each dealer j commits to its coefficients.
    let gen = g();
    let mut commitments: Vec<Vec<Point>> = Vec::with_capacity(n);
    let mut j: usize = 0;
    while j < n
        invariant
            j <= n,
            gen@ == 1,
            all_coeffs@.len() == n,
            forall|j2: int| 0 <= j2 < n ==> (#[trigger] all_coeffs@[j2])@.len() == t,
            commitments@.len() == j,
            forall|j2: int|
                0 <= j2 < j ==> (#[trigger] commitments@[j2])@.len() == t && point_views(
                    commitments@[j2]@,
                ) == scalar_views(all_coeffs@[j2]@),
        decreases n - j,
    {
        let coeffs = &all_coeffs[j];
        let mut comm: Vec<Point> = Vec::with_capacity(t);
        let mut k: usize = 0;
        while k < t
            invariant
                k <= t,
                gen@ == 1,
                coeffs@.len() == t,
                comm@.len() == k,
                forall|k2: int| 0 <= k2 < k ==> #[trigger] comm@[k2]@ == coeffs@[k2]@,
            decreases t - k,
        {
            let c = gen.mul(&coeffs[k]);
            coeffs[k].reduced();
            proof {
                vstd::arithmetic::div_mod::lemma_small_mod(coeffs@[k as int]@, group_order());
            }
            comm.push(c);
            k = k + 1;
        }
        assert(point_views(comm@) =~= scalar_views(coeffs@));
        commitments.push(comm);
        j = j + 1;
    }
    let ghost cv = comm_views(commitments@);
    assert forall|j2: int| 0 <= j2 < n implies cv[j2] == scalar_views(
        #[trigger] all_coeffs@[j2]@,
    ) by {
        assert(point_views(commitments@[j2]@) == scalar_views(all_coeffs@[j2]@));
    }

    // Every trustee i (index 1..=n) collects the shares f_j(i) from every
    // dealer j and verifies each against that dealer's commitments.
    let mut trustees: Vec<TrusteeKey> = Vec::with_capacity(n);
    let mut idx: usize = 0;
    while idx < n
        invariant
            idx <= n,
            1 <= t <= n,
            all_coeffs@.len() == n,
            commitments@.len() == n,
            cv == comm_views(commitments@),
            forall|j2: int|
                0 <= j2 < n ==> cv[j2] == scalar_views(#[trigger] all_coeffs@[j2]@),
            forall|j2: int| 0 <= j2 < n ==> (#[trigger] commitments@[j2])@.len() == t,
            trustees@.len() == idx,
            forall|i2: int|
                0 <= i2 < idx ==> {
                    &&& (#[trigger] trustees@[i2]).index == i2 + 1
                    &&& trustees@[i2].share@ == share_sum(cv, (i2 + 1) as nat)
                    &&& trustees@[i2].public_share@ == trustees@[i2].share@
                },
        decreases n - idx,
    {
        let i: u64 = (idx + 1) as u64;
        let xi = Scalar::from_u64(i);
        let mut share = Scalar::zero();
        let mut j: usize = 0;
        while j < n
            invariant
                j <= n,
                all_coeffs@.len() == n,
                commitments@.len() == n,
                cv == comm_views(commitments@),
                forall|j2: int|
                    0 <= j2 < n ==> cv[j2] == scalar_views(#[trigger] all_coeffs@[j2]@),
                xi@ == i as nat,
                share@ == share_sum(cv.take(j as int), i as nat),
            decreases n - j,
        {
            let s_ji = eval_poly(all_coeffs[j].as_slice(), &xi);
            let ok = verify_share(s_ji, commitments[j].as_slice(), i);
            s_ji.reduced();
            proof {
                assert(cv[j as int] == scalar_views(all_coeffs@[j as int]@));
                lemma_horner_is_powsum(cv[j as int], i as nat);
                vstd::arithmetic::div_mod::lemma_small_mod(s_ji@, group_order());
                assert(ok);
                assert(cv.take(j + 1).drop_last() =~= cv.take(j as int));
            }
            share = share.add(&s_ji);
            j = j + 1;
        }
        assert(cv.take(n as int) =~= cv);
        let public_share = public_share_from_commitments(commitments.as_slice(), i);
        trustees.push(TrusteeKey { index: i, share, public_share });
        idx = idx + 1;
    }

    // Group public key = Σ_j commitments[j][0] = (Σ_j a_{j,0})·B = F(0)·B.
    let mut pk = Point::identity();
    let mut j: usize = 0;
    while j < n
        invariant
            j <= n,
            1 <= t,
            commitments@.len() == n,
            cv == comm_views(commitments@),
            forall|j2: int| 0 <= j2 < n ==> (#[trigger] commitments@[j2])@.len() == t,
            pk@ == share_sum(cv.take(j as int), 0),
        decreases n - j,
    {
        let c0 = commitments[j][0];
        c0.reduced();
        pk = pk.add(&c0);
        proof {
            assert(cv[j as int] == point_views(commitments@[j as int]@));
            assert(cv[j as int][0] == c0@);
            lemma_powsum_at_zero(cv[j as int]);
            vstd::arithmetic::div_mod::lemma_small_mod(c0@, group_order());
            assert(cv.take(j + 1).drop_last() =~= cv.take(j as int));
        }
        j = j + 1;
    }
    assert(cv.take(n as int) =~= cv);
    Dkg { t, n, public_key: PublicKey(pk), trustees, commitments }
}

} // verus!
