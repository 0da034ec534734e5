//! JCJ / Civitas-style coercion resistance without a per-voter public
//! nullifier: eligibility and de-duplication are decided at tally time by
//! blinded threshold plaintext-equivalence tests (PETs) on encrypted
//! credentials.
//!
//! This design can give unlinkable re-voting, but its tally is quadratic in
//! the number of ballots; `measure_dedup` runs that phase with real PETs.
use vstd::prelude::*;
use crate::clock::{clock_now, micros_since};
use crate::dkg::{comm_views, dkg_wf, share_sum, Dkg};
use crate::elgamal::{ct_view, encrypts, Ciphertext, PublicKey};
use crate::group::{g, group_order, sub_mod, Point, Scalar};
use crate::validity::encrypts_some;
use crate::interpolation::{lemma_nonzero_product, lemma_threshold_decrypts_encryption, scalar_field};
use vstd::arithmetic::div_mod::*;
use vstd::arithmetic::mul::*;
use crate::threshold::{
    combine, first_indices, honest_pairs, lagrange, lagrange_at_zero, lagrange_sum, lemma_honest_combination,
    partial_decrypt, partial_valid, partial_view, partial_views, threshold_plaintext, PartialDecryption,
};
use rand::rngs::StdRng;

verus! {

/// Encrypt a credential point under the threshold key.
pub fn encrypt_credential(pk: &PublicKey, cred: Point, rng: &mut StdRng) -> (c: Ciphertext)
    ensures
        exists|r: nat| r < group_order() && #[trigger] encrypts(ct_view(c), pk.0@, cred@, r),
{
    let r = Scalar::random(rng);
    let rg = g().mul(&r);
    let rpk = pk.0.mul(&r);
    let c = Ciphertext { c1: rg, c2: cred.add(&rpk) };
    proof {
        vstd::arithmetic::div_mod::lemma_add_mod_noop_right(
            cred@ as int,
            (r@ * pk.0@) as int,
            group_order() as int,
        );
        assert(encrypts(ct_view(c), pk.0@, cred@, r@));
    }
    c
}

/// A nonzero blinding factor: a random scalar, with 1 in place of a zero
/// draw.
fn nonzero_blinding(rng: &mut StdRng) -> (z: Scalar)
    ensures
        0 < z@ < group_order(),
{
    let z = Scalar::random(rng);
    if z.eq(&Scalar::zero()) {
        Scalar::one()
    } else {
        z
    }
}

/// The ciphertext `z·(a - b)`: an encryption of `z` times the difference of
/// the plaintexts.
pub open spec fn blinded_ratio(a: (nat, nat), b: (nat, nat), z: nat) -> (nat, nat) {
    ((z * sub_mod(a.0, b.0)) % group_order(), (z * sub_mod(a.1, b.1)) % group_order())
}

/// A blinded threshold plaintext-equivalence test: whether the two
/// ciphertexts encrypt the same credential. The difference is blinded by a
/// fresh random `z`, so that an inequality reveals only a random point.
///
/// For a completed ceremony, the answer is whether the first `t` trustees
/// recover the identity from `z·(a - b)` for the nonzero `z` drawn: exactly
/// when the credentials are equal ([`lemma_pet_decides_equality`]).
pub fn pet(dkg: &Dkg, a: &Ciphertext, b: &Ciphertext, rng: &mut StdRng) -> (r: bool)
    requires
        dkg.t <= dkg.trustees@.len(),
    ensures
        dkg_wf(*dkg) ==> exists|z: nat|
            0 < z < group_order() && r == (#[trigger] threshold_plaintext(
                comm_views(dkg.commitments@),
                dkg.t as nat,
                blinded_ratio(ct_view(*a), ct_view(*b), z),
            ) == 0),
        scalar_field() && dkg_wf(*dkg) ==> forall|ma: nat, ra: nat, mb: nat, rb: nat|
            #[trigger] encrypts(ct_view(*a), dkg.public_key.0@, ma, ra) && #[trigger] encrypts(
                ct_view(*b),
                dkg.public_key.0@,
                mb,
                rb,
            ) ==> (r <==> ma % group_order() == mb % group_order()),
{
    // ratio = Enc(credA - credB)
    let ratio = Ciphertext { c1: a.c1.sub(&b.c1), c2: a.c2.sub(&b.c2) };
    // blind: z·ratio = Enc(z·(credA - credB))
    let z = nonzero_blinding(rng);
    let blinded = Ciphertext { c1: ratio.c1.mul(&z), c2: ratio.c2.mul(&z) };
    let ghost cv = comm_views(dkg.commitments@);
    let ghost c = ct_view(blinded);
    assert(c == blinded_ratio(ct_view(*a), ct_view(*b), z@));
    // Threshold-decrypt the blinded ratio to a point.
    let mut parts: Vec<PartialDecryption> = Vec::with_capacity(dkg.t);
    let mut j: usize = 0;
    while j < dkg.t
        invariant
            j <= dkg.t,
            dkg.t <= dkg.trustees@.len(),
            parts@.len() == j,
            forall|j2: int|
                0 <= j2 < j ==> {
                    &&& (#[trigger] parts@[j2]).index == dkg.trustees@[j2].index
                    &&& parts@[j2].d@ == (dkg.trustees@[j2].share@ * blinded.c1@) % group_order()
                    &&& dkg.trustees@[j2].public_share@ == dkg.trustees@[j2].share@
                        ==> partial_valid(
                        blinded.c1@,
                        dkg.trustees@[j2].public_share@,
                        partial_view(parts@[j2]),
                    )
                },
        decreases dkg.t - j,
    {
        parts.push(partial_decrypt(&dkg.trustees[j], &blinded, rng));
        j = j + 1;
    }
    proof {
        if dkg_wf(*dkg) {
            let pv = partial_views(parts@);
            assert forall|j2: int| 0 <= j2 < dkg.t implies {
                &&& (#[trigger] pv[j2]).0 == j2 + 1
                &&& pv[j2].1 == (share_sum(cv, (j2 + 1) as nat) * c.0) % group_order()
                &&& partial_valid(c.0, share_sum(cv, (j2 + 1) as nat), pv[j2])
            } by {
                assert(pv[j2] == partial_view(parts@[j2]));
            }
            lemma_honest_combination(cv, dkg.t as nat, c.0, c.1, pv);
        }
    }
    let r = match combine(dkg, &blinded, parts.as_slice()) {
        Some(m_point) => m_point.eq(&Point::identity()),
        None => false,
    };
    proof {
        if dkg_wf(*dkg) {
            assert(r == (threshold_plaintext(cv, dkg.t as nat, c) == 0));
            if scalar_field() {
                assert forall|ma: nat, ra: nat, mb: nat, rb: nat|
                    #[trigger] encrypts(ct_view(*a), dkg.public_key.0@, ma, ra) && #[trigger] encrypts(
                        ct_view(*b),
                        dkg.public_key.0@,
                        mb,
                        rb,
                    ) implies (r <==> ma % group_order() == mb % group_order()) by {
                    lemma_pet_decides_equality(*dkg, ct_view(*a), ct_view(*b), ma, ra, mb, rb, z@);
                }
            }
        }
    }
    r
}

/// `z·(a - b)` encrypts `z·(m_a - m_b)` when `a` and `b` encrypt `m_a` and
/// `m_b`.
proof fn lemma_blinded_ratio_encrypts(
    a: (nat, nat),
    b: (nat, nat),
    pk: nat,
    ma: nat,
    ra: nat,
    mb: nat,
    rb: nat,
    z: nat,
)
    requires
        encrypts(a, pk, ma, ra),
        encrypts(b, pk, mb, rb),
    ensures
        encrypts(
            blinded_ratio(a, b, z),
            pk,
            z * sub_mod(ma, mb),
            z * sub_mod(a.0, b.0),
        ),
{
    let p = group_order() as int;
    let c = blinded_ratio(a, b, z);
    let zi = z as int;
    let pki = pk as int;
    let dm = ma as int - mb as int;
    let dr = ra as int - rb as int;
    let d = dm + dr * pki;
    // c.1 ≡ z·((ma + ra·pk) - (mb + rb·pk)) = z·d
    lemma_sub_mod_noop((ma + ra * pk) as int, (mb + rb * pk) as int, p);
    assert(sub_mod(a.1, b.1) as int == ((ma + ra * pk) as int - (mb + rb * pk) as int) % p);
    assert((ma + ra * pk) as int - (mb + rb * pk) as int == d) by {
        lemma_mul_is_distributive_sub_other_way(pki, ra as int, rb as int);
    }
    lemma_mul_mod_noop_right(zi, d, p);
    assert(c.1 as int == (zi * d) % p);
    // the randomness: sub_mod(a.0, b.0) ≡ ra - rb
    lemma_sub_mod_noop(ra as int, rb as int, p);
    assert(sub_mod(a.0, b.0) as int == dr % p);
    // m' + r'·pk ≡ z·dm + z·dr·pk = z·d
    let m2 = (z * sub_mod(ma, mb)) as int;
    let r2 = (z * sub_mod(a.0, b.0)) as int;
    assert(sub_mod(ma, mb) as int == dm % p);
    lemma_mul_mod_noop_right(zi, dm, p);
    assert(m2 % p == (zi * dm) % p);
    lemma_mul_mod_noop_right(zi, dr, p);
    assert(r2 % p == (zi * dr) % p);
    lemma_mul_mod_noop_left(r2, pki, p);
    lemma_mul_mod_noop_left(zi * dr, pki, p);
    assert((r2 * pki) % p == (zi * dr * pki) % p);
    lemma_add_mod_noop(m2, r2 * pki, p);
    lemma_add_mod_noop(zi * dm, zi * dr * pki, p);
    assert(zi * dm + zi * dr * pki == zi * d) by (nonlinear_arith)
        requires
            d == dm + dr * pki,
    ;
    assert(((m2 + r2 * pki) % p) == (zi * d) % p);
    assert(c.0 as int == r2 % p);
}

/// **A PET decides plaintext equality.** After a completed key generation,
/// for encryptions `a` of `m_a` and `b` of `m_b` under the joint key and a
/// nonzero blinding factor `z`, the first `t` trustees recover the identity
/// from `z·(a - b)` exactly when `m_a ≡ m_b (mod L)`.
pub proof fn lemma_pet_decides_equality(
    dkg: Dkg,
    a: (nat, nat),
    b: (nat, nat),
    ma: nat,
    ra: nat,
    mb: nat,
    rb: nat,
    z: nat,
)
    requires
        scalar_field(),
        dkg_wf(dkg),
        encrypts(a, dkg.public_key.0@, ma, ra),
        encrypts(b, dkg.public_key.0@, mb, rb),
        0 < z < group_order(),
    ensures
        (threshold_plaintext(comm_views(dkg.commitments@), dkg.t as nat, blinded_ratio(a, b, z)) == 0)
            <==> (ma % group_order() == mb % group_order()),
{
    let p = group_order() as int;
    let pk = dkg.public_key.0@;
    lemma_blinded_ratio_encrypts(a, b, pk, ma, ra, mb, rb, z);
    let m2 = z * sub_mod(ma, mb);
    lemma_threshold_decrypts_encryption(dkg, blinded_ratio(a, b, z), m2, z * sub_mod(a.0, b.0));
    let s = sub_mod(ma, mb);
    lemma_mod_bound(ma as int - mb as int, p);
    lemma_small_mod(z, group_order());
    if ma % group_order() == mb % group_order() {
        lemma_sub_mod_noop(ma as int, mb as int, p);
        lemma_mod_self_0(p);
        assert(s == 0) by {
            lemma_mod_twice(ma as int, p);
            lemma_mod_twice(mb as int, p);
            assert(((ma % group_order()) as int - (mb % group_order()) as int) == 0);
            lemma_small_mod(0, group_order());
        }
        assert(m2 == 0) by {
            lemma_mul_by_zero_is_zero(z as int);
        }
        lemma_small_mod(0, group_order());
    } else {
        // s ≠ 0: otherwise ma ≡ mb
        if s == 0 {
            lemma_sub_mod_noop(ma as int, mb as int, p);
            lemma_mod_twice(ma as int, p);
            lemma_mod_twice(mb as int, p);
            lemma_mod_bound(ma as int, p);
            lemma_mod_bound(mb as int, p);
            let x = (ma % group_order()) as int;
            let y = (mb % group_order()) as int;
            assert((x - y) % p == 0);
            assert(x == y) by (nonlinear_arith)
                requires
                    (x - y) % p == 0,
                    0 <= x < p,
                    0 <= y < p,
            ;
            assert(false);
        }
        lemma_small_mod(s, group_order());
        lemma_nonzero_product(z as int, s as int);
    }
}

/// Precomputed material for fast repeated PETs: the first `t` trustees'
/// shares and their Lagrange coefficients at 0. Computing it once, not per
/// PET, keeps the quadratic measurement tractable without changing its
/// asymptotics.
pub struct PetCtx {
    pub shares: Vec<Scalar>,
    pub lambdas: Vec<Scalar>,
}

/// The indices of the first `t` trustees.
pub open spec fn first_trustee_indices(dkg: Dkg) -> Seq<u64> {
    Seq::new(dkg.t as nat, |i: int| dkg.trustees@[i].index)
}

/// `ctx` holds the shares of the first `t` trustees of `dkg` and their
/// Lagrange coefficients.
pub open spec fn pet_ctx_for(ctx: PetCtx, dkg: Dkg) -> bool {
    &&& ctx.shares@.len() == dkg.t
    &&& ctx.lambdas@.len() == dkg.t
    &&& forall|k: int| 0 <= k < dkg.t ==> (#[trigger] ctx.shares@[k])@ == dkg.trustees@[k].share@
    &&& forall|k: int|
        0 <= k < dkg.t ==> (#[trigger] ctx.lambdas@[k])@ == lagrange(
            first_trustee_indices(dkg),
            dkg.trustees@[k].index,
        )
}

impl PetCtx {
    pub fn new(dkg: &Dkg) -> (ctx: PetCtx)
        requires
            dkg.t <= dkg.trustees@.len(),
        ensures
            pet_ctx_for(ctx, *dkg),
            ctx.shares@.len() == dkg.t,
            ctx.lambdas@.len() == dkg.t,
            forall|i: int| 0 <= i < dkg.t ==> (#[trigger] ctx.shares@[i])@ == dkg.trustees@[i].share@,
            forall|i: int|
                0 <= i < dkg.t ==> (#[trigger] ctx.lambdas@[i])@ == lagrange(
                    first_trustee_indices(*dkg),
                    dkg.trustees@[i].index,
                ),
    {
        let mut idx: Vec<u64> = Vec::with_capacity(dkg.t);
        let mut i: usize = 0;
        while i < dkg.t
            invariant
                i <= dkg.t,
                dkg.t <= dkg.trustees@.len(),
                idx@ == first_trustee_indices(*dkg).take(i as int),
            decreases dkg.t - i,
        {
            idx.push(dkg.trustees[i].index);
            assert(idx@ =~= first_trustee_indices(*dkg).take(i + 1));
            i = i + 1;
        }
        assert(idx@ =~= first_trustee_indices(*dkg));
        let mut lambdas: Vec<Scalar> = Vec::with_capacity(dkg.t);
        let mut shares: Vec<Scalar> = Vec::with_capacity(dkg.t);
        let mut i: usize = 0;
        while i < dkg.t
            invariant
                i <= dkg.t,
                dkg.t <= dkg.trustees@.len(),
                idx@ == first_trustee_indices(*dkg),
                lambdas@.len() == i,
                shares@.len() == i,
                forall|j: int| 0 <= j < i ==> (#[trigger] shares@[j])@ == dkg.trustees@[j].share@,
                forall|j: int|
                    0 <= j < i ==> (#[trigger] lambdas@[j])@ == lagrange(idx@, dkg.trustees@[j].index),
            decreases dkg.t - i,
        {
            assert(idx@[i as int] == dkg.trustees@[i as int].index);
            lambdas.push(lagrange_at_zero(idx.as_slice(), idx[i]));
            shares.push(dkg.trustees[i].share);
            i = i + 1;
        }
        PetCtx { shares, lambdas }
    }
}

/// `Σ_i ((λ_i·x_i) mod L)·c1`, over the first `n` pairs.
pub open spec fn fast_sum(lambdas: Seq<nat>, shares: Seq<nat>, c1: nat, n: nat) -> nat
    decreases n,
{
    if n == 0 {
        0
    } else {
        (fast_sum(lambdas, shares, c1, (n - 1) as nat) + (((lambdas[n - 1] * shares[n - 1])
            % group_order()) * c1) % group_order()) % group_order()
    }
}

/// What `pet_fast` computes from the blinded ciphertext `c`: whether
/// `c2 - Σ λ_i·x_i·c1` is the identity.
pub open spec fn fast_pet_holds(ctx: PetCtx, c: (nat, nat)) -> bool {
    let n = if ctx.shares@.len() <= ctx.lambdas@.len() {
        ctx.shares@.len()
    } else {
        ctx.lambdas@.len()
    };
    sub_mod(
        c.1,
        fast_sum(
            ctx.lambdas@.map_values(|s: Scalar| s@),
            ctx.shares@.map_values(|s: Scalar| s@),
            c.0,
            n,
        ),
    ) == 0
}

/// The fast sum over the first `m` trustees is the Lagrange combination of
/// their honest partial decryptions.
proof fn lemma_fast_sum_combines(dkg: Dkg, ctx: PetCtx, c1: nat, m: nat)
    requires
        dkg_wf(dkg),
        m <= dkg.t,
        ctx.shares@.len() == dkg.t,
        ctx.lambdas@.len() == dkg.t,
        forall|i: int| 0 <= i < dkg.t ==> (#[trigger] ctx.shares@[i])@ == dkg.trustees@[i].share@,
        forall|i: int|
            0 <= i < dkg.t ==> (#[trigger] ctx.lambdas@[i])@ == lagrange(
                first_trustee_indices(dkg),
                dkg.trustees@[i].index,
            ),
    ensures
        fast_sum(ctx.lambdas@.map_values(|s: Scalar| s@), ctx.shares@.map_values(|s: Scalar| s@), c1, m)
            == lagrange_sum(
            first_indices(dkg.t as nat),
            honest_pairs(comm_views(dkg.commitments@), dkg.t as nat, c1).take(m as int),
        ),
    decreases m,
{
    let p = group_order() as int;
    let t = dkg.t as nat;
    let cv = comm_views(dkg.commitments@);
    let hp = honest_pairs(cv, t, c1);
    let lv = ctx.lambdas@.map_values(|s: Scalar| s@);
    let sv = ctx.shares@.map_values(|s: Scalar| s@);
    assert(first_trustee_indices(dkg) =~= first_indices(t));
    if m > 0 {
        let i = m - 1;
        lemma_fast_sum_combines(dkg, ctx, c1, (m - 1) as nat);
        let ps = hp.take(m as int);
        assert(ps.drop_last() =~= hp.take(i));
        assert(ps.last() == hp[i]);
        assert(dkg.trustees@[i].index == m);
        let lam = lv[i];
        let x = sv[i];
        assert(lam == lagrange(first_indices(t), m as u64));
        assert(x == share_sum(cv, m));
        lemma_mul_mod_noop_right(lam as int, (x * c1) as int, p);
        lemma_mul_mod_noop_left((lam * x) as int, c1 as int, p);
        lemma_mul_is_associative(lam as int, x as int, c1 as int);
    }
}

/// **The fast PET is the PET.** With the first `t` trustees' shares and
/// Lagrange coefficients precomputed from a completed key generation, the
/// fast test on a blinded ciphertext decides exactly what the threshold
/// combination of honest partial decryptions decides.
pub proof fn lemma_fast_pet_agrees(dkg: Dkg, ctx: PetCtx, c: (nat, nat))
    requires
        dkg_wf(dkg),
        ctx.shares@.len() == dkg.t,
        ctx.lambdas@.len() == dkg.t,
        forall|i: int| 0 <= i < dkg.t ==> (#[trigger] ctx.shares@[i])@ == dkg.trustees@[i].share@,
        forall|i: int|
            0 <= i < dkg.t ==> (#[trigger] ctx.lambdas@[i])@ == lagrange(
                first_trustee_indices(dkg),
                dkg.trustees@[i].index,
            ),
    ensures
        fast_pet_holds(ctx, c) == (threshold_plaintext(
            comm_views(dkg.commitments@),
            dkg.t as nat,
            c,
        ) == 0),
{
    let t = dkg.t as nat;
    lemma_fast_sum_combines(dkg, ctx, c.0, t);
    let hp = honest_pairs(comm_views(dkg.commitments@), t, c.0);
    assert(hp.take(t as int) =~= hp);
}

/// A threshold PET without the per-partial Chaum-Pedersen proofs (the
/// trustees follow the protocol, for the purpose of measuring the dedup
/// loop's cost): ratio, blind, the partial decryptions, Lagrange combine,
/// identity check.
pub fn pet_fast(ctx: &PetCtx, a: &Ciphertext, b: &Ciphertext, rng: &mut StdRng) -> (r: bool)
    ensures
        exists|z: nat|
            0 < z < group_order() && r == #[trigger] fast_pet_holds(
                *ctx,
                blinded_ratio(ct_view(*a), ct_view(*b), z),
            ),
{
    let z = nonzero_blinding(rng);
    let c1 = a.c1.sub(&b.c1).mul(&z);
    let c2 = a.c2.sub(&b.c2).mul(&z);
    let ghost lv = ctx.lambdas@.map_values(|s: Scalar| s@);
    let ghost sv = ctx.shares@.map_values(|s: Scalar| s@);
    let n: usize = if ctx.shares.len() <= ctx.lambdas.len() {
        ctx.shares.len()
    } else {
        ctx.lambdas.len()
    };
    let mut xc1 = Point::identity();
    let mut i: usize = 0;
    while i < n
        invariant
            i <= n,
            n <= ctx.shares@.len(),
            n <= ctx.lambdas@.len(),
            lv == ctx.lambdas@.map_values(|s: Scalar| s@),
            sv == ctx.shares@.map_values(|s: Scalar| s@),
            xc1@ == fast_sum(lv, sv, c1@, i as nat),
        decreases n - i,
    {
        let coeff = ctx.lambdas[i].mul(&ctx.shares[i]);
        xc1 = xc1.add(&c1.mul(&coeff));
        i = i + 1;
    }
    let r = c2.sub(&xc1).eq(&Point::identity());
    proof {
        let c = blinded_ratio(ct_view(*a), ct_view(*b), z@);
        assert(c == (c1@, c2@));
        assert(r == fast_pet_holds(*ctx, c));
    }
    r
}

/// The pairwise duplicate-elimination phase of a JCJ tally over `n`
/// ballots with planted re-votes, run with real PETs.
pub struct DedupMeasurement {
    pub n: usize,
    pub pets_run: u64,
    pub duplicates_found: u64,
    /// Wall-clock time of the pairwise phase, in microseconds.
    pub micros: u64,
}

/// Each ballot encrypts, under `pk`, the credential at its position.
pub open spec fn encrypts_credentials(ballots: Seq<Ciphertext>, pk: nat, creds: Seq<nat>) -> bool {
    let n = ballots.len();
    &&& creds.len() == n
    &&& forall|i: int| 0 <= i < n ==> #[trigger] creds[i] < group_order()
    &&& forall|i: int| 0 <= i < n ==> #[trigger] encrypts_some(ct_view(ballots[i]), pk, creds[i])
}

/// Each ballot encrypts its credential under `pk`, and the last
/// `min(revote_pairs, n / 2)` credentials repeat the first ones in reverse
/// order.
pub open spec fn encrypts_planted(ballots: Seq<Ciphertext>, pk: nat, revote_pairs: nat, creds: Seq<nat>) -> bool {
    let n = ballots.len();
    &&& encrypts_credentials(ballots, pk, creds)
    &&& forall|p: int| 0 <= p < revote_pairs && p < n / 2 ==> #[trigger] creds[n - 1 - p] == creds[p]
}

/// `n` ballots: fresh random credentials, except that the last
/// `min(revote_pairs, n / 2)` repeat the first ones in reverse order (a
/// re-vote: the same credential twice), each encrypted afresh.
fn dedup_ballots(pk: &PublicKey, n: usize, revote_pairs: usize, rng: &mut StdRng) -> (r: Vec<
    Ciphertext,
>)
    ensures
        r@.len() == n,
        exists|creds: Seq<nat>| #[trigger] encrypts_planted(r@, pk.0@, revote_pairs as nat, creds),
{
    let mut creds: Vec<Point> = Vec::with_capacity(n);
    let mut i: usize = 0;
    while i < n
        invariant
            i <= n,
            creds@.len() == i,
        decreases n - i,
    {
        let s = Scalar::random(rng);
        creds.push(g().mul(&s));
        i = i + 1;
    }
    let planted = if revote_pairs < n / 2 {
        revote_pairs
    } else {
        n / 2
    };
    let mut p: usize = 0;
    while p < planted
        invariant
            p <= planted,
            planted <= n / 2,
            planted <= revote_pairs,
            creds@.len() == n,
            forall|q: int| 0 <= q < p ==> #[trigger] creds@[n - 1 - q] == creds@[q],
            forall|q: int| p <= q < planted ==> creds@[q] == creds@[q],
        decreases planted - p,
    {
        let c = creds[p];
        creds.set(n - 1 - p, c);
        p = p + 1;
    }
    let ghost cv = creds@.map_values(|c: Point| c@);
    let mut ballots: Vec<Ciphertext> = Vec::with_capacity(n);
    let mut i: usize = 0;
    while i < n
        invariant
            i <= n,
            creds@.len() == n,
            cv == creds@.map_values(|c: Point| c@),
            planted <= n / 2,
            planted == if revote_pairs < n / 2 {
                revote_pairs
            } else {
                n / 2
            },
            forall|q: int| 0 <= q < planted ==> #[trigger] creds@[n - 1 - q] == creds@[q],
            ballots@.len() == i,
            forall|j: int|
                0 <= j < i ==> #[trigger] encrypts_some(ct_view(ballots@[j]), pk.0@, cv[j]),
            forall|j: int| 0 <= j < i ==> #[trigger] cv[j] < group_order(),
        decreases n - i,
    {
        creds[i].reduced();
        ballots.push(encrypt_credential(pk, creds[i], rng));
        i = i + 1;
    }
    assert forall|q: int| 0 <= q < revote_pairs && q < n / 2 implies #[trigger] cv[n - 1 - q]
        == cv[q] by {
        assert(creds@[n - 1 - q] == creds@[q]);
    }
    assert(encrypts_planted(ballots@, pk.0@, revote_pairs as nat, cv));
    ballots
}

/// The number of pairs `(i, j)` with `i < j < n`.
pub open spec fn pair_count(n: nat) -> nat
    decreases n,
{
    if n == 0 {
        0
    } else {
        pair_count((n - 1) as nat) + (n - 1) as nat
    }
}

/// The number of re-vote pairs that `measure_dedup` plants.
pub open spec fn planted_pairs(n: nat, revote_pairs: nat) -> nat {
    if revote_pairs < n / 2 {
        revote_pairs
    } else {
        n / 2
    }
}

/// How many positions `b` with `i < b < j` hold the credential at `i`.
pub open spec fn row_matches(creds: Seq<nat>, i: int, j: int) -> nat
    decreases j - i,
{
    if j <= i + 1 {
        0
    } else {
        row_matches(creds, i, j - 1) + if creds[j - 1] == creds[i] {
            1nat
        } else {
            0nat
        }
    }
}

/// How many pairs `(a, b)` with `a < m` and `a < b < creds.len()` hold equal
/// credentials.
pub open spec fn equal_pairs(creds: Seq<nat>, m: nat) -> nat
    decreases m,
{
    if m == 0 {
        0
    } else {
        equal_pairs(creds, (m - 1) as nat) + row_matches(creds, m - 1, creds.len() as int)
    }
}

proof fn lemma_row_matches_one(creds: Seq<nat>, i: int, b: int, j: int)
    requires
        0 <= i < b < j <= creds.len(),
        creds[b] == creds[i],
        forall|c: int| i < c < j && c != b ==> creds[c] != creds[i],
    ensures
        row_matches(creds, i, j) == 1,
    decreases j - i,
{
    if j - 1 > b {
        lemma_row_matches_one(creds, i, b, j - 1);
    } else {
        lemma_row_matches_none(creds, i, j - 1);
    }
}

proof fn lemma_row_matches_none(creds: Seq<nat>, i: int, j: int)
    requires
        0 <= i,
        j <= creds.len(),
        forall|c: int| i < c < j ==> creds[c] != creds[i],
    ensures
        row_matches(creds, i, j) == 0,
    decreases j - i,
{
    if j > i + 1 {
        lemma_row_matches_none(creds, i, j - 1);
    }
}

/// The credentials are pairwise distinct except for the planted re-vote
/// pairs `(p, n - 1 - p)`, `p < planted`.
pub open spec fn distinct_but_planted(creds: Seq<nat>, planted: nat) -> bool {
    forall|a: int, b: int|
        0 <= a < b < creds.len() ==> (#[trigger] creds[a] == #[trigger] creds[b] <==> (a < planted && b
            == creds.len() - 1 - a))
}

/// **Only re-votes are duplicates.** When the drawn credentials are
/// pairwise distinct apart from the planted re-vote pairs, the equal pairs
/// are exactly the planted ones.
pub proof fn lemma_dedup_counts_planted(creds: Seq<nat>, planted: nat, m: nat)
    requires
        distinct_but_planted(creds, planted),
        planted <= creds.len() / 2,
        m <= creds.len(),
    ensures
        equal_pairs(creds, m) == if m < planted {
            m
        } else {
            planted
        },
    decreases m,
{
    let n = creds.len() as int;
    if m > 0 {
        let a = m - 1;
        lemma_dedup_counts_planted(creds, planted, (m - 1) as nat);
        if a < planted {
            let b = n - 1 - a;
            assert(a < b);
            assert(creds[a] == creds[b]);
            assert forall|c: int| a < c < n && c != b implies creds[c] != creds[a] by {
                if creds[c] == creds[a] {
                    assert(creds[a] == creds[c]);
                }
            }
            lemma_row_matches_one(creds, a, b, n);
        } else {
            assert forall|c: int| a < c < n implies creds[c] != creds[a] by {
                if creds[c] == creds[a] {
                    assert(creds[a] == creds[c]);
                }
            }
            lemma_row_matches_none(creds, a, n);
        }
    }
}

/// Row `i` holds a match whenever some later position before `j` repeats
/// its credential.
proof fn lemma_row_matches_positive(creds: Seq<nat>, i: int, b: int, j: int)
    requires
        0 <= i < b < j <= creds.len(),
        creds[b] == creds[i],
    ensures
        row_matches(creds, i, j) >= 1,
    decreases j - i,
{
    if j - 1 > b {
        lemma_row_matches_positive(creds, i, b, j - 1);
    }
}

/// The planted re-vote pairs are among the equal pairs.
proof fn lemma_planted_lower_bound(creds: Seq<nat>, planted: nat, m: nat)
    requires
        planted <= creds.len() / 2,
        m <= creds.len(),
        forall|p: int| 0 <= p < planted ==> #[trigger] creds[creds.len() - 1 - p] == creds[p],
    ensures
        equal_pairs(creds, m) >= if m < planted {
            m
        } else {
            planted
        },
    decreases m,
{
    if m > 0 {
        lemma_planted_lower_bound(creds, planted, (m - 1) as nat);
        let a = m - 1;
        if a < planted {
            let n = creds.len() as int;
            assert(creds[n - 1 - a] == creds[a]);
            lemma_row_matches_positive(creds, a, n - 1 - a, n);
        }
    }
}

/// Run one fast PET on every pair of ballots and count the pairs found
/// equal: the pairwise duplicate elimination of a JCJ tally. Returns the
/// number of PETs run and the number of duplicates found.
pub fn count_duplicates(dkg: &Dkg, ctx: &PetCtx, ballots: &Vec<Ciphertext>, rng: &mut StdRng) -> (r: (
    u64,
    u64,
))
    requires
        pet_ctx_for(*ctx, *dkg),
        ballots@.len() * ballots@.len() <= u64::MAX,
    ensures
        r.0 == pair_count(ballots@.len()),
        r.1 <= r.0,
        scalar_field() && dkg_wf(*dkg) ==> forall|creds: Seq<nat>|
            #[trigger] encrypts_credentials(ballots@, dkg.public_key.0@, creds) ==> r.1
                == equal_pairs(creds, ballots@.len()),
{
    let n = ballots.len();
    let ghost pk = dkg.public_key.0@;
    let ghost good = scalar_field() && dkg_wf(*dkg);
    let mut pets: u64 = 0;
    let mut dups: u64 = 0;
    let mut i: usize = 0;
    while i < n
        invariant
            i <= n,
            ballots@.len() == n,
            n * n <= u64::MAX,
            pets == pair_count(n as nat) - pair_count((n - i) as nat),
            dups <= pets,
            pk == dkg.public_key.0@,
            good == (scalar_field() && dkg_wf(*dkg)),
            pet_ctx_for(*ctx, *dkg),
            good ==> forall|creds: Seq<nat>|
                #[trigger] encrypts_credentials(ballots@, pk, creds) ==> dups == equal_pairs(
                    creds,
                    i as nat,
                ),
        decreases n - i,
    {
        let mut j: usize = i + 1;
        while j < n
            invariant
                i < n,
                i + 1 <= j <= n,
                ballots@.len() == n,
                n * n <= u64::MAX,
                pets == pair_count(n as nat) - pair_count((n - i) as nat) + (j - i - 1),
                dups <= pets,
                pk == dkg.public_key.0@,
                good == (scalar_field() && dkg_wf(*dkg)),
                pet_ctx_for(*ctx, *dkg),
                good ==> forall|creds: Seq<nat>|
                    #[trigger] encrypts_credentials(ballots@, pk, creds) ==> dups == equal_pairs(
                        creds,
                        i as nat,
                    ) + row_matches(creds, i as int, j as int),
            decreases n - j,
        {
            proof {
                lemma_pair_count_step(n as nat, i as nat, j as nat);
            }
            pets = pets + 1;
            let is_dup = pet_fast(ctx, &ballots[i], &ballots[j], rng);
            let ghost d0 = dups;
            if is_dup {
                dups = dups + 1;
            }
            proof {
                if good {
                    assert forall|creds: Seq<nat>|
                        #[trigger] encrypts_credentials(ballots@, pk, creds) implies dups
                        == equal_pairs(creds, i as nat) + row_matches(creds, i as int, j + 1) by {
                        assert(d0 == equal_pairs(creds, i as nat) + row_matches(creds, i as int, j as int));
                        lemma_pet_fast_exact(*dkg, *ctx, ballots@, pk, creds, i as int, j as int, is_dup);
                    }
                }
            }
            j = j + 1;
        }
        proof {
            lemma_pair_count_row(n as nat, i as nat);
            if good {
                assert forall|creds: Seq<nat>|
                    #[trigger] encrypts_credentials(ballots@, pk, creds) implies dups == equal_pairs(
                        creds,
                        (i + 1) as nat,
                    ) by {
                    assert(creds.len() == n);
                }
            }
        }
        i = i + 1;
    }
    (pets, dups)
}

/// Run the pairwise duplicate-elimination phase for `n` ballots (with
/// `min(revote_pairs, n / 2)` planted re-votes) using real threshold PETs,
/// and time it. This is the quadratic phase of a JCJ tally: one PET per
/// pair of ballots.
pub fn measure_dedup(dkg: &Dkg, n: usize, revote_pairs: usize, rng: &mut StdRng) -> (m:
    DedupMeasurement)
    requires
        dkg.t <= dkg.trustees@.len(),
        n * n <= u64::MAX,
    ensures
        m.n == n,
        m.pets_run == pair_count(n as nat),
        m.duplicates_found <= m.pets_run,
        scalar_field() && dkg_wf(*dkg) ==> m.duplicates_found >= planted_pairs(
            n as nat,
            revote_pairs as nat,
        ),
        scalar_field() && dkg_wf(*dkg) ==> exists|creds: Seq<nat>|
            {
                &&& creds.len() == n
                &&& forall|p: int|
                    0 <= p < planted_pairs(n as nat, revote_pairs as nat) ==> #[trigger] creds[n - 1
                        - p] == creds[p]
                &&& m.duplicates_found == equal_pairs(creds, n as nat)
                &&& distinct_but_planted(creds, planted_pairs(n as nat, revote_pairs as nat))
                    ==> m.duplicates_found == planted_pairs(n as nat, revote_pairs as nat)
            },
{
    let pk = dkg.public_key;
    let ballots = dedup_ballots(&pk, n, revote_pairs, rng);
    let ghost creds = choose|creds: Seq<nat>| #[trigger] encrypts_planted(
        ballots@,
        pk.0@,
        revote_pairs as nat,
        creds,
    );
    let ghost planted = planted_pairs(n as nat, revote_pairs as nat);
    let ctx = PetCtx::new(dkg);
    let start = clock_now();
    let (pets, dups) = count_duplicates(dkg, &ctx, &ballots, rng);
    let micros = micros_since(&start);
    proof {
        if scalar_field() && dkg_wf(*dkg) {
            assert(encrypts_credentials(ballots@, pk.0@, creds));
            assert(creds.len() == n);
            assert forall|p: int| 0 <= p < planted implies #[trigger] creds[n - 1 - p] == creds[p] by {}
            lemma_planted_lower_bound(creds, planted, n as nat);
            if distinct_but_planted(creds, planted) {
                lemma_dedup_counts_planted(creds, planted, n as nat);
            }
        }
    }
    DedupMeasurement { n, pets_run: pets, duplicates_found: dups, micros }
}

proof fn lemma_sub_mod_self(m: nat)
    ensures
        sub_mod(m, m) == 0,
{
    lemma_small_mod(0, group_order());
}

/// The fast PET on ballots `i < j` answers whether their credentials are
/// equal.
proof fn lemma_pet_fast_exact(
    dkg: Dkg,
    ctx: PetCtx,
    ballots: Seq<Ciphertext>,
    pk: nat,
    creds: Seq<nat>,
    i: int,
    j: int,
    r: bool,
)
    requires
        scalar_field(),
        dkg_wf(dkg),
        pk == dkg.public_key.0@,
        encrypts_credentials(ballots, pk, creds),
        0 <= i < j < ballots.len(),
        ctx.shares@.len() == dkg.t,
        ctx.lambdas@.len() == dkg.t,
        forall|k: int| 0 <= k < dkg.t ==> (#[trigger] ctx.shares@[k])@ == dkg.trustees@[k].share@,
        forall|k: int|
            0 <= k < dkg.t ==> (#[trigger] ctx.lambdas@[k])@ == lagrange(
                first_trustee_indices(dkg),
                dkg.trustees@[k].index,
            ),
        exists|z: nat|
            0 < z < group_order() && r == #[trigger] fast_pet_holds(
                ctx,
                blinded_ratio(ct_view(ballots[i]), ct_view(ballots[j]), z),
            ),
    ensures
        r == (creds[i] == creds[j]),
{
    let a = ct_view(ballots[i]);
    let b = ct_view(ballots[j]);
    assert(encrypts_some(a, pk, creds[i]));
    assert(encrypts_some(b, pk, creds[j]));
    let ra = choose|r: nat| #[trigger] encrypts(a, pk, creds[i], r);
    let rb = choose|r: nat| #[trigger] encrypts(b, pk, creds[j], r);
    let z = choose|z: nat| 0 < z < group_order() && r == #[trigger] fast_pet_holds(ctx, blinded_ratio(a, b, z));
    lemma_fast_pet_agrees(dkg, ctx, blinded_ratio(a, b, z));
    lemma_pet_decides_equality(dkg, a, b, creds[i], ra, creds[j], rb, z);
    assert(creds[i] < group_order() && creds[j] < group_order());
    lemma_small_mod(creds[i], group_order());
    lemma_small_mod(creds[j], group_order());
}

/// Inside row `i`, the count stays within the pairs of all rows.
proof fn lemma_pair_count_step(n: nat, i: nat, j: nat)
    requires
        i < j < n,
        n * n <= u64::MAX,
    ensures
        pair_count(n) - pair_count((n - i) as nat) + (j - i - 1) < pair_count(n),
        pair_count(n) <= u64::MAX,
        pair_count((n - i) as nat) <= pair_count(n),
        pair_count((n - i) as nat) == pair_count((n - i - 1) as nat) + (n - i - 1),
{
    lemma_pair_count_bound(n);
    lemma_pair_count_mono((n - i) as nat, n);
    assert(n <= n * n) by (nonlinear_arith)
        requires
            n >= 1,
    ;
}

/// Row `i` of the pairs adds `n - i - 1`.
proof fn lemma_pair_count_row(n: nat, i: nat)
    requires
        i < n,
    ensures
        pair_count((n - i) as nat) == pair_count((n - i - 1) as nat) + (n - i - 1),
{
}

proof fn lemma_pair_count_bound(n: nat)
    ensures
        pair_count(n) <= n * n,
    decreases n,
{
    if n > 0 {
        lemma_pair_count_bound((n - 1) as nat);
        assert((n - 1) * (n - 1) + (n - 1) <= n * n) by (nonlinear_arith)
            requires
                n >= 1,
        ;
    }
}

proof fn lemma_pair_count_mono(a: nat, b: nat)
    requires
        a <= b,
    ensures
        pair_count(a) <= pair_count(b),
    decreases b,
{
    if a < b {
        lemma_pair_count_mono(a, (b - 1) as nat);
    }
}

} // verus!
