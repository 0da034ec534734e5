//! Lagrange interpolation at zero, the identity behind threshold decryption.
//!
//! For a polynomial `F` with at most as many coefficients as there are
//! pairwise distinct indices `x_1, …, x_m`, `Σ_k λ_k·F(x_k) = F(0)` modulo
//! `L`, where `λ_k = Π_{j≠k} x_j/(x_j - x_k)`. The proof builds the
//! Lagrange interpolant `P(z) = Σ_k F(x_k)·Π_{j≠k} (z - x_j)/(x_k - x_j)` as
//! an integer coefficient list, observes that `P - F` vanishes modulo `L` at
//! all `m` indices, and concludes that it vanishes everywhere, at `0` in
//! particular, because a polynomial over a field has no more roots than its
//! degree.
//!
//! The only fact about `L` used is that it is prime: every nonzero residue
//! has an inverse ([`scalar_field`]).
use vstd::prelude::*;
use vstd::arithmetic::div_mod::*;
use vstd::arithmetic::mul::*;
use crate::algebra::{pow_mod, powsum};
use crate::dkg::{comm_views, dkg_wf, share_sum, Dkg};
use crate::elgamal::{decryption, encrypts, lemma_decrypts};
use crate::group::{group_order, inv_mod, sub_mod};
use crate::threshold::{
    accepted_partials, combine_spec, first_indices, honest_pairs, index_d_pairs, lagrange,
    lagrange_den, lagrange_num, lagrange_sum, lemma_accepted_partials, partial_indices,
    threshold_plaintext,
};

verus! {

// ---------------------------------------------------------------------
// The field Z/L
// ---------------------------------------------------------------------

/// `a` has a multiplicative inverse modulo `L`.
pub open spec fn invertible(a: nat) -> bool {
    exists|r: nat| r < group_order() && #[trigger] ((a * r) % group_order()) == 1
}

/// `Z/L` is a field: as `L` is prime, every nonzero residue is invertible.
pub open spec fn scalar_field() -> bool {
    forall|a: nat| 0 < a < group_order() ==> #[trigger] invertible(a)
}

proof fn lemma_inverse(a: nat)
    requires
        scalar_field(),
        a % group_order() != 0,
    ensures
        (a * inv_mod(a)) % group_order() == 1,
{
    let p = group_order() as int;
    let a0 = a % group_order();
    assert(invertible(a0));
    let r = choose|r: nat| r < group_order() && #[trigger] ((a0 * r) % group_order()) == 1;
    lemma_mul_mod_noop_left(a as int, r as int, p);
    assert(r < group_order() && ((a * r) % group_order()) == 1);
}

/// In a field, a product of nonzero residues is nonzero.
pub proof fn lemma_nonzero_product(a: int, b: int)
    requires
        scalar_field(),
        a % (group_order() as int) != 0,
        b % (group_order() as int) != 0,
    ensures
        (a * b) % (group_order() as int) != 0,
{
    let p = group_order() as int;
    lemma_mod_bound(a, p);
    let a0 = (a % p) as nat;
    assert(invertible(a0));
    let r = choose|r: nat| r < group_order() && #[trigger] ((a0 * r) % group_order()) == 1;
    if (a * b) % p == 0 {
        lemma_mul_mod_noop_right(r as int, a * b, p);
        assert((r * (a * b)) % p == (r as int * 0) % p);
        lemma_mul_is_associative(r as int, a, b);
        lemma_mul_mod_noop_left(r * a, b, p);
        lemma_mul_mod_noop_right(r as int, a, p);
        lemma_mul_is_commutative(r as int, a0 as int);
        assert((r * a) % p == 1);
        assert(((r * a) * b) % p == (1 * b) % p);
        assert(false);
    }
}

/// `(a·b) mod L = 0` and `a mod L ≠ 0` give `b mod L = 0`.
proof fn lemma_cancel_nonzero(a: int, b: int)
    requires
        scalar_field(),
        a % (group_order() as int) != 0,
        (a * b) % (group_order() as int) == 0,
    ensures
        b % (group_order() as int) == 0,
{
    if b % (group_order() as int) != 0 {
        lemma_nonzero_product(a, b);
    }
}

/// A nonzero integer strictly between `-L` and `L` is nonzero modulo `L`.
proof fn lemma_small_nonzero(d: int)
    requires
        d != 0,
        -(group_order() as int) < d < group_order() as int,
    ensures
        d % (group_order() as int) != 0,
{
    let p = group_order() as int;
    assert(d % p != 0) by (nonlinear_arith)
        requires
            d != 0,
            -p < d < p,
            p > 0,
    ;
}

/// `b ≡ c (mod L)` gives `a·b ≡ a·c (mod L)`.
proof fn lemma_mul_congruent(a: int, b: int, c: int)
    requires
        b % (group_order() as int) == c % (group_order() as int),
    ensures
        (a * b) % (group_order() as int) == (a * c) % (group_order() as int),
{
    let p = group_order() as int;
    lemma_mul_mod_noop_right(a, b, p);
    lemma_mul_mod_noop_right(a, c, p);
}

// ---------------------------------------------------------------------
// Integer polynomials and the shares they reduce to
// ---------------------------------------------------------------------

/// `x^k` over the integers.
spec fn power(x: int, k: nat) -> int
    decreases k,
{
    if k == 0 {
        1
    } else {
        x * power(x, (k - 1) as nat)
    }
}

/// `Σ c[k]·x^k` over the integers.
spec fn poly_value(c: Seq<nat>, x: int) -> int
    decreases c.len(),
{
    if c.len() == 0 {
        0
    } else {
        poly_value(c.drop_last(), x) + c.last() * power(x, (c.len() - 1) as nat)
    }
}

/// The joint polynomial `Σ_j Σ_k cv[j][k]·x^k` of all dealers, over the
/// integers.
spec fn joint_value(cv: Seq<Seq<nat>>, x: int) -> int
    decreases cv.len(),
{
    if cv.len() == 0 {
        0
    } else {
        joint_value(cv.drop_last(), x) + poly_value(cv.last(), x)
    }
}

/// `Σ c[k]·z^k` over the integers, by Horner's rule.
spec fn hval(c: Seq<int>, z: int) -> int
    decreases c.len(),
{
    if c.len() == 0 {
        0
    } else {
        c[0] + z * hval(c.drop_first(), z)
    }
}

spec fn ints(c: Seq<nat>) -> Seq<int> {
    c.map_values(|v: nat| v as int)
}

proof fn lemma_hval_last(c: Seq<int>, x: int)
    requires
        c.len() >= 1,
    ensures
        hval(c, x) == hval(c.drop_last(), x) + c.last() * power(x, (c.len() - 1) as nat),
    decreases c.len(),
{
    let d = c.drop_first();
    if c.len() == 1 {
        assert(d.len() == 0);
        assert(c.drop_last().len() == 0);
        assert(hval(d, x) == 0);
        assert(hval(c.drop_last(), x) == 0);
        lemma_mul_by_zero_is_zero(x);
        assert(power(x, 0) == 1);
        assert(c.last() == c[0]);
    } else {
        lemma_hval_last(d, x);
        assert(c.drop_last().drop_first() =~= d.drop_last());
        assert(c.drop_last()[0] == c[0]);
        assert(d.last() == c.last());
        let k = (c.len() - 2) as nat;
        let h = hval(d.drop_last(), x);
        assert(power(x, k + 1) == x * power(x, k));
        assert(hval(c.drop_last(), x) == c[0] + x * h);
        assert(x * (h + c.last() * power(x, k)) == x * h + c.last() * (x * power(x, k)))
            by (nonlinear_arith);
    }
}

proof fn lemma_poly_value_hval(c: Seq<nat>, x: int)
    ensures
        poly_value(c, x) == hval(ints(c), x),
    decreases c.len(),
{
    if c.len() > 0 {
        lemma_poly_value_hval(c.drop_last(), x);
        assert(ints(c).drop_last() =~= ints(c.drop_last()));
        lemma_hval_last(ints(c), x);
    } else {
        assert(ints(c).len() == 0);
    }
}

/// The coefficients of the joint polynomial of all dealers.
spec fn joint_coeffs(cv: Seq<Seq<nat>>) -> Seq<int>
    decreases cv.len(),
{
    if cv.len() == 0 {
        Seq::empty()
    } else {
        padd(joint_coeffs(cv.drop_last()), ints(cv.last()))
    }
}

proof fn lemma_joint_coeffs(cv: Seq<Seq<nat>>, x: int, bound: nat)
    requires
        forall|j: int| 0 <= j < cv.len() ==> (#[trigger] cv[j]).len() <= bound,
    ensures
        hval(joint_coeffs(cv), x) == joint_value(cv, x),
        joint_coeffs(cv).len() <= bound,
    decreases cv.len(),
{
    if cv.len() > 0 {
        assert(cv.last() == cv[cv.len() - 1]);
        lemma_joint_coeffs(cv.drop_last(), x, bound);
        lemma_poly_value_hval(cv.last(), x);
        lemma_padd(joint_coeffs(cv.drop_last()), ints(cv.last()), x);
    }
}

proof fn lemma_pow_reduces(x: nat, k: nat)
    ensures
        pow_mod(x, k) as int == power(x as int, k) % (group_order() as int),
    decreases k,
{
    let p = group_order() as int;
    if k == 0 {
        lemma_small_mod(1, group_order());
    } else {
        lemma_pow_reduces(x, (k - 1) as nat);
        let q = power(x as int, (k - 1) as nat);
        lemma_mul_mod_noop_left(q, x as int, p);
        lemma_mul_is_commutative(q, x as int);
    }
}

proof fn lemma_powsum_reduces(c: Seq<nat>, x: nat)
    ensures
        powsum(c, x) as int == poly_value(c, x as int) % (group_order() as int),
    decreases c.len(),
{
    let p = group_order() as int;
    if c.len() == 0 {
        lemma_small_mod(0, group_order());
    } else {
        let k = (c.len() - 1) as nat;
        lemma_powsum_reduces(c.drop_last(), x);
        lemma_pow_reduces(x, k);
        let q = power(x as int, k);
        let l = c.last() as int;
        lemma_mul_mod_noop_left(q, l, p);
        lemma_mul_is_commutative(q, l);
        lemma_add_mod_noop(poly_value(c.drop_last(), x as int), l * q, p);
    }
}

proof fn lemma_share_sum_reduces(cv: Seq<Seq<nat>>, x: nat)
    ensures
        share_sum(cv, x) as int == joint_value(cv, x as int) % (group_order() as int),
    decreases cv.len(),
{
    let p = group_order() as int;
    if cv.len() == 0 {
        lemma_small_mod(0, group_order());
    } else {
        lemma_share_sum_reduces(cv.drop_last(), x);
        lemma_powsum_reduces(cv.last(), x);
        lemma_add_mod_noop(joint_value(cv.drop_last(), x as int), poly_value(cv.last(), x as int), p);
    }
}

/// A joint share is reduced modulo `L`.
pub proof fn lemma_share_sum_below(cv: Seq<Seq<nat>>, x: nat)
    ensures
        share_sum(cv, x) < group_order(),
{
    if cv.len() > 0 {
        lemma_mod_bound((share_sum(cv.drop_last(), x) + powsum(cv.last(), x)) as int, group_order() as int);
    }
}

// ---------------------------------------------------------------------
// Coefficient arithmetic
// ---------------------------------------------------------------------

spec fn padd(c: Seq<int>, d: Seq<int>) -> Seq<int>
    decreases c.len() + d.len(),
{
    if c.len() == 0 {
        d
    } else if d.len() == 0 {
        c
    } else {
        seq![c[0] + d[0]] + padd(c.drop_first(), d.drop_first())
    }
}

proof fn lemma_padd(c: Seq<int>, d: Seq<int>, z: int)
    ensures
        hval(padd(c, d), z) == hval(c, z) + hval(d, z),
        padd(c, d).len() == if c.len() >= d.len() {
            c.len()
        } else {
            d.len()
        },
    decreases c.len() + d.len(),
{
    if c.len() > 0 && d.len() > 0 {
        lemma_padd(c.drop_first(), d.drop_first(), z);
        let r = padd(c, d);
        assert(r.drop_first() =~= padd(c.drop_first(), d.drop_first()));
        let a = hval(c.drop_first(), z);
        let b = hval(d.drop_first(), z);
        assert(z * (a + b) == z * a + z * b) by (nonlinear_arith);
    } else if c.len() == 0 {
        assert(hval(c, z) == 0);
    } else {
        assert(hval(d, z) == 0);
    }
}

spec fn pscale(k: int, c: Seq<int>) -> Seq<int>
    decreases c.len(),
{
    if c.len() == 0 {
        Seq::empty()
    } else {
        seq![k * c[0]] + pscale(k, c.drop_first())
    }
}

proof fn lemma_pscale(k: int, c: Seq<int>, z: int)
    ensures
        hval(pscale(k, c), z) == k * hval(c, z),
        pscale(k, c).len() == c.len(),
    decreases c.len(),
{
    if c.len() > 0 {
        lemma_pscale(k, c.drop_first(), z);
        let r = pscale(k, c);
        assert(r.drop_first() =~= pscale(k, c.drop_first()));
        let h = hval(c.drop_first(), z);
        assert(k * c[0] + z * (k * h) == k * (c[0] + z * h)) by (nonlinear_arith);
    } else {
        lemma_mul_by_zero_is_zero(k);
    }
}

/// The coefficients of `(z - a)·c(z)`.
spec fn mul_lin(c: Seq<int>, a: int) -> Seq<int> {
    padd(seq![0int] + c, pscale(-a, c))
}

proof fn lemma_mul_lin(c: Seq<int>, a: int, z: int)
    ensures
        hval(mul_lin(c, a), z) == (z - a) * hval(c, z),
        mul_lin(c, a).len() == c.len() + 1,
{
    let sh = seq![0int] + c;
    assert(sh.drop_first() =~= c);
    assert(hval(sh, z) == 0 + z * hval(c, z));
    lemma_pscale(-a, c, z);
    lemma_padd(sh, pscale(-a, c), z);
    let h = hval(c, z);
    assert(z * h + (-a) * h == (z - a) * h) by (nonlinear_arith);
}

/// The quotient of `c` by `z - a` (synthetic division).
spec fn pdiv(c: Seq<int>, a: int) -> Seq<int>
    decreases c.len(),
{
    if c.len() <= 1 {
        Seq::empty()
    } else {
        seq![hval(c.drop_first(), a)] + pdiv(c.drop_first(), a)
    }
}

/// `c(z) = (z - a)·q(z) + c(a)` for the quotient `q`.
proof fn lemma_pdiv(c: Seq<int>, a: int, z: int)
    ensures
        hval(c, z) == (z - a) * hval(pdiv(c, a), z) + hval(c, a),
        c.len() >= 1 ==> pdiv(c, a).len() == c.len() - 1,
        c.len() == 0 ==> pdiv(c, a).len() == 0,
    decreases c.len(),
{
    if c.len() == 0 {
    } else if c.len() == 1 {
        assert(c.drop_first().len() == 0);
        assert(hval(c.drop_first(), z) == 0);
        assert(hval(c.drop_first(), a) == 0);
        assert(hval(c, z) == c[0] + z * hval(c.drop_first(), z));
        assert(hval(c, a) == c[0] + a * hval(c.drop_first(), a));
        lemma_mul_by_zero_is_zero(z);
        lemma_mul_by_zero_is_zero(a);
        assert(hval(pdiv(c, a), z) == 0);
        assert((z - a) * 0 == 0) by (nonlinear_arith);
    } else {
        let d = c.drop_first();
        lemma_pdiv(d, a, z);
        let q = pdiv(c, a);
        let qd = pdiv(d, a);
        assert(q.drop_first() =~= qd);
        assert(q[0] == hval(d, a));
        let hd = hval(d, a);
        let hq = hval(qd, z);
        assert(hval(q, z) == hd + z * hq);
        assert(hval(c, z) == c[0] + z * hval(d, z));
        assert(hval(c, a) == c[0] + a * hd);
        assert(c[0] + z * ((z - a) * hq + hd) == (z - a) * (hd + z * hq) + (c[0] + a * hd))
            by (nonlinear_arith);
    }
}

// ---------------------------------------------------------------------
// A polynomial with too many roots vanishes
// ---------------------------------------------------------------------

/// `xs` are pairwise distinct modulo `L`.
spec fn distinct_mod(xs: Seq<int>) -> bool {
    forall|i: int, j: int|
        0 <= i < xs.len() && 0 <= j < xs.len() && i != j ==> (#[trigger] xs[i] - #[trigger] xs[j])
            % (group_order() as int) != 0
}

/// A polynomial with at most `m` coefficients that vanishes modulo `L` at
/// `m` points distinct modulo `L` vanishes everywhere.
proof fn lemma_too_many_roots(c: Seq<int>, xs: Seq<int>, z: int)
    requires
        scalar_field(),
        c.len() <= xs.len(),
        distinct_mod(xs),
        forall|k: int| 0 <= k < xs.len() ==> #[trigger] hval(c, xs[k]) % (group_order() as int) == 0,
    ensures
        hval(c, z) % (group_order() as int) == 0,
    decreases xs.len(),
{
    let p = group_order() as int;
    if c.len() == 0 {
        lemma_small_mod(0, group_order());
    } else {
        let m = xs.len() - 1;
        let a = xs[m];
        let q = pdiv(c, a);
        let rest = xs.drop_last();
        lemma_pdiv(c, a, z);
        assert(hval(c, a) % p == 0);
        assert forall|k: int| 0 <= k < rest.len() implies #[trigger] hval(q, rest[k]) % p == 0 by {
            let x = rest[k];
            assert(x == xs[k]);
            lemma_pdiv(c, a, x);
            assert(hval(c, xs[k]) % p == 0);
            assert((x - a) % p != 0);
            // (x - a)·q(x) = c(x) - c(a) ≡ 0
            lemma_sub_mod_noop(hval(c, x), hval(c, a), p);
            lemma_small_mod(0, group_order());
            assert(((x - a) * hval(q, x)) % p == 0);
            lemma_cancel_nonzero(x - a, hval(q, x));
        }
        assert(distinct_mod(rest)) by {
            assert forall|i: int, j: int|
                0 <= i < rest.len() && 0 <= j < rest.len() && i != j implies (#[trigger] rest[i]
                - #[trigger] rest[j]) % p != 0 by {
                assert(rest[i] == xs[i] && rest[j] == xs[j]);
            }
        }
        lemma_too_many_roots(q, rest, z);
        lemma_mul_mod_noop_right(z - a, hval(q, z), p);
        lemma_mul_by_zero_is_zero(z - a);
        lemma_add_mod_noop((z - a) * hval(q, z), hval(c, a), p);
        lemma_small_mod(0, group_order());
    }
}

// ---------------------------------------------------------------------
// The Lagrange interpolant
// ---------------------------------------------------------------------

/// `Π_{xs[j] ≠ v} (z - xs[j])`.
spec fn node_prod(xs: Seq<int>, v: int, z: int) -> int
    decreases xs.len(),
{
    if xs.len() == 0 {
        1
    } else if xs.last() == v {
        node_prod(xs.drop_last(), v, z)
    } else {
        node_prod(xs.drop_last(), v, z) * (z - xs.last())
    }
}

/// The coefficients of `Π_{xs[j] ≠ v} (z - xs[j])`.
spec fn node_poly(xs: Seq<int>, v: int) -> Seq<int>
    decreases xs.len(),
{
    if xs.len() == 0 {
        seq![1int]
    } else if xs.last() == v {
        node_poly(xs.drop_last(), v)
    } else {
        mul_lin(node_poly(xs.drop_last(), v), xs.last())
    }
}

proof fn lemma_node_poly(xs: Seq<int>, v: int, z: int)
    ensures
        hval(node_poly(xs, v), z) == node_prod(xs, v, z),
        node_poly(xs, v).len() <= xs.len() + 1,
        xs.contains(v) ==> node_poly(xs, v).len() <= xs.len(),
    decreases xs.len(),
{
    if xs.len() == 0 {
        let one = seq![1int];
        assert(one.drop_first().len() == 0);
        assert(hval(one.drop_first(), z) == 0);
        lemma_mul_by_zero_is_zero(z);
        assert(hval(one, z) == 1 + z * 0);
    } else {
        let d = xs.drop_last();
        lemma_node_poly(d, v, z);
        if xs.last() != v {
            lemma_mul_lin(node_poly(d, v), xs.last(), z);
            lemma_mul_is_commutative(z - xs.last(), node_prod(d, v, z));
            if xs.contains(v) {
                let k = choose|k: int| 0 <= k < xs.len() && xs[k] == v;
                assert(k < xs.len() - 1);
                assert(d[k] == v);
                assert(d.contains(v));
            }
        } else {
        }
    }
}

/// The product vanishes at a node it does not exclude.
proof fn lemma_node_prod_at_node(xs: Seq<int>, v: int, y: int)
    requires
        xs.contains(y),
        y != v,
    ensures
        node_prod(xs, v, y) == 0,
    decreases xs.len(),
{
    let d = xs.drop_last();
    if xs.last() == y {
        lemma_mul_by_zero_is_zero(node_prod(d, v, y));
    } else {
        let k = choose|k: int| 0 <= k < xs.len() && xs[k] == y;
        assert(d[k] == y);
        lemma_node_prod_at_node(d, v, y);
        if xs.last() != v {
            lemma_mul_by_zero_is_zero(y - xs.last());
            lemma_mul_is_commutative(0, y - xs.last());
        }
    }
}

/// `Π_{xs[j] ≠ v} (v - xs[j])` is nonzero modulo `L` when each factor is.
proof fn lemma_node_prod_nonzero(xs: Seq<int>, v: int)
    requires
        scalar_field(),
        forall|j: int| 0 <= j < xs.len() && xs[j] != v ==> (v - #[trigger] xs[j]) % (group_order() as int) != 0,
    ensures
        node_prod(xs, v, v) % (group_order() as int) != 0,
    decreases xs.len(),
{
    let d = xs.drop_last();
    if xs.len() == 0 {
        lemma_small_mod(1, group_order());
    } else {
        assert forall|j: int| 0 <= j < d.len() && d[j] != v implies (v - #[trigger] d[j]) % (
        group_order() as int) != 0 by {
            assert(d[j] == xs[j]);
        }
        lemma_node_prod_nonzero(d, v);
        if xs.last() != v {
            assert(xs.last() == xs[xs.len() - 1]);
            lemma_nonzero_product(node_prod(d, v, v), v - xs.last());
        }
    }
}

/// `Σ_{k<m} ws[k]·Π_{j≠k} (z - xs[j])`.
spec fn interp_val(xs: Seq<int>, ws: Seq<int>, m: nat, z: int) -> int
    decreases m,
{
    if m == 0 {
        0
    } else {
        interp_val(xs, ws, (m - 1) as nat, z) + ws[m - 1] * node_prod(xs, xs[m - 1], z)
    }
}

/// The coefficients of [`interp_val`].
spec fn interp(xs: Seq<int>, ws: Seq<int>, m: nat) -> Seq<int>
    decreases m,
{
    if m == 0 {
        Seq::empty()
    } else {
        padd(interp(xs, ws, (m - 1) as nat), pscale(ws[m - 1], node_poly(xs, xs[m - 1])))
    }
}

proof fn lemma_interp(xs: Seq<int>, ws: Seq<int>, m: nat, z: int)
    requires
        m <= xs.len(),
    ensures
        hval(interp(xs, ws, m), z) == interp_val(xs, ws, m, z),
        interp(xs, ws, m).len() <= xs.len(),
    decreases m,
{
    if m > 0 {
        let i = m - 1;
        lemma_interp(xs, ws, (m - 1) as nat, z);
        lemma_node_poly(xs, xs[i], z);
        assert(xs.contains(xs[i]));
        lemma_pscale(ws[i], node_poly(xs, xs[i]), z);
        lemma_padd(interp(xs, ws, (m - 1) as nat), pscale(ws[i], node_poly(xs, xs[i])), z);
    }
}

/// At a node `xs[k]` only the `k`-th term survives.
proof fn lemma_interp_at_node(xs: Seq<int>, ws: Seq<int>, m: nat, k: int)
    requires
        m <= xs.len(),
        0 <= k < xs.len(),
        forall|i: int, j: int| 0 <= i < xs.len() && 0 <= j < xs.len() && i != j ==> xs[i] != xs[j],
    ensures
        interp_val(xs, ws, m, xs[k]) == if k < m {
            ws[k] * node_prod(xs, xs[k], xs[k])
        } else {
            0
        },
    decreases m,
{
    if m > 0 {
        let i = m - 1;
        lemma_interp_at_node(xs, ws, (m - 1) as nat, k);
        if i != k {
            assert(xs.contains(xs[k]));
            assert(xs[k] != xs[i]);
            lemma_node_prod_at_node(xs, xs[i], xs[k]);
            lemma_mul_by_zero_is_zero(ws[i]);
        }
    }
}

/// A polynomial that agrees modulo `L` with `fc` at the nodes, built from
/// at most as many coefficients as there are nodes, agrees with it at 0.
proof fn lemma_interpolates(xs: Seq<int>, fc: Seq<int>, ws: Seq<int>)
    requires
        scalar_field(),
        distinct_mod(xs),
        fc.len() <= xs.len(),
        ws.len() == xs.len(),
        forall|k: int|
            0 <= k < xs.len() ==> (ws[k] * node_prod(xs, xs[k], xs[k])) % (group_order() as int)
                == #[trigger] hval(fc, xs[k]) % (group_order() as int),
    ensures
        interp_val(xs, ws, xs.len(), 0) % (group_order() as int) == hval(fc, 0) % (
        group_order() as int),
{
    let p = group_order() as int;
    let n = xs.len();
    let pc = interp(xs, ws, n);
    let q = padd(pc, pscale(-1, fc));
    lemma_interp(xs, ws, n, 0);
    lemma_pscale(-1, fc, 0);
    lemma_padd(pc, pscale(-1, fc), 0);
    assert forall|i: int, j: int| 0 <= i < xs.len() && 0 <= j < xs.len() && i != j implies xs[i]
        != xs[j] by {
        if xs[i] == xs[j] {
            assert((xs[i] - xs[j]) % p != 0);
            lemma_small_mod(0, group_order());
        }
    }
    assert forall|k: int| 0 <= k < xs.len() implies #[trigger] hval(q, xs[k]) % p == 0 by {
        let x = xs[k];
        lemma_interp(xs, ws, n, x);
        lemma_pscale(-1, fc, x);
        lemma_padd(pc, pscale(-1, fc), x);
        lemma_interp_at_node(xs, ws, n, k);
        let a = ws[k] * node_prod(xs, x, x);
        let b = hval(fc, x);
        assert(hval(q, x) == a - b);
        lemma_sub_mod_noop(a, b, p);
        lemma_small_mod(0, group_order());
    }
    lemma_too_many_roots(q, xs, 0);
    let a = interp_val(xs, ws, n, 0);
    let b = hval(fc, 0);
    assert(hval(q, 0) == a - b);
    lemma_add_mod_noop(a - b, b, p);
    lemma_mod_twice(b, p);
    lemma_small_mod(0, group_order());
}

// ---------------------------------------------------------------------
// Lagrange coefficients as the library computes them
// ---------------------------------------------------------------------

spec fn int_nodes(idx: Seq<u64>) -> Seq<int> {
    idx.map_values(|x: u64| x as int)
}

/// `(-1)` to the number of indices other than `v`.
spec fn skip_sign(idx: Seq<u64>, v: u64) -> int
    decreases idx.len(),
{
    if idx.len() == 0 {
        1
    } else if idx.last() == v {
        skip_sign(idx.drop_last(), v)
    } else {
        -skip_sign(idx.drop_last(), v)
    }
}

/// `Π_{idx[j] ≠ v} idx[j]`.
spec fn num_int(idx: Seq<u64>, v: u64) -> int
    decreases idx.len(),
{
    if idx.len() == 0 {
        1
    } else if idx.last() == v {
        num_int(idx.drop_last(), v)
    } else {
        num_int(idx.drop_last(), v) * idx.last()
    }
}

/// `Π_{idx[j] ≠ v} (idx[j] - v)`.
spec fn den_int(idx: Seq<u64>, v: u64) -> int
    decreases idx.len(),
{
    if idx.len() == 0 {
        1
    } else if idx.last() == v {
        den_int(idx.drop_last(), v)
    } else {
        den_int(idx.drop_last(), v) * (idx.last() - v)
    }
}

/// The node products at `0` and at `v` are the Lagrange numerator and
/// denominator up to one common sign, and the computed numerator and
/// denominator reduce them modulo `L`.
proof fn lemma_node_products(idx: Seq<u64>, v: u64)
    ensures
        node_prod(int_nodes(idx), v as int, 0) == skip_sign(idx, v) * num_int(idx, v),
        node_prod(int_nodes(idx), v as int, v as int) == skip_sign(idx, v) * den_int(idx, v),
        skip_sign(idx, v) * skip_sign(idx, v) == 1,
        lagrange_num(idx, v) as int == num_int(idx, v) % (group_order() as int),
        lagrange_den(idx, v) as int == den_int(idx, v) % (group_order() as int),
    decreases idx.len(),
{
    let p = group_order() as int;
    let xs = int_nodes(idx);
    if idx.len() == 0 {
        lemma_small_mod(1, group_order());
    } else {
        let d = idx.drop_last();
        lemma_node_products(d, v);
        assert(xs.drop_last() =~= int_nodes(d));
        assert(xs.last() == idx.last() as int);
        if idx.last() != v {
            let s = skip_sign(d, v);
            let nn = num_int(d, v);
            let dd = den_int(d, v);
            let l = idx.last() as int;
            assert(s * nn * (0 - l) == (-s) * (nn * l)) by (nonlinear_arith);
            assert(s * dd * (v - l) == (-s) * (dd * (l - v))) by (nonlinear_arith);
            assert((-s) * (-s) == s * s) by (nonlinear_arith);
            lemma_mul_mod_noop_left(nn, l, p);
            lemma_mod_bound(l - v, p);
            assert(sub_mod(idx.last() as nat, v as nat) as int == (l - v) % p);
            lemma_mul_mod_noop(dd, l - v, p);
        }
    }
}

/// The interpolation weight of node `idx[k]`:
/// `F(x_k)·sign·(Π_{j≠k} (x_j - x_k))^(-1)`.
spec fn interp_weight(idx: Seq<u64>, cv: Seq<Seq<nat>>, k: int) -> int {
    let v = idx[k];
    joint_value(cv, v as int) * skip_sign(idx, v) * (inv_mod(
        (den_int(idx, v) % (group_order() as int)) as nat,
    ) as int)
}

spec fn interp_weights(idx: Seq<u64>, cv: Seq<Seq<nat>>) -> Seq<int> {
    Seq::new(idx.len(), |k: int| interp_weight(idx, cv, k))
}

/// The partial decryptions `ps` are honest shares of `F(x)·c1` at the
/// indices `idx`.
spec fn honest_at(idx: Seq<u64>, cv: Seq<Seq<nat>>, c1: nat, ps: Seq<(u64, nat)>) -> bool {
    &&& ps.len() == idx.len()
    &&& forall|k: int|
        0 <= k < ps.len() ==> (#[trigger] ps[k]).0 == idx[k] && ps[k].1 == (share_sum(
            cv,
            idx[k] as nat,
        ) * c1) % group_order()
}

proof fn lemma_lagrange_sum_general_prefix(
    idx: Seq<u64>,
    cv: Seq<Seq<nat>>,
    c1: nat,
    ps: Seq<(u64, nat)>,
    m: nat,
)
    requires
        honest_at(idx, cv, c1, ps),
        m <= idx.len(),
    ensures
        lagrange_sum(idx, ps.take(m as int)) as int == (interp_val(
            int_nodes(idx),
            interp_weights(idx, cv),
            m,
            0,
        ) * c1) % (group_order() as int),
    decreases m,
{
    let p = group_order() as int;
    let xs = int_nodes(idx);
    let ws = interp_weights(idx, cv);
    if m == 0 {
        assert(ps.take(0).len() == 0);
        lemma_mul_by_zero_is_zero(c1 as int);
        lemma_mul_is_commutative(0, c1 as int);
        lemma_small_mod(0, group_order());
    } else {
        let k = m - 1;
        let v = idx[k];
        lemma_lagrange_sum_general_prefix(idx, cv, c1, ps, (m - 1) as nat);
        let pt = ps.take(m as int);
        assert(pt.drop_last() =~= ps.take(k));
        assert(pt.last() == ps[k]);
        lemma_node_products(idx, v);
        lemma_share_sum_reduces(cv, v as nat);
        let f = joint_value(cv, v as int);
        let sg = skip_sign(idx, v);
        let ni = num_int(idx, v);
        let di = den_int(idx, v);
        let iv = inv_mod(lagrange_den(idx, v)) as int;
        assert(lagrange_den(idx, v) == (di % p) as nat);
        let sh = share_sum(cv, v as nat) as int;
        let prev = interp_val(xs, ws, (m - 1) as nat, 0);
        // the new Lagrange term ≡ ni·iv·f·c1
        let lam = lagrange(idx, v) as int;
        assert(lam == (lagrange_num(idx, v) as int * iv) % p);
        lemma_mul_mod_noop_left(lagrange_num(idx, v) as int, iv, p);
        lemma_mul_mod_noop_left(ni, iv, p);
        assert(lam == (ni * iv) % p);
        let d = ps[k].1 as int;
        assert(d == (sh * c1) % p);
        lemma_mul_mod_noop(ni * iv, sh * c1, p);
        lemma_mod_twice(sh, p);
        assert(sh % p == f % p);
        lemma_mul_mod_noop_left(sh, c1 as int, p);
        lemma_mul_mod_noop_left(f, c1 as int, p);
        assert((sh * c1) % p == (f * c1) % p);
        lemma_mul_congruent(ni * iv, sh * c1, f * c1);
        assert((lam * d) % p == ((ni * iv) * (f * c1)) % p);
        // the new interpolation term: ws[k]·node_prod(xs, v, 0) = f·iv·ni
        assert(ws[k] == f * sg * iv);
        assert(xs[k] == v as int);
        let w = ws[k] * node_prod(xs, v as int, 0);
        assert(w == (f * sg * iv) * (sg * ni));
        assert(w == f * iv * ni) by (nonlinear_arith)
            requires
                w == (f * sg * iv) * (sg * ni),
                sg * sg == 1,
        ;
        assert((ni * iv) * (f * c1) == w * c1) by (nonlinear_arith)
            requires
                w == f * iv * ni,
        ;
        // sum
        lemma_add_mod_noop(prev * c1, w * c1, p);
        assert(prev * c1 + w * c1 == (prev + w) * c1) by (nonlinear_arith);
        assert(interp_val(xs, ws, m, 0) == prev + w);
    }
}

/// **Lagrange interpolation at zero over any distinct indices.** For a
/// joint polynomial `F` with at most as many coefficients per dealer as
/// there are indices, combining the honest shares `F(x_k)·c1` at pairwise
/// distinct indices `x_k` with the Lagrange coefficients of those indices
/// gives `F(0)·c1`.
pub proof fn lemma_lagrange_recovers(idx: Seq<u64>, cv: Seq<Seq<nat>>, c1: nat, ps: Seq<(u64, nat)>)
    requires
        scalar_field(),
        idx.no_duplicates(),
        ps.len() == idx.len(),
        forall|k: int|
            0 <= k < ps.len() ==> (#[trigger] ps[k]).0 == idx[k] && ps[k].1 == (share_sum(
                cv,
                idx[k] as nat,
            ) * c1) % group_order(),
        forall|j: int| 0 <= j < cv.len() ==> (#[trigger] cv[j]).len() <= idx.len(),
    ensures
        lagrange_sum(idx, ps) == (share_sum(cv, 0) * c1) % group_order(),
{
    let p = group_order() as int;
    let n = idx.len();
    let xs = int_nodes(idx);
    let ws = interp_weights(idx, cv);
    let fc = joint_coeffs(cv);
    assert(honest_at(idx, cv, c1, ps));
    lemma_joint_coeffs(cv, 0, n);
    assert(distinct_mod(xs)) by {
        assert forall|i: int, j: int| 0 <= i < xs.len() && 0 <= j < xs.len() && i != j implies (
        #[trigger] xs[i] - #[trigger] xs[j]) % p != 0 by {
            assert(idx[i] != idx[j]);
            lemma_small_nonzero(idx[i] - idx[j]);
        }
    }
    assert forall|k: int| 0 <= k < xs.len() implies (ws[k] * node_prod(xs, xs[k], xs[k])) % p
        == #[trigger] hval(fc, xs[k]) % p by {
        let v = idx[k];
        assert(xs[k] == v as int);
        lemma_joint_coeffs(cv, v as int, n);
        lemma_node_products(idx, v);
        let sg = skip_sign(idx, v);
        let di = den_int(idx, v);
        let f = joint_value(cv, v as int);
        // the denominator is invertible
        assert forall|j: int| 0 <= j < xs.len() && xs[j] != v implies (v - #[trigger] xs[j]) % p
            != 0 by {
            lemma_small_nonzero(v - xs[j]);
        }
        lemma_node_prod_nonzero(xs, v as int);
        if di % p == 0 {
            lemma_mul_mod_noop_right(sg, di, p);
            lemma_mul_by_zero_is_zero(sg);
            lemma_small_mod(0, group_order());
            assert(false);
        }
        lemma_mod_bound(di, p);
        let dn = (di % p) as nat;
        lemma_small_mod(dn, group_order());
        lemma_inverse(dn);
        let iv = inv_mod(dn) as int;
        lemma_mul_mod_noop_left(di, iv, p);
        assert((di * iv) % p == 1);
        let w = ws[k] * node_prod(xs, v as int, v as int);
        assert(ws[k] == f * sg * iv);
        assert(w == f * (di * iv)) by (nonlinear_arith)
            requires
                w == (f * sg * iv) * (sg * di),
                sg * sg == 1,
        ;
        lemma_mul_mod_noop_right(f, di * iv, p);
        assert(w % p == (f * 1) % p);
    }
    lemma_interpolates(xs, fc, ws);
    lemma_lagrange_sum_general_prefix(idx, cv, c1, ps, n);
    assert(ps.take(n as int) =~= ps);
    lemma_share_sum_reduces(cv, 0);
    lemma_share_sum_below(cv, 0);
    lemma_small_mod(share_sum(cv, 0), group_order());
    let iv0 = interp_val(xs, ws, n, 0);
    lemma_mul_mod_noop_left(iv0, c1 as int, p);
    lemma_mul_mod_noop_left(share_sum(cv, 0) as int, c1 as int, p);
}

// ---------------------------------------------------------------------
// Threshold decryption
// ---------------------------------------------------------------------

/// **Any `t` honest trustees decrypt.** When every partial decryption in
/// the list is an honest share `F(x)·c1` of the joint polynomial (each
/// dealer's having at most `t` coefficients) and at least `t` of them are
/// accepted, `combine` recovers exactly what the joint secret `F(0)`
/// decrypts, whichever trustees they come from.
pub proof fn lemma_combine_decrypts(
    t: nat,
    cv: Seq<Seq<nat>>,
    c1: nat,
    c2: nat,
    ps: Seq<(u64, nat, nat, nat)>,
)
    requires
        scalar_field(),
        forall|j: int| 0 <= j < cv.len() ==> (#[trigger] cv[j]).len() <= t,
        forall|k: int|
            0 <= k < ps.len() ==> (#[trigger] ps[k]).1 == (share_sum(cv, ps[k].0 as nat) * c1)
                % group_order(),
        accepted_partials(cv, c1, ps).len() >= t,
    ensures
        combine_spec(t, cv, c1, c2, ps) == Some(decryption((c1, c2), share_sum(cv, 0))),
{
    let acc = accepted_partials(cv, c1, ps);
    lemma_accepted_partials(cv, c1, ps);
    let idx = partial_indices(acc);
    let pairs = index_d_pairs(acc);
    assert forall|k: int| 0 <= k < pairs.len() implies (#[trigger] pairs[k]).0 == idx[k]
        && pairs[k].1 == (share_sum(cv, idx[k] as nat) * c1) % group_order() by {
        assert(ps.contains(acc[k]));
        let j = choose|j: int| 0 <= j < ps.len() && ps[j] == acc[k];
        assert(ps[j].1 == (share_sum(cv, ps[j].0 as nat) * c1) % group_order());
    }
    lemma_lagrange_recovers(idx, cv, c1, pairs);
}

/// **The first `t` trustees decrypt.** Combining the honest partial
/// decryptions of trustees `1..=t` yields exactly what the joint secret
/// `F(0)` decrypts, for a joint polynomial whose dealers each have at most
/// `t` coefficients.
pub proof fn lemma_threshold_decrypts(cv: Seq<Seq<nat>>, t: nat, c: (nat, nat))
    requires
        scalar_field(),
        1 <= t <= u64::MAX,
        forall|j: int| 0 <= j < cv.len() ==> (#[trigger] cv[j]).len() <= t,
    ensures
        threshold_plaintext(cv, t, c) == decryption(c, share_sum(cv, 0)),
{
    let idx = first_indices(t);
    let hp = honest_pairs(cv, t, c.0);
    assert(idx.no_duplicates()) by {
        assert forall|i: int, j: int| 0 <= i < idx.len() && 0 <= j < idx.len() && i != j implies idx[i]
            != idx[j] by {
            assert(idx[i] == (i + 1) as u64 && idx[j] == (j + 1) as u64);
        }
    }
    assert forall|k: int| 0 <= k < hp.len() implies (#[trigger] hp[k]).0 == idx[k] && hp[k].1 == (
    share_sum(cv, idx[k] as nat) * c.0) % group_order() by {
        assert(idx[k] == (k + 1) as u64);
    }
    lemma_lagrange_recovers(idx, cv, c.0, hp);
}

/// **The first `t` trustees decrypt an encryption.** After a completed key
/// generation, the honest partial decryptions of trustees `1..=t` combine
/// to `m` for every encryption of `m` under the joint public key.
pub proof fn lemma_threshold_decrypts_encryption(d: Dkg, c: (nat, nat), m: nat, r: nat)
    requires
        scalar_field(),
        dkg_wf(d),
        encrypts(c, d.public_key.0@, m, r),
    ensures
        threshold_plaintext(comm_views(d.commitments@), d.t as nat, c) == m % group_order(),
{
    let cv = comm_views(d.commitments@);
    assert forall|j: int| 0 <= j < cv.len() implies (#[trigger] cv[j]).len() <= d.t by {
        assert(d.commitments@[j]@.len() == d.t);
    }
    lemma_threshold_decrypts(cv, d.t as nat, c);
    let x = share_sum(cv, 0);
    lemma_share_sum_below(cv, 0);
    lemma_small_mod(x, group_order());
    lemma_decrypts(c, x, m, r);
}

/// The trustee indices of the trustees at positions `who`.
pub open spec fn trustee_indices(d: Dkg, who: Seq<int>) -> Seq<u64> {
    who.map_values(|k: int| d.trustees@[k].index)
}

/// The `(index, share)` pairs of the trustees at positions `who`.
pub open spec fn trustee_shares(d: Dkg, who: Seq<int>) -> Seq<(u64, nat)> {
    who.map_values(|k: int| (d.trustees@[k].index, d.trustees@[k].share@))
}

/// **Any `t` shares reconstruct the secret key.** After a completed key
/// generation, the shares of any `t` or more distinct trustees, combined
/// with the Lagrange coefficients of their indices, give the secret `x`
/// whose public key `x·B` was published.
pub proof fn lemma_shares_reconstruct_secret(d: Dkg, who: Seq<int>)
    requires
        scalar_field(),
        dkg_wf(d),
        who.len() >= d.t,
        forall|k: int| 0 <= k < who.len() ==> 0 <= #[trigger] who[k] < d.n,
        who.no_duplicates(),
    ensures
        lagrange_sum(trustee_indices(d, who), trustee_shares(d, who)) == d.public_key.0@,
{
    let cv = comm_views(d.commitments@);
    let idx = trustee_indices(d, who);
    let ps = trustee_shares(d, who);
    assert(idx.no_duplicates()) by {
        assert forall|i: int, j: int| 0 <= i < idx.len() && 0 <= j < idx.len() && i != j implies idx[i]
            != idx[j] by {
            assert(idx[i] == who[i] + 1 && idx[j] == who[j] + 1);
        }
    }
    assert forall|k: int| 0 <= k < ps.len() implies (#[trigger] ps[k]).0 == idx[k] && ps[k].1 == (
    share_sum(cv, idx[k] as nat) * 1) % group_order() by {
        let v = idx[k] as nat;
        lemma_share_sum_below(cv, v);
        lemma_small_mod(share_sum(cv, v), group_order());
    }
    assert forall|j: int| 0 <= j < cv.len() implies (#[trigger] cv[j]).len() <= idx.len() by {
        assert(d.commitments@[j]@.len() == d.t);
    }
    lemma_lagrange_recovers(idx, cv, 1, ps);
    lemma_share_sum_below(cv, 0);
    lemma_small_mod(share_sum(cv, 0), group_order());
}

} // verus!
