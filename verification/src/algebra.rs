//! Arithmetic modulo the group order that the protocol proofs share.
use vstd::prelude::*;
use vstd::arithmetic::div_mod::*;
use vstd::arithmetic::mul::*;
use crate::group::{group_order, sub_mod};

verus! {

/// `sub_mod` of two reduced values is the difference reduced.
pub proof fn lemma_sub_mod_of_mods(a: int, b: int)
    requires
        a >= 0,
        b >= 0,
    ensures
        sub_mod((a % group_order() as int) as nat, (b % group_order() as int) as nat) == ((a - b)
            % group_order() as int) as nat,
{
    lemma_sub_mod_noop(a, b, group_order() as int);
}

/// The response of a Schnorr / Chaum-Pedersen proof with witness `r`,
/// nonce `w` and challenge `e`, `z = w + e·r`, satisfies
/// `z·b - e·(r·b) = w·b` modulo `L` for any base `b`.
pub proof fn lemma_response(w: nat, e: nat, r: nat, b: nat)
    ensures
        ({
            let z = (w + (e * r) % group_order()) % group_order();
            sub_mod((z * b) % group_order(), (e * ((r * b) % group_order())) % group_order()) == (w
                * b) % group_order()
        }),
{
    let l = group_order() as int;
    let er = (e * r) as int;
    let z = (w + (e * r) % group_order()) % group_order();
    // z ≡ w + e·r
    lemma_add_mod_noop_right(w as int, er, l);
    assert(z as int == (w as int + er) % l);
    // z·b ≡ (w + e·r)·b
    lemma_mul_mod_noop_left(w as int + er, b as int, l);
    // e·((r·b) mod L) ≡ e·(r·b)
    lemma_mul_mod_noop_right(e as int, (r * b) as int, l);
    // difference of the reduced values
    lemma_sub_mod_of_mods((w as int + er) * b as int, (e * (r * b)) as int);
    lemma_mul_is_distributive_add_other_way(b as int, w as int, er);
    lemma_mul_is_associative(e as int, r as int, b as int);
    assert((w as int + er) * b as int - (e * (r * b)) as int == (w * b) as int);
}

/// Splitting a challenge `e` into `e - f` and `f` and adding them back.
pub proof fn lemma_challenge_split(e: nat, f: nat)
    requires
        e < group_order(),
    ensures
        (sub_mod(e, f) + f) % group_order() == e,
        (f + sub_mod(e, f)) % group_order() == e,
{
    let l = group_order() as int;
    lemma_add_mod_noop_right(f as int, e as int - f as int, l);
    lemma_mod_twice(e as int - f as int, l);
    lemma_small_mod(e, group_order());
    lemma_add_mod_noop(f as int, (e as int - f as int), l);
}

/// Removing a unit message: `((1 + x) mod L) - 1 ≡ x`.
pub proof fn lemma_remove_one(x: nat)
    ensures
        sub_mod((1 + x) % group_order(), 1) == x % group_order(),
{
    let l = group_order() as int;
    lemma_small_mod(1, group_order());
    lemma_sub_mod_of_mods(1 + x as int, 1);
}

/// `x^k` modulo `L`, computed by repeated multiplication from 1.
pub open spec fn pow_mod(x: nat, k: nat) -> nat
    decreases k,
{
    if k == 0 {
        1
    } else {
        (pow_mod(x, (k - 1) as nat) * x) % group_order()
    }
}

/// A polynomial with coefficients `cs` (constant term first) evaluated at
/// `x` by Horner's rule, modulo `L`.
pub open spec fn horner(cs: Seq<nat>, x: nat) -> nat
    decreases cs.len(),
{
    if cs.len() == 0 {
        0
    } else {
        (cs[0] + x * horner(cs.drop_first(), x)) % group_order()
    }
}

/// The same polynomial evaluated as `Σ cs[k]·x^k`, modulo `L`.
pub open spec fn powsum(cs: Seq<nat>, x: nat) -> nat
    decreases cs.len(),
{
    if cs.len() == 0 {
        0
    } else {
        (powsum(cs.drop_last(), x) + (pow_mod(x, (cs.len() - 1) as nat) * cs.last())
            % group_order()) % group_order()
    }
}

/// The power sum obeys Horner's front recursion.
proof fn lemma_powsum_front(cs: Seq<nat>, x: nat)
    requires
        cs.len() >= 1,
    ensures
        powsum(cs, x) == (cs[0] + x * powsum(cs.drop_first(), x)) % group_order(),
    decreases cs.len(),
{
    let l = group_order() as int;
    if cs.len() == 1 {
        assert(cs.drop_last().len() == 0);
        assert(cs.drop_first().len() == 0);
        assert(pow_mod(x, 0) == 1);
        assert(powsum(cs.drop_last(), x) == 0);
        assert(powsum(cs.drop_first(), x) == 0);
        lemma_mod_twice(cs[0] as int, l);
        assert(powsum(cs, x) == (0 + (1 * cs.last()) % group_order()) % group_order());
        assert(cs.last() == cs[0]);
    } else {
        let n = cs.len();
        let m = cs.drop_last().drop_first();
        assert(cs.drop_first().drop_last() =~= m);
        assert(cs.drop_first().last() == cs.last());
        assert(cs.drop_last()[0] == cs[0]);
        lemma_powsum_front(cs.drop_last(), x);
        let pm = powsum(m, x) as int;
        let p2 = pow_mod(x, (n - 2) as nat) as int;
        let last = cs.last() as int;
        let a = cs[0] as int + x as int * pm;
        let b = p2 * x as int * last;
        assert(powsum(cs.drop_last(), x) as int == a % l);
        // left-hand side: ((a mod L) + (pow(n-1)·last mod L)) mod L
        assert(pow_mod(x, (n - 1) as nat) == (pow_mod(x, (n - 2) as nat) * x) % group_order());
        lemma_mul_mod_noop_left(p2 * x as int, last, l);
        assert((pow_mod(x, (n - 1) as nat) * cs.last()) % group_order() == b % l);
        lemma_add_mod_noop(a, b, l);
        assert(powsum(cs, x) as int == (a + b) % l);
        // right-hand side: (c0 + x·((pm + p2·last) mod L)) mod L
        let inner = pm + p2 * last;
        assert(powsum(cs.drop_first(), x) as int == (pm + (p2 * last) % l) % l);
        lemma_add_mod_noop_right(pm, p2 * last, l);
        assert(powsum(cs.drop_first(), x) as int == inner % l);
        lemma_mul_mod_noop_right(x as int, inner, l);
        lemma_add_mod_noop_right(cs[0] as int, x as int * inner, l);
        assert((cs[0] + x * powsum(cs.drop_first(), x)) % group_order() == (cs[0] as int + x as int
            * inner) % l);
        lemma_mul_is_distributive_add(x as int, pm, p2 * last);
        assert(x as int * (p2 * last) == p2 * x as int * last) by {
            lemma_mul_is_associative(x as int, p2, last);
            lemma_mul_is_commutative(x as int, p2);
        }
        assert(cs[0] as int + x as int * inner == a + b);
    }
}

/// Horner's rule and the power sum agree.
pub proof fn lemma_horner_is_powsum(cs: Seq<nat>, x: nat)
    ensures
        horner(cs, x) == powsum(cs, x),
    decreases cs.len(),
{
    if cs.len() > 0 {
        lemma_horner_is_powsum(cs.drop_first(), x);
        lemma_powsum_front(cs, x);
    }
}

/// At `x = 0` a polynomial is its constant term.
pub proof fn lemma_powsum_at_zero(cs: Seq<nat>)
    requires
        cs.len() >= 1,
    ensures
        powsum(cs, 0) == cs[0] % group_order(),
{
    lemma_powsum_front(cs, 0);
}

} // verus!
