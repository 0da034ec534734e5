//! Exponential (additively homomorphic) ElGamal over Ristretto.
//!
//! A message `m` is encoded as `m·B`, so the sum of two ciphertexts decrypts
//! to the sum of the plaintexts: the tally is computed without decrypting an
//! individual ballot.
use vstd::prelude::*;
use vstd::arithmetic::div_mod::*;
use vstd::arithmetic::mul::*;
use crate::group::{
    encode_u64, g_mul, group_order, hex_encode_spec, point_encoding, point_from_hex, point_hex_spec,
    point_to_hex, sub_mod, Point, Scalar,
};
use rand::rngs::StdRng;

verus! {

/// An election public key `x·B`.
#[derive(Clone, Copy, Debug, PartialEq, Eq)]
pub struct PublicKey(pub Point);

/// An ElGamal ciphertext `(r·B, m·B + r·pk)`.
#[derive(Clone, Copy, Debug, PartialEq, Eq)]
pub struct Ciphertext {
    pub c1: Point,
    pub c2: Point,
}

/// A ciphertext's two points, by their discrete logs.
pub open spec fn ct_view(ct: Ciphertext) -> (nat, nat) {
    (ct.c1@, ct.c2@)
}

/// The discrete logs of a sequence of ciphertexts.
pub open spec fn ct_views(s: Seq<Ciphertext>) -> Seq<(nat, nat)> {
    s.map_values(|c: Ciphertext| ct_view(c))
}

/// `(c1, c2)` encrypts `m` under the key `pk` with randomness `r`.
pub open spec fn encrypts(c: (nat, nat), pk: nat, m: nat, r: nat) -> bool {
    &&& c.0 == r % group_order()
    &&& c.1 == (m + r * pk) % group_order()
}

/// The plaintext point `c2 - x·c1` that the secret key `x` recovers.
pub open spec fn decryption(c: (nat, nat), x: nat) -> nat {
    sub_mod(c.1, (x * c.0) % group_order())
}

/// The componentwise sum of two ciphertexts.
pub open spec fn ct_add(a: (nat, nat), b: (nat, nat)) -> (nat, nat) {
    ((a.0 + b.0) % group_order(), (a.1 + b.1) % group_order())
}

impl Ciphertext {
    /// The encryption of 0 with randomness 0, the identity for addition.
    pub fn identity() -> (r: Ciphertext)
        ensures
            ct_view(r) == (0nat, 0nat),
    {
        Ciphertext { c1: Point::identity(), c2: Point::identity() }
    }

    /// Homomorphic addition: `Enc(a) + Enc(b) = Enc(a + b)`.
    pub fn add(&self, other: &Ciphertext) -> (r: Ciphertext)
        ensures
            ct_view(r) == ct_add(ct_view(*self), ct_view(*other)),
    {
        Ciphertext { c1: self.c1.add(&other.c1), c2: self.c2.add(&other.c2) }
    }

    pub fn to_hex(&self) -> (r: CiphertextHex)
        ensures
            r.c1@ == hex_encode_spec(point_encoding(self.c1@)),
            r.c2@ == hex_encode_spec(point_encoding(self.c2@)),
    {
        CiphertextHex { c1: point_to_hex(&self.c1), c2: point_to_hex(&self.c2) }
    }
}

/// A ciphertext as two hex-encoded points.
#[derive(Clone, Debug)]
pub struct CiphertextHex {
    pub c1: String,
    pub c2: String,
}

/// The ciphertext that a hex pair decodes to.
pub open spec fn ct_hex_spec(c1: Seq<char>, c2: Seq<char>) -> Option<(nat, nat)> {
    match (point_hex_spec(c1), point_hex_spec(c2)) {
        (Some(a), Some(b)) => Some((a, b)),
        _ => None,
    }
}

impl CiphertextHex {
    pub fn decode(&self) -> (r: Option<Ciphertext>)
        ensures
            match r {
                Some(ct) => ct_hex_spec(self.c1@, self.c2@) == Some(ct_view(ct)),
                None => ct_hex_spec(self.c1@, self.c2@) is None,
            },
    {
        let c1 = match point_from_hex(self.c1.as_str()) {
            Some(p) => p,
            None => return None,
        };
        let c2 = match point_from_hex(self.c2.as_str()) {
            Some(p) => p,
            None => return None,
        };
        Some(Ciphertext { c1, c2 })
    }
}

/// Encrypt `m` (encoded as `m·B`) with fresh randomness. Returns the
/// ciphertext and the randomness `r`, which the prover needs for the
/// validity proofs.
pub fn encrypt(pk: &PublicKey, m: u64, rng: &mut StdRng) -> (res: (Ciphertext, Scalar))
    ensures
        encrypts(ct_view(res.0), pk.0@, m as nat, res.1@),
        res.1@ < group_order(),
{
    let r = Scalar::random(rng);
    encrypt_with_randomness(pk, m, r)
}

pub fn encrypt_with_randomness(pk: &PublicKey, m: u64, r: Scalar) -> (res: (Ciphertext, Scalar))
    ensures
        encrypts(ct_view(res.0), pk.0@, m as nat, r@),
        res.1 == r,
{
    let c1 = g_mul(&r);
    let rpk = pk.0.mul(&r);
    let c2 = encode_u64(m).add(&rpk);
    proof {
        lemma_add_mod_noop_right(m as int, (r@ * pk.0@) as int, group_order() as int);
    }
    (Ciphertext { c1, c2 }, r)
}

/// Encrypt a message given directly as a group element.
pub fn encrypt_point(pk: &PublicKey, m_point: Point, rng: &mut StdRng) -> (res: (
    Ciphertext,
    Scalar,
))
    ensures
        encrypts(ct_view(res.0), pk.0@, m_point@, res.1@),
        res.1@ < group_order(),
{
    let r = Scalar::random(rng);
    let rpk = pk.0.mul(&r);
    let c2 = m_point.add(&rpk);
    proof {
        lemma_add_mod_noop_right(m_point@ as int, (r@ * pk.0@) as int, group_order() as int);
    }
    (Ciphertext { c1: g_mul(&r), c2 }, r)
}

/// Homomorphism: the sum of encryptions of `m1` and `m2` with randomness
/// `r1` and `r2` is an encryption of `m1 + m2` with randomness `r1 + r2`.
pub proof fn lemma_add_encrypts(a: (nat, nat), b: (nat, nat), pk: nat, m1: nat, r1: nat, m2: nat, r2: nat)
    requires
        encrypts(a, pk, m1, r1),
        encrypts(b, pk, m2, r2),
    ensures
        encrypts(ct_add(a, b), pk, m1 + m2, r1 + r2),
{
    let l = group_order() as int;
    lemma_add_mod_noop(r1 as int, r2 as int, l);
    lemma_add_mod_noop((m1 + r1 * pk) as int, (m2 + r2 * pk) as int, l);
    lemma_mul_is_distributive_add_other_way(pk as int, r1 as int, r2 as int);
}

/// Correctness of decryption: the secret key `x` of `pk = x·B` recovers
/// `m·B` from any encryption of `m`.
pub proof fn lemma_decrypts(c: (nat, nat), x: nat, m: nat, r: nat)
    requires
        encrypts(c, x % group_order(), m, r),
    ensures
        decryption(c, x) == m % group_order(),
{
    let l = group_order() as int;
    let pk = x % group_order();
    // x * (r mod L) ≡ r * pk (mod L)
    lemma_mul_mod_noop_right(x as int, r as int, l);
    lemma_mul_mod_noop_right(r as int, x as int, l);
    lemma_mul_is_commutative(x as int, r as int);
    assert((x * c.0) % group_order() == (r * pk) % group_order());
    lemma_sub_mod_noop((m + r * pk) as int, (r * pk) as int, l);
    lemma_mod_twice((m + r * pk) as int, l);
    lemma_mod_twice((r * pk) as int, l);
    assert((m + r * pk) as int - (r * pk) as int == m as int);
}

/// The homomorphic sum of encryptions of `m1` and `m2` decrypts to
/// `m1 + m2`.
pub proof fn lemma_homomorphic_sum_decrypts(a: (nat, nat), b: (nat, nat), x: nat, m1: nat, r1: nat, m2: nat, r2: nat)
    requires
        encrypts(a, x % group_order(), m1, r1),
        encrypts(b, x % group_order(), m2, r2),
    ensures
        decryption(ct_add(a, b), x) == (m1 + m2) % group_order(),
{
    lemma_add_encrypts(a, b, x % group_order(), m1, r1, m2, r2);
    lemma_decrypts(ct_add(a, b), x, m1 + m2, r1 + r2);
}

} // verus!
