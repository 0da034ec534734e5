//! The Ristretto group and its scalar field, Fiat-Shamir hashing, hex
//! encodings, and a bounded discrete-log decoder for the tally.
//!
//! Model. The Ristretto group has prime order `L` and is generated by the
//! basepoint `B`, so every group element is `v·B` for exactly one `v < L`.
//! A `Point` is held as its canonical 32-byte encoding and viewed as that
//! `v` (its discrete log); a `Scalar` is held as its canonical 32-byte
//! little-endian encoding and viewed as its value. Every group operation is
//! then arithmetic modulo `L` on the views.
use vstd::prelude::*;
use vstd::arithmetic::div_mod::*;
use vstd::arithmetic::mul::*;
use curve25519_dalek::constants::{RISTRETTO_BASEPOINT_POINT, RISTRETTO_BASEPOINT_TABLE};
use curve25519_dalek::ristretto::{CompressedRistretto, RistrettoPoint};
use curve25519_dalek::scalar::Scalar as DalekScalar;
use crate::buckets::Buckets;
use rand::rngs::StdRng;
use rand::RngCore;
use sha2::{Digest, Sha512};

verus! {

/// The random number generator that the protocol draws its secrets from.
#[verifier::external_type_specification]
#[verifier::external_body]
pub struct ExStdRng(StdRng);

/// The order of the Ristretto group, `2^252 + 27742317777372353535851937790883648493`.
pub open spec fn group_order() -> nat {
    7237005577332262213973186563042994240857116359379907606001950938285454250989nat
}

/// Little-endian value of a byte string.
pub open spec fn le_nat(s: Seq<u8>) -> nat
    decreases s.len(),
{
    if s.len() == 0 {
        0
    } else {
        s[0] as nat + 256 * le_nat(s.drop_first())
    }
}

/// The `n`-byte little-endian encoding of `v` (truncated to `n` bytes).
pub open spec fn le_bytes(v: nat, n: nat) -> Seq<u8>
    decreases n,
{
    if n == 0 {
        Seq::empty()
    } else {
        seq![(v % 256) as u8] + le_bytes(v / 256, (n - 1) as nat)
    }
}

/// The canonical 32-byte encoding of a scalar value.
pub open spec fn scalar_encoding(v: nat) -> Seq<u8> {
    le_bytes(v, 32)
}

/// `(a - b) mod L` for group-order arithmetic on views.
pub open spec fn sub_mod(a: nat, b: nat) -> nat {
    ((a as int - b as int) % (group_order() as int)) as nat
}

/// The multiplicative inverse of `a` modulo `L`, and 0 for `a ≡ 0`.
pub open spec fn inv_mod(a: nat) -> nat {
    if a % group_order() == 0 {
        0
    } else {
        choose|r: nat| r < group_order() && #[trigger] ((a * r) % group_order()) == 1
    }
}

/// The canonical 32-byte encoding of the group element `s·B`, as
/// `(&RISTRETTO_BASEPOINT_TABLE * &s).compress().to_bytes()` computes it.
pub uninterp spec fn spec_ristretto_basepoint_mul(s: nat) -> Seq<u8>;

/// The 64-byte SHA-512 digest of `data`, as `Sha512::digest` computes it.
pub uninterp spec fn spec_sha512(data: Seq<u8>) -> Seq<u8>;

/// The encoding of the group element whose discrete log is `v`.
pub open spec fn point_encoding(v: nat) -> Seq<u8> {
    spec_ristretto_basepoint_mul(v % group_order())
}

/// A byte string is the encoding of a group element.
pub open spec fn is_point_encoding(b: Seq<u8>) -> bool {
    exists|v: nat| v < group_order() && spec_ristretto_basepoint_mul(v) == b
}

/// The discrete log of the group element that `b` encodes.
pub open spec fn encoding_dlog(b: Seq<u8>) -> nat {
    choose|v: nat| v < group_order() && spec_ristretto_basepoint_mul(v) == b
}

/// An element of the Ristretto group, held as its canonical encoding.
#[derive(Clone, Copy, Debug, PartialEq, Eq)]
pub struct Point {
    enc: [u8; 32],
}

/// An element of the scalar field `Z/L`, held as its canonical encoding.
#[derive(Clone, Copy, Debug, PartialEq, Eq)]
pub struct Scalar {
    bytes: [u8; 32],
}

impl Point {
    #[verifier::type_invariant]
    spec fn encodes_group_element(self) -> bool {
        is_point_encoding(self.enc@)
    }
}

impl Scalar {
    #[verifier::type_invariant]
    spec fn is_reduced(self) -> bool {
        le_nat(self.bytes@) < group_order()
    }
}

impl View for Point {
    type V = nat;

    /// The discrete log of the point with respect to the basepoint.
    closed spec fn view(&self) -> nat {
        encoding_dlog(self.enc@)
    }
}

impl View for Scalar {
    type V = nat;

    closed spec fn view(&self) -> nat {
        le_nat(self.bytes@)
    }
}

// ---------------------------------------------------------------------------
// Trusted wrappers around curve25519-dalek, sha2 and hex.
// ---------------------------------------------------------------------------

/// `Scalar::from(m)` of curve25519-dalek: the scalar whose value is `m`
/// (every `u64` is below `L`).
#[verifier::external_body]
fn dalek_scalar_from_u64(m: u64) -> (r: Scalar)
    ensures
        r@ == m as nat,
{
    Scalar { bytes: DalekScalar::from(m).to_bytes() }
}

/// Scalar addition of curve25519-dalek: the sum modulo `L`.
#[verifier::external_body]
fn dalek_scalar_add(a: &Scalar, b: &Scalar) -> (r: Scalar)
    ensures
        r@ == (a@ + b@) % group_order(),
{
    let x = DalekScalar::from_bytes_mod_order(a.bytes);
    let y = DalekScalar::from_bytes_mod_order(b.bytes);
    Scalar { bytes: (x + y).to_bytes() }
}

/// Scalar subtraction of curve25519-dalek: the difference modulo `L`.
#[verifier::external_body]
fn dalek_scalar_sub(a: &Scalar, b: &Scalar) -> (r: Scalar)
    ensures
        r@ == sub_mod(a@, b@),
{
    let x = DalekScalar::from_bytes_mod_order(a.bytes);
    let y = DalekScalar::from_bytes_mod_order(b.bytes);
    Scalar { bytes: (x - y).to_bytes() }
}

/// Scalar multiplication of curve25519-dalek: the product modulo `L`.
#[verifier::external_body]
fn dalek_scalar_mul(a: &Scalar, b: &Scalar) -> (r: Scalar)
    ensures
        r@ == (a@ * b@) % group_order(),
{
    let x = DalekScalar::from_bytes_mod_order(a.bytes);
    let y = DalekScalar::from_bytes_mod_order(b.bytes);
    Scalar { bytes: (x * y).to_bytes() }
}

/// `Scalar::invert` of curve25519-dalek: `a^(L-2) mod L`, which is the
/// inverse of a nonzero `a` (as `L` is prime) and 0 for `a ≡ 0`.
#[verifier::external_body]
fn dalek_scalar_invert(a: &Scalar) -> (r: Scalar)
    ensures
        r@ == inv_mod(a@),
{
    Scalar { bytes: DalekScalar::from_bytes_mod_order(a.bytes).invert().to_bytes() }
}

/// `RngCore::fill_bytes` of rand: 64 bytes drawn from the generator.
/// Nothing is stated of them.
#[verifier::external_body]
fn random_bytes_64(rng: &mut StdRng) -> [u8; 64] {
    let mut w = [0u8; 64];
    rng.fill_bytes(&mut w);
    w
}

/// `Scalar::from_bytes_mod_order_wide` of curve25519-dalek: the 512-bit
/// little-endian value reduced modulo `L`.
#[verifier::external_body]
fn dalek_scalar_from_wide(w: &[u8; 64]) -> (r: Scalar)
    ensures
        r@ == le_nat(w@) % group_order(),
{
    Scalar { bytes: DalekScalar::from_bytes_mod_order_wide(w).to_bytes() }
}

/// `Scalar::from_canonical_bytes` of curve25519-dalek: accepts exactly the
/// encodings of values below `L`, and keeps the bytes.
#[verifier::external_body]
fn dalek_scalar_from_canonical(b: [u8; 32]) -> (r: Option<Scalar>)
    ensures
        r is Some <==> le_nat(b@) < group_order(),
        r matches Some(s) ==> s.bytes == b,
{
    match DalekScalar::from_canonical_bytes(b) {
        Some(s) => Some(Scalar { bytes: s.to_bytes() }),
        None => None,
    }
}

/// `RistrettoPoint::default()` of curve25519-dalek: the identity `0·B`.
#[verifier::external_body]
fn dalek_identity() -> (r: Point)
    ensures
        r@ == 0,
{
    Point { enc: RistrettoPoint::default().compress().to_bytes() }
}

/// `RISTRETTO_BASEPOINT_POINT` of curve25519-dalek: the generator `1·B`.
#[verifier::external_body]
fn dalek_basepoint() -> (r: Point)
    ensures
        r@ == 1,
{
    Point { enc: RISTRETTO_BASEPOINT_POINT.compress().to_bytes() }
}

/// `&RISTRETTO_BASEPOINT_TABLE * &s` of curve25519-dalek: the point `s·B`.
#[verifier::external_body]
fn dalek_basepoint_mul(s: &Scalar) -> (r: Point)
    ensures
        r.enc@ == spec_ristretto_basepoint_mul(s@),
        r@ == s@ % group_order(),
{
    let x = DalekScalar::from_bytes_mod_order(s.bytes);
    Point { enc: (&RISTRETTO_BASEPOINT_TABLE * &x).compress().to_bytes() }
}

/// Point addition of curve25519-dalek: `a·B + b·B = (a + b)·B`. The
/// operands decompress because a `Point` always holds a group encoding.
#[verifier::external_body]
fn dalek_point_add(a: &Point, b: &Point) -> (r: Point)
    ensures
        r@ == (a@ + b@) % group_order(),
{
    let x = CompressedRistretto(a.enc).decompress().unwrap();
    let y = CompressedRistretto(b.enc).decompress().unwrap();
    Point { enc: (x + y).compress().to_bytes() }
}

/// Point subtraction of curve25519-dalek: `a·B - b·B = (a - b)·B`.
#[verifier::external_body]
fn dalek_point_sub(a: &Point, b: &Point) -> (r: Point)
    ensures
        r@ == sub_mod(a@, b@),
{
    let x = CompressedRistretto(a.enc).decompress().unwrap();
    let y = CompressedRistretto(b.enc).decompress().unwrap();
    Point { enc: (x - y).compress().to_bytes() }
}

/// Scalar-point multiplication of curve25519-dalek: `s·(p·B) = (s p)·B`.
#[verifier::external_body]
fn dalek_point_mul(s: &Scalar, p: &Point) -> (r: Point)
    ensures
        r@ == (s@ * p@) % group_order(),
{
    let x = DalekScalar::from_bytes_mod_order(s.bytes);
    let y = CompressedRistretto(p.enc).decompress().unwrap();
    Point { enc: (x * y).compress().to_bytes() }
}

/// `CompressedRistretto::decompress` of curve25519-dalek: succeeds exactly on
/// canonical encodings of group elements, and keeps the bytes.
#[verifier::external_body]
fn dalek_decompress(b: [u8; 32]) -> (r: Option<Point>)
    ensures
        r is Some <==> is_point_encoding(b@),
        r matches Some(p) ==> p.enc == b,
{
    match CompressedRistretto(b).decompress() {
        Some(p) => Some(Point { enc: p.compress().to_bytes() }),
        None => None,
    }
}

/// `Sha512::digest` of the sha2 crate.
#[verifier::external_body]
fn sha512_digest(data: &[u8]) -> (r: [u8; 64])
    ensures
        r@ == spec_sha512(data@),
{
    let d = Sha512::digest(data);
    let mut out = [0u8; 64];
    out.copy_from_slice(&d);
    out
}

/// `hex::encode` of the hex crate: lowercase hex, two digits per byte.
#[verifier::external_body]
pub(crate) fn hex_encode(data: &[u8]) -> (r: String)
    ensures
        r@ == hex_encode_spec(data@),
{
    hex::encode(data)
}

/// `hex::decode` of the hex crate: succeeds exactly on strings of an even
/// number of hex digits (either case), two digits per byte.
#[verifier::external_body]
pub(crate) fn hex_decode(s: &str) -> (r: Option<Vec<u8>>)
    ensures
        match r {
            Some(v) => hex_decode_spec(s@) == Some(v@),
            None => hex_decode_spec(s@) is None,
        },
{
    hex::decode(s).ok()
}

// ---------------------------------------------------------------------------
// Hex encoding, as the hex crate defines it.
// ---------------------------------------------------------------------------

/// The lowercase hex digit for `n < 16`.
pub open spec fn hex_char(n: nat) -> char {
    seq!['0', '1', '2', '3', '4', '5', '6', '7', '8', '9', 'a', 'b', 'c', 'd', 'e', 'f'][n as int]
}

/// Lowercase hex encoding of a byte string.
pub open spec fn hex_encode_spec(b: Seq<u8>) -> Seq<char>
    decreases b.len(),
{
    if b.len() == 0 {
        Seq::empty()
    } else {
        seq![hex_char(b[0] as nat / 16), hex_char(b[0] as nat % 16)] + hex_encode_spec(
            b.drop_first(),
        )
    }
}

/// The value of a hex digit of either case.
pub open spec fn hex_val(c: char) -> Option<nat> {
    let x = c as int;
    if 48 <= x <= 57 {
        Some((x - 48) as nat)
    } else if 97 <= x <= 102 {
        Some((x - 87) as nat)
    } else if 65 <= x <= 70 {
        Some((x - 55) as nat)
    } else {
        None
    }
}

/// Hex decoding: two digits per byte, `None` on an odd length or a non-digit.
pub open spec fn hex_decode_spec(s: Seq<char>) -> Option<Seq<u8>>
    decreases s.len(),
{
    if s.len() == 0 {
        Some(Seq::empty())
    } else if s.len() == 1 {
        None
    } else {
        match (hex_val(s[0]), hex_val(s[1]), hex_decode_spec(s.skip(2))) {
            (Some(h), Some(l), Some(rest)) => Some(seq![(16 * h + l) as u8] + rest),
            _ => None,
        }
    }
}

// ---------------------------------------------------------------------------
// Fiat-Shamir transcripts.
// ---------------------------------------------------------------------------

/// The discrete logs of a sequence of points.
pub open spec fn point_views(s: Seq<Point>) -> Seq<nat> {
    s.map_values(|p: Point| p@)
}

/// The values of a sequence of scalars.
pub open spec fn scalar_views(s: Seq<Scalar>) -> Seq<nat> {
    s.map_values(|x: Scalar| x@)
}

/// Concatenated encodings of points given by their discrete logs.
pub open spec fn points_encoding(vs: Seq<nat>) -> Seq<u8>
    decreases vs.len(),
{
    if vs.len() == 0 {
        Seq::empty()
    } else {
        points_encoding(vs.drop_last()) + point_encoding(vs.last())
    }
}

/// Concatenated encodings of scalars given by their values.
pub open spec fn scalars_encoding(vs: Seq<nat>) -> Seq<u8>
    decreases vs.len(),
{
    if vs.len() == 0 {
        Seq::empty()
    } else {
        scalars_encoding(vs.drop_last()) + scalar_encoding(vs.last())
    }
}

/// The bytes hashed for a Fiat-Shamir challenge: label, points, scalars.
pub open spec fn fs_input(label: Seq<u8>, pts: Seq<nat>, scs: Seq<nat>) -> Seq<u8> {
    label + points_encoding(pts) + scalars_encoding(scs)
}

/// The Fiat-Shamir challenge: SHA-512 of the transcript, reduced modulo `L`.
pub open spec fn fs_challenge(label: Seq<u8>, pts: Seq<nat>, scs: Seq<nat>) -> nat {
    le_nat(spec_sha512(fs_input(label, pts, scs))) % group_order()
}

// ---------------------------------------------------------------------------
// Lemmas on encodings.
// ---------------------------------------------------------------------------

proof fn lemma_le_nat_split(s: Seq<u8>)
    requires
        s.len() > 0,
    ensures
        le_nat(s) % 256 == s[0] as nat,
        le_nat(s) / 256 == le_nat(s.drop_first()),
{
    let x = le_nat(s.drop_first());
    assert(le_nat(s) == s[0] as nat + 256 * x);
    lemma_fundamental_div_mod_converse(le_nat(s) as int, 256, x as int, s[0] as int);
}

/// Two byte strings of one length with one little-endian value are equal.
pub proof fn lemma_le_nat_injective(a: Seq<u8>, b: Seq<u8>)
    requires
        a.len() == b.len(),
        le_nat(a) == le_nat(b),
    ensures
        a == b,
    decreases a.len(),
{
    if a.len() > 0 {
        lemma_le_nat_split(a);
        lemma_le_nat_split(b);
        lemma_le_nat_injective(a.drop_first(), b.drop_first());
        assert(a =~= seq![a[0]] + a.drop_first());
        assert(b =~= seq![b[0]] + b.drop_first());
    } else {
        assert(a =~= b);
    }
}

/// Encoding a value read from bytes gives the bytes back.
pub proof fn lemma_le_bytes_roundtrip(s: Seq<u8>)
    ensures
        le_bytes(le_nat(s), s.len()) == s,
    decreases s.len(),
{
    if s.len() > 0 {
        lemma_le_nat_split(s);
        lemma_le_bytes_roundtrip(s.drop_first());
        assert(s =~= seq![s[0]] + s.drop_first());
    } else {
        assert(le_bytes(le_nat(s), 0) =~= s);
    }
}

/// `256^n`.
pub open spec fn pow256(n: nat) -> nat
    decreases n,
{
    if n == 0 {
        1
    } else {
        256 * pow256((n - 1) as nat)
    }
}

/// Reading back an `n`-byte encoding of a value below `256^n` gives the value.
pub proof fn lemma_le_nat_of_le_bytes(v: nat, n: nat)
    requires
        v < pow256(n),
    ensures
        le_nat(le_bytes(v, n)) == v,
        le_bytes(v, n).len() == n,
    decreases n,
{
    if n > 0 {
        let b = le_bytes(v, n);
        lemma_fundamental_div_mod(v as int, 256);
        lemma_div_pos_is_pos(v as int, 256);
        assert(v / 256 < pow256((n - 1) as nat)) by {
            lemma_div_by_multiple_is_strongly_ordered(
                v as int,
                pow256(n) as int,
                pow256((n - 1) as nat) as int,
                256,
            );
        }
        lemma_le_nat_of_le_bytes(v / 256, (n - 1) as nat);
        assert(b.drop_first() =~= le_bytes(v / 256, (n - 1) as nat));
    }
}

/// Every value below `L` fits in 32 bytes.
pub proof fn lemma_group_order_fits()
    ensures
        group_order() < pow256(32),
{
    reveal_with_fuel(pow256, 33);
    assert(pow256(32) == 0x1_0000_0000_0000_0000_0000_0000_0000_0000_0000_0000_0000_0000_0000_0000_0000_0000nat);
}

/// Hex digits decode to their values.
proof fn lemma_hex_char_val(n: nat)
    requires
        n < 16,
    ensures
        hex_val(hex_char(n)) == Some(n),
{
    let digits = seq!['0', '1', '2', '3', '4', '5', '6', '7', '8', '9', 'a', 'b', 'c', 'd', 'e', 'f'];
    assert(hex_char(n) == digits[n as int]);
    if n == 0 {} else if n == 1 {} else if n == 2 {} else if n == 3 {} else if n == 4 {
    } else if n == 5 {} else if n == 6 {} else if n == 7 {} else if n == 8 {} else if n == 9 {
    } else if n == 10 {} else if n == 11 {} else if n == 12 {} else if n == 13 {
    } else if n == 14 {} else {}
}

/// Hex encoding is undone by hex decoding.
pub proof fn lemma_hex_roundtrip(b: Seq<u8>)
    ensures
        hex_decode_spec(hex_encode_spec(b)) == Some(b),
    decreases b.len(),
{
    if b.len() > 0 {
        let s = hex_encode_spec(b);
        let h = b[0] as nat / 16;
        let l = b[0] as nat % 16;
        lemma_hex_char_val(h);
        lemma_hex_char_val(l);
        lemma_hex_roundtrip(b.drop_first());
        assert(s.skip(2) =~= hex_encode_spec(b.drop_first()));
        assert(s[0] == hex_char(h));
        assert(s[1] == hex_char(l));
        assert((16 * h + l) as u8 == b[0]);
        assert(seq![b[0]] + b.drop_first() =~= b);
    } else {
        assert(hex_encode_spec(b) =~= Seq::<char>::empty());
    }
}

/// The hex encoding of a scalar decodes back to the scalar.
pub proof fn lemma_scalar_hex_roundtrip(v: nat)
    requires
        v < group_order(),
    ensures
        scalar_hex_spec(hex_encode_spec(scalar_encoding(v))) == Some(v),
{
    lemma_group_order_fits();
    lemma_le_nat_of_le_bytes(v, 32);
    lemma_hex_roundtrip(scalar_encoding(v));
}

/// The hex encoding of 32 bytes decodes back to them.
pub proof fn lemma_hex32_roundtrip(a: [u8; 32])
    ensures
        hex32_spec(hex_encode_spec(a@)) == Some(a),
{
    lemma_hex_roundtrip(a@);
    let c = choose|x: [u8; 32]| x@ == a@;
    assert(exists|x: [u8; 32]| x@ == a@);
    vstd::array::axiom_array_ext_equal(c, a);
    assert(c == a);
}

// ---------------------------------------------------------------------------
// Scalars.
// ---------------------------------------------------------------------------

impl Scalar {
    /// The scalar with value `m`.
    pub fn from_u64(m: u64) -> (r: Scalar)
        ensures
            r@ == m as nat,
    {
        dalek_scalar_from_u64(m)
    }

    /// The scalar 0.
    pub fn zero() -> (r: Scalar)
        ensures
            r@ == 0,
    {
        dalek_scalar_from_u64(0)
    }

    /// The scalar 1.
    pub fn one() -> (r: Scalar)
        ensures
            r@ == 1,
    {
        dalek_scalar_from_u64(1)
    }

    /// A scalar drawn uniformly from the generator: 64 random bytes reduced
    /// modulo `L`.
    pub fn random(rng: &mut StdRng) -> (r: Scalar)
        ensures
            r@ < group_order(),
    {
        let w = random_bytes_64(rng);
        let r = dalek_scalar_from_wide(&w);
        proof {
            use_type_invariant(&r);
        }
        r
    }

    pub fn add(&self, other: &Scalar) -> (r: Scalar)
        ensures
            r@ == (self@ + other@) % group_order(),
    {
        dalek_scalar_add(self, other)
    }

    pub fn sub(&self, other: &Scalar) -> (r: Scalar)
        ensures
            r@ == sub_mod(self@, other@),
    {
        dalek_scalar_sub(self, other)
    }

    pub fn mul(&self, other: &Scalar) -> (r: Scalar)
        ensures
            r@ == (self@ * other@) % group_order(),
    {
        dalek_scalar_mul(self, other)
    }

    pub fn invert(&self) -> (r: Scalar)
        ensures
            r@ == inv_mod(self@),
    {
        dalek_scalar_invert(self)
    }

    /// Reduce a 64-byte little-endian integer modulo `L`.
    pub fn from_bytes_mod_order_wide(w: &[u8; 64]) -> (r: Scalar)
        ensures
            r@ == le_nat(w@) % group_order(),
    {
        dalek_scalar_from_wide(w)
    }

    /// Every scalar is reduced modulo `L`.
    pub fn reduced(&self)
        ensures
            self@ < group_order(),
    {
        proof {
            use_type_invariant(self);
        }
    }

    /// The canonical 32-byte encoding.
    pub fn to_bytes(&self) -> (r: [u8; 32])
        ensures
            r@ == scalar_encoding(self@),
    {
        proof {
            lemma_le_bytes_roundtrip(self.bytes@);
        }
        self.bytes
    }

    /// Equality of scalars, by their encodings.
    pub fn eq(&self, other: &Scalar) -> (r: bool)
        ensures
            r == (self@ == other@),
    {
        let r = bytes32_eq(&self.bytes, &other.bytes);
        proof {
            if self@ == other@ {
                lemma_le_nat_injective(self.bytes@, other.bytes@);
            }
        }
        r
    }
}

/// Byte-wise equality of two 32-byte arrays.
pub fn bytes32_eq(a: &[u8; 32], b: &[u8; 32]) -> (r: bool)
    ensures
        r == (a@ == b@),
{
    let mut i: usize = 0;
    while i < 32
        invariant
            i <= 32,
            a@.len() == 32,
            b@.len() == 32,
            forall|k: int| 0 <= k < i ==> a@[k] == b@[k],
        decreases 32 - i,
    {
        if a[i] != b[i] {
            return false;
        }
        i = i + 1;
    }
    assert(a@ =~= b@);
    true
}

// ---------------------------------------------------------------------------
// Points.
// ---------------------------------------------------------------------------

impl Point {
    /// The identity `0·B`.
    pub fn identity() -> (r: Point)
        ensures
            r@ == 0,
    {
        dalek_identity()
    }

    pub fn add(&self, other: &Point) -> (r: Point)
        ensures
            r@ == (self@ + other@) % group_order(),
    {
        dalek_point_add(self, other)
    }

    pub fn sub(&self, other: &Point) -> (r: Point)
        ensures
            r@ == sub_mod(self@, other@),
    {
        dalek_point_sub(self, other)
    }

    /// `s · self`.
    pub fn mul(&self, s: &Scalar) -> (r: Point)
        ensures
            r@ == (s@ * self@) % group_order(),
    {
        dalek_point_mul(s, self)
    }

    /// Every point's discrete log is below `L`.
    pub fn reduced(&self)
        ensures
            self@ < group_order(),
    {
        self.encoded();
    }

    /// A point's encoding is the encoding of its discrete log.
    fn encoded(&self)
        ensures
            self@ < group_order(),
            self.enc@ == point_encoding(self@),
    {
        proof {
            use_type_invariant(self);
            lemma_small_mod(self@, group_order());
        }
    }

    /// The canonical 32-byte encoding.
    pub fn to_bytes(&self) -> (r: [u8; 32])
        ensures
            r@ == point_encoding(self@),
    {
        self.encoded();
        self.enc
    }

    /// The hex encoding of a point decodes back to it.
    pub fn hex_decodes_back(&self)
        ensures
            point_hex_spec(hex_encode_spec(point_encoding(self@))) == Some(self@),
    {
        self.encoded();
        proof {
            use_type_invariant(self);
            lemma_hex_roundtrip(self.enc@);
        }
    }

    /// Equality of group elements, by their encodings.
    pub fn eq(&self, other: &Point) -> (r: bool)
        ensures
            r == (self@ == other@),
    {
        self.encoded();
        other.encoded();
        bytes32_eq(&self.enc, &other.enc)
    }
}

// ---------------------------------------------------------------------------
// The generator, Fiat-Shamir hashing and hex transcripts.
// ---------------------------------------------------------------------------

/// Append bytes to a buffer.
pub fn append_bytes(buf: &mut Vec<u8>, b: &[u8])
    ensures
        final(buf)@ == old(buf)@ + b@,
{
    let mut i: usize = 0;
    while i < b.len()
        invariant
            i <= b@.len(),
            buf@ == old(buf)@ + b@.take(i as int),
        decreases b@.len() - i,
    {
        buf.push(b[i]);
        i = i + 1;
        assert(buf@ =~= old(buf)@ + b@.take(i as int));
    }
    assert(b@.take(b@.len() as int) =~= b@);
}

/// The fixed generator `B` of the whole system.
pub fn g() -> (r: Point)
    ensures
        r@ == 1,
{
    dalek_basepoint()
}

/// Multiplication of the generator, `s·B`.
pub fn g_mul(s: &Scalar) -> (r: Point)
    ensures
        r@ == s@ % group_order(),
{
    dalek_basepoint_mul(s)
}

/// Fiat-Shamir: hash a transcript of points and scalars into a scalar.
pub fn hash_to_scalar(label: &[u8], points: &[Point], scalars: &[Scalar]) -> (r: Scalar)
    ensures
        r@ == fs_challenge(label@, point_views(points@), scalar_views(scalars@)),
{
    let mut buf: Vec<u8> = Vec::new();
    append_bytes(&mut buf, label);
    assert(buf@ =~= label@);
    let ghost pv = point_views(points@);
    let ghost sv = scalar_views(scalars@);
    let mut k: usize = 0;
    while k < points.len()
        invariant
            k <= points@.len(),
            pv == point_views(points@),
            buf@ == label@ + points_encoding(pv.take(k as int)),
        decreases points@.len() - k,
    {
        let b = points[k].to_bytes();
        append_bytes(&mut buf, &b);
        proof {
            assert(pv.take(k + 1).drop_last() =~= pv.take(k as int));
            assert(buf@ =~= label@ + points_encoding(pv.take(k + 1)));
        }
        k = k + 1;
    }
    assert(pv.take(points@.len() as int) =~= pv);
    let mut k: usize = 0;
    while k < scalars.len()
        invariant
            k <= scalars@.len(),
            sv == scalar_views(scalars@),
            buf@ == label@ + points_encoding(pv) + scalars_encoding(sv.take(k as int)),
        decreases scalars@.len() - k,
    {
        let b = scalars[k].to_bytes();
        append_bytes(&mut buf, &b);
        proof {
            assert(sv.take(k + 1).drop_last() =~= sv.take(k as int));
            assert(buf@ =~= label@ + points_encoding(pv) + scalars_encoding(sv.take(k + 1)));
        }
        k = k + 1;
    }
    assert(sv.take(scalars@.len() as int) =~= sv);
    let d = sha512_digest(buf.as_slice());
    dalek_scalar_from_wide(&d)
}

/// Copy a 32-byte vector into an array.
fn vec_to_array32(v: &Vec<u8>) -> (r: [u8; 32])
    requires
        v@.len() == 32,
    ensures
        r@ == v@,
{
    let mut arr = [0u8; 32];
    let mut i: usize = 0;
    while i < 32
        invariant
            i <= 32,
            v@.len() == 32,
            arr@.len() == 32,
            forall|k: int| 0 <= k < i ==> arr@[k] == v@[k],
        decreases 32 - i,
    {
        arr[i] = v[i];
        i = i + 1;
    }
    assert(arr@ =~= v@);
    arr
}

/// Decode 64 hex digits into 32 bytes.
pub fn hex_to_bytes32(s: &str) -> (r: Option<[u8; 32]>)
    ensures
        r == hex32_spec(s@),
{
    match hex_decode(s) {
        Some(v) => {
            if v.len() != 32 {
                return None;
            }
            Some(vec_to_array32(&v))
        },
        None => None,
    }
}

/// 64 hex digits decoded to 32 bytes.
pub open spec fn hex32_spec(s: Seq<char>) -> Option<[u8; 32]> {
    match hex_decode_spec(s) {
        Some(b) => if b.len() == 32 {
            Some(choose|a: [u8; 32]| a@ == b)
        } else {
            None
        },
        None => None,
    }
}

/// The group element that 64 hex digits encode.
pub open spec fn point_hex_spec(s: Seq<char>) -> Option<nat> {
    match hex_decode_spec(s) {
        Some(b) => if b.len() == 32 && is_point_encoding(b) {
            Some(encoding_dlog(b))
        } else {
            None
        },
        None => None,
    }
}

/// The scalar that 64 hex digits encode canonically.
pub open spec fn scalar_hex_spec(s: Seq<char>) -> Option<nat> {
    match hex_decode_spec(s) {
        Some(b) => if b.len() == 32 && le_nat(b) < group_order() {
            Some(le_nat(b))
        } else {
            None
        },
        None => None,
    }
}

pub fn point_to_hex(p: &Point) -> (r: String)
    ensures
        r@ == hex_encode_spec(point_encoding(p@)),
{
    let b = p.to_bytes();
    hex_encode(&b)
}

pub fn point_from_hex(s: &str) -> (r: Option<Point>)
    ensures
        match r {
            Some(p) => point_hex_spec(s@) == Some(p@),
            None => point_hex_spec(s@) is None,
        },
{
    match hex_decode(s) {
        Some(v) => {
            if v.len() != 32 {
                return None;
            }
            let arr = vec_to_array32(&v);
            dalek_decompress(arr)
        },
        None => None,
    }
}

pub fn scalar_to_hex(s: &Scalar) -> (r: String)
    ensures
        r@ == hex_encode_spec(scalar_encoding(s@)),
{
    let b = s.to_bytes();
    hex_encode(&b)
}

pub fn scalar_from_hex(s: &str) -> (r: Option<Scalar>)
    ensures
        match r {
            Some(x) => scalar_hex_spec(s@) == Some(x@),
            None => scalar_hex_spec(s@) is None,
        },
{
    match hex_decode(s) {
        Some(v) => {
            if v.len() != 32 {
                return None;
            }
            let arr = vec_to_array32(&v);
            dalek_scalar_from_canonical(arr)
        },
        None => None,
    }
}

/// Map a small integer to a group element `m·B` (exponential encoding).
pub fn encode_u64(m: u64) -> (r: Point)
    ensures
        r@ == m as nat,
{
    let s = Scalar::from_u64(m);
    let r = g_mul(&s);
    proof {
        lemma_small_mod(m as nat, group_order());
    }
    r
}

// ---------------------------------------------------------------------------
// Bounded discrete log (baby-step / giant-step).
// ---------------------------------------------------------------------------

/// The least `r` with `r·r >= x`.
fn ceil_sqrt(x: u64) -> (r: u64)
    ensures
        r as nat * r as nat >= x as nat,
        r == 0 || ((r - 1) as nat * (r - 1) as nat) < (x as nat),
        r <= 0x1_0000_0000,
{
    if x == 0 {
        return 0;
    }
    let mut lo: u64 = 0;
    let mut hi: u64 = 0x1_0000_0000;
    assert(hi as nat * hi as nat == 0x1_0000_0000_0000_0000nat) by (nonlinear_arith)
        requires
            hi == 0x1_0000_0000,
    ;
    while hi - lo > 1
        invariant
            lo < hi <= 0x1_0000_0000,
            (lo as nat * lo as nat) < (x as nat),
            x as nat <= hi as nat * hi as nat,
        decreases hi - lo,
    {
        let mid: u64 = lo + (hi - lo) / 2;
        assert((mid as nat) * (mid as nat) <= 0x1_0000_0000_0000_0000nat) by (nonlinear_arith)
            requires
                mid <= 0x1_0000_0000,
        ;
        let sq: u128 = (mid as u128) * (mid as u128);
        if sq < x as u128 {
            lo = mid;
        } else {
            hi = mid;
        }
    }
    hi
}

/// The bucket of a group element: the first four bytes of its encoding,
/// read little-endian.
pub open spec fn point_key(v: nat) -> u64 {
    let e = point_encoding(v);
    (e[0] as int + e[1] as int * 0x100 + e[2] as int * 0x1_0000 + e[3] as int * 0x100_0000) as u64
}

fn key_of_point(p: &Point) -> (k: u64)
    ensures
        k == point_key(p@),
{
    let b = p.to_bytes();
    b[0] as u64 + b[1] as u64 * 0x100 + b[2] as u64 * 0x1_0000 + b[3] as u64 * 0x100_0000
}

/// Each bucket lists positions of `table`, and every position of `table`
/// is listed in the bucket of its element's key.
spec fn buckets_list(table: Seq<Point>, buckets: Buckets) -> bool {
    &&& forall|kk: u64, q: int|
        0 <= q < buckets.list(kk).len() ==> (#[trigger] buckets.list(kk)[q]) < table.len()
    &&& forall|k: int|
        0 <= k < table.len() ==> buckets.list(point_key((#[trigger] table[k])@)).contains(k as usize)
}

/// The index of an entry of `table` equal to `p`, if any, looked up in the
/// bucket of `p`.
fn find_point(table: &Vec<Point>, buckets: &Buckets, p: &Point) -> (r: Option<usize>)
    requires
        buckets_list(table@, *buckets),
    ensures
        match r {
            Some(j) => j < table@.len() && table@[j as int]@ == p@,
            None => forall|k: int| 0 <= k < table@.len() ==> table@[k]@ != p@,
        },
{
    let key = key_of_point(p);
    let bucket = match buckets.get(key) {
        Some(b) => b,
        None => {
            proof {
                assert forall|k: int| 0 <= k < table@.len() implies table@[k]@ != p@ by {
                    if table@[k]@ == p@ {
                        assert(buckets.list(point_key(table@[k]@)).contains(k as usize));
                    }
                }
            }
            return None;
        },
    };
    let mut q: usize = 0;
    while q < bucket.len()
        invariant
            buckets_list(table@, *buckets),
            key == point_key(p@),
            bucket@ == buckets.list(key),
            q <= bucket@.len(),
            forall|q2: int| 0 <= q2 < q ==> table@[#[trigger] bucket@[q2] as int]@ != p@,
        decreases bucket@.len() - q,
    {
        let idx = bucket[q];
        assert(bucket@[q as int] == buckets.list(key)[q as int]);
        if table[idx].eq(p) {
            return Some(idx);
        }
        q = q + 1;
    }
    proof {
        assert forall|k: int| 0 <= k < table@.len() implies table@[k]@ != p@ by {
            if table@[k]@ == p@ {
                assert(buckets.list(point_key(table@[k]@)).contains(k as usize));
                let q2 = choose|q2: int| 0 <= q2 < bucket@.len() && bucket@[q2] == k as usize;
                assert(table@.len() == table.len());
                assert(bucket@[q2] as int == k);
            }
        }
    }
    None
}

/// `(a - b) mod L` with `a mod L == c` and `a, c` small and known.
proof fn lemma_sub_mod_exact(t: nat, b: nat, c: nat)
    requires
        t < group_order(),
        b + c < group_order(),
        sub_mod(t, b) == c,
    ensures
        t == b + c,
{
    let x = t as int - b as int;
    lemma_fundamental_div_mod(x, group_order() as int);
    let q = x / (group_order() as int);
    assert(x == group_order() as int * q + c as int);
    if q >= 1 {
        assert(group_order() as int * q >= group_order() as int) by (nonlinear_arith)
            requires
                q >= 1,
        ;
    }
    if q <= -1 {
        assert(group_order() as int * q <= -(group_order() as int)) by (nonlinear_arith)
            requires
                q <= -1,
        ;
    }
}

/// Stepping the giant step once more.
proof fn lemma_giant_step(t: nat, i: nat, n: nat)
    requires
        n < group_order(),
    ensures
        sub_mod(sub_mod(t, i * n), n) == sub_mod(t, (i + 1) * n),
{
    let l = group_order() as int;
    lemma_sub_mod_noop(t as int - (i * n) as int, n as int, l);
    lemma_mod_twice(t as int - (i * n) as int, l);
    lemma_small_mod(n, group_order());
    lemma_mul_is_distributive_add_other_way(n as int, i as int, 1);
    assert((i + 1) * n == i * n + n);
}

/// Baby-step / giant-step discrete log for a bounded exponent: solves
/// `target = m·B` for `0 <= m <= max`, and returns `None` when no such `m`
/// exists (a tampered or incorrectly combined ciphertext).
pub fn bounded_dlog(target: Point, max: u64) -> (r: Option<u64>)
    ensures
        r == (if target@ <= max as nat {
            Some(target@ as u64)
        } else {
            None::<u64>
        }),
{
    target.reduced();
    let zero = Point::identity();
    if target.eq(&zero) {
        return Some(0);
    }
    let root = ceil_sqrt(max);
    let n: u64 = root + 1;
    assert(n as nat * n as nat > max as nat) by (nonlinear_arith)
        requires
            n == root + 1,
            root as nat * root as nat >= max as nat,
    ;
    // Baby steps: table[j] = j·B for j in 0..=n.
    let gen = g();
    let mut table: Vec<Point> = Vec::new();
    let mut buckets = Buckets::new();
    let mut acc = Point::identity();
    let mut j: u64 = 0;
    while j <= n
        invariant
            n <= 0x1_0000_0001,
            j <= n + 1,
            table@.len() == j,
            acc@ == j as nat,
            gen@ == 1,
            forall|k: int| 0 <= k < j ==> #[trigger] table@[k]@ == k,
            buckets_list(table@, buckets),
        decreases n + 1 - j,
    {
        let key = key_of_point(&acc);
        let ghost t0 = table@;
        let ghost b0 = buckets;
        let pos = table.len();
        buckets.push(key, pos);
        table.push(acc);
        proof {
            let tb = table@;
            assert forall|k2: u64, q: int|
                0 <= q < buckets.list(k2).len() implies (#[trigger] buckets.list(k2)[q]) < tb.len() by {
                if k2 != key || q < b0.list(k2).len() {
                    assert(buckets.list(k2)[q] == b0.list(k2)[q]);
                }
            }
            assert forall|k: int| 0 <= k < tb.len() implies buckets.list(
                point_key((#[trigger] tb[k])@),
            ).contains(k as usize) by {
                if k < t0.len() {
                    assert(tb[k] == t0[k]);
                    let bb = b0.list(point_key(t0[k]@));
                    let q = choose|q: int| 0 <= q < bb.len() && bb[q] == k as usize;
                    assert(buckets.list(point_key(tb[k]@))[q] == k as usize);
                } else {
                    assert(buckets.list(key)[b0.list(key).len() as int] == k as usize);
                }
            }
        }
        acc = acc.add(&gen);
        proof {
            lemma_small_mod(j as nat + 1, group_order());
        }
        j = j + 1;
    }
    // Giant steps: target - i·(n·B).
    let ns = Scalar::from_u64(n);
    let ng = g_mul(&ns);
    proof {
        lemma_small_mod(n as nat, group_order());
    }
    let mut gamma = target;
    let mut i: u64 = 0;
    while i <= n
        invariant
            n <= 0x1_0000_0001,
            i <= n + 1,
            target@ < group_order(),
            n as nat * n as nat > max as nat,
            ng@ == n as nat,
            table@.len() == n + 1,
            forall|k: int| 0 <= k <= n ==> #[trigger] table@[k]@ == k,
            buckets_list(table@, buckets),
            gamma@ == sub_mod(target@, i as nat * n as nat),
            forall|i2: nat|
                i2 < i && #[trigger] sub_mod(target@, i2 * n as nat) <= n ==> i2 * n + sub_mod(
                    target@,
                    i2 * n as nat,
                ) > max,
        decreases n + 1 - i,
    {
        let found = find_point(&table, &buckets, &gamma);
        match found {
            Some(jj) => {
                assert(table@[jj as int]@ == jj);
                assert(i as nat * n as nat <= 0x1_0000_0001 * 0x1_0000_0001) by (nonlinear_arith)
                    requires
                        i <= n,
                        n <= 0x1_0000_0001,
                ;
                let m: u128 = (i as u128) * (n as u128) + (jj as u128);
                if m <= max as u128 {
                    proof {
                        lemma_sub_mod_exact(target@, i as nat * n as nat, jj as nat);
                    }
                    return Some(m as u64);
                }
            },
            None => {
                proof {
                    let v = sub_mod(target@, i as nat * n as nat);
                    if v <= n {
                        assert(table@[v as int]@ == v);
                    }
                    assert(v > n);
                }
            },
        }
        proof {
            lemma_giant_step(target@, i as nat, n as nat);
        }
        gamma = gamma.sub(&ng);
        i = i + 1;
    }
    proof {
        if target@ <= max as nat {
            let t = target@ as int;
            let i_star = t / (n as int);
            let j_star = t % (n as int);
            lemma_fundamental_div_mod(t, n as int);
            lemma_multiply_divide_lt(t, n as int, n as int);
            assert(i_star * (n as int) == (n as int) * i_star) by (nonlinear_arith);
            assert(sub_mod(target@, (i_star as nat) * n as nat) == j_star as nat) by {
                lemma_small_mod(j_star as nat, group_order());
            }
            assert(i_star as nat * n as nat + j_star as nat > max);
        }
    }
    None
}

} // verus!
