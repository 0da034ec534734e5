//! Voter credentials for the Semaphore-style membership proof: Poseidon
//! commitments and nullifiers over the BN254 scalar field, and the binary
//! Poseidon Merkle tree of enrolled commitments.
//!
//! A field element is held as its canonical 32-byte little-endian
//! encoding. The deterministic nullifier `H(s, E)` of a voter's secret `s`
//! and the election id `E` is what the board de-duplicates on and what the
//! coercer's analysis links. The Groth16 proof over this tree is made and
//! checked outside the library.
use vstd::prelude::*;
use crate::group::{le_bytes, le_nat, lemma_le_nat_of_le_bytes, pow256};
use ark_bn254::Fr;
use ark_crypto_primitives::sponge::poseidon::{find_poseidon_ark_and_mds, PoseidonConfig, PoseidonSponge};
use ark_crypto_primitives::sponge::CryptographicSponge;
use ark_ff::{BigInteger, PrimeField};

verus! {

/// The parameters of a Poseidon sponge over BN254 (capacity 1).
#[derive(Clone, Copy, Debug)]
pub struct PoseidonParams {
    pub full_rounds: usize,
    pub partial_rounds: usize,
    pub alpha: u64,
    pub rate: usize,
}

/// The standard Poseidon parameters for BN254: rate 2, capacity 1, 8 full
/// and 57 partial rounds, `x^5` S-box.
pub open spec fn standard_params(p: PoseidonParams) -> bool {
    &&& p.full_rounds == 8
    &&& p.partial_rounds == 57
    &&& p.alpha == 5
    &&& p.rate == 2
}

/// The Poseidon hash, under the standard parameters, of field elements given
/// by their 32-byte encodings, as ark-crypto-primitives' `PoseidonSponge`
/// computes it (absorb the inputs, squeeze one element).
pub uninterp spec fn spec_poseidon_hash(inputs: Seq<[u8; 32]>) -> [u8; 32];

/// `PoseidonSponge` of ark-crypto-primitives over BN254, with round
/// constants and MDS matrix from `find_poseidon_ark_and_mds`, applied to
/// each list of inputs: each input is read as a little-endian field
/// element, the list is absorbed, one element is squeezed and returned in
/// little-endian form. The results are named, not described.
#[verifier::external_body]
fn arkworks_poseidon(p: &PoseidonParams, inputs: &[Vec<[u8; 32]>]) -> (r: Vec<[u8; 32]>)
    requires
        standard_params(*p),
    ensures
        r@.len() == inputs@.len(),
        forall|i: int| 0 <= i < inputs@.len() ==> #[trigger] r@[i] == spec_poseidon_hash(inputs@[i]@),
{
    let (ark, mds) = find_poseidon_ark_and_mds::<Fr>(
        Fr::MODULUS_BIT_SIZE as u64, p.rate, p.full_rounds as u64, p.partial_rounds as u64, 0,
    );
    let cfg = PoseidonConfig::new(p.full_rounds, p.partial_rounds, p.alpha, mds, ark, p.rate, 1);
    let hash = |xs: &Vec<[u8; 32]>| {
        let mut sponge = PoseidonSponge::new(&cfg);
        let fs: Vec<Fr> = xs.iter().map(|b| Fr::from_le_bytes_mod_order(b)).collect();
        sponge.absorb(&fs);
        let out: Vec<Fr> = sponge.squeeze_field_elements(1);
        out[0].into_bigint().to_bytes_le().try_into().unwrap()
    };
    inputs.iter().map(hash).collect()
}

/// Standard Poseidon parameters for BN254 (rate 2, `x^5` S-box).
pub fn poseidon_config() -> (r: PoseidonParams)
    ensures
        standard_params(r),
{
    PoseidonParams { full_rounds: 8, partial_rounds: 57, alpha: 5, rate: 2 }
}

/// Poseidon hash of a slice of field elements to one field element.
pub fn poseidon_hash(cfg: &PoseidonParams, inputs: &[[u8; 32]]) -> (r: [u8; 32])
    requires
        standard_params(*cfg),
    ensures
        r == spec_poseidon_hash(inputs@),
{
    let mut one: Vec<Vec<[u8; 32]>> = Vec::with_capacity(1);
    one.push(slice_to_vec(inputs));
    let out = arkworks_poseidon(cfg, one.as_slice());
    out[0]
}

/// Poseidon hashes of several lists of field elements, with one set of
/// round constants.
pub fn poseidon_hash_many(cfg: &PoseidonParams, inputs: &[Vec<[u8; 32]>]) -> (r: Vec<[u8; 32]>)
    requires
        standard_params(*cfg),
    ensures
        r@.len() == inputs@.len(),
        forall|i: int| 0 <= i < inputs@.len() ==> #[trigger] r@[i] == spec_poseidon_hash(inputs@[i]@),
{
    arkworks_poseidon(cfg, inputs)
}

fn slice_to_vec(xs: &[[u8; 32]]) -> (r: Vec<[u8; 32]>)
    ensures
        r@ == xs@,
{
    let mut v: Vec<[u8; 32]> = Vec::with_capacity(xs.len());
    let mut i: usize = 0;
    while i < xs.len()
        invariant
            i <= xs@.len(),
            v@ == xs@.take(i as int),
        decreases xs@.len() - i,
    {
        v.push(xs[i]);
        assert(v@ =~= xs@.take(i + 1));
        i = i + 1;
    }
    assert(xs@.take(xs@.len() as int) =~= xs@);
    v
}

/// Leaf commitment `H(s)`.
pub fn commitment(cfg: &PoseidonParams, s: [u8; 32]) -> (r: [u8; 32])
    requires
        standard_params(*cfg),
    ensures
        r == spec_poseidon_hash(seq![s]),
{
    let inputs = [s];
    assert(inputs@ =~= seq![s]);
    poseidon_hash(cfg, &inputs)
}

/// Deterministic nullifier `H(s, E)`.
pub fn nullifier(cfg: &PoseidonParams, s: [u8; 32], e: [u8; 32]) -> (r: [u8; 32])
    requires
        standard_params(*cfg),
    ensures
        r == spec_poseidon_hash(seq![s, e]),
{
    let inputs = [s, e];
    assert(inputs@ =~= seq![s, e]);
    poseidon_hash(cfg, &inputs)
}

/// The field element with value `v < 2^64`, as `Fr::from(v)` gives it.
pub fn field_from_u64(v: u64) -> (r: [u8; 32])
    ensures
        r@ == le_bytes(v as nat, 32),
        le_nat(r@) == v as nat,
{
    let mut out = [0u8; 32];
    let mut x: u64 = v;
    let mut j: usize = 0;
    while j < 32
        invariant
            j <= 32,
            out@.len() == 32,
            le_bytes(v as nat, 32) == out@.take(j as int) + le_bytes(x as nat, (32 - j) as nat),
        decreases 32 - j,
    {
        let ghost before = out@;
        out[j] = (x % 256) as u8;
        proof {
            assert(le_bytes(x as nat, (32 - j) as nat) == seq![(x % 256) as u8] + le_bytes(
                (x / 256) as nat,
                (32 - j - 1) as nat,
            ));
            assert(out@.take(j + 1) =~= before.take(j as int).push((x % 256) as u8));
            assert(le_bytes(v as nat, 32) =~= out@.take(j + 1) + le_bytes(
                (x / 256) as nat,
                (32 - j - 1) as nat,
            ));
        }
        x = x / 256;
        j = j + 1;
    }
    assert(le_bytes(x as nat, 0) =~= Seq::<u8>::empty());
    assert(out@.take(32) =~= out@);
    proof {
        reveal_with_fuel(pow256, 9);
        assert(pow256(8) == 0x1_0000_0000_0000_0000nat);
        lemma_pow256_grows(8, 32);
        lemma_le_nat_of_le_bytes(v as nat, 32);
    }
    out
}

proof fn lemma_pow256_grows(a: nat, b: nat)
    requires
        a <= b,
    ensures
        pow256(a) <= pow256(b),
    decreases b,
{
    if a < b {
        lemma_pow256_grows(a, (b - 1) as nat);
    }
}

/// `i·0x9E3779B97F4A7C15 + 1` modulo `2^64`.
pub open spec fn voter_secret_value(i: u64) -> nat {
    ((i as nat * 0x9E3779B97F4A7C15nat) % 0x1_0000_0000_0000_0000nat + 1)
        % 0x1_0000_0000_0000_0000nat
}

/// Deterministic secret for voter `i` (enrollment is simulated).
pub fn voter_secret(i: u64) -> (r: [u8; 32])
    ensures
        r@ == le_bytes(voter_secret_value(i), 32),
{
    let v = i.wrapping_mul(0x9E3779B97F4A7C15).wrapping_add(1);
    field_from_u64(v)
}

// ---------------------------------------------------------------------------
// The Poseidon Merkle tree of enrolled commitments.
// ---------------------------------------------------------------------------

/// `2^d`.
pub open spec fn two_pow(d: nat) -> nat
    decreases d,
{
    if d == 0 {
        1
    } else {
        2 * two_pow((d - 1) as nat)
    }
}

/// The level above `level`: each pair of siblings hashed.
pub open spec fn parent_level(level: Seq<[u8; 32]>) -> Seq<[u8; 32]> {
    Seq::new(level.len() / 2, |j: int| spec_poseidon_hash(seq![level[2 * j], level[2 * j + 1]]))
}

/// The empty leaf that pads the tree: the field element 0.
pub open spec fn is_empty_leaf(a: [u8; 32]) -> bool {
    a@ == Seq::new(32, |i: int| 0u8)
}

/// `level` holds the leaves, then empty leaves up to `n`.
pub open spec fn padded_leaves(level: Seq<[u8; 32]>, leaves: Seq<[u8; 32]>, n: nat) -> bool {
    &&& level.len() == n
    &&& forall|i: int|
        0 <= i < n ==> if i < leaves.len() {
            #[trigger] level[i] == leaves[i]
        } else {
            is_empty_leaf(level[i])
        }
}

/// The least power of two that is at least `max(n, 1)`, with its exponent.
pub open spec fn tree_width(n: nat, d: nat) -> bool {
    &&& two_pow(d) >= n
    &&& d == 0 || two_pow((d - 1) as nat) < n
}

/// A binary Merkle tree over Poseidon, built natively so that paths can be
/// extracted.
pub struct MerkleTree {
    pub cfg: PoseidonParams,
    pub depth: usize,
    /// `levels[0]` are the leaves, `levels[depth]` the root alone.
    pub levels: Vec<Vec<[u8; 32]>>,
}

impl MerkleTree {
    /// The tree's levels, leaves first.
    pub open spec fn levels(&self) -> Seq<Seq<[u8; 32]>> {
        self.levels@.map_values(|l: Vec<[u8; 32]>| l@)
    }

    /// Each level hashes the pairs of the level below, up to a single root.
    pub open spec fn wf(&self) -> bool {
        let lv = self.levels();
        &&& standard_params(self.cfg)
        &&& lv.len() == self.depth + 1
        &&& forall|d: int| 0 <= d <= self.depth ==> (#[trigger] lv[d]).len() == two_pow((self.depth - d) as nat)
        &&& forall|d: int| 0 <= d < self.depth ==> #[trigger] lv[d + 1] == parent_level(lv[d])
    }

    /// Build from leaf commitments, padded with empty leaves to the next
    /// power of two.
    pub fn build(cfg: PoseidonParams, leaves: Vec<[u8; 32]>) -> (t: MerkleTree)
        requires
            standard_params(cfg),
            leaves@.len() <= usize::MAX / 2,
        ensures
            t.wf(),
            t.cfg == cfg,
            tree_width(if leaves@.len() == 0 { 1 } else { leaves@.len() }, t.depth as nat),
            padded_leaves(t.levels()[0], leaves@, two_pow(t.depth as nat)),
    {
        let target: usize = if leaves.len() == 0 {
            1
        } else {
            leaves.len()
        };
        // The next power of two and its exponent.
        let mut n: usize = 1;
        let mut depth: usize = 0;
        while n < target
            invariant
                1 <= target <= usize::MAX / 2,
                n == two_pow(depth as nat),
                depth == 0 || two_pow((depth - 1) as nat) < target,
                1 <= n < 2 * target,
                depth <= n,
            decreases 2 * target - n,
        {
            n = n * 2;
            depth = depth + 1;
        }
        let mut level0: Vec<[u8; 32]> = Vec::with_capacity(n);
        let mut i: usize = 0;
        while i < n
            invariant
                i <= n,
                level0@.len() == i,
                forall|j: int|
                    0 <= j < i ==> if j < leaves@.len() {
                        #[trigger] level0@[j] == leaves@[j]
                    } else {
                        is_empty_leaf(level0@[j])
                    },
            decreases n - i,
        {
            if i < leaves.len() {
                level0.push(leaves[i]);
            } else {
                let z = [0u8; 32];
                assert(z@ =~= Seq::new(32, |k: int| 0u8));
                level0.push(z);
            }
            i = i + 1;
        }
        let mut levels: Vec<Vec<[u8; 32]>> = Vec::with_capacity(depth + 1);
        levels.push(level0);
        let mut d: usize = 0;
        while d < depth
            invariant
                d <= depth,
                standard_params(cfg),
                n == two_pow(depth as nat),
                levels@.len() == d + 1,
                forall|d2: int| 0 <= d2 <= d ==> (#[trigger] levels@[d2])@.len() == two_pow((depth - d2) as nat),
                forall|d2: int| 0 <= d2 < d ==> #[trigger] levels@[d2 + 1]@ == parent_level(levels@[d2]@),
                padded_leaves(levels@[0]@, leaves@, n as nat),
            decreases depth - d,
        {
            let prev = &levels[d];
            let plen = prev.len();
            let half = plen / 2;
            proof {
                assert(two_pow((depth - d) as nat) == 2 * two_pow((depth - d - 1) as nat));
            }
            let mut pairs: Vec<Vec<[u8; 32]>> = Vec::with_capacity(half);
            let mut j: usize = 0;
            while j < half
                invariant
                    j <= half,
                    half == prev@.len() / 2,
                    plen == prev@.len(),
                    prev@.len() == 2 * half,
                    pairs@.len() == j,
                    forall|j2: int|
                        0 <= j2 < j ==> (#[trigger] pairs@[j2])@ == seq![
                            prev@[2 * j2],
                            prev@[2 * j2 + 1],
                        ],
                decreases half - j,
            {
                let left: usize = 2 * j;
                let right: usize = left + 1;
                let mut pair: Vec<[u8; 32]> = Vec::with_capacity(2);
                pair.push(prev[left]);
                pair.push(prev[right]);
                assert(pair@ =~= seq![prev@[2 * j as int], prev@[2 * j as int + 1]]);
                pairs.push(pair);
                j = j + 1;
            }
            let next = poseidon_hash_many(&cfg, pairs.as_slice());
            assert forall|j2: int| 0 <= j2 < half implies next@[j2] == parent_level(prev@)[j2] by {
                assert(pairs@[j2]@ == seq![prev@[2 * j2], prev@[2 * j2 + 1]]);
            }
            assert(next@ =~= parent_level(prev@));
            levels.push(next);
            d = d + 1;
        }
        let t = MerkleTree { cfg, depth, levels };
        proof {
            let lv = t.levels();
            assert forall|d2: int| 0 <= d2 <= depth implies (#[trigger] lv[d2]).len() == two_pow((depth - d2) as nat) by {
                assert(lv[d2] == levels@[d2]@);
            }
            assert forall|d2: int| 0 <= d2 < depth implies #[trigger] lv[d2 + 1] == parent_level(lv[d2]) by {
                assert(lv[d2 + 1] == levels@[d2 + 1]@);
                assert(lv[d2] == levels@[d2]@);
            }
        }
        t
    }

    /// The root of the tree.
    pub fn root(&self) -> (r: [u8; 32])
        requires
            self.wf(),
        ensures
            r == self.levels()[self.depth as int][0],
    {
        proof {
            assert(self.levels()[self.depth as int] == self.levels@[self.depth as int]@);
        }
        self.levels[self.depth][0]
    }

    /// The siblings along the path from leaf `index` to the root, and for
    /// each level whether the path's node there is a right child.
    pub fn path(&self, index: usize) -> (r: (Vec<[u8; 32]>, Vec<bool>))
        requires
            self.wf(),
            index < two_pow(self.depth as nat),
        ensures
            is_path(*self, index as nat, r.0@, r.1@),
    {
        let mut siblings: Vec<[u8; 32]> = Vec::with_capacity(self.depth);
        let mut bits: Vec<bool> = Vec::with_capacity(self.depth);
        let mut idx: usize = index;
        let mut d: usize = 0;
        assert(two_pow(0) == 1);
        assert(index as nat / 1 == index as nat);
        while d < self.depth
            invariant
                self.wf(),
                d <= self.depth,
                index < two_pow(self.depth as nat),
                idx as nat == index as nat / two_pow(d as nat),
                siblings@.len() == d,
                bits@.len() == d,
                forall|d2: int|
                    0 <= d2 < d ==> {
                        let node = index as nat / two_pow(d2 as nat);
                        &&& #[trigger] bits@[d2] == (node % 2 == 1)
                        &&& siblings@[d2] == self.levels()[d2][if node % 2 == 1 {
                            (node - 1) as int
                        } else {
                            (node + 1) as int
                        }]
                    },
            decreases self.depth - d,
        {
            proof {
                lemma_node_in_level(index as nat, d as nat, self.depth as nat);
                assert(self.levels()[d as int] == self.levels@[d as int]@);
            }
            let is_right = idx % 2 == 1;
            let sib = if is_right {
                idx - 1
            } else {
                idx + 1
            };
            siblings.push(self.levels[d][sib]);
            bits.push(is_right);
            proof {
                lemma_two_pow_pos(d as nat);
                vstd::arithmetic::div_mod::lemma_div_denominator(index as int, two_pow(d as nat) as int, 2);
                assert(two_pow((d + 1) as nat) == two_pow(d as nat) * 2);
            }
            idx = idx / 2;
            d = d + 1;
        }
        (siblings, bits)
    }
}

/// A path's node at level `d` lies within that level.
proof fn lemma_node_in_level(index: nat, d: nat, depth: nat)
    requires
        d < depth,
        index < two_pow(depth),
    ensures
        index / two_pow(d) < two_pow((depth - d) as nat),
        index / two_pow(d) % 2 == 0 ==> index / two_pow(d) + 1 < two_pow((depth - d) as nat),
{
    let m = two_pow((depth - d) as nat);
    lemma_two_pow_adds(d, (depth - d) as nat);
    assert(d + (depth - d) as nat == depth);
    lemma_two_pow_pos(d);
    vstd::arithmetic::div_mod::lemma_multiply_divide_lt(index as int, two_pow(d) as int, m as int);
    lemma_two_pow_pos((depth - d - 1) as nat);
    assert(m == 2 * two_pow((depth - d - 1) as nat));
    let node = index / two_pow(d);
    vstd::arithmetic::div_mod::lemma_fundamental_div_mod(node as int, 2);
}

proof fn lemma_two_pow_pos(d: nat)
    ensures
        two_pow(d) >= 1,
    decreases d,
{
    if d > 0 {
        lemma_two_pow_pos((d - 1) as nat);
    }
}

proof fn lemma_two_pow_adds(a: nat, b: nat)
    ensures
        two_pow(a + b) == two_pow(a) * two_pow(b),
    decreases a,
{
    let y = two_pow(b);
    if a > 0 {
        let x = two_pow((a - 1) as nat);
        lemma_two_pow_adds((a - 1) as nat, b);
        assert(((a - 1) as nat + b) as nat == (a + b - 1) as nat);
        assert(two_pow(a + b) == 2 * two_pow((a + b - 1) as nat));
        assert(two_pow(a) == 2 * x);
        assert(2 * (x * y) == (2 * x) * y) by (nonlinear_arith);
    } else {
        assert(a + b == b);
        assert(two_pow(a) == 1);
        assert(1 * y == y);
    }
}

/// One step up a membership path: hash the node with its sibling, the
/// sibling on the left when the node is a right child.
pub open spec fn path_step(node: [u8; 32], sibling: [u8; 32], is_right: bool) -> [u8; 32] {
    if is_right {
        spec_poseidon_hash(seq![sibling, node])
    } else {
        spec_poseidon_hash(seq![node, sibling])
    }
}

/// The root that a leaf and a membership path lead to.
pub open spec fn path_root(leaf: [u8; 32], siblings: Seq<[u8; 32]>, bits: Seq<bool>) -> [u8; 32]
    decreases siblings.len(),
{
    if siblings.len() == 0 {
        leaf
    } else {
        path_root(path_step(leaf, siblings[0], bits[0]), siblings.drop_first(), bits.drop_first())
    }
}


/// `siblings` and `bits` are the membership path of leaf `index`.
pub open spec fn is_path(tree: MerkleTree, index: nat, siblings: Seq<[u8; 32]>, bits: Seq<bool>) -> bool {
    &&& siblings.len() == tree.depth
    &&& bits.len() == tree.depth
    &&& forall|d: int|
        0 <= d < tree.depth ==> {
            let node = index / two_pow(d as nat);
            &&& #[trigger] bits[d] == (node % 2 == 1)
            &&& siblings[d] == tree.levels()[d][if node % 2 == 1 {
                (node - 1) as int
            } else {
                (node + 1) as int
            }]
        }
}

/// From the path's node at level `d`, the rest of the path climbs to the
/// root.
proof fn lemma_climb(tree: MerkleTree, index: nat, siblings: Seq<[u8; 32]>, bits: Seq<bool>, d: nat)
    requires
        tree.wf(),
        index < two_pow(tree.depth as nat),
        is_path(tree, index, siblings, bits),
        d <= tree.depth,
    ensures
        path_root(
            tree.levels()[d as int][(index / two_pow(d)) as int],
            siblings.skip(d as int),
            bits.skip(d as int),
        ) == tree.levels()[tree.depth as int][0],
    decreases tree.depth - d,
{
    let lv = tree.levels();
    let node = index / two_pow(d);
    lemma_two_pow_pos(d);
    if d == tree.depth {
        vstd::arithmetic::div_mod::lemma_basic_div(index as int, two_pow(d) as int);
        assert(siblings.skip(d as int) =~= Seq::<[u8; 32]>::empty());
    } else {
        lemma_node_in_level(index, d, tree.depth as nat);
        lemma_climb(tree, index, siblings, bits, d + 1);
        vstd::arithmetic::div_mod::lemma_div_denominator(index as int, two_pow(d) as int, 2);
        assert(two_pow(d + 1) == two_pow(d) * 2);
        let up = node / 2;
        assert(up == index / two_pow(d + 1));
        vstd::arithmetic::div_mod::lemma_fundamental_div_mod(node as int, 2);
        assert(lv[d as int + 1] == parent_level(lv[d as int]));
        assert(path_step(lv[d as int][node as int], siblings[d as int], bits[d as int]) == lv[d as int + 1][up as int]);
        assert(siblings.skip(d as int).drop_first() =~= siblings.skip(d as int + 1));
        assert(bits.skip(d as int).drop_first() =~= bits.skip(d as int + 1));
    }
}

/// Merkle membership: the membership path of any leaf, climbed from the
/// leaf, leads to the root.
pub proof fn lemma_path_leads_to_root(tree: MerkleTree, index: nat, siblings: Seq<[u8; 32]>, bits: Seq<bool>)
    requires
        tree.wf(),
        index < two_pow(tree.depth as nat),
        is_path(tree, index, siblings, bits),
    ensures
        path_root(tree.levels()[0][index as int], siblings, bits) == tree.levels()[tree.depth as int][0],
{
    assert(two_pow(0) == 1);
    assert(index / 1 == index);
    lemma_climb(tree, index, siblings, bits, 0);
    assert(siblings.skip(0) =~= siblings);
    assert(bits.skip(0) =~= bits);
    assert(two_pow(0) == 1);
    assert(index / 1 == index);
}

} // verus!
