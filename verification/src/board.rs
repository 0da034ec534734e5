//! Append-only bulletin board.
//!
//! Two policies exist because the design is contradictory about re-voting:
//!   * `RejectDuplicate`: a repeated public nullifier is rejected.
//!   * `LastWriteWins`: the last ballot per nullifier is the one counted
//!     (silent re-voting).
//!
//! Under both policies the deterministic public nullifier is written to the
//! board, which is what the coercer analysis attacks.
use vstd::prelude::*;
use crate::elgamal::{ct_views, Ciphertext, PublicKey};
use crate::buckets::Buckets;
use crate::group::bytes32_eq;
use crate::validity::{ballot_valid, bit_views, cp_view, verify_ballot, BallotProof};

verus! {

#[derive(Clone, Copy, Debug, PartialEq, Eq, Structural)]
pub enum Policy {
    RejectDuplicate,
    LastWriteWins,
}

/// The name of a policy, as written into transcripts.
pub open spec fn policy_name(p: Policy) -> Seq<char> {
    match p {
        Policy::RejectDuplicate => seq![
            'r',
            'e',
            'j',
            'e',
            'c',
            't',
            '_',
            'd',
            'u',
            'p',
            'l',
            'i',
            'c',
            'a',
            't',
            'e',
        ],
        Policy::LastWriteWins => seq![
            'l',
            'a',
            's',
            't',
            '_',
            'w',
            'r',
            'i',
            't',
            'e',
            '_',
            'w',
            'i',
            'n',
            's',
        ],
    }
}

impl Policy {
    pub fn as_str(&self) -> (r: &'static str)
        ensures
            r@ == policy_name(*self),
    {
        match self {
            Policy::RejectDuplicate => {
                let s = "reject_duplicate";
                proof {
                    reveal_strlit("reject_duplicate");
                }
                s
            },
            Policy::LastWriteWins => {
                let s = "last_write_wins";
                proof {
                    reveal_strlit("last_write_wins");
                }
                s
            },
        }
    }
}

#[derive(Clone, Debug)]
pub struct Ballot {
    pub nullifier: [u8; 32],
    pub cts: Vec<Ciphertext>,
    pub proof: BallotProof,
    /// Optional Semaphore-style membership proof bytes (hex).
    pub membership: Option<String>,
}

#[derive(Clone, Copy, Debug, PartialEq, Eq, Structural)]
pub enum AppendResult {
    Accepted,
    RejectedDuplicate,
    RejectedInvalidProof,
    Replaced,
}

/// The ballot's validity proof verifies under `pk`.
pub open spec fn ballot_verifies(pk: PublicKey, b: Ballot) -> bool {
    ballot_valid(pk.0@, ct_views(b.cts@), bit_views(b.proof.bits@), cp_view(b.proof.sum_one))
}

/// The nullifiers of a sequence of ballots, in order.
pub open spec fn nullifiers(rs: Seq<Ballot>) -> Seq<[u8; 32]> {
    rs.map_values(|b: Ballot| b.nullifier)
}

/// The distinct values of `ns`, in order of first appearance.
pub open spec fn first_appearances(ns: Seq<[u8; 32]>) -> Seq<[u8; 32]>
    decreases ns.len(),
{
    if ns.len() == 0 {
        Seq::empty()
    } else {
        let rest = first_appearances(ns.drop_last());
        if ns.drop_last().contains(ns.last()) {
            rest
        } else {
            rest.push(ns.last())
        }
    }
}

/// The position of the last occurrence of `x` in `ns` (or -1).
pub open spec fn last_index(ns: Seq<[u8; 32]>, x: [u8; 32]) -> int
    decreases ns.len(),
{
    if ns.len() == 0 {
        -1
    } else if ns.last() == x {
        ns.len() - 1
    } else {
        last_index(ns.drop_last(), x)
    }
}

/// The records that count under a policy: every record under
/// `RejectDuplicate` (duplicates never enter), and the latest record of
/// each nullifier under `LastWriteWins`, in order of first appearance.
pub open spec fn counted_indices(policy: Policy, ns: Seq<[u8; 32]>) -> Seq<int> {
    match policy {
        Policy::RejectDuplicate => Seq::new(ns.len(), |i: int| i),
        Policy::LastWriteWins => first_appearances(ns).map_values(|x: [u8; 32]| last_index(ns, x)),
    }
}

/// `index` lists the distinct values of `ns` in order of first appearance,
/// each with the position of its last occurrence.
pub open spec fn index_matches(index: Seq<([u8; 32], usize)>, ns: Seq<[u8; 32]>) -> bool {
    let fa = first_appearances(ns);
    &&& index.len() == fa.len()
    &&& forall|k: int|
        0 <= k < fa.len() ==> (#[trigger] index[k]).0 == fa[k] && index[k].1 as int == last_index(
            ns,
            fa[k],
        )
}

/// Record the occurrence of `x` at position `ns.len()` in the index, given
/// where `x` already stands in it.
fn index_note(
    index: &mut Vec<([u8; 32], usize)>,
    Ghost(ns): Ghost<Seq<[u8; 32]>>,
    x: [u8; 32],
    pos: usize,
    found: Option<usize>,
)
    requires
        index_matches(old(index)@, ns),
        pos == ns.len(),
        match found {
            Some(k) => k < first_appearances(ns).len() && first_appearances(ns)[k as int] == x,
            None => !first_appearances(ns).contains(x),
        },
    ensures
        index_matches(final(index)@, ns.push(x)),
        match found {
            Some(k) => final(index)@ == old(index)@.update(k as int, (x, pos)),
            None => final(index)@ == old(index)@.push((x, pos)),
        },
{
    let ghost ns2 = ns.push(x);
    proof {
        assert(ns2.drop_last() =~= ns);
        lemma_first_appearances_contains(ns);
    }
    match found {
        Some(k) => {
            index.set(k, (x, pos));
            proof {
                let fa = first_appearances(ns);
                assert(fa.contains(fa[k as int]));
                assert(ns.contains(x));
                assert(first_appearances(ns2) == fa);
                assert forall|j: int| 0 <= j < fa.len() implies (#[trigger] index@[j]).0 == fa[j]
                    && index@[j].1 as int == last_index(ns2, fa[j]) by {
                    if j != k {
                        lemma_first_appearances_distinct(ns);
                        assert(fa[j] != fa[k as int]);
                    }
                }
            }
        },
        None => {
            index.push((x, pos));
            proof {
                let fa = first_appearances(ns);
                assert(!ns.contains(x));
                assert(first_appearances(ns2) == fa.push(x));
                assert forall|j: int| 0 <= j < fa.len() + 1 implies (#[trigger] index@[j]).0
                    == fa.push(x)[j] && index@[j].1 as int == last_index(ns2, fa.push(x)[j]) by {
                    if j < fa.len() {
                        assert(fa.contains(fa[j]));
                        assert(fa[j] != x);
                    }
                }
            }
        },
    }
}

/// The bucket of a nullifier: its first four bytes, read little-endian.
pub open spec fn nullifier_key(x: [u8; 32]) -> u64 {
    (x[0] as int + x[1] as int * 0x100 + x[2] as int * 0x1_0000 + x[3] as int * 0x100_0000) as u64
}

fn key_of_nullifier(x: &[u8; 32]) -> (k: u64)
    ensures
        k == nullifier_key(*x),
{
    x[0] as u64 + x[1] as u64 * 0x100 + x[2] as u64 * 0x1_0000 + x[3] as u64 * 0x100_0000
}

/// A first-appearance index of nullifiers, with its positions filed in
/// buckets by key so that a lookup only reads one bucket.
pub struct NullifierIndex {
    /// Each nullifier, in order of first appearance, with the position of
    /// its latest occurrence.
    pub entries: Vec<([u8; 32], usize)>,
    /// For each key, the positions in `entries` of the nullifiers with it.
    pub buckets: Buckets,
}

impl NullifierIndex {
    /// Every bucket lists only positions of its key, and every position is
    /// listed in the bucket of its key.
    pub open spec fn buckets_ok(&self) -> bool {
        let e = self.entries@;
        let b = self.buckets;
        &&& forall|k: u64, q: int|
            0 <= q < b.list(k).len() ==> (#[trigger] b.list(k)[q]) < e.len() && nullifier_key(
                e[b.list(k)[q] as int].0,
            ) == k
        &&& forall|p: int|
            0 <= p < e.len() ==> b.list(nullifier_key((#[trigger] e[p]).0)).contains(p as usize)
    }

    /// The index describes the nullifiers `ns`.
    pub open spec fn indexes(&self, ns: Seq<[u8; 32]>) -> bool {
        index_matches(self.entries@, ns) && self.buckets_ok()
    }

    pub fn new() -> (r: NullifierIndex)
        ensures
            r.indexes(Seq::empty()),
    {
        let r = NullifierIndex { entries: Vec::new(), buckets: Buckets::new() };
        proof {
            assert(first_appearances(Seq::<[u8; 32]>::empty()) =~= Seq::empty());
        }
        r
    }

    /// The number of distinct nullifiers.
    pub fn len(&self) -> (r: usize)
        ensures
            r == self.entries@.len(),
    {
        self.entries.len()
    }

    /// The position of `x` among the distinct nullifiers, if it is there.
    pub fn find(&self, Ghost(ns): Ghost<Seq<[u8; 32]>>, x: &[u8; 32]) -> (r: Option<usize>)
        requires
            self.indexes(ns),
        ensures
            match r {
                Some(k) => k < first_appearances(ns).len() && first_appearances(ns)[k as int]
                    == *x,
                None => !first_appearances(ns).contains(*x),
            },
    {
        let key = key_of_nullifier(x);
        let ghost e = self.entries@;
        let bucket = match self.buckets.get(key) {
            Some(b) => b,
            None => {
                proof {
                    let fa = first_appearances(ns);
                    if fa.contains(*x) {
                        let j = choose|j: int| 0 <= j < fa.len() && fa[j] == *x;
                        assert(e[j].0 == *x);
                        assert(self.buckets.list(nullifier_key(e[j].0)).contains(j as usize));
                    }
                }
                return None;
            },
        };
        let ghost bk = bucket@;
        let mut q: usize = 0;
        while q < bucket.len()
            invariant
                self.indexes(ns),
                e == self.entries@,
                bk == bucket@,
                bk == self.buckets.list(key),
                key == nullifier_key(*x),
                q <= bk.len(),
                forall|q2: int| 0 <= q2 < q ==> e[#[trigger] bk[q2] as int].0 != *x,
            decreases bk.len() - q,
        {
            let p = bucket[q];
            assert(bk[q as int] == self.buckets.list(key)[q as int]);
            if bytes32_eq(&self.entries[p].0, x) {
                proof {
                    vstd::array::axiom_array_ext_equal(e[p as int].0, *x);
                }
                return Some(p);
            }
            proof {
                vstd::array::axiom_array_ext_equal(e[p as int].0, *x);
            }
            q = q + 1;
        }
        proof {
            let fa = first_appearances(ns);
            if fa.contains(*x) {
                let j = choose|j: int| 0 <= j < fa.len() && fa[j] == *x;
                assert(e[j].0 == *x);
                assert(self.buckets.list(nullifier_key(e[j].0)).contains(j as usize));
                let q2 = choose|q2: int| 0 <= q2 < bk.len() && bk[q2] == j as usize;
                assert(e.len() == self.entries.len());
                assert(bk[q2] as int == j);
                assert(e[bk[q2] as int].0 != *x);
            }
        }
        None
    }

    /// Record the occurrence of `x` at position `ns.len()`, given where `x`
    /// already stands among the distinct nullifiers.
    pub fn note(
        &mut self,
        Ghost(ns): Ghost<Seq<[u8; 32]>>,
        x: [u8; 32],
        pos: usize,
        found: Option<usize>,
    )
        requires
            old(self).indexes(ns),
            pos == ns.len(),
            match found {
                Some(k) => k < first_appearances(ns).len() && first_appearances(ns)[k as int]
                    == x,
                None => !first_appearances(ns).contains(x),
            },
        ensures
            final(self).indexes(ns.push(x)),
    {
        let ghost e0 = self.entries@;
        let ghost b0 = self.buckets;
        index_note(&mut self.entries, Ghost(ns), x, pos, found);
        match found {
            Some(k) => {
                proof {
                    let e = self.entries@;
                    assert(e.len() == e0.len());
                    assert forall|p: int| 0 <= p < e.len() implies (#[trigger] e[p]).0 == e0[p].0 by {
                        if p == k {
                            assert(e0[p].0 == first_appearances(ns)[p]);
                        }
                    }
                    let b = self.buckets;
                    assert(b == b0);
                    assert forall|kk: u64, q: int|
                        0 <= q < b.list(kk).len() implies (#[trigger] b.list(kk)[q]) < e.len()
                        && nullifier_key(e[b.list(kk)[q] as int].0) == kk by {
                        assert(e[b0.list(kk)[q] as int].0 == e0[b0.list(kk)[q] as int].0);
                    }
                    assert forall|p: int| 0 <= p < e.len() implies b.list(
                        nullifier_key((#[trigger] e[p]).0),
                    ).contains(p as usize) by {
                        assert(e[p].0 == e0[p].0);
                        assert(e0[p] == e0[p]);
                    }
                }
            },
            None => {
                let key = key_of_nullifier(&x);
                let ghost n = e0.len();
                proof {
                    assert(index_matches(self.entries@, ns.push(x)));
                    assert(self.entries@.len() == n + 1);
                    assert(self.entries@[n as int].0 == x);
                }
                self.buckets.push(key, (self.entries.len() - 1));
                proof {
                    let e = self.entries@;
                    let b = self.buckets;
                    assert forall|p: int| 0 <= p < e0.len() implies (#[trigger] e[p]).0 == e0[p].0 by {
                        assert(e0[p].0 == first_appearances(ns)[p]);
                    }
                    assert forall|k: u64, q: int|
                        0 <= q < b.list(k).len() implies (#[trigger] b.list(k)[q]) < e.len()
                        && nullifier_key(e[b.list(k)[q] as int].0) == k by {
                        if k != key || q < b0.list(k).len() {
                            assert(b.list(k)[q] == b0.list(k)[q]);
                        }
                    }
                    assert forall|p: int| 0 <= p < e.len() implies b.list(
                        nullifier_key((#[trigger] e[p]).0),
                    ).contains(p as usize) by {
                        if p < e0.len() {
                            assert(e[p].0 == e0[p].0);
                            assert(e0[p] == e0[p]);
                            let bb = b0.list(nullifier_key(e0[p].0));
                            let q = choose|q: int| 0 <= q < bb.len() && bb[q] == p as usize;
                            assert(b.list(nullifier_key(e[p].0))[q] == p as usize);
                        } else {
                            assert(b.list(key)[b0.list(key).len() as int] == p as usize);
                        }
                    }
                }
            },
        }
    }
}

/// The counted positions are the positions the index records.
pub proof fn lemma_counted_from_index(
    policy: Policy,
    ns: Seq<[u8; 32]>,
    index: Seq<([u8; 32], usize)>,
)
    requires
        index_matches(index, ns),
        policy == Policy::RejectDuplicate ==> ns.no_duplicates(),
    ensures
        counted_indices(policy, ns) == index.map_values(|e: ([u8; 32], usize)| e.1 as int),
{
    let fa = first_appearances(ns);
    let ci = counted_indices(policy, ns);
    let m = index.map_values(|e: ([u8; 32], usize)| e.1 as int);
    if policy == Policy::RejectDuplicate {
        lemma_first_appearances_of_distinct(ns);
        assert forall|k: int| 0 <= k < ns.len() implies ci[k] == m[k] by {
            assert(index[k].1 as int == last_index(ns, fa[k]));
            lemma_last_index_of_distinct(ns, k);
        }
    }
    assert(ci =~= m);
}

/// Without duplicates, the last occurrence of `ns[k]` is `k`.
proof fn lemma_last_index_of_distinct(ns: Seq<[u8; 32]>, k: int)
    requires
        ns.no_duplicates(),
        0 <= k < ns.len(),
    ensures
        last_index(ns, ns[k]) == k,
    decreases ns.len(),
{
    if k < ns.len() - 1 {
        assert(ns.last() != ns[k]);
        let p = ns.drop_last();
        assert(p[k] == ns[k]);
        lemma_last_index_of_distinct(p, k);
    }
}

/// The append-only board. `records` is the full ordered transcript (nothing
/// is deleted, even under `LastWriteWins`: a replacement is a new record and
/// the index points at the latest).
pub struct Board {
    pub policy: Policy,
    pub records: Vec<Ballot>,
    /// Each nullifier on the board, in order of first appearance, with the
    /// position of its latest record.
    pub latest_index: NullifierIndex,
    pub rejected_duplicates: u64,
}

impl Board {
    /// The board's internal index agrees with its records, and under
    /// `RejectDuplicate` no nullifier occurs twice.
    pub open spec fn wf(&self) -> bool {
        let ns = nullifiers(self.records@);
        &&& self.latest_index.indexes(ns)
        &&& self.policy == Policy::RejectDuplicate ==> ns.no_duplicates()
    }

    /// The nullifiers on the board, in order of first appearance.
    pub open spec fn voters(&self) -> Seq<[u8; 32]> {
        first_appearances(nullifiers(self.records@))
    }

    pub fn new(policy: Policy) -> (b: Board)
        ensures
            b.wf(),
            b.policy == policy,
            b.records@.len() == 0,
            b.rejected_duplicates == 0,
    {
        Board { policy, records: Vec::new(), latest_index: NullifierIndex::new(), rejected_duplicates: 0 }
    }

    /// The position in `latest_index` of a nullifier, if it is on the board.
    fn find(&self, nullifier: &[u8; 32]) -> (r: Option<usize>)
        requires
            self.wf(),
        ensures
            match r {
                Some(k) => k < self.voters().len() && self.voters()[k as int] == *nullifier,
                None => !self.voters().contains(*nullifier),
            },
    {
        self.latest_index.find(Ghost(nullifiers(self.records@)), nullifier)
    }

    /// Append a ballot. Its validity proof is checked first; invalid ballots
    /// never enter the board.
    pub fn append(&mut self, pk: &PublicKey, ballot: Ballot) -> (r: AppendResult)
        requires
            old(self).wf(),
            old(self).rejected_duplicates < u64::MAX,
        ensures
            final(self).wf(),
            final(self).policy == old(self).policy,
            if !ballot_verifies(*pk, ballot) {
                &&& r == AppendResult::RejectedInvalidProof
                &&& final(self).records@ == old(self).records@
                &&& final(self).rejected_duplicates == old(self).rejected_duplicates
            } else if old(self).voters().contains(ballot.nullifier) && old(self).policy
                == Policy::RejectDuplicate {
                &&& r == AppendResult::RejectedDuplicate
                &&& final(self).records@ == old(self).records@
                &&& final(self).rejected_duplicates == old(self).rejected_duplicates + 1
            } else {
                &&& r == if old(self).voters().contains(ballot.nullifier) {
                    AppendResult::Replaced
                } else {
                    AppendResult::Accepted
                }
                &&& final(self).records@ == old(self).records@.push(ballot)
                &&& final(self).rejected_duplicates == old(self).rejected_duplicates
            },
    {
        if !verify_ballot(pk, ballot.cts.as_slice(), &ballot.proof) {
            return AppendResult::RejectedInvalidProof;
        }
        let seen = self.find(&ballot.nullifier);
        let ghost ns = nullifiers(self.records@);
        let ghost ns2 = ns.push(ballot.nullifier);
        proof {
            assert(nullifiers(self.records@.push(ballot)) =~= ns2);
            lemma_first_appearances_contains(ns);
        }
        if seen.is_some() && self.policy == Policy::RejectDuplicate {
            self.rejected_duplicates = self.rejected_duplicates + 1;
            return AppendResult::RejectedDuplicate;
        }
        let pos = self.records.len();
        self.latest_index.note(Ghost(ns), ballot.nullifier, pos, seen);
        let replaced = seen.is_some();
        self.records.push(ballot);
        proof {
            if self.policy == Policy::RejectDuplicate {
                assert(!ns.contains(ballot.nullifier));
                assert forall|a: int, b: int|
                    0 <= a < ns2.len() && 0 <= b < ns2.len() && a != b implies ns2[a] != ns2[b] by {
                    if a == ns.len() {
                        assert(ns.contains(ns2[b]));
                    } else if b == ns.len() {
                        assert(ns.contains(ns2[a]));
                    }
                }
            }
        }
        if replaced {
            AppendResult::Replaced
        } else {
            AppendResult::Accepted
        }
    }

    /// The ballots that count, honoring the policy.
    pub fn counted(&self) -> (r: Vec<&Ballot>)
        requires
            self.wf(),
        ensures
            r@.len() == counted_indices(self.policy, nullifiers(self.records@)).len(),
            forall|k: int|
                0 <= k < r@.len() ==> *r@[k] == self.records@[counted_indices(
                    self.policy,
                    nullifiers(self.records@),
                )[k]],
    {
        let ghost ns = nullifiers(self.records@);
        let ghost ci = counted_indices(self.policy, ns);
        let mut out: Vec<&Ballot> = Vec::new();
        match self.policy {
            Policy::RejectDuplicate => {
                // First occurrence per nullifier (duplicates were never added).
                let mut k: usize = 0;
                while k < self.records.len()
                    invariant
                        k <= self.records@.len(),
                        self.policy == Policy::RejectDuplicate,
                        ci == counted_indices(self.policy, ns),
                        ns == nullifiers(self.records@),
                        out@.len() == k,
                        forall|j: int| 0 <= j < k ==> *out@[j] == self.records@[ci[j]],
                    decreases self.records@.len() - k,
                {
                    out.push(&self.records[k]);
                    k = k + 1;
                }
            },
            Policy::LastWriteWins => {
                // Latest record per nullifier.
                let mut k: usize = 0;
                while k < self.latest_index.len()
                    invariant
                        self.wf(),
                        k <= self.latest_index.entries@.len(),
                        self.policy == Policy::LastWriteWins,
                        ci == counted_indices(self.policy, ns),
                        ns == nullifiers(self.records@),
                        out@.len() == k,
                        forall|j: int| 0 <= j < k ==> *out@[j] == self.records@[ci[j]],
                    decreases self.latest_index.entries@.len() - k,
                {
                    let idx = self.latest_index.entries[k].1;
                    proof {
                        lemma_first_appearances_contains(ns);
                        assert(first_appearances(ns).contains(first_appearances(ns)[k as int]));
                        lemma_last_index_in_range(ns, first_appearances(ns)[k as int]);
                    }
                    out.push(&self.records[idx]);
                    k = k + 1;
                }
            },
        }
        out
    }

    /// Distinct voters that appear on the board (by nullifier).
    pub fn distinct_voters(&self) -> (r: usize)
        requires
            self.wf(),
        ensures
            r == self.voters().len(),
    {
        self.latest_index.len()
    }
}

/// `s.push(y)` contains exactly the values of `s` and `y`.
proof fn lemma_push_contains(s: Seq<[u8; 32]>, y: [u8; 32], x: [u8; 32])
    ensures
        s.push(y).contains(x) <==> (s.contains(x) || x == y),
{
    if s.push(y).contains(x) {
        let i = choose|i: int| 0 <= i < s.push(y).len() && s.push(y)[i] == x;
        if i < s.len() {
            assert(s[i] == x);
        }
    }
    if s.contains(x) {
        let i = choose|i: int| 0 <= i < s.len() && s[i] == x;
        assert(s.push(y)[i] == x);
    }
    if x == y {
        assert(s.push(y)[s.len() as int] == x);
    }
}

/// The distinct values are exactly the values that occur.
pub proof fn lemma_first_appearances_contains(ns: Seq<[u8; 32]>)
    ensures
        forall|x: [u8; 32]| #[trigger] first_appearances(ns).contains(x) <==> ns.contains(x),
    decreases ns.len(),
{
    if ns.len() > 0 {
        let p = ns.drop_last();
        let rest = first_appearances(p);
        let fa = first_appearances(ns);
        lemma_first_appearances_contains(p);
        assert(ns =~= p.push(ns.last()));
        assert forall|x: [u8; 32]| #[trigger] fa.contains(x) <==> ns.contains(x) by {
            lemma_push_contains(p, ns.last(), x);
            lemma_push_contains(rest, ns.last(), x);
            if p.contains(ns.last()) {
                assert(fa == rest);
            } else {
                assert(fa == rest.push(ns.last()));
            }
        }
    } else {
        assert forall|x: [u8; 32]| #[trigger] first_appearances(ns).contains(x) <==> ns.contains(
            x,
        ) by {}
    }
}

/// There are no more distinct values than values.
pub proof fn lemma_first_appearances_len(ns: Seq<[u8; 32]>)
    ensures
        first_appearances(ns).len() <= ns.len(),
    decreases ns.len(),
{
    if ns.len() > 0 {
        lemma_first_appearances_len(ns.drop_last());
    }
}

/// The distinct values have no duplicates.
pub proof fn lemma_first_appearances_distinct(ns: Seq<[u8; 32]>)
    ensures
        first_appearances(ns).no_duplicates(),
    decreases ns.len(),
{
    if ns.len() > 0 {
        let p = ns.drop_last();
        let rest = first_appearances(p);
        lemma_first_appearances_distinct(p);
        lemma_first_appearances_contains(p);
        if !p.contains(ns.last()) {
            let fa = rest.push(ns.last());
            assert(!rest.contains(ns.last()));
            assert forall|a: int, b: int|
                0 <= a < fa.len() && 0 <= b < fa.len() && a != b implies fa[a] != fa[b] by {
                if a == rest.len() {
                    assert(rest[b] == fa[b]);
                } else if b == rest.len() {
                    assert(rest[a] == fa[a]);
                }
            }
        }
    }
}

/// The last occurrence of a value that occurs is a position holding it.
pub proof fn lemma_last_index_in_range(ns: Seq<[u8; 32]>, x: [u8; 32])
    requires
        ns.contains(x),
    ensures
        0 <= last_index(ns, x) < ns.len(),
        ns[last_index(ns, x)] == x,
    decreases ns.len(),
{
    if ns.last() != x {
        let i = choose|i: int| 0 <= i < ns.len() && ns[i] == x;
        assert(ns.drop_last()[i] == x);
        lemma_last_index_in_range(ns.drop_last(), x);
    }
}

/// Without duplicates, the distinct values are the sequence itself.
pub proof fn lemma_first_appearances_of_distinct(ns: Seq<[u8; 32]>)
    requires
        ns.no_duplicates(),
    ensures
        first_appearances(ns) == ns,
    decreases ns.len(),
{
    if ns.len() > 0 {
        let p = ns.drop_last();
        assert(p.no_duplicates());
        lemma_first_appearances_of_distinct(p);
        if p.contains(ns.last()) {
            let i = choose|i: int| 0 <= i < p.len() && p[i] == ns.last();
            assert(ns[i] == ns[ns.len() - 1]);
        }
        assert(ns =~= p.push(ns.last()));
    }
}

/// One person, one vote: the counted ballots sit at distinct positions of
/// the board, carry pairwise distinct nullifiers, and there are exactly as
/// many of them as there are distinct voters on the board.
pub proof fn lemma_one_vote_per_nullifier(b: Board)
    requires
        b.wf(),
    ensures
        ({
            let ns = nullifiers(b.records@);
            let ci = counted_indices(b.policy, ns);
            &&& ci.len() == b.voters().len()
            &&& forall|k: int| 0 <= k < ci.len() ==> 0 <= #[trigger] ci[k] < ns.len()
            &&& forall|k: int, j: int|
                0 <= k < ci.len() && 0 <= j < ci.len() && k != j ==> ns[#[trigger] ci[k]]
                    != ns[#[trigger] ci[j]]
        }),
{
    let ns = nullifiers(b.records@);
    let ci = counted_indices(b.policy, ns);
    let fa = first_appearances(ns);
    lemma_first_appearances_distinct(ns);
    lemma_first_appearances_contains(ns);
    match b.policy {
        Policy::RejectDuplicate => {
            lemma_first_appearances_of_distinct(ns);
        },
        Policy::LastWriteWins => {
            assert forall|k: int| 0 <= k < ci.len() implies 0 <= #[trigger] ci[k] < ns.len()
                && ns[ci[k]] == fa[k] by {
                assert(fa.contains(fa[k]));
                lemma_last_index_in_range(ns, fa[k]);
            }
        },
    }
}

} // verus!
