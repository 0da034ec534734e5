//! The coercer's view of the public bulletin board.
//!
//! Given only the public transcript, where each ballot carries its voter's
//! deterministic nullifier, the coercer tries to detect that a credential
//! re-voted and to link two ballots to one voter. Whenever a nullifier
//! occurs twice, both succeed: the deterministic-nullifier design offers no
//! unlinkable re-voting.
use vstd::prelude::*;
use crate::buckets::Buckets;
use crate::tally::Transcript;
use vstd::multiset::Multiset;
use vstd::string::StrSliceExecFns;

verus! {

#[derive(Clone, Debug)]
pub struct CoercerReport {
    pub board_ballots: usize,
    pub distinct_nullifiers: usize,
    pub revote_nullifiers: usize,
    pub linked_ballots: usize,
    /// `(index_a, index_b, nullifier)`: a concrete linked pair, if any.
    pub example_link: Option<(usize, usize, String)>,
    pub can_detect_revote: bool,
    pub can_link_two_ballots: bool,
}

/// How often `x` occurs among the first `n` values of `s`.
pub open spec fn occurrences_in(s: Seq<Seq<char>>, x: Seq<char>, n: nat) -> nat
    decreases n,
{
    if n == 0 {
        0
    } else {
        occurrences_in(s, x, (n - 1) as nat) + if s[n - 1] == x {
            1nat
        } else {
            0nat
        }
    }
}

/// How often `x` occurs in `s`.
pub open spec fn occurrences(s: Seq<Seq<char>>, x: Seq<char>) -> nat {
    occurrences_in(s, x, s.len())
}

/// Position `i` holds the first occurrence of its value.
pub open spec fn is_first(s: Seq<Seq<char>>, i: int) -> bool {
    forall|j: int| 0 <= j < i ==> s[j] != s[i]
}

/// Position `i` holds the first occurrence of a value that occurs again.
pub open spec fn is_first_repeat(s: Seq<Seq<char>>, i: int) -> bool {
    is_first(s, i) && occurrences(s, s[i]) > 1
}

/// Among the first `n` positions: how many hold a first occurrence, how
/// many the first occurrence of a repeated value, and how many a repeated
/// value.
pub open spec fn tallies(s: Seq<Seq<char>>, n: nat) -> (nat, nat, nat)
    decreases n,
{
    if n == 0 {
        (0, 0, 0)
    } else {
        let prev = tallies(s, (n - 1) as nat);
        let i = n - 1;
        (
            prev.0 + if is_first(s, i) {
                1nat
            } else {
                0nat
            },
            prev.1 + if is_first_repeat(s, i) {
                1nat
            } else {
                0nat
            },
            prev.2 + if occurrences(s, s[i]) > 1 {
                1nat
            } else {
                0nat
            },
        )
    }
}

/// `r` is the report on the nullifiers `s`: their number, how many are
/// distinct, how many repeat, how many ballots carry a repeated one, and
/// the first two ballots of the first repeated nullifier.
pub open spec fn reports(r: CoercerReport, s: Seq<Seq<char>>) -> bool {
    let counts = tallies(s, s.len());
    let revotes = counts.1;
    &&& r.board_ballots == s.len()
    &&& r.distinct_nullifiers == counts.0
    &&& r.revote_nullifiers == revotes
    &&& r.linked_ballots == counts.2
    &&& r.can_detect_revote == (revotes > 0)
    &&& r.can_link_two_ballots == (revotes > 0)
    &&& match r.example_link {
        None => revotes == 0,
        Some((a, b, x)) => {
            &&& a < b < s.len()
            &&& x@ == s[a as int]
            &&& s[b as int] == s[a as int]
            &&& is_first_repeat(s, a as int)
            &&& forall|i: int| 0 <= i < a ==> !is_first_repeat(s, i)
            &&& forall|j: int| a < j < b ==> s[j] != s[a as int]
        },
    }
}

/// The views of a sequence of strings.
pub open spec fn string_views(v: Seq<String>) -> Seq<Seq<char>> {
    v.map_values(|x: String| x@)
}

/// No first occurrence of a repeated value: none is counted.
proof fn lemma_no_repeats(s: Seq<Seq<char>>, n: nat)
    requires
        n <= s.len(),
        forall|i: int| 0 <= i < n ==> !is_first_repeat(s, i),
    ensures
        tallies(s, n).1 == 0,
    decreases n,
{
    if n > 0 {
        lemma_no_repeats(s, (n - 1) as nat);
    }
}

/// A value that occurs only at position `i` occurs once.
proof fn lemma_occurs_once(s: Seq<Seq<char>>, i: int, n: nat)
    requires
        0 <= i < n <= s.len(),
        forall|m: int| 0 <= m < n && m != i ==> s[m] != s[i],
    ensures
        occurrences_in(s, s[i], n) == 1,
    decreases n,
{
    if i < n - 1 {
        lemma_occurs_once(s, i, (n - 1) as nat);
    } else {
        lemma_occurs_never(s, s[i], (n - 1) as nat);
    }
}

/// A value that occurs nowhere among the first `n` positions.
proof fn lemma_occurs_never(s: Seq<Seq<char>>, x: Seq<char>, n: nat)
    requires
        n <= s.len(),
        forall|m: int| 0 <= m < n ==> s[m] != x,
    ensures
        occurrences_in(s, x, n) == 0,
    decreases n,
{
    if n > 0 {
        lemma_occurs_never(s, x, (n - 1) as nat);
    }
}

/// A short hash of the first `n` characters of `x`.
pub open spec fn key_prefix(x: Seq<char>, n: nat) -> nat
    decreases n,
{
    if n == 0 {
        0
    } else {
        ((key_prefix(x, (n - 1) as nat) * 31 + (x[n - 1] as u32) as nat) % 0x1_0000_0000) as nat
    }
}

/// The bucket of a nullifier: a hash of its first eight characters.
pub open spec fn bucket_key(x: Seq<char>) -> nat {
    key_prefix(
        x,
        if x.len() < 8 {
            x.len()
        } else {
            8
        },
    )
}

fn key_of(x: &String) -> (k: u64)
    ensures
        k == bucket_key(x@),
{
    let t = x.as_str();
    let len = t.unicode_len();
    let m: usize = if len < 8 {
        len
    } else {
        8
    };
    let mut k: u64 = 0;
    let mut i: usize = 0;
    while i < m
        invariant
            i <= m,
            m as nat == if x@.len() < 8 {
                x@.len()
            } else {
                8
            },
            t@ == x@,
            k == key_prefix(x@, i as nat),
            k < 0x1_0000_0000,
        decreases m - i,
    {
        let c = t.get_char(i);
        k = (k * 31 + (c as u32) as u64) % 0x1_0000_0000;
        i = i + 1;
    }
    k
}

/// The positions below `n` whose nullifier falls in bucket `k`, in order.
pub open spec fn bucket_of(s: Seq<Seq<char>>, k: nat, n: nat) -> Seq<usize>
    decreases n,
{
    if n == 0 {
        Seq::empty()
    } else {
        let b = bucket_of(s, k, (n - 1) as nat);
        if bucket_key(s[n - 1]) == k {
            b.push((n - 1) as usize)
        } else {
            b
        }
    }
}

/// How many positions listed in `b` hold `x`.
pub open spec fn count_eq(s: Seq<Seq<char>>, x: Seq<char>, b: Seq<usize>) -> nat
    decreases b.len(),
{
    if b.len() == 0 {
        0
    } else {
        count_eq(s, x, b.drop_last()) + if s[b.last() as int] == x {
            1nat
        } else {
            0nat
        }
    }
}

/// A bucket lists, in increasing order, exactly the positions below `n`
/// whose nullifier has its key.
proof fn lemma_bucket(s: Seq<Seq<char>>, k: nat, n: nat)
    requires
        n <= s.len(),
        n <= usize::MAX,
    ensures
        forall|p: int|
            0 <= p < bucket_of(s, k, n).len() ==> #[trigger] bucket_of(s, k, n)[p] < n
                && bucket_key(s[bucket_of(s, k, n)[p] as int]) == k,
        forall|p: int, q: int|
            0 <= p < q < bucket_of(s, k, n).len() ==> #[trigger] bucket_of(s, k, n)[p]
                < #[trigger] bucket_of(s, k, n)[q],
        forall|j: int|
            0 <= j < n && bucket_key(#[trigger] s[j]) == k ==> exists|p: int|
                0 <= p < bucket_of(s, k, n).len() && bucket_of(s, k, n)[p] == j,
    decreases n,
{
    if n > 0 {
        lemma_bucket(s, k, (n - 1) as nat);
        let b = bucket_of(s, k, (n - 1) as nat);
        if bucket_key(s[n - 1]) == k {
            let b2 = b.push((n - 1) as usize);
            assert(bucket_of(s, k, n) == b2);
            assert forall|j: int| 0 <= j < n && bucket_key(#[trigger] s[j]) == k implies exists|p: int|
                0 <= p < b2.len() && b2[p] == j by {
                if j == n - 1 {
                    assert(b2[b.len() as int] == j);
                } else {
                    let p = choose|p: int| 0 <= p < b.len() && b[p] == j;
                    assert(b2[p] == j);
                }
            }
        } else {
            assert(bucket_of(s, k, n) == b);
            assert forall|j: int| 0 <= j < n && bucket_key(#[trigger] s[j]) == k implies exists|p: int|
                0 <= p < b.len() && b[p] == j by {
                assert(j != n - 1);
            }
        }
    }
}

/// Occurrences of `x` are counted within its bucket.
proof fn lemma_occurrences_in_bucket(s: Seq<Seq<char>>, x: Seq<char>, n: nat)
    requires
        n <= s.len(),
        n <= usize::MAX,
    ensures
        occurrences_in(s, x, n) == count_eq(s, x, bucket_of(s, bucket_key(x), n)),
    decreases n,
{
    if n > 0 {
        lemma_occurrences_in_bucket(s, x, (n - 1) as nat);
        let b = bucket_of(s, bucket_key(x), (n - 1) as nat);
        if bucket_key(s[n - 1]) == bucket_key(x) {
            let b2 = b.push((n - 1) as usize);
            assert(b2.drop_last() =~= b);
        }
    }
}

/// Scan the bucket of ballot `i`'s nullifier: its number of occurrences,
/// whether `i` is its first, and the next occurrence after `i`.
fn scan(nulls: &[String], i: usize, bucket: &Vec<usize>) -> (r: (usize, bool, Option<usize>))
    requires
        i < nulls@.len(),
        bucket@ == bucket_of(
            string_views(nulls@),
            bucket_key(nulls@[i as int]@),
            nulls@.len() as nat,
        ),
    ensures
        ({
            let s = string_views(nulls@);
            &&& r.0 == occurrences(s, s[i as int])
            &&& r.1 == is_first(s, i as int)
            &&& match r.2 {
                Some(b) => i < b < s.len() && s[b as int] == s[i as int] && forall|j: int|
                    i < j < b ==> s[j] != s[i as int],
                None => forall|j: int| i < j < s.len() ==> s[j] != s[i as int],
            }
        }),
{
    let ghost s = string_views(nulls@);
    let ghost x = s[i as int];
    let ghost k = bucket_key(x);
    let ghost bs = bucket@;
    let len = nulls.len();
    proof {
        assert(s.len() == len);
        assert(x == nulls@[i as int]@);
        lemma_bucket(s, k, s.len());
        lemma_occurrences_in_bucket(s, x, s.len());
    }
    let mut occ: usize = 0;
    let mut first = true;
    let mut next: Option<usize> = None;
    let mut p: usize = 0;
    while p < bucket.len()
        invariant
            p <= bs.len(),
            bs == bucket@,
            i < nulls@.len(),
            s == string_views(nulls@),
            x == s[i as int],
            forall|q: int| 0 <= q < bs.len() ==> #[trigger] bs[q] < s.len(),
            occ == count_eq(s, x, bs.take(p as int)),
            occ <= p,
            first == (forall|q: int| 0 <= q < p && bs[q] < i ==> s[bs[q] as int] != x),
            match next {
                Some(b) => i < b < s.len() && s[b as int] == x && exists|pb: int|
                    0 <= pb < p && bs[pb] == b && forall|q: int|
                        0 <= q < pb && bs[q] > i ==> s[bs[q] as int] != x,
                None => forall|q: int| 0 <= q < p && bs[q] > i ==> s[bs[q] as int] != x,
            },
        decreases bs.len() - p,
    {
        let j = bucket[p];
        let same = nulls[j] == nulls[i];
        assert(same == (s[j as int] == x));
        assert(bs.take(p + 1).drop_last() =~= bs.take(p as int));
        if same {
            occ = occ + 1;
            if j < i {
                first = false;
            }
            if j > i && next.is_none() {
                next = Some(j);
            }
        }
        p = p + 1;
    }
    proof {
        assert(bs.take(bs.len() as int) =~= bs);
        assert(occ == occurrences(s, x));
        // every earlier equal nullifier is in the bucket
        assert forall|j: int| 0 <= j < i && s[j] == x implies !first by {
            assert(bucket_key(s[j]) == k);
            let q = choose|q: int| 0 <= q < bs.len() && bs[q] == j;
        }
        match next {
            Some(b) => {
                let pb = choose|pb: int|
                    0 <= pb < bs.len() && bs[pb] == b && forall|q: int|
                        0 <= q < pb && bs[q] > i ==> s[bs[q] as int] != x;
                assert forall|j: int| i < j < b implies s[j] != x by {
                    if s[j] == x {
                        assert(bucket_key(s[j]) == k);
                        let q = choose|q: int| 0 <= q < bs.len() && bs[q] == j;
                        if q >= pb {
                            if q > pb {
                                assert(bs[pb] < bs[q]);
                            }
                        }
                    }
                }
            },
            None => {
                assert forall|j: int| i < j < s.len() implies s[j] != x by {
                    if s[j] == x {
                        assert(bucket_key(s[j]) == k);
                        let q = choose|q: int| 0 <= q < bs.len() && bs[q] == j;
                    }
                }
            },
        }
    }
    (occ, first, next)
}

/// The buckets of all nullifiers.
fn buckets_of(nulls: &[String]) -> (r: Buckets)
    ensures
        forall|k: u64| #[trigger] r.list(k) == bucket_of(string_views(nulls@), k as nat, nulls@.len() as nat),
{
    let ghost s = string_views(nulls@);
    let mut r = Buckets::new();
    let mut j: usize = 0;
    while j < nulls.len()
        invariant
            j <= nulls@.len(),
            s == string_views(nulls@),
            forall|k2: u64| #[trigger] r.list(k2) == bucket_of(s, k2 as nat, j as nat),
        decreases nulls@.len() - j,
    {
        let key = key_of(&nulls[j]);
        assert(key == bucket_key(s[j as int]));
        r.push(key, j);
        assert forall|k2: u64| #[trigger] r.list(k2) == bucket_of(s, k2 as nat, (j + 1) as nat) by {
            assert(bucket_of(s, k2 as nat, (j + 1) as nat) == if bucket_key(s[j as int]) == k2 {
                bucket_of(s, k2 as nat, j as nat).push(j)
            } else {
                bucket_of(s, k2 as nat, j as nat)
            });
        }
        j = j + 1;
    }
    r
}

/// Coercion-linkage analysis over the public nullifiers alone: the claim
/// depends only on nullifiers being public and deterministic per voter and
/// election.
pub fn analyze_nullifiers(nulls: &[String]) -> (r: CoercerReport)
    ensures
        reports(r, string_views(nulls@)),
{
    let ghost s = string_views(nulls@);
    let buckets = buckets_of(nulls);
    let empty: Vec<usize> = Vec::new();
    let mut distinct: usize = 0;
    let mut revote: usize = 0;
    let mut linked: usize = 0;
    let mut example: Option<(usize, usize, String)> = None;
    let mut i: usize = 0;
    while i < nulls.len()
        invariant
            i <= nulls@.len(),
            s == string_views(nulls@),
            (distinct as nat, revote as nat, linked as nat) == tallies(s, i as nat),
            forall|k: u64| #[trigger] buckets.list(k) == bucket_of(s, k as nat, nulls@.len() as nat),
            empty@ == Seq::<usize>::empty(),
            distinct <= i,
            revote <= i,
            linked <= i,
            match example {
                None => forall|k: int| 0 <= k < i ==> !is_first_repeat(s, k),
                Some((a, b, x)) => {
                    &&& a < i
                    &&& a < b < s.len()
                    &&& x@ == s[a as int]
                    &&& s[b as int] == s[a as int]
                    &&& is_first_repeat(s, a as int)
                    &&& forall|k: int| 0 <= k < a ==> !is_first_repeat(s, k)
                    &&& forall|j: int| a < j < b ==> s[j] != s[a as int]
                },
            },
        decreases nulls@.len() - i,
    {
        let key = key_of(&nulls[i]);
        assert(key == bucket_key(nulls@[i as int]@));
        let bucket = match buckets.get(key) {
            Some(b) => b,
            None => &empty,
        };
        let (occ, first, next) = scan(nulls, i, bucket);
        if first {
            distinct = distinct + 1;
            if occ > 1 {
                revote = revote + 1;
                if example.is_none() {
                    proof {
                        // The value occurs again, and only after `i`.
                        if next is None {
                            lemma_occurs_once(s, i as int, s.len());
                        }
                    }
                    let b = next.unwrap();
                    example = Some((i, b, nulls[i].clone()));
                }
            }
        }
        if occ > 1 {
            linked = linked + 1;
        }
        i = i + 1;
    }
    proof {
        if example is None {
            lemma_no_repeats(s, s.len());
        }
    }
    CoercerReport {
        board_ballots: nulls.len(),
        distinct_nullifiers: distinct,
        revote_nullifiers: revote,
        linked_ballots: linked,
        example_link: example,
        can_detect_revote: revote > 0,
        can_link_two_ballots: revote > 0,
    }
}

/// Analyze the public board: whatever ballots are present (under
/// `LastWriteWins` every re-vote is appended, so repeated nullifiers are
/// visible).
pub fn analyze(t: &Transcript) -> (r: CoercerReport)
    ensures
        reports(r, t.ballots@.map_values(|b: crate::tally::BallotEntry| b.nullifier@)),
{
    let mut nulls: Vec<String> = Vec::with_capacity(t.ballots.len());
    let mut i: usize = 0;
    while i < t.ballots.len()
        invariant
            i <= t.ballots@.len(),
            nulls@.len() == i,
            forall|j: int| 0 <= j < i ==> (#[trigger] nulls@[j])@ == t.ballots@[j].nullifier@,
        decreases t.ballots@.len() - i,
    {
        nulls.push(t.ballots[i].nullifier.clone());
        i = i + 1;
    }
    assert(string_views(nulls@) =~= t.ballots@.map_values(
        |b: crate::tally::BallotEntry| b.nullifier@,
    ));
    analyze_nullifiers(nulls.as_slice())
}

/// Two positions holding `x` make it occur at least twice.
proof fn lemma_occurs_twice(s: Seq<Seq<char>>, i: int, j: int, n: nat)
    requires
        0 <= i < j < n <= s.len(),
        s[i] == s[j],
    ensures
        occurrences_in(s, s[i], n) >= 2,
    decreases n,
{
    if n - 1 > j {
        lemma_occurs_twice(s, i, j, (n - 1) as nat);
    } else {
        lemma_occurs_at_least_once(s, i, (n - 1) as nat);
    }
}

proof fn lemma_occurs_at_least_once(s: Seq<Seq<char>>, i: int, n: nat)
    requires
        0 <= i < n <= s.len(),
    ensures
        occurrences_in(s, s[i], n) >= 1,
    decreases n,
{
    if n - 1 > i {
        lemma_occurs_at_least_once(s, i, (n - 1) as nat);
    }
}

/// The first occurrences of repeated values are counted.
proof fn lemma_first_repeat_counted(s: Seq<Seq<char>>, a: int, n: nat)
    requires
        0 <= a < n <= s.len(),
        is_first_repeat(s, a),
    ensures
        tallies(s, n).1 >= 1,
    decreases n,
{
    if n - 1 > a {
        lemma_first_repeat_counted(s, a, (n - 1) as nat);
    }
}

/// **A re-vote is always linked.** Whenever two ballots carry the same
/// nullifier, the coercer's report detects a re-vote and links two ballots
/// to one voter.
pub proof fn lemma_repeat_detected(r: CoercerReport, s: Seq<Seq<char>>, i: int, j: int)
    requires
        reports(r, s),
        0 <= i < j < s.len(),
        s[i] == s[j],
    ensures
        r.can_detect_revote,
        r.can_link_two_ballots,
{
    // the first position holding the repeated value
    let a = choose|a: int| 0 <= a <= i && s[a] == s[i] && forall|b: int| 0 <= b < a ==> s[b] != s[i];
    assert(exists|a: int| 0 <= a <= i && s[a] == s[i] && forall|b: int| 0 <= b < a ==> s[b] != s[i])
        by {
        lemma_first_position(s, i, i);
    }
    lemma_occurs_twice(s, i, j, s.len());
    assert(is_first_repeat(s, a));
    lemma_first_repeat_counted(s, a, s.len());
}

/// Some position at or before `k` holds `s[i]` with none earlier.
proof fn lemma_first_position(s: Seq<Seq<char>>, i: int, k: int)
    requires
        0 <= k <= i < s.len(),
        s[k] == s[i],
    ensures
        exists|a: int| 0 <= a <= i && s[a] == s[i] && forall|b: int| 0 <= b < a ==> s[b] != s[i],
    decreases k,
{
    if exists|b: int| 0 <= b < k && s[b] == s[i] {
        let b = choose|b: int| 0 <= b < k && s[b] == s[i];
        lemma_first_position(s, i, b);
    } else {
        assert(forall|b: int| 0 <= b < k ==> s[b] != s[i]);
    }
}

/// Whether a value occurs more than once in `m`.
spec fn repeated_in(m: Multiset<Seq<char>>) -> spec_fn(Seq<char>) -> bool {
    |x: Seq<char>| m.count(x) > 1
}

/// Occurrences are multiset counts.
proof fn lemma_occurrences_count(s: Seq<Seq<char>>, x: Seq<char>, n: nat)
    requires
        n <= s.len(),
    ensures
        occurrences_in(s, x, n) == s.take(n as int).to_multiset().count(x),
    decreases n,
{
    broadcast use vstd::seq_lib::group_to_multiset_ensures;
    if n == 0 {
        assert(s.take(0) =~= Seq::<Seq<char>>::empty());
    } else {
        lemma_occurrences_count(s, x, (n - 1) as nat);
        assert(s.take(n as int) =~= s.take(n - 1).push(s[n - 1]));
    }
}

/// The three tallies of a prefix, by its set of values and its multiset.
proof fn lemma_tallies_by_multiset(s: Seq<Seq<char>>, n: nat)
    requires
        n <= s.len(),
    ensures
        tallies(s, n).0 == s.take(n as int).to_set().len(),
        tallies(s, n).1 == s.take(n as int).to_set().filter(repeated_in(s.to_multiset())).len(),
        tallies(s, n).2 == s.take(n as int).to_multiset().filter(repeated_in(s.to_multiset())).len(),
    decreases n,
{
    broadcast use vstd::seq_lib::group_to_multiset_ensures;
    broadcast use vstd::set::group_set_axioms;
    broadcast use vstd::multiset::group_multiset_axioms;
    let m = s.to_multiset();
    let f = repeated_in(m);
    if n == 0 {
        assert(s.take(0) =~= Seq::<Seq<char>>::empty());
        assert(s.take(0).to_set() =~= Set::<Seq<char>>::empty());
        assert(s.take(0).to_set().filter(f) =~= Set::<Seq<char>>::empty());
        assert(s.take(0).to_multiset().filter(f) =~= Multiset::<Seq<char>>::empty());
    } else {
        let i = n - 1;
        let x = s[i];
        let pre = s.take(i);
        lemma_tallies_by_multiset(s, i as nat);
        assert(s.take(n as int) =~= pre.push(x));
        pre.lemma_push_to_set_commute(x);
        vstd::seq_lib::seq_to_set_is_finite(pre);
        pre.to_set().lemma_len_filter(f);
        assert(pre.to_set().insert(x).filter(f) =~= if f(x) {
            pre.to_set().filter(f).insert(x)
        } else {
            pre.to_set().filter(f)
        });
        assert(pre.push(x).to_multiset().filter(f) =~= if f(x) {
            pre.to_multiset().filter(f).insert(x)
        } else {
            pre.to_multiset().filter(f)
        });
        // first occurrences and repeated values
        assert(is_first(s, i) <==> !pre.to_set().contains(x)) by {
            if !is_first(s, i) {
                let j = choose|j: int| 0 <= j < i && s[j] == s[i];
                assert(pre[j] == x);
            }
            if pre.to_set().contains(x) {
                let j = choose|j: int| 0 <= j < pre.len() && pre[j] == x;
                assert(s[j] == s[i]);
            }
        }
        lemma_occurrences_count(s, x, s.len());
        assert(s.take(s.len() as int) =~= s);
        assert(f(x) == (occurrences(s, x) > 1));
    }
}

/// **The coercer's report ignores ballot order.** Two boards whose
/// nullifiers are permutations of each other give reports with the same
/// numbers and the same verdicts.
pub proof fn lemma_report_order_independent(r1: CoercerReport, s1: Seq<Seq<char>>, r2: CoercerReport, s2: Seq<Seq<char>>)
    requires
        reports(r1, s1),
        reports(r2, s2),
        s1.to_multiset() == s2.to_multiset(),
    ensures
        r1.board_ballots == r2.board_ballots,
        r1.distinct_nullifiers == r2.distinct_nullifiers,
        r1.revote_nullifiers == r2.revote_nullifiers,
        r1.linked_ballots == r2.linked_ballots,
        r1.can_detect_revote == r2.can_detect_revote,
        r1.can_link_two_ballots == r2.can_link_two_ballots,
        r1.example_link.is_some() == r2.example_link.is_some(),
{
    broadcast use vstd::seq_lib::group_to_multiset_ensures;
    lemma_tallies_by_multiset(s1, s1.len());
    lemma_tallies_by_multiset(s2, s2.len());
    assert(s1.take(s1.len() as int) =~= s1);
    assert(s2.take(s2.len() as int) =~= s2);
    assert(s1.len() == s1.to_multiset().len());
    assert(s2.len() == s2.to_multiset().len());
    if let Some((a, b, x)) = r1.example_link {
        lemma_first_repeat_counted(s1, a as int, s1.len());
    }
    if let Some((a, b, x)) = r2.example_link {
        lemma_first_repeat_counted(s2, a as int, s2.len());
    }
    assert(s1.to_set() =~= s2.to_set()) by {
        assert forall|x: Seq<char>| s1.to_set().contains(x) <==> s2.to_set().contains(x) by {
            assert(s1.contains(x) <==> s1.to_multiset().count(x) > 0);
            assert(s2.contains(x) <==> s2.to_multiset().count(x) > 0);
        }
    }
}

} // verus!
