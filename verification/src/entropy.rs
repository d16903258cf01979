//! The integer parts of Shannon entropy and population diversity of ternary strategies.
//!
//! The entropy of a strategy is a function of how often each of -1, 0, +1
//! occurs in it, and the diversity of a population is the average pairwise
//! Hamming distance; this module counts those occurrences and distances.
use vstd::prelude::*;
use crate::strategy::{TernaryStrategy, all_trits, is_trit, hamming, differences_below, lemma_hamming_bound};

verus! {

/// The predicate "equals `v`".
pub open spec fn equals_pred(v: i8) -> spec_fn(i8) -> bool {
    |c: i8| c == v
}

/// How often `v` occurs in `s`.
pub open spec fn occurrences(s: Seq<i8>, v: i8) -> nat {
    s.filter(equals_pred(v)).len()
}

/// The sum of the Hamming distances from strategy `i` to strategies `i+1 .. j`.
pub open spec fn row_distance(ss: Seq<Seq<i8>>, i: int, j: int) -> nat
    decreases j - i,
{
    if j <= i + 1 {
        0
    } else {
        row_distance(ss, i, j - 1) + hamming(ss[i], ss[j - 1])
    }
}

/// The sum of the Hamming distances over all pairs whose first member is among the first `i`.
pub open spec fn pair_distance(ss: Seq<Seq<i8>>, i: int) -> nat
    decreases i,
{
    if i <= 0 {
        0
    } else {
        pair_distance(ss, i - 1) + row_distance(ss, i - 1, ss.len() as int)
    }
}

/// The number of unordered pairs among `len` items.
pub open spec fn pair_count(len: nat) -> nat {
    (len * (len - 1) / 2) as nat
}

/// The views of a sequence of strategies.
pub open spec fn views_of(v: Seq<TernaryStrategy>) -> Seq<Seq<i8>> {
    v.map_values(|t: TernaryStrategy| t@)
}

/// Entropy and diversity computations for ternary strategies.
pub struct Entropy;

/// The number of pairs `(r, l)` with `r < i` and `r < l < len`.
spec fn pairs_before(len: nat, i: nat) -> nat
    decreases i,
{
    if i == 0 || i > len {
        0
    } else {
        pairs_before(len, (i - 1) as nat) + (len - i) as nat
    }
}

proof fn lemma_pairs_before(len: nat, i: nat)
    requires
        i <= len,
    ensures
        2 * pairs_before(len, i) == i * (2 * len - i - 1),
        pairs_before(len, i) <= pair_count(len),
        i == len ==> pairs_before(len, i) == pair_count(len),
    decreases i,
{
    let p = pairs_before(len, i);
    if i == 0 {
        assert(i * (2 * len - i - 1) == 0) by (nonlinear_arith)
            requires i == 0;
    }
    if i > 0 {
        let im1 = (i - 1) as nat;
        lemma_pairs_before(len, im1);
        assert(p == pairs_before(len, im1) + (len - i));
        assert(im1 * (2 * len - im1 - 1) + 2 * (len - i) == i * (2 * len - i - 1)) by (nonlinear_arith)
            requires 1 <= i <= len, im1 == i - 1;
    }
    assert(i * (2 * len - i - 1) <= len * (len - 1)) by (nonlinear_arith)
        requires i <= len;
    assert(p <= (len * (len - 1)) / 2) by (nonlinear_arith)
        requires 2 * p <= len * (len - 1);
    if i == len {
        assert(p == (len * (len - 1)) / 2) by (nonlinear_arith)
            requires 2 * p == len * (len - 1);
    }
}

impl Entropy {
    /// How often each of -1, 0, +1 occurs in a strategy, in that order.
    pub fn choice_counts(strategy: &TernaryStrategy) -> (r: (usize, usize, usize))
        ensures
            r.0 == occurrences(strategy@, -1i8),
            r.1 == occurrences(strategy@, 0),
            r.2 == occurrences(strategy@, 1),
            r.0 + r.1 + r.2 == strategy@.len(),
    {
        let choices = strategy.choices();
        let n = choices.len();
        let mut neg: usize = 0;
        let mut zero: usize = 0;
        let mut pos: usize = 0;
        let mut i: usize = 0;
        while i < n
            invariant
                n == strategy@.len(),
                choices@ == strategy@,
                all_trits(strategy@),
                i <= n,
                neg == occurrences(strategy@.subrange(0, i as int), -1i8),
                zero == occurrences(strategy@.subrange(0, i as int), 0),
                pos == occurrences(strategy@.subrange(0, i as int), 1),
                neg + zero + pos == i,
            decreases n - i,
        {
            let c = choices[i];
            proof {
                let pre = strategy@.subrange(0, i as int);
                assert(strategy@.subrange(0, i + 1) =~= pre.push(c));
                pre.lemma_filter_push(c, equals_pred(-1i8));
                pre.lemma_filter_push(c, equals_pred(0i8));
                pre.lemma_filter_push(c, equals_pred(1i8));
                assert(is_trit(strategy@[i as int]));
            }
            if c == -1 {
                neg = neg + 1;
            } else if c == 0 {
                zero = zero + 1;
            } else {
                pos = pos + 1;
            }
            i = i + 1;
        }
        proof {
            assert(strategy@.subrange(0, n as int) =~= strategy@);
        }
        (neg, zero, pos)
    }

    /// Hamming distance between two strategies: the number of differing positions
    /// up to the shorter length.
    pub fn hamming_distance(a: &TernaryStrategy, b: &TernaryStrategy) -> (d: usize)
        ensures
            d == hamming(a@, b@),
    {
        let ca = a.choices();
        let cb = b.choices();
        let len = if ca.len() <= cb.len() { ca.len() } else { cb.len() };
        let mut d: usize = 0;
        let mut k: usize = 0;
        while k < len
            invariant
                ca@ == a@,
                cb@ == b@,
                len <= ca@.len(),
                len <= cb@.len(),
                len == (if a@.len() <= b@.len() { a@.len() } else { b@.len() }),
                k <= len,
                d == differences_below(a@, b@, k as nat),
                d <= k,
            decreases len - k,
        {
            if ca[k] != cb[k] {
                d = d + 1;
            }
            k = k + 1;
        }
        d
    }

    /// The sum of the Hamming distances over all pairs of the population, and the
    /// number of pairs; the population diversity is their quotient (0 for fewer than two).
    pub fn population_diversity(strategies: &[TernaryStrategy]) -> (r: (u64, u64))
        requires
            pair_distance(views_of(strategies@), strategies@.len() as int) <= u64::MAX,
            pair_count(strategies@.len() as nat) <= u64::MAX,
        ensures
            r.0 == pair_distance(views_of(strategies@), strategies@.len() as int),
            r.1 == pair_count(strategies@.len() as nat),
    {
        let ghost ss = views_of(strategies@);
        let len = strategies.len();
        if len <= 1 {
            proof {
                assert(pair_distance(ss, 0) == 0);
                if len == 1 {
                    assert(row_distance(ss, 0, 1) == 0);
                    assert(pair_distance(ss, 1) == 0);
                }
                let l = len as nat;
                assert(l * (l - 1) == 0) by (nonlinear_arith)
                    requires l <= 1;
            }
            return (0, 0);
        }
        let mut total: u64 = 0;
        let mut count: u64 = 0;
        let mut i: usize = 0;
        while i < len
            invariant
                ss == views_of(strategies@),
                len == strategies@.len(),
                len == ss.len(),
                i <= len,
                pair_distance(ss, len as int) <= u64::MAX,
                pair_count(len as nat) <= u64::MAX,
                total == pair_distance(ss, i as int),
                count == pairs_before(len as nat, i as nat),
            decreases len - i,
        {
            let mut j: usize = i + 1;
            let ghost base = total;
            proof {
                lemma_pair_distance_monotone(ss, (i + 1) as int, len as int);
                lemma_pairs_before(len as nat, (i + 1) as nat);
            }
            while j < len
                invariant
                    ss == views_of(strategies@),
                    len == strategies@.len(),
                    len == ss.len(),
                    i < len,
                    i + 1 <= j <= len,
                    base == pair_distance(ss, i as int),
                    base + row_distance(ss, i as int, len as int) <= u64::MAX,
                    pairs_before(len as nat, (i + 1) as nat) <= u64::MAX,
                    pairs_before(len as nat, (i + 1) as nat) == pairs_before(len as nat, i as nat) + (len - i - 1),
                    total == base + row_distance(ss, i as int, j as int),
                    count == pairs_before(len as nat, i as nat) + (j - i - 1),
                decreases len - j,
            {
                proof {
                    lemma_row_distance_monotone_prefix(ss, i as int, (j + 1) as int, len as int);
                    assert(strategies@[i as int]@ == ss[i as int]);
                    assert(strategies@[j as int]@ == ss[j as int]);
                }
                let d = Self::hamming_distance(&strategies[i], &strategies[j]);
                total = total + d as u64;
                count = count + 1;
                j = j + 1;
            }
            i = i + 1;
        }
        proof {
            lemma_pairs_before(len as nat, len as nat);
        }
        (total, count)
    }
}

proof fn lemma_row_distance_monotone_prefix(ss: Seq<Seq<i8>>, i: int, j: int, k: int)
    requires
        i + 1 <= j <= k,
    ensures
        row_distance(ss, i, j) <= row_distance(ss, i, k),
    decreases k - j,
{
    if j < k {
        lemma_row_distance_monotone_prefix(ss, i, j, k - 1);
    }
}

proof fn lemma_pair_distance_monotone(ss: Seq<Seq<i8>>, i: int, k: int)
    requires
        0 <= i <= k,
    ensures
        pair_distance(ss, i) <= pair_distance(ss, k),
    decreases k - i,
{
    if i < k {
        lemma_pair_distance_monotone(ss, i, k - 1);
    }
}

proof fn lemma_row_distance_bound(ss: Seq<Seq<i8>>, i: int, j: int, bound: nat)
    requires
        0 <= i < ss.len(),
        forall|k: int| 0 <= k < ss.len() ==> (#[trigger] ss[k]).len() <= bound,
        j <= ss.len(),
    ensures
        row_distance(ss, i, j) <= (if j > i + 1 { (j - i - 1) * bound } else { 0 }),
    decreases j - i,
{
    if j > i + 1 {
        lemma_row_distance_bound(ss, i, j - 1, bound);
        lemma_hamming_bound(ss[i], ss[j - 1]);
        assert(ss[i].len() <= bound);
        if j - 1 > i + 1 {
            assert((j - 1 - i - 1) * bound + bound == (j - i - 1) * bound) by (nonlinear_arith);
        } else {
            assert((j - i - 1) * bound == bound) by (nonlinear_arith)
                requires j - i - 1 == 1;
        }
    }
}

proof fn lemma_pair_distance_bound_prefix(ss: Seq<Seq<i8>>, i: int, bound: nat)
    requires
        0 <= i <= ss.len(),
        forall|k: int| 0 <= k < ss.len() ==> (#[trigger] ss[k]).len() <= bound,
    ensures
        pair_distance(ss, i) <= pairs_before(ss.len(), i as nat) * bound,
    decreases i,
{
    if i > 0 {
        lemma_pair_distance_bound_prefix(ss, i - 1, bound);
        lemma_row_distance_bound(ss, i - 1, ss.len() as int, bound);
        let len = ss.len();
        let pb = pairs_before(len, (i - 1) as nat);
        assert(pairs_before(len, i as nat) == pb + (len - i));
        assert(pb * bound + (len - i) * bound == (pb + (len - i)) * bound) by (nonlinear_arith);
    }
}

/// The total pairwise distance of a population whose strategies have at most
/// `bound` choices is at most `bound` per pair.
pub proof fn lemma_pair_distance_bound(ss: Seq<Seq<i8>>, bound: nat)
    requires
        forall|k: int| 0 <= k < ss.len() ==> (#[trigger] ss[k]).len() <= bound,
    ensures
        pair_distance(ss, ss.len() as int) <= pair_count(ss.len()) * bound,
{
    lemma_pair_distance_bound_prefix(ss, ss.len() as int, bound);
    lemma_pairs_before(ss.len(), ss.len());
}

/// The sum of the Hamming distances from the first `k` strategies of `ss` to `x`.
pub open spec fn distance_to_all(ss: Seq<Seq<i8>>, x: Seq<i8>, k: int) -> nat
    decreases k,
{
    if k <= 0 {
        0
    } else {
        distance_to_all(ss, x, k - 1) + hamming(ss[k - 1], x)
    }
}

proof fn lemma_row_distance_push(ss: Seq<Seq<i8>>, x: Seq<i8>, r: int, j: int)
    requires
        0 <= r < j <= ss.len(),
    ensures
        row_distance(ss.push(x), r, j) == row_distance(ss, r, j),
    decreases j - r,
{
    if j > r + 1 {
        lemma_row_distance_push(ss, x, r, j - 1);
        assert(ss.push(x)[r] == ss[r] && ss.push(x)[j - 1] == ss[j - 1]);
    }
}

proof fn lemma_pair_distance_push_prefix(ss: Seq<Seq<i8>>, x: Seq<i8>, k: int)
    requires
        0 <= k <= ss.len(),
    ensures
        pair_distance(ss.push(x), k) == pair_distance(ss, k) + distance_to_all(ss, x, k),
    decreases k,
{
    if k > 0 {
        let t = ss.push(x);
        let l = ss.len() as int;
        lemma_pair_distance_push_prefix(ss, x, k - 1);
        let r = k - 1;
        if r + 1 < l {
            lemma_row_distance_push(ss, x, r, l);
        } else {
            assert(row_distance(ss, r, l) == 0);
            assert(row_distance(t, r, l) == 0);
        }
        assert(row_distance(t, r, l + 1) == row_distance(t, r, l) + hamming(t[r], t[l]));
        assert(t[r] == ss[r] && t[l] == x);
    }
}

/// Adding a strategy `x` to a population adds its Hamming distances to every earlier
/// member to the pairwise total (with the empty population at 0, this fixes the total
/// as the sum over all unordered pairs).
pub proof fn lemma_pair_distance_push(ss: Seq<Seq<i8>>, x: Seq<i8>)
    ensures
        pair_distance(Seq::<Seq<i8>>::empty(), 0) == 0,
        pair_distance(ss.push(x), ss.len() + 1int) == pair_distance(ss, ss.len() as int) + distance_to_all(ss, x, ss.len() as int),
{
    let t = ss.push(x);
    let l = ss.len() as int;
    lemma_pair_distance_push_prefix(ss, x, l);
    assert(row_distance(t, l, l + 1) == 0);
}

} // verus!
