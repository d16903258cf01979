//! Exhaustive enumeration of all ternary strategies.
use vstd::prelude::*;
use crate::encoding::{pow3, decode, encode, decode_choices, lemma_decode_shape,
    lemma_decode_encode, lemma_encode_bound, lemma_encode_decode, lemma_decode_injective};
use crate::strategy::{TernaryStrategy, all_trits};
use crate::table::FitnessTable;

verus! {

/// In the ranking, strategy number `a` comes before strategy number `b`:
/// it is fitter, or equally fit and enumerated earlier.
pub open spec fn ranks_before(keys: Seq<u64>, a: int, b: int) -> bool {
    keys[a] > keys[b] || (keys[a] == keys[b] && a < b)
}

/// Some entry of `r` holds the strategy numbered `x`.
pub open spec fn lists_number(r: Seq<(TernaryStrategy, u64)>, x: int) -> bool {
    exists|m: int| 0 <= m < r.len() && encode((#[trigger] r[m]).0@) == x
}

/// Exhaustively enumerates all `3^n` possible ternary strategies and evaluates them.
pub struct ExhaustiveSearch;

proof fn lemma_ranks_before_transitive(keys: Seq<u64>, a: int, b: int, c: int)
    requires
        ranks_before(keys, a, b),
        ranks_before(keys, b, c),
    ensures
        ranks_before(keys, a, c),
{
}

/// `s` lists numbers in strictly increasing `ranks_before` order.
spec fn rank_sorted(keys: Seq<u64>, s: Seq<usize>) -> bool {
    forall|a: int, b: int| 0 <= a < b < s.len() ==>
        ranks_before(keys, #[trigger] s[a] as int, #[trigger] s[b] as int)
}

/// `s` lists exactly the numbers `lo .. hi`.
spec fn lists_range(s: Seq<usize>, lo: int, hi: int) -> bool {
    &&& s.len() == hi - lo
    &&& forall|m: int| 0 <= m < s.len() ==> lo <= #[trigger] s[m] < hi
    &&& forall|x: int| lo <= x < hi ==> #[trigger] s.contains(x as usize)
}

/// Merges two rank-sorted lists, the numbers of `left` all below those of `right`.
fn merge_ranked(keys: &Vec<u64>, left: Vec<usize>, right: Vec<usize>, lo: usize, mid: usize, hi: usize) -> (out: Vec<usize>)
    requires
        lo <= mid <= hi <= keys@.len(),
        rank_sorted(keys@, left@),
        rank_sorted(keys@, right@),
        lists_range(left@, lo as int, mid as int),
        lists_range(right@, mid as int, hi as int),
    ensures
        rank_sorted(keys@, out@),
        lists_range(out@, lo as int, hi as int),
{
    let mut out: Vec<usize> = Vec::with_capacity(hi - lo);
    let mut i: usize = 0;
    let mut j: usize = 0;
    while i < left.len() || j < right.len()
        invariant
            lo <= mid <= hi <= keys@.len(),
            rank_sorted(keys@, left@),
            rank_sorted(keys@, right@),
            lists_range(left@, lo as int, mid as int),
            lists_range(right@, mid as int, hi as int),
            i <= left@.len(),
            j <= right@.len(),
            out@.len() == i + j,
            rank_sorted(keys@, out@),
            forall|m: int| 0 <= m < out@.len() ==> lo <= #[trigger] out@[m] < hi,
            forall|k: int| 0 <= k < i ==> #[trigger] out@.contains(left@[k]),
            forall|k: int| 0 <= k < j ==> #[trigger] out@.contains(right@[k]),
            forall|a: int, k: int| 0 <= a < out@.len() && i <= k < left@.len() ==>
                ranks_before(keys@, #[trigger] out@[a] as int, #[trigger] left@[k] as int),
            forall|a: int, k: int| 0 <= a < out@.len() && j <= k < right@.len() ==>
                ranks_before(keys@, #[trigger] out@[a] as int, #[trigger] right@[k] as int),
        decreases left@.len() + right@.len() - i - j,
    {
        let take_left = if i < left.len() && j < right.len() {
            keys[left[i]] >= keys[right[j]]
        } else {
            i < left.len()
        };
        let ghost before = out@;
        let e = if take_left { left[i] } else { right[j] };
        proof {
            if take_left {
                if j < right@.len() {
                    assert(left@[i as int] < right@[j as int]);
                    assert(ranks_before(keys@, e as int, right@[j as int] as int));
                }
            } else {
                if i < left@.len() {
                    assert(left@[i as int] < right@[j as int]);
                    assert(ranks_before(keys@, e as int, left@[i as int] as int));
                }
            }
        }
        out.push(e);
        proof {
            let o = out@;
            assert(o[o.len() - 1] == e);
            assert forall|a: int, b: int| 0 <= a < b < o.len() implies
                ranks_before(keys@, #[trigger] o[a] as int, #[trigger] o[b] as int) by {
                if b < before.len() {
                    assert(o[a] == before[a] && o[b] == before[b]);
                } else {
                    assert(o[a] == before[a]);
                    if take_left {
                        assert(ranks_before(keys@, before[a] as int, left@[i as int] as int));
                    } else {
                        assert(ranks_before(keys@, before[a] as int, right@[j as int] as int));
                    }
                }
            }
            let ni: int = if take_left { i + 1 } else { i as int };
            let nj: int = if take_left { j as int } else { j + 1 };
            assert forall|a: int, k: int| 0 <= a < o.len() && ni <= k < left@.len() implies
                ranks_before(keys@, #[trigger] o[a] as int, #[trigger] left@[k] as int) by {
                if a < before.len() {
                    assert(o[a] == before[a]);
                } else if take_left {
                    assert(ranks_before(keys@, left@[i as int] as int, left@[k] as int));
                } else {
                    assert(ranks_before(keys@, e as int, left@[i as int] as int));
                    if k > i {
                        assert(ranks_before(keys@, left@[i as int] as int, left@[k] as int));
                        lemma_ranks_before_transitive(keys@, e as int, left@[i as int] as int, left@[k] as int);
                    }
                }
            }
            assert forall|a: int, k: int| 0 <= a < o.len() && nj <= k < right@.len() implies
                ranks_before(keys@, #[trigger] o[a] as int, #[trigger] right@[k] as int) by {
                if a < before.len() {
                    assert(o[a] == before[a]);
                } else if !take_left {
                    assert(ranks_before(keys@, right@[j as int] as int, right@[k] as int));
                } else {
                    assert(ranks_before(keys@, e as int, right@[j as int] as int));
                    if k > j {
                        assert(ranks_before(keys@, right@[j as int] as int, right@[k] as int));
                        lemma_ranks_before_transitive(keys@, e as int, right@[j as int] as int, right@[k] as int);
                    }
                }
            }
            assert forall|k: int| 0 <= k < ni implies #[trigger] o.contains(left@[k]) by {
                if k < i {
                    assert(before.contains(left@[k]));
                    let m = choose|m: int| 0 <= m < before.len() && before[m] == left@[k];
                    assert(o[m] == left@[k]);
                } else {
                    assert(o[o.len() - 1] == left@[k]);
                }
            }
            assert forall|k: int| 0 <= k < nj implies #[trigger] o.contains(right@[k]) by {
                if k < j {
                    assert(before.contains(right@[k]));
                    let m = choose|m: int| 0 <= m < before.len() && before[m] == right@[k];
                    assert(o[m] == right@[k]);
                } else {
                    assert(o[o.len() - 1] == right@[k]);
                }
            }
        }
        if take_left {
            i = i + 1;
        } else {
            j = j + 1;
        }
    }
    proof {
        assert forall|x: int| lo <= x < hi implies #[trigger] out@.contains(x as usize) by {
            if x < mid {
                assert(left@.contains(x as usize));
                let k = choose|k: int| 0 <= k < left@.len() && left@[k] == x as usize;
                assert(out@.contains(left@[k]));
            } else {
                assert(right@.contains(x as usize));
                let k = choose|k: int| 0 <= k < right@.len() && right@[k] == x as usize;
                assert(out@.contains(right@[k]));
            }
        }
    }
    out
}

/// The numbers `lo .. hi` ordered by `ranks_before` (merge sort).
fn rank_range(keys: &Vec<u64>, lo: usize, hi: usize) -> (order: Vec<usize>)
    requires
        lo <= hi <= keys@.len(),
    ensures
        rank_sorted(keys@, order@),
        lists_range(order@, lo as int, hi as int),
    decreases hi - lo,
{
    if hi - lo <= 1 {
        let mut order: Vec<usize> = Vec::new();
        if hi > lo {
            order.push(lo);
            proof {
                assert forall|x: int| lo <= x < hi implies #[trigger] order@.contains(x as usize) by {
                    assert(order@[0] == x as usize);
                }
            }
        }
        return order;
    }
    let mid = lo + (hi - lo) / 2;
    let left = rank_range(keys, lo, mid);
    let right = rank_range(keys, mid, hi);
    merge_ranked(keys, left, right, lo, mid, hi)
}

/// The numbers `0 .. keys.len()` ordered by `ranks_before` (fittest first, stable).
fn rank_order(keys: &Vec<u64>) -> (order: Vec<usize>)
    ensures
        order@.len() == keys@.len(),
        forall|m: int| 0 <= m < order@.len() ==> #[trigger] order@[m] < keys@.len(),
        forall|a: int, b: int| 0 <= a < b < order@.len() ==>
            ranks_before(keys@, #[trigger] order@[a] as int, #[trigger] order@[b] as int),
        forall|x: int| 0 <= x < keys@.len() ==> #[trigger] order@.contains(x as usize),
{
    rank_range(keys, 0, keys.len())
}

impl ExhaustiveSearch {
    /// Generate all `3^n` ternary strategies of a given length, the `i`-th being
    /// the strategy numbered `i`.
    ///
    /// For n=4, this produces 81 strategies.
    pub fn enumerate(n: usize) -> (r: Vec<TernaryStrategy>)
        requires
            pow3(n as nat) <= usize::MAX,
        ensures
            r@.len() == pow3(n as nat),
            forall|i: int| 0 <= i < r@.len() ==> (#[trigger] r@[i])@ == decode(n as nat, i as nat),
    {
        let total = Self::count(n);
        let mut strategies: Vec<TernaryStrategy> = Vec::with_capacity(total);
        let mut i: usize = 0;
        while i < total
            invariant
                total == pow3(n as nat),
                i <= total,
                strategies@.len() == i,
                forall|j: int| 0 <= j < strategies@.len() ==> (#[trigger] strategies@[j])@ == decode(n as nat, j as nat),
            decreases total - i,
        {
            let choices = decode_choices(n, i);
            strategies.push(TernaryStrategy::new(choices));
            i = i + 1;
        }
        strategies
    }

    /// Count the total number of strategies for a given length: `3^n`.
    pub fn count(n: usize) -> (c: usize)
        requires
            pow3(n as nat) <= usize::MAX,
        ensures
            c == pow3(n as nat),
    {
        let mut c: usize = 1;
        let mut k: usize = 0;
        while k < n
            invariant
                k <= n,
                c == pow3(k as nat),
                pow3(n as nat) <= usize::MAX,
            decreases n - k,
        {
            proof {
                crate::encoding::lemma_pow3_monotone((k + 1) as nat, n as nat);
            }
            c = c * 3;
            k = k + 1;
        }
        c
    }

    /// Evaluate all strategies and return them sorted by fitness, fittest first;
    /// equally fit strategies keep their enumeration order.
    pub fn ranked(table: &FitnessTable) -> (r: Vec<(TernaryStrategy, u64)>)
        ensures
            r@.len() == table.key_seq().len(),
            table.key_seq().len() == pow3(table.dim()),
            forall|m: int| 0 <= m < r@.len() ==> encode((#[trigger] r@[m]).0@) < table.key_seq().len(),
            forall|m: int| 0 <= m < r@.len() ==>
                (#[trigger] r@[m]).0@ == decode(table.dim(), encode(r@[m].0@)),
            forall|m: int| 0 <= m < r@.len() ==>
                (#[trigger] r@[m]).1 == table.key_seq()[encode(r@[m].0@) as int],
            forall|a: int, b: int| 0 <= a < b < r@.len() ==>
                ranks_before(table.key_seq(), encode((#[trigger] r@[a]).0@) as int, encode((#[trigger] r@[b]).0@) as int),
            forall|x: int| 0 <= x < table.key_seq().len() ==> #[trigger] lists_number(r@, x),
    {
        let n = table.num_states();
        let total = table.size();
        let keys = table.to_keys();
        let order = rank_order(&keys);
        let mut r: Vec<(TernaryStrategy, u64)> = Vec::with_capacity(total);
        let mut m: usize = 0;
        while m < total
            invariant
                n == table.dim(),
                total == table.key_seq().len(),
                total == pow3(n as nat),
                keys@ == table.key_seq(),
                order@.len() == total,
                forall|q: int| 0 <= q < order@.len() ==> #[trigger] order@[q] < total,
                m <= total,
                r@.len() == m,
                forall|q: int| 0 <= q < r@.len() ==> encode((#[trigger] r@[q]).0@) == order@[q],
                forall|q: int| 0 <= q < r@.len() ==> (#[trigger] r@[q]).0@ == decode(n as nat, order@[q] as nat),
                forall|q: int| 0 <= q < r@.len() ==> (#[trigger] r@[q]).1 == keys@[order@[q] as int],
            decreases total - m,
        {
            let idx = order[m];
            let choices = decode_choices(n, idx);
            proof {
                lemma_encode_decode(n as nat, idx as nat);
            }
            r.push((TernaryStrategy::new(choices), keys[idx]));
            m = m + 1;
        }
        proof {
            assert forall|x: int| 0 <= x < table.key_seq().len() implies #[trigger] lists_number(r@, x) by {
                assert(order@.contains(x as usize));
                let q = choose|q: int| 0 <= q < order@.len() && order@[q] == x as usize;
                assert(encode(r@[q].0@) == x);
            }
            assert forall|a: int, b: int| 0 <= a < b < r@.len() implies
                ranks_before(table.key_seq(), encode((#[trigger] r@[a]).0@) as int, encode((#[trigger] r@[b]).0@) as int) by {
                assert(ranks_before(keys@, order@[a] as int, order@[b] as int));
            }
        }
        r
    }

    /// Find the global optimum: the fittest strategy, the first enumerated among equally fit ones.
    pub fn optimum(table: &FitnessTable) -> (r: (TernaryStrategy, u64))
        ensures
            encode(r.0@) < table.key_seq().len(),
            r.0@ == decode(table.dim(), encode(r.0@)),
            r.1 == table.key_seq()[encode(r.0@) as int],
            forall|x: int| 0 <= x < table.key_seq().len() ==> #[trigger] table.key_seq()[x] <= r.1,
            forall|x: int| 0 <= x < encode(r.0@) ==> #[trigger] table.key_seq()[x] < r.1,
    {
        let mut ranked = Self::ranked(table);
        proof {
            crate::encoding::lemma_pow3_positive(table.dim());
            assert forall|x: int| 0 <= x < table.key_seq().len() implies #[trigger] table.key_seq()[x] <= ranked@[0].1
                && (x < encode(ranked@[0].0@) ==> table.key_seq()[x] < ranked@[0].1) by {
                assert(lists_number(ranked@, x));
                let m = choose|m: int| 0 <= m < ranked@.len() && encode((#[trigger] ranked@[m]).0@) == x;
                if m > 0 {
                    assert(ranks_before(table.key_seq(), encode(ranked@[0].0@) as int, encode(ranked@[m].0@) as int));
                }
            }
        }
        ranked.swap_remove(0)
    }
}

/// The enumeration lists pairwise distinct strategies.
pub proof fn lemma_enumeration_distinct(n: nat, i: nat, j: nat)
    requires
        i < pow3(n),
        j < pow3(n),
        i != j,
    ensures
        decode(n, i) != decode(n, j),
{
    lemma_decode_injective(n, i, j);
}

/// The enumeration lists every strategy of length `n`, each a valid ternary strategy.
pub proof fn lemma_enumeration_complete(s: Seq<i8>)
    requires
        all_trits(s),
    ensures
        encode(s) < pow3(s.len()),
        decode(s.len(), encode(s)) == s,
{
    lemma_encode_bound(s);
    lemma_decode_encode(s);
}

/// Every enumerated strategy has length `n` and holds only trits.
pub proof fn lemma_enumeration_valid(n: nat, i: nat)
    ensures
        decode(n, i).len() == n,
        all_trits(decode(n, i)),
{
    lemma_decode_shape(n, i);
}

} // verus!
