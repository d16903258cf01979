//! Fitness landscape topology analysis.
use vstd::prelude::*;
use crate::encoding::{pow3, decode, encode, decode_choices, index_of, lemma_decode_shape,
    lemma_decode_encode, lemma_decode_injective,
    lemma_encode_bound, lemma_encode_decode, lemma_pow3_positive};
use crate::strategy::{TernaryStrategy, all_trits, neighbor_at, neighbor_seqs, lemma_neighbor_differs_once,
    lemma_neighbor_symmetric};
use crate::table::FitnessTable;

verus! {

/// The fitness key of strategy `s` in a table of keys.
pub open spec fn key_of(keys: Seq<u64>, s: Seq<i8>) -> u64 {
    keys[encode(s) as int]
}

/// Strategy number `i` is a peak: no neighbor has a higher fitness.
pub open spec fn is_peak(n: nat, keys: Seq<u64>, i: int) -> bool {
    forall|m: int| 0 <= m < 2 * n ==> #[trigger] key_of(keys, neighbor_at(decode(n, i as nat), m)) <= keys[i]
}

/// The predicate `is_peak` for a fixed table.
pub open spec fn peak_pred(n: nat, keys: Seq<u64>) -> spec_fn(int) -> bool {
    |i: int| is_peak(n, keys, i)
}

/// The numbers `0 .. len`.
pub open spec fn numbers(len: nat) -> Seq<int> {
    Seq::new(len, |i: int| i)
}

/// The numbers of all peaks, in enumeration order.
pub open spec fn peak_indices(n: nat, keys: Seq<u64>) -> Seq<int> {
    numbers(keys.len()).filter(peak_pred(n, keys))
}

/// The view of the landscape point for strategy number `i`.
pub open spec fn point_view(n: nat, keys: Seq<u64>, i: int) -> (Seq<i8>, u64) {
    (decode(n, i as nat), keys[i])
}

/// Strategy number `g` has the highest fitness, and no later strategy has as high a fitness.
pub open spec fn is_global_peak_index(keys: Seq<u64>, g: int) -> bool {
    &&& 0 <= g < keys.len()
    &&& forall|x: int| 0 <= x < keys.len() ==> #[trigger] keys[x] <= keys[g]
    &&& forall|x: int| g < x < keys.len() ==> #[trigger] keys[x] < keys[g]
}

/// The fitness keys of the neighbors of strategy number `i`, in neighbor order.
pub open spec fn neighbor_keys(n: nat, keys: Seq<u64>, i: int) -> Seq<u64> {
    Seq::new(2 * n, |m: int| key_of(keys, neighbor_at(decode(n, i as nat), m)))
}

/// The position of the maximum of `s` that a left-to-right scan keeping the later
/// of equal values ends on: the last position holding the maximum.
pub open spec fn last_argmax(s: Seq<u64>) -> int
    decreases s.len(),
{
    if s.len() <= 1 {
        0
    } else {
        let j = last_argmax(s.drop_last());
        if s.last() >= s[j] {
            s.len() - 1
        } else {
            j
        }
    }
}

/// The number of the neighbor that steepest ascent considers from strategy number `i`:
/// the last of its fittest neighbors.
pub open spec fn best_neighbor(n: nat, keys: Seq<u64>, i: int) -> int {
    encode(neighbor_at(decode(n, i as nat), last_argmax(neighbor_keys(n, keys, i)))) as int
}

/// The strategy number where steepest-ascent hill climbing from strategy number `i` stops:
/// it moves to the best neighbor while that neighbor is strictly fitter.
pub open spec fn ascent_target(n: nat, keys: Seq<u64>, i: int) -> int
    decreases u64::MAX - keys[i],
{
    if n > 0 && keys[best_neighbor(n, keys, i)] > keys[i] {
        ascent_target(n, keys, best_neighbor(n, keys, i))
    } else {
        i
    }
}

/// Strategy number `i` belongs to the basin of `peak` apart from the peak itself.
pub open spec fn in_basin(n: nat, keys: Seq<u64>, peak: Seq<i8>, i: int) -> bool {
    decode(n, i as nat) != peak && decode(n, ascent_target(n, keys, i) as nat) == peak
}

/// The predicate `in_basin` for fixed table and peak.
pub open spec fn basin_pred(n: nat, keys: Seq<u64>, peak: Seq<i8>) -> spec_fn(int) -> bool {
    |i: int| in_basin(n, keys, peak, i)
}

/// The numbers of the strategies other than `peak` whose steepest ascent ends at `peak`.
pub open spec fn basin_indices(n: nat, keys: Seq<u64>, peak: Seq<i8>) -> Seq<int> {
    numbers(keys.len()).filter(basin_pred(n, keys, peak))
}

proof fn lemma_last_argmax(s: Seq<u64>)
    requires
        s.len() >= 1,
    ensures
        0 <= last_argmax(s) < s.len(),
        forall|q: int| 0 <= q < s.len() ==> #[trigger] s[q] <= s[last_argmax(s)],
        forall|q: int| last_argmax(s) < q < s.len() ==> #[trigger] s[q] < s[last_argmax(s)],
    decreases s.len(),
{
    if s.len() > 1 {
        let t = s.drop_last();
        lemma_last_argmax(t);
        assert forall|q: int| 0 <= q < s.len() - 1 implies #[trigger] s[q] == t[q] by {}
    }
}

/// Steepest ascent from any strategy ends at a peak, at least as fit as where it started.
pub proof fn lemma_ascent_reaches_peak(n: nat, keys: Seq<u64>, i: int)
    requires
        keys.len() == pow3(n),
        0 <= i < keys.len(),
    ensures
        0 <= ascent_target(n, keys, i) < keys.len(),
        is_peak(n, keys, ascent_target(n, keys, i)),
        keys[ascent_target(n, keys, i)] >= keys[i],
    decreases u64::MAX - keys[i],
{
    if n > 0 {
        let nk = neighbor_keys(n, keys, i);
        lemma_last_argmax(nk);
        let b = best_neighbor(n, keys, i);
        lemma_neighbor_number(n, i as nat, last_argmax(nk));
        if keys[b] > keys[i] {
            lemma_ascent_reaches_peak(n, keys, b);
        } else {
            assert forall|m: int| 0 <= m < 2 * n implies
                #[trigger] key_of(keys, neighbor_at(decode(n, i as nat), m)) <= keys[i] by {
                assert(nk[m] == key_of(keys, neighbor_at(decode(n, i as nat), m)));
            }
        }
    }
}

/// From strategy number `i`, neighbor `t` leads uphill (or level) onto a peak.
pub open spec fn leads_to_peak(n: nat, keys: Seq<u64>, i: int, t: Seq<i8>) -> bool {
    key_of(keys, t) >= keys[i] && is_peak(n, keys, encode(t) as int)
}

/// The predicate `leads_to_peak` for fixed table and strategy number.
pub open spec fn adjacent_pred(n: nat, keys: Seq<u64>, i: int) -> spec_fn(Seq<i8>) -> bool {
    |t: Seq<i8>| leads_to_peak(n, keys, i, t)
}

/// The peaks adjacent to strategy number `i` that are at least as fit, in neighbor order.
pub open spec fn adjacent_peaks_of(n: nat, keys: Seq<u64>, i: int) -> Seq<Seq<i8>> {
    neighbor_seqs(decode(n, i as nat)).filter(adjacent_pred(n, keys, i))
}

/// Strategy number `i` is a saddle point: adjacent to at least two such peaks.
pub open spec fn is_saddle(n: nat, keys: Seq<u64>, i: int) -> bool {
    adjacent_peaks_of(n, keys, i).len() >= 2
}

/// The predicate `is_saddle` for a fixed table.
pub open spec fn saddle_pred(n: nat, keys: Seq<u64>) -> spec_fn(int) -> bool {
    |i: int| is_saddle(n, keys, i)
}

/// The numbers of all saddle points, in enumeration order.
pub open spec fn saddle_indices(n: nat, keys: Seq<u64>) -> Seq<int> {
    numbers(keys.len()).filter(saddle_pred(n, keys))
}

/// The view of the saddle point at strategy number `i`.
pub open spec fn saddle_view(n: nat, keys: Seq<u64>, i: int) -> (Seq<i8>, u64, Seq<Seq<i8>>) {
    (decode(n, i as nat), keys[i], adjacent_peaks_of(n, keys, i))
}

/// The views of a sequence of strategies.
pub open spec fn strategy_views(v: Seq<TernaryStrategy>) -> Seq<Seq<i8>> {
    v.map_values(|t: TernaryStrategy| t@)
}

/// A saddle point between multiple peaks.
#[derive(Debug)]
pub struct SaddlePoint {
    pub strategy: TernaryStrategy,
    pub fitness: u64,
    pub adjacent_peaks: Vec<TernaryStrategy>,
}

impl View for SaddlePoint {
    type V = (Seq<i8>, u64, Seq<Seq<i8>>);

    open spec fn view(&self) -> (Seq<i8>, u64, Seq<Seq<i8>>) {
        (self.strategy@, self.fitness, strategy_views(self.adjacent_peaks@))
    }
}

/// Every landscape has a peak: the fittest strategy has no fitter neighbor.
pub proof fn lemma_peaks_nonempty(n: nat, keys: Seq<u64>)
    requires
        keys.len() == pow3(n),
    ensures
        peak_indices(n, keys).len() >= 1,
{
    lemma_pow3_positive(n);
    let g = lemma_max_exists(keys, keys.len() as int);
    assert forall|m: int| 0 <= m < 2 * n implies
        #[trigger] key_of(keys, neighbor_at(decode(n, g as nat), m)) <= keys[g] by {
        lemma_neighbor_number(n, g as nat, m);
    }
    let nums = numbers(keys.len());
    assert(nums[g] == g);
    nums.lemma_filter_contains(peak_pred(n, keys), g);
}

proof fn lemma_max_exists(keys: Seq<u64>, len: int) -> (g: int)
    requires
        1 <= len <= keys.len(),
    ensures
        0 <= g < len,
        forall|x: int| 0 <= x < len ==> #[trigger] keys[x] <= keys[g],
    decreases len,
{
    if len == 1 {
        0
    } else {
        let p = lemma_max_exists(keys, len - 1);
        if keys[len - 1] >= keys[p] { len - 1 } else { p }
    }
}

/// Each adjacent peak listed for a saddle point is a neighbor of it, is a peak,
/// and is at least as fit as the saddle point.
pub proof fn lemma_saddle_adjacent_peaks(n: nat, keys: Seq<u64>, i: int, q: int)
    requires
        keys.len() == pow3(n),
        0 <= i < keys.len(),
        0 <= q < adjacent_peaks_of(n, keys, i).len(),
    ensures
        exists|m: int| 0 <= m < 2 * n && #[trigger] neighbor_at(decode(n, i as nat), m) == adjacent_peaks_of(n, keys, i)[q],
        is_peak(n, keys, encode(adjacent_peaks_of(n, keys, i)[q]) as int),
        key_of(keys, adjacent_peaks_of(n, keys, i)[q]) >= keys[i],
{
    let nbs = neighbor_seqs(decode(n, i as nat));
    let pred = adjacent_pred(n, keys, i);
    let t = adjacent_peaks_of(n, keys, i)[q];
    nbs.lemma_filter_pred(pred, q);
    lemma_decode_shape(n, i as nat);
    assert(nbs.filter(pred).contains(t));
    nbs.lemma_filter_contains_rev(pred, t);
    let m = choose|m: int| 0 <= m < nbs.len() && nbs[m] == t;
    assert(neighbor_at(decode(n, i as nat), m) == t);
}

/// Looking up an enumerated strategy in the table gives the key stored under its number.
pub proof fn lemma_point_lookup(n: nat, keys: Seq<u64>, i: int)
    requires
        keys.len() == pow3(n),
        0 <= i < keys.len(),
    ensures
        key_of(keys, decode(n, i as nat)) == keys[i],
{
    lemma_encode_decode(n, i as nat);
}

/// A neighbor of strategy number `i` that is a peak is at least as fit as strategy `i`,
/// since strategy `i` is in turn one of its neighbors.
pub proof fn lemma_peak_neighbor_at_least_as_fit(n: nat, keys: Seq<u64>, i: int, m: int)
    requires
        keys.len() == pow3(n),
        0 <= i < keys.len(),
        0 <= m < 2 * n,
        is_peak(n, keys, encode(neighbor_at(decode(n, i as nat), m)) as int),
    ensures
        key_of(keys, neighbor_at(decode(n, i as nat), m)) >= keys[i],
{
    let s = decode(n, i as nat);
    let t = neighbor_at(s, m);
    lemma_decode_shape(n, i as nat);
    lemma_neighbor_number(n, i as nat, m);
    lemma_neighbor_symmetric(s, m);
    let m2 = choose|m2: int| 0 <= m2 < 2 * s.len() && #[trigger] neighbor_at(neighbor_at(s, m), m2) == s;
    lemma_decode_encode(t);
    assert(decode(n, encode(t)) == t);
    assert(key_of(keys, neighbor_at(decode(n, encode(t)), m2)) <= keys[encode(t) as int]);
    lemma_encode_decode(n, i as nat);
}

/// The predicate "is a peak" on strategies, for a fixed table.
pub open spec fn peak_strategy_pred(n: nat, keys: Seq<u64>) -> spec_fn(Seq<i8>) -> bool {
    |t: Seq<i8>| is_peak(n, keys, encode(t) as int)
}

proof fn lemma_filter_agree<A>(s: Seq<A>, p: spec_fn(A) -> bool, q: spec_fn(A) -> bool)
    requires
        forall|k: int| 0 <= k < s.len() ==> p(#[trigger] s[k]) == q(s[k]),
    ensures
        s.filter(p) == s.filter(q),
    decreases s.len(),
{
    reveal(Seq::filter);
    if s.len() > 0 {
        let init = s.drop_last();
        assert forall|k: int| 0 <= k < init.len() implies p(#[trigger] init[k]) == q(init[k]) by {
            assert(init[k] == s[k]);
        }
        lemma_filter_agree(init, p, q);
        assert(p(s[s.len() - 1]) == q(s[s.len() - 1]));
    }
}

/// The adjacent peaks of a point are exactly its neighbors that are peaks, in neighbor order.
pub proof fn lemma_adjacent_peaks_are_peak_neighbors(n: nat, keys: Seq<u64>, i: int)
    requires
        keys.len() == pow3(n),
        0 <= i < keys.len(),
    ensures
        adjacent_peaks_of(n, keys, i) == neighbor_seqs(decode(n, i as nat)).filter(peak_strategy_pred(n, keys)),
{
    let s = decode(n, i as nat);
    let nbs = neighbor_seqs(s);
    lemma_decode_shape(n, i as nat);
    assert forall|k: int| 0 <= k < nbs.len() implies
        adjacent_pred(n, keys, i)(#[trigger] nbs[k]) == peak_strategy_pred(n, keys)(nbs[k]) by {
        if is_peak(n, keys, encode(nbs[k]) as int) {
            lemma_peak_neighbor_at_least_as_fit(n, keys, i, k);
        }
    }
    lemma_filter_agree(nbs, adjacent_pred(n, keys, i), peak_strategy_pred(n, keys));
}

/// One step of the climb: from strategy number `i`, steepest ascent stays put when no
/// neighbor is strictly fitter; otherwise it continues from the last of the fittest
/// neighbors (in neighbor order), and everything it reaches is at least that fit.
pub proof fn lemma_ascent_step(n: nat, keys: Seq<u64>, i: int)
    requires
        keys.len() == pow3(n),
        0 <= i < keys.len(),
    ensures
        (forall|m: int| 0 <= m < 2 * n ==>
            #[trigger] key_of(keys, neighbor_at(decode(n, i as nat), m)) <= keys[i])
            ==> ascent_target(n, keys, i) == i,
        (exists|m: int| 0 <= m < 2 * n &&
            #[trigger] key_of(keys, neighbor_at(decode(n, i as nat), m)) > keys[i])
            ==> exists|m: int| #![trigger neighbor_at(decode(n, i as nat), m)] {
                &&& 0 <= m < 2 * n
                &&& forall|m2: int| 0 <= m2 < 2 * n ==>
                        #[trigger] key_of(keys, neighbor_at(decode(n, i as nat), m2))
                            <= key_of(keys, neighbor_at(decode(n, i as nat), m))
                &&& forall|m2: int| m < m2 < 2 * n ==>
                        #[trigger] key_of(keys, neighbor_at(decode(n, i as nat), m2))
                            < key_of(keys, neighbor_at(decode(n, i as nat), m))
                &&& ascent_target(n, keys, i)
                        == ascent_target(n, keys, encode(neighbor_at(decode(n, i as nat), m)) as int)
                &&& keys[ascent_target(n, keys, i)] >= key_of(keys, neighbor_at(decode(n, i as nat), m))
            },
{
    let s = decode(n, i as nat);
    if n > 0 {
        let nk = neighbor_keys(n, keys, i);
        lemma_last_argmax(nk);
        let la = last_argmax(nk);
        let b = best_neighbor(n, keys, i);
        lemma_neighbor_number(n, i as nat, la);
        assert(nk[la] == key_of(keys, neighbor_at(s, la)));
        assert forall|m2: int| 0 <= m2 < 2 * n implies
            #[trigger] key_of(keys, neighbor_at(s, m2)) <= key_of(keys, neighbor_at(s, la)) by {
            assert(nk[m2] == key_of(keys, neighbor_at(s, m2)));
        }
        assert forall|m2: int| la < m2 < 2 * n implies
            #[trigger] key_of(keys, neighbor_at(s, m2)) < key_of(keys, neighbor_at(s, la)) by {
            assert(nk[m2] == key_of(keys, neighbor_at(s, m2)));
        }
        if exists|m: int| 0 <= m < 2 * n && #[trigger] key_of(keys, neighbor_at(s, m)) > keys[i] {
            let m = choose|m: int| 0 <= m < 2 * n && #[trigger] key_of(keys, neighbor_at(s, m)) > keys[i];
            assert(key_of(keys, neighbor_at(s, m)) <= key_of(keys, neighbor_at(s, la)));
            assert(keys[b] > keys[i]);
            lemma_ascent_reaches_peak(n, keys, b);
        }
        if forall|m: int| 0 <= m < 2 * n ==> #[trigger] key_of(keys, neighbor_at(s, m)) <= keys[i] {
            assert(keys[b] <= keys[i]);
        }
    }
}

/// Steepest ascent stays put exactly at peaks; where it moves, it ends strictly fitter.
pub proof fn lemma_ascent_fixed_points(n: nat, keys: Seq<u64>, i: int)
    requires
        keys.len() == pow3(n),
        0 <= i < keys.len(),
    ensures
        is_peak(n, keys, i) <==> ascent_target(n, keys, i) == i,
        ascent_target(n, keys, i) != i ==> keys[ascent_target(n, keys, i)] > keys[i],
{
    lemma_ascent_reaches_peak(n, keys, i);
    if n > 0 {
        let nk = neighbor_keys(n, keys, i);
        lemma_last_argmax(nk);
        let b = best_neighbor(n, keys, i);
        lemma_neighbor_number(n, i as nat, last_argmax(nk));
        if keys[b] > keys[i] {
            lemma_ascent_reaches_peak(n, keys, b);
            let m = last_argmax(nk);
            assert(nk[m] == key_of(keys, neighbor_at(decode(n, i as nat), m)));
            assert(!is_peak(n, keys, i));
        }
    }
}

/// All strategies in the basin list of `peak`: the peak, then the basin indices decoded.
pub open spec fn basin_list(n: nat, keys: Seq<u64>, peak: Seq<i8>) -> Seq<Seq<i8>> {
    seq![peak] + basin_indices(n, keys, peak).map_values(|x: int| decode(n, x as nat))
}

/// The basins of the peaks partition the landscape: strategy number `i` is in the basin
/// of peak number `j` exactly when steepest ascent from `i` ends at `j`.
pub proof fn lemma_basin_membership(n: nat, keys: Seq<u64>, j: int, i: int)
    requires
        keys.len() == pow3(n),
        0 <= j < keys.len(),
        0 <= i < keys.len(),
        is_peak(n, keys, j),
    ensures
        basin_list(n, keys, decode(n, j as nat)).contains(decode(n, i as nat))
            <==> ascent_target(n, keys, i) == j,
{
    let p = decode(n, j as nat);
    let d = decode(n, i as nat);
    let bi = basin_indices(n, keys, p);
    let bl = basin_list(n, keys, p);
    let pred = basin_pred(n, keys, p);
    let nums = numbers(keys.len());
    lemma_ascent_reaches_peak(n, keys, i);
    lemma_ascent_fixed_points(n, keys, j);
    let t = ascent_target(n, keys, i);
    if t == j {
        if d == p {
            assert(bl[0] == d);
        } else {
            assert(in_basin(n, keys, p, i));
            assert(nums[i] == i);
            nums.lemma_filter_contains(pred, i);
            let k = choose|k: int| 0 <= k < bi.len() && bi[k] == i;
            assert(bl[k + 1] == d);
        }
    }
    if bl.contains(d) {
        let k = choose|k: int| 0 <= k < bl.len() && bl[k] == d;
        if k == 0 {
            if i != j {
                lemma_decode_injective(n, i as nat, j as nat);
            }
        } else {
            let x = bi[k - 1];
            assert(bl[k] == decode(n, x as nat));
            nums.lemma_filter_pred(pred, k - 1);
            assert(bi.contains(x));
            nums.lemma_filter_contains_rev(pred, x);
            let y = choose|y: int| 0 <= y < nums.len() && nums[y] == x;
            assert(0 <= x < keys.len());
            if x != i {
                lemma_decode_injective(n, x as nat, i as nat);
            }
            assert(decode(n, t as nat) == p);
            if t != j {
                lemma_decode_injective(n, t as nat, j as nat);
            }
        }
    }
}

proof fn lemma_filter_count<A>(s: Seq<A>, p: spec_fn(A) -> bool)
    ensures
        s.filter(p).len() >= 1 <==> exists|a: int| 0 <= a < s.len() && p(#[trigger] s[a]),
        s.filter(p).len() >= 2 <==> exists|a: int, b: int| 0 <= a < b < s.len() && p(#[trigger] s[a]) && p(#[trigger] s[b]),
    decreases s.len(),
{
    reveal(Seq::filter);
    if s.len() > 0 {
        let init = s.drop_last();
        let l = s.len() - 1;
        lemma_filter_count(init, p);
        assert forall|a: int| 0 <= a < init.len() implies #[trigger] init[a] == s[a] by {}
        if exists|a: int| 0 <= a < s.len() && p(#[trigger] s[a]) {
            let a = choose|a: int| 0 <= a < s.len() && p(#[trigger] s[a]);
            if a < l {
                assert(p(init[a]));
            }
        }
        if exists|a: int, b: int| 0 <= a < b < s.len() && p(#[trigger] s[a]) && p(#[trigger] s[b]) {
            let (a, b) = choose|a: int, b: int| 0 <= a < b < s.len() && p(#[trigger] s[a]) && p(#[trigger] s[b]);
            assert(p(init[a]));
            if b < l {
                assert(p(init[b]));
            }
        }
        if init.filter(p).len() >= 2 {
            let (a, b) = choose|a: int, b: int| 0 <= a < b < init.len() && p(#[trigger] init[a]) && p(#[trigger] init[b]);
            assert(p(s[a]) && p(s[b]));
        }
        if init.filter(p).len() >= 1 {
            let a = choose|a: int| 0 <= a < init.len() && p(#[trigger] init[a]);
            assert(p(s[a]));
            if p(s[l]) {
                assert(0 <= a < l && p(s[a]) && p(s[l]));
            }
        }
        if p(s[l]) {
            assert(p(s[l]));
        }
    }
}

/// Strategy number `i` is listed among the saddle points exactly when two different
/// neighbors of it are peaks at least as fit as it.
pub proof fn lemma_saddle_characterization(n: nat, keys: Seq<u64>, i: int)
    requires
        keys.len() == pow3(n),
        0 <= i < keys.len(),
    ensures
        saddle_indices(n, keys).contains(i) <==> exists|m1: int, m2: int| {
            &&& 0 <= m1 < m2 < 2 * n
            &&& key_of(keys, #[trigger] neighbor_at(decode(n, i as nat), m1)) >= keys[i]
            &&& is_peak(n, keys, encode(neighbor_at(decode(n, i as nat), m1)) as int)
            &&& key_of(keys, #[trigger] neighbor_at(decode(n, i as nat), m2)) >= keys[i]
            &&& is_peak(n, keys, encode(neighbor_at(decode(n, i as nat), m2)) as int)
        },
{
    let s = decode(n, i as nat);
    let nbs = neighbor_seqs(s);
    let pred = adjacent_pred(n, keys, i);
    lemma_decode_shape(n, i as nat);
    lemma_filter_count(nbs, pred);
    let nums = numbers(keys.len());
    assert(nums[i] == i);
    if is_saddle(n, keys, i) {
        nums.lemma_filter_contains(saddle_pred(n, keys), i);
        let (a, b) = choose|a: int, b: int| 0 <= a < b < nbs.len() && pred(#[trigger] nbs[a]) && pred(#[trigger] nbs[b]);
        assert(nbs[a] == neighbor_at(s, a) && nbs[b] == neighbor_at(s, b));
    }
    if saddle_indices(n, keys).contains(i) {
        let k = choose|k: int| 0 <= k < saddle_indices(n, keys).len() && saddle_indices(n, keys)[k] == i;
        nums.lemma_filter_pred(saddle_pred(n, keys), k);
    }
    if exists|m1: int, m2: int| {
            &&& 0 <= m1 < m2 < 2 * n
            &&& key_of(keys, #[trigger] neighbor_at(s, m1)) >= keys[i]
            &&& is_peak(n, keys, encode(neighbor_at(s, m1)) as int)
            &&& key_of(keys, #[trigger] neighbor_at(s, m2)) >= keys[i]
            &&& is_peak(n, keys, encode(neighbor_at(s, m2)) as int)
        } {
        let (m1, m2) = choose|m1: int, m2: int| {
            &&& 0 <= m1 < m2 < 2 * n
            &&& key_of(keys, #[trigger] neighbor_at(s, m1)) >= keys[i]
            &&& is_peak(n, keys, encode(neighbor_at(s, m1)) as int)
            &&& key_of(keys, #[trigger] neighbor_at(s, m2)) >= keys[i]
            &&& is_peak(n, keys, encode(neighbor_at(s, m2)) as int)
        };
        assert(pred(nbs[m1]) && pred(nbs[m2]));
        nums.lemma_filter_contains(saddle_pred(n, keys), i);
    }
}

/// A point in the fitness landscape.
#[derive(Debug)]
pub struct LandscapePoint {
    pub strategy: TernaryStrategy,
    pub fitness: u64,
}

impl View for LandscapePoint {
    type V = (Seq<i8>, u64);

    open spec fn view(&self) -> (Seq<i8>, u64) {
        (self.strategy@, self.fitness)
    }
}

impl Clone for LandscapePoint {
    fn clone(&self) -> (r: Self)
        ensures
            r@ == self@,
    {
        LandscapePoint { strategy: self.strategy.clone(), fitness: self.fitness }
    }
}

/// The complete fitness landscape over all `3^n` strategies.
pub struct FitnessLandscape {
    n: usize,
    keys: Vec<u64>,
    points: Vec<LandscapePoint>,
    peak_flags: Vec<bool>,
    peaks: Vec<LandscapePoint>,
    global_peak: Option<LandscapePoint>,
}

/// Lemma: the neighbors of an enumerated strategy are numbered below `3^n`.
proof fn lemma_neighbor_number(n: nat, i: nat, m: int)
    requires
        0 <= m < 2 * n,
    ensures
        encode(neighbor_at(decode(n, i), m)) < pow3(n),
        neighbor_at(decode(n, i), m).len() == n,
        all_trits(neighbor_at(decode(n, i), m)),
{
    lemma_decode_shape(n, i);
    lemma_neighbor_differs_once(decode(n, i), m);
    lemma_encode_bound(neighbor_at(decode(n, i), m));
}

impl FitnessLandscape {
    #[verifier::type_invariant]
    spec fn well_formed(self) -> bool {
        let n = self.n as nat;
        let keys = self.keys@;
        &&& keys.len() == pow3(n)
        &&& pow3(n) <= usize::MAX
        &&& self.points@.len() == keys.len()
        &&& forall|i: int| 0 <= i < keys.len() ==> #[trigger] self.points@[i]@ == point_view(n, keys, i)
        &&& self.peak_flags@.len() == keys.len()
        &&& forall|i: int| 0 <= i < keys.len() ==> #[trigger] self.peak_flags@[i] == is_peak(n, keys, i)
        &&& self.peaks@.len() == peak_indices(n, keys).len()
        &&& forall|q: int| 0 <= q < self.peaks@.len() ==>
                #[trigger] self.peaks@[q]@ == point_view(n, keys, peak_indices(n, keys)[q])
        &&& self.global_peak matches Some(p) && {
                let g = encode(p.strategy@);
                &&& is_global_peak_index(keys, g as int)
                &&& p@ == point_view(n, keys, g as int)
            }
    }

    /// The number of states of the analysed environment.
    pub closed spec fn dim(&self) -> nat {
        self.n as nat
    }

    /// The fitness keys of all strategies, by number.
    pub closed spec fn key_seq(&self) -> Seq<u64> {
        self.keys@
    }

    /// Build the complete landscape for the given fitness table.
    pub fn build(table: &FitnessTable) -> (l: Self)
        ensures
            l.dim() == table.dim(),
            l.key_seq() == table.key_seq(),
    {
        let n = table.num_states();
        let keys = table.to_keys();
        let total = keys.len();
        let ghost gk = keys@;
        let ghost gn = n as nat;

        // All points, in enumeration order.
        let mut points: Vec<LandscapePoint> = Vec::with_capacity(total);
        let mut i: usize = 0;
        while i < total
            invariant
                total == gk.len(),
                gk == keys@,
                gn == n,
                i <= total,
                points@.len() == i,
                forall|j: int| 0 <= j < i ==> #[trigger] points@[j]@ == point_view(gn, gk, j),
            decreases total - i,
        {
            let strategy = TernaryStrategy::new(decode_choices(n, i));
            points.push(LandscapePoint { strategy, fitness: keys[i] });
            i = i + 1;
        }

        // Peaks: points where no neighbor has a higher fitness.
        let mut peak_flags: Vec<bool> = Vec::with_capacity(total);
        let mut peaks: Vec<LandscapePoint> = Vec::new();
        let ghost pred = peak_pred(gn, gk);
        i = 0;
        while i < total
            invariant
                total == gk.len(),
                total == pow3(gn),
                pow3(gn) <= usize::MAX,
                gk == keys@,
                gn == n,
                i <= total,
                points@.len() == total,
                forall|j: int| 0 <= j < total ==> #[trigger] points@[j]@ == point_view(gn, gk, j),
                pred == peak_pred(gn, gk),
                peak_flags@.len() == i,
                forall|j: int| 0 <= j < i ==> #[trigger] peak_flags@[j] == is_peak(gn, gk, j),
                peaks@.len() == numbers(i as nat).filter(pred).len(),
                forall|q: int| 0 <= q < peaks@.len() ==>
                    #[trigger] peaks@[q]@ == point_view(gn, gk, numbers(i as nat).filter(pred)[q]),
            decreases total - i,
        {
            let p = &points[i];
            let neighbors = p.strategy.neighbors();
            proof {
                lemma_decode_shape(gn, i as nat);
                assert(points@[i as int]@ == point_view(gn, gk, i as int));
            }
            let mut is_peak_here = true;
            let mut m: usize = 0;
            while m < neighbors.len()
                invariant
                    total == gk.len(),
                    total == pow3(gn),
                    pow3(gn) <= usize::MAX,
                    gk == keys@,
                    gn == n,
                    i < total,
                    p@ == point_view(gn, gk, i as int),
                    neighbors@.len() == 2 * gn,
                    forall|k: int| 0 <= k < neighbors@.len() ==>
                        #[trigger] neighbors@[k]@ == neighbor_at(decode(gn, i as nat), k),
                    m <= neighbors@.len(),
                    is_peak_here == forall|k: int| 0 <= k < m ==>
                        #[trigger] key_of(gk, neighbor_at(decode(gn, i as nat), k)) <= gk[i as int],
                decreases neighbors@.len() - m,
            {
                proof {
                    lemma_neighbor_number(gn, i as nat, m as int);
                    lemma_decode_shape(gn, i as nat);
                }
                let c = neighbors[m].choices();
                let idx = index_of(c);
                let ghost before = is_peak_here;
                if keys[idx] > p.fitness {
                    is_peak_here = false;
                }
                proof {
                    let nb = neighbor_at(decode(gn, i as nat), m as int);
                    assert(c@ == nb);
                    if before {
                        if keys[idx as int] > p.fitness {
                            assert(!(key_of(gk, nb) <= gk[i as int]));
                        }
                    } else {
                        let k0 = choose|k: int| 0 <= k < m && !(#[trigger] key_of(gk, neighbor_at(decode(gn, i as nat), k)) <= gk[i as int]);
                        assert(0 <= k0 < m + 1);
                    }
                }
                m = m + 1;
            }
            proof {
                assert(is_peak_here == is_peak(gn, gk, i as int));
                assert(numbers((i + 1) as nat) =~= numbers(i as nat).push(i as int));
                numbers(i as nat).lemma_filter_push(i as int, pred);
            }
            peak_flags.push(is_peak_here);
            if is_peak_here {
                peaks.push(p.clone());
            }
            i = i + 1;
        }
        proof {
            assert(numbers(total as nat) == numbers(gk.len()));
        }

        // The global peak: the last point of highest fitness.
        let mut best: usize = 0;
        proof {
            lemma_pow3_positive(gn);
        }
        i = 1;
        while i < total
            invariant
                total == gk.len(),
                gk == keys@,
                1 <= i <= total,
                best < i,
                forall|x: int| 0 <= x < i ==> #[trigger] gk[x] <= gk[best as int],
                forall|x: int| best < x < i ==> #[trigger] gk[x] < gk[best as int],
            decreases total - i,
        {
            if keys[i] >= keys[best] {
                best = i;
            }
            i = i + 1;
        }
        let global_peak = Some(points[best].clone());
        proof {
            lemma_encode_decode(gn, best as nat);
            assert(points@[best as int]@ == point_view(gn, gk, best as int));
        }
        FitnessLandscape { n, keys, points, peak_flags, peaks, global_peak }
    }
    /// Get the fitness of a specific strategy: `None` when its length differs from the landscape's.
    pub fn fitness_of(&self, strategy: &TernaryStrategy) -> (r: Option<u64>)
        ensures
            r is Some <==> strategy@.len() == self.dim(),
            r matches Some(v) ==> encode(strategy@) < self.key_seq().len()
                && v == key_of(self.key_seq(), strategy@),
    {
        proof { use_type_invariant(self); }
        let c = strategy.choices();
        if c.len() != self.n {
            return None;
        }
        let i = index_of(c);
        proof {
            lemma_encode_bound(c@);
        }
        Some(self.keys[i])
    }

    /// All landscape points, the `i`-th being strategy number `i`.
    pub fn points(&self) -> (r: &[LandscapePoint])
        ensures
            r@.len() == self.key_seq().len(),
            self.key_seq().len() == pow3(self.dim()),
            forall|i: int| 0 <= i < r@.len() ==> #[trigger] r@[i]@ == point_view(self.dim(), self.key_seq(), i),
    {
        proof { use_type_invariant(self); }
        self.points.as_slice()
    }

    /// All local peaks (no neighbor has higher fitness), in enumeration order.
    pub fn peaks(&self) -> (r: &[LandscapePoint])
        ensures
            r@.len() == peak_indices(self.dim(), self.key_seq()).len(),
            forall|q: int| 0 <= q < r@.len() ==>
                #[trigger] r@[q]@ == point_view(self.dim(), self.key_seq(), peak_indices(self.dim(), self.key_seq())[q]),
    {
        proof { use_type_invariant(self); }
        self.peaks.as_slice()
    }

    /// The global peak: the last-enumerated strategy of highest fitness (always a peak).
    pub fn global_peak(&self) -> (r: Option<&LandscapePoint>)
        ensures
            r is Some,
            r matches Some(p) ==> {
                let g = encode(p.strategy@) as int;
                &&& is_global_peak_index(self.key_seq(), g)
                &&& p@ == point_view(self.dim(), self.key_seq(), g)
                &&& is_peak(self.dim(), self.key_seq(), g)
            },
    {
        proof {
            use_type_invariant(self);
            let p = self.global_peak.unwrap();
            let g = encode(p.strategy@) as int;
            let n = self.n as nat;
            let keys = self.keys@;
            assert forall|m: int| 0 <= m < 2 * n implies
                #[trigger] key_of(keys, neighbor_at(decode(n, g as nat), m)) <= keys[g] by {
                lemma_neighbor_number(n, g as nat, m);
            }
        }
        self.global_peak.as_ref()
    }

    /// Total number of strategies in the landscape.
    pub fn size(&self) -> (s: usize)
        ensures
            s == self.key_seq().len(),
            s == pow3(self.dim()),
    {
        proof { use_type_invariant(self); }
        self.points.len()
    }

    /// The lowest and highest fitness keys over the landscape.
    pub fn fitness_range(&self) -> (r: Option<(u64, u64)>)
        ensures
            r is Some,
            r matches Some((low, high)) ==> {
                &&& exists|x: int| 0 <= x < self.key_seq().len() && #[trigger] self.key_seq()[x] == low
                &&& exists|x: int| 0 <= x < self.key_seq().len() && #[trigger] self.key_seq()[x] == high
                &&& forall|x: int| 0 <= x < self.key_seq().len() ==> low <= #[trigger] self.key_seq()[x] <= high
            },
    {
        proof {
            use_type_invariant(self);
            lemma_pow3_positive(self.n as nat);
        }
        let total = self.keys.len();
        if total == 0 {
            return None;
        }
        let mut lo = self.keys[0];
        let mut hi = self.keys[0];
        let mut i: usize = 1;
        while i < total
            invariant
                total == self.keys@.len(),
                1 <= i <= total,
                exists|x: int| 0 <= x < i && #[trigger] self.keys@[x] == lo,
                exists|x: int| 0 <= x < i && #[trigger] self.keys@[x] == hi,
                forall|x: int| 0 <= x < i ==> lo <= #[trigger] self.keys@[x] <= hi,
            decreases total - i,
        {
            let k = self.keys[i];
            if k < lo {
                lo = k;
            }
            if k > hi {
                hi = k;
            }
            i = i + 1;
        }
        proof {
            let x1 = choose|x: int| 0 <= x < total && #[trigger] self.keys@[x] == lo;
            let x2 = choose|x: int| 0 <= x < total && #[trigger] self.keys@[x] == hi;
            assert(self.key_seq()[x1] == lo);
            assert(self.key_seq()[x2] == hi);
        }
        Some((lo, hi))
    }
    /// Find which strategy steepest ascent from strategy number `start` reaches.
    fn steepest_ascent_target(&self, start: usize) -> (t: usize)
        requires
            start < self.key_seq().len(),
        ensures
            t == ascent_target(self.dim(), self.key_seq(), start as int),
            t < self.key_seq().len(),
    {
        proof { use_type_invariant(self); }
        let ghost n = self.n as nat;
        let ghost keys = self.keys@;
        let mut current = start;
        loop
            invariant
                n == self.n,
                keys == self.keys@,
                keys.len() == pow3(n),
                pow3(n) <= usize::MAX,
                self.points@.len() == keys.len(),
                forall|i: int| 0 <= i < keys.len() ==> #[trigger] self.points@[i]@ == point_view(n, keys, i),
                current < keys.len(),
                ascent_target(n, keys, start as int) == ascent_target(n, keys, current as int),
            decreases u64::MAX - keys[current as int],
        {
            if self.n == 0 {
                return current;
            }
            let neighbors = self.points[current].strategy.neighbors();
            let ghost nk = neighbor_keys(n, keys, current as int);
            proof {
                assert(self.points@[current as int]@ == point_view(n, keys, current as int));
                lemma_decode_shape(n, current as nat);
                lemma_neighbor_number(n, current as nat, 0);
            }
            let mut best_idx = index_of(neighbors[0].choices());
            let mut best_key = self.keys[best_idx];
            let mut m: usize = 1;
            proof {
                assert(nk.take(1).drop_last() =~= Seq::<u64>::empty());
            }
            while m < neighbors.len()
                invariant
                    n == self.n,
                    keys == self.keys@,
                    keys.len() == pow3(n),
                    pow3(n) <= usize::MAX,
                    current < keys.len(),
                    nk == neighbor_keys(n, keys, current as int),
                    neighbors@.len() == 2 * n,
                    forall|k: int| 0 <= k < neighbors@.len() ==>
                        #[trigger] neighbors@[k]@ == neighbor_at(decode(n, current as nat), k),
                    1 <= m <= neighbors@.len(),
                    best_idx == encode(neighbor_at(decode(n, current as nat), last_argmax(nk.take(m as int)))),
                    best_idx < keys.len(),
                    best_key == keys[best_idx as int],
                    0 <= last_argmax(nk.take(m as int)) < m,
                decreases neighbors@.len() - m,
            {
                proof {
                    lemma_neighbor_number(n, current as nat, m as int);
                }
                let idx = index_of(neighbors[m].choices());
                let k = self.keys[idx];
                proof {
                    let prev = nk.take(m as int);
                    let next = nk.take(m + 1);
                    assert(next.drop_last() =~= prev);
                    assert(next.last() == k);
                    assert(next[last_argmax(prev)] == prev[last_argmax(prev)]);
                    assert(prev[last_argmax(prev)] == best_key);
                }
                if k >= best_key {
                    best_idx = idx;
                    best_key = k;
                }
                m = m + 1;
            }
            proof {
                assert(nk.take(m as int) =~= nk);
            }
            if best_key > self.keys[current] {
                current = best_idx;
            } else {
                return current;
            }
        }
    }

    /// Find the basin of attraction for a given peak: the peak itself, then, in
    /// enumeration order, every other strategy whose steepest ascent ends at it.
    pub fn basin_of(&self, peak: &TernaryStrategy) -> (r: Vec<TernaryStrategy>)
        ensures
            r@.len() == 1 + basin_indices(self.dim(), self.key_seq(), peak@).len(),
            r@[0]@ == peak@,
            strategy_views(r@) == basin_list(self.dim(), self.key_seq(), peak@),
            forall|q: int| 0 <= q < basin_indices(self.dim(), self.key_seq(), peak@).len() ==>
                #[trigger] r@[q + 1]@ == decode(self.dim(), basin_indices(self.dim(), self.key_seq(), peak@)[q] as nat),
    {
        proof { use_type_invariant(self); }
        let ghost n = self.n as nat;
        let ghost keys = self.keys@;
        let ghost pred = basin_pred(n, keys, peak@);
        let mut basin: Vec<TernaryStrategy> = Vec::new();
        basin.push(peak.clone());
        let total = self.points.len();
        let mut i: usize = 0;
        while i < total
            invariant
                n == self.n,
                keys == self.keys@,
                total == keys.len(),
                self.points@.len() == keys.len(),
                forall|j: int| 0 <= j < keys.len() ==> #[trigger] self.points@[j]@ == point_view(n, keys, j),
                pred == basin_pred(n, keys, peak@),
                i <= total,
                basin@.len() == 1 + numbers(i as nat).filter(pred).len(),
                basin@[0]@ == peak@,
                forall|q: int| 0 <= q < numbers(i as nat).filter(pred).len() ==>
                    #[trigger] basin@[q + 1]@ == decode(n, numbers(i as nat).filter(pred)[q] as nat),
            decreases total - i,
        {
            let point = &self.points[i];
            proof {
                assert(self.points@[i as int]@ == point_view(n, keys, i as int));
                assert(numbers((i + 1) as nat) =~= numbers(i as nat).push(i as int));
                numbers(i as nat).lemma_filter_push(i as int, pred);
            }
            let ghost before = basin@;
            if !point.strategy.same_choices(peak) {
                let t = self.steepest_ascent_target(i);
                proof {
                    assert(self.points@[t as int]@ == point_view(n, keys, t as int));
                }
                if self.points[t].strategy.same_choices(peak) {
                    basin.push(point.strategy.clone());
                    proof {
                        let f = numbers(i as nat).filter(pred);
                        assert forall|q: int| 0 <= q < f.len() + 1 implies
                            #[trigger] basin@[q + 1]@ == decode(n, f.push(i as int)[q] as nat) by {
                            if q < f.len() {
                                assert(basin@[q + 1] == before[q + 1]);
                            }
                        }
                    }
                }
            }
            i = i + 1;
        }
        proof {
            assert(numbers(total as nat) == numbers(keys.len()));
            let bi = basin_indices(n, keys, peak@);
            let bl = basin_list(n, keys, peak@);
            assert forall|q: int| 0 <= q < bl.len() implies #[trigger] strategy_views(basin@)[q] == bl[q] by {
                if q > 0 {
                    assert(basin@[(q - 1) + 1]@ == decode(n, bi[q - 1] as nat));
                }
            }
            assert(strategy_views(basin@) =~= bl);
        }
        basin
    }
    /// Find saddle points: strategies adjacent to at least two peaks that are at
    /// least as fit, in enumeration order.
    pub fn saddle_points(&self) -> (r: Vec<SaddlePoint>)
        ensures
            r@.len() == saddle_indices(self.dim(), self.key_seq()).len(),
            forall|q: int| 0 <= q < r@.len() ==>
                #[trigger] r@[q]@ == saddle_view(self.dim(), self.key_seq(), saddle_indices(self.dim(), self.key_seq())[q]),
    {
        proof { use_type_invariant(self); }
        let ghost n = self.n as nat;
        let ghost keys = self.keys@;
        let ghost spred = saddle_pred(n, keys);
        let mut saddles: Vec<SaddlePoint> = Vec::new();
        let total = self.points.len();
        let mut i: usize = 0;
        while i < total
            invariant
                n == self.n,
                keys == self.keys@,
                total == keys.len(),
                keys.len() == pow3(n),
                pow3(n) <= usize::MAX,
                self.points@.len() == keys.len(),
                forall|j: int| 0 <= j < keys.len() ==> #[trigger] self.points@[j]@ == point_view(n, keys, j),
                self.peak_flags@.len() == keys.len(),
                forall|j: int| 0 <= j < keys.len() ==> #[trigger] self.peak_flags@[j] == is_peak(n, keys, j),
                spred == saddle_pred(n, keys),
                i <= total,
                saddles@.len() == numbers(i as nat).filter(spred).len(),
                forall|q: int| 0 <= q < saddles@.len() ==>
                    #[trigger] saddles@[q]@ == saddle_view(n, keys, numbers(i as nat).filter(spred)[q]),
            decreases total - i,
        {
            let point = &self.points[i];
            let ghost s = decode(n, i as nat);
            let ghost apred = adjacent_pred(n, keys, i as int);
            proof {
                assert(self.points@[i as int]@ == point_view(n, keys, i as int));
                lemma_decode_shape(n, i as nat);
            }
            let neighbors = point.strategy.neighbors();
            let mut adjacent: Vec<TernaryStrategy> = Vec::new();
            let mut m: usize = 0;
            while m < neighbors.len()
                invariant
                    n == self.n,
                    keys == self.keys@,
                    keys.len() == pow3(n),
                    pow3(n) <= usize::MAX,
                    i < keys.len(),
                    point@ == point_view(n, keys, i as int),
                    s == decode(n, i as nat),
                    s.len() == n,
                    apred == adjacent_pred(n, keys, i as int),
                    self.peak_flags@.len() == keys.len(),
                    forall|j: int| 0 <= j < keys.len() ==> #[trigger] self.peak_flags@[j] == is_peak(n, keys, j),
                    neighbors@.len() == 2 * n,
                    forall|k: int| 0 <= k < neighbors@.len() ==>
                        #[trigger] neighbors@[k]@ == neighbor_at(s, k),
                    m <= neighbors@.len(),
                    strategy_views(adjacent@) == neighbor_seqs(s).take(m as int).filter(apred),
                decreases neighbors@.len() - m,
            {
                proof {
                    lemma_neighbor_number(n, i as nat, m as int);
                    let prev = neighbor_seqs(s).take(m as int);
                    assert(neighbor_seqs(s).take(m + 1) =~= prev.push(neighbor_at(s, m as int)));
                    prev.lemma_filter_push(neighbor_at(s, m as int), apred);
                }
                let idx = index_of(neighbors[m].choices());
                let ghost before = adjacent@;
                if self.keys[idx] >= point.fitness && self.peak_flags[idx] {
                    adjacent.push(neighbors[m].clone());
                    proof {
                        assert(strategy_views(adjacent@) =~= strategy_views(before).push(neighbor_at(s, m as int)));
                    }
                } else {
                    proof {
                        assert(strategy_views(adjacent@) =~= strategy_views(before));
                    }
                }
                m = m + 1;
            }
            proof {
                assert(neighbor_seqs(s).take(m as int) =~= neighbor_seqs(s));
                assert(numbers((i + 1) as nat) =~= numbers(i as nat).push(i as int));
                numbers(i as nat).lemma_filter_push(i as int, spred);
            }
            let ghost before = saddles@;
            if adjacent.len() >= 2 {
                saddles.push(SaddlePoint {
                    strategy: point.strategy.clone(),
                    fitness: point.fitness,
                    adjacent_peaks: adjacent,
                });
                proof {
                    let f = numbers(i as nat).filter(spred);
                    assert forall|q: int| 0 <= q < saddles@.len() implies
                        #[trigger] saddles@[q]@ == saddle_view(n, keys, f.push(i as int)[q]) by {
                        if q < f.len() {
                            assert(saddles@[q] == before[q]);
                        }
                    }
                }
            }
            i = i + 1;
        }
        proof {
            assert(numbers(total as nat) == numbers(keys.len()));
        }
        saddles
    }
}

} // verus!
