//! Ternary strategies: sequences of choices in {-1, 0, +1}.
use vstd::prelude::*;

verus! {

/// A value is a trit when it is one of -1, 0, +1.
pub open spec fn is_trit(c: i8) -> bool {
    -1 <= c <= 1
}

/// Every entry of `s` is a trit.
pub open spec fn all_trits(s: Seq<i8>) -> bool {
    forall|k: int| 0 <= k < s.len() ==> is_trit(#[trigger] s[k])
}

/// The `j`-th value (`j` is 0 or 1) among {-1, 0, +1} other than `c`, in increasing order.
pub open spec fn alternative(c: i8, j: int) -> i8 {
    if j == 0 {
        if c == -1 { 0i8 } else { -1i8 }
    } else {
        if c == 1 { 0i8 } else { 1i8 }
    }
}

/// The `m`-th neighbor of `s`: position `m / 2` changed to its `(m % 2)`-th alternative.
pub open spec fn neighbor_at(s: Seq<i8>, m: int) -> Seq<i8> {
    s.update(m / 2, alternative(s[m / 2], m % 2))
}

/// All neighbors of `s`, in the order in which `neighbors` lists them.
pub open spec fn neighbor_seqs(s: Seq<i8>) -> Seq<Seq<i8>> {
    Seq::new(2 * s.len(), |m: int| neighbor_at(s, m))
}

/// The number of non-zero choices.
pub open spec fn active_count_of(s: Seq<i8>) -> nat {
    s.filter(|c: i8| c != 0).len()
}

/// The number of positions below `k` where `a` and `b` differ.
pub open spec fn differences_below(a: Seq<i8>, b: Seq<i8>, k: nat) -> nat
    decreases k,
{
    if k == 0 {
        0
    } else {
        differences_below(a, b, (k - 1) as nat) + (if a[k - 1] != b[k - 1] { 1nat } else { 0nat })
    }
}

/// The Hamming distance: positions (up to the shorter length) where `a` and `b` differ.
pub open spec fn hamming(a: Seq<i8>, b: Seq<i8>) -> nat {
    differences_below(a, b, if a.len() <= b.len() { a.len() } else { b.len() })
}

/// The symbol by which a choice is displayed.
pub open spec fn symbol(c: i8) -> Seq<char> {
    if c == -1 {
        seq!['-']
    } else if c == 0 {
        seq!['0']
    } else if c == 1 {
        seq!['+']
    } else {
        seq!['?']
    }
}

/// The symbols of `s`, separated by ", ".
pub open spec fn joined_symbols(s: Seq<i8>) -> Seq<char>
    decreases s.len(),
{
    if s.len() == 0 {
        Seq::empty()
    } else if s.len() == 1 {
        symbol(s[0])
    } else {
        joined_symbols(s.drop_last()) + seq![',', ' '] + symbol(s.last())
    }
}

/// The displayed form of a strategy, such as `[-, 0, +]`.
pub open spec fn display_of(s: Seq<i8>) -> Seq<char> {
    seq!['['] + joined_symbols(s) + seq![']']
}

proof fn lemma_differences_one_change(s: Seq<i8>, p: int, v: i8, k: nat)
    requires
        0 <= p < s.len(),
        v != s[p],
        k <= s.len(),
    ensures
        differences_below(s, s.update(p, v), k) == (if k > p { 1nat } else { 0nat }),
    decreases k,
{
    if k > 0 {
        lemma_differences_one_change(s, p, v, (k - 1) as nat);
    }
}

proof fn lemma_differences_zero(a: Seq<i8>, b: Seq<i8>, k: nat)
    requires
        differences_below(a, b, k) == 0,
    ensures
        forall|j: int| 0 <= j < k ==> a[j] == b[j],
    decreases k,
{
    if k > 0 {
        lemma_differences_zero(a, b, (k - 1) as nat);
    }
}

proof fn lemma_differences_one(a: Seq<i8>, b: Seq<i8>, k: nat) -> (p: int)
    requires
        differences_below(a, b, k) == 1,
    ensures
        0 <= p < k,
        a[p] != b[p],
        forall|j: int| 0 <= j < k && j != p ==> a[j] == b[j],
    decreases k,
{
    let prev = differences_below(a, b, (k - 1) as nat);
    if a[k - 1] != b[k - 1] {
        lemma_differences_zero(a, b, (k - 1) as nat);
        k - 1
    } else {
        lemma_differences_one(a, b, (k - 1) as nat)
    }
}

/// Each listed neighbor is a strategy of the same length that differs from `s`
/// in exactly one position.
pub proof fn lemma_neighbor_differs_once(s: Seq<i8>, m: int)
    requires
        all_trits(s),
        0 <= m < 2 * s.len(),
    ensures
        neighbor_at(s, m).len() == s.len(),
        all_trits(neighbor_at(s, m)),
        neighbor_at(s, m)[m / 2] != s[m / 2],
        hamming(s, neighbor_at(s, m)) == 1,
{
    let t = neighbor_at(s, m);
    assert(is_trit(s[m / 2]));
    lemma_differences_one_change(s, m / 2, alternative(s[m / 2], m % 2), s.len());
    assert forall|k: int| 0 <= k < t.len() implies is_trit(#[trigger] t[k]) by {
        if k != m / 2 {
            assert(t[k] == s[k]);
        }
    }
}

/// Every strategy of the same length at Hamming distance 1 from `s` is listed among its neighbors.
pub proof fn lemma_neighbors_complete(s: Seq<i8>, t: Seq<i8>)
    requires
        all_trits(s),
        all_trits(t),
        s.len() == t.len(),
        hamming(s, t) == 1,
    ensures
        exists|m: int| 0 <= m < 2 * s.len() && #[trigger] neighbor_at(s, m) == t,
{
    let p = lemma_differences_one(s, t, s.len());
    assert(is_trit(s[p]) && is_trit(t[p]));
    let j: int = if t[p] == alternative(s[p], 0) { 0 } else { 1 };
    let m = 2 * p + j;
    assert(m / 2 == p && m % 2 == j);
    assert(neighbor_at(s, m) =~= t);
}

/// The `2n` listed neighbors of a strategy of length `n` are pairwise distinct.
pub proof fn lemma_neighbors_distinct(s: Seq<i8>, m1: int, m2: int)
    requires
        0 <= m1 < 2 * s.len(),
        0 <= m2 < 2 * s.len(),
        m1 != m2,
    ensures
        neighbor_at(s, m1) != neighbor_at(s, m2),
{
    let p1 = m1 / 2;
    let p2 = m2 / 2;
    if p1 == p2 {
        assert(neighbor_at(s, m1)[p1] != neighbor_at(s, m2)[p1]);
    } else {
        assert(neighbor_at(s, m1)[p1] != neighbor_at(s, m2)[p1]);
    }
}

/// A strategy is a neighbor of each of its neighbors.
pub proof fn lemma_neighbor_symmetric(s: Seq<i8>, m: int)
    requires
        all_trits(s),
        0 <= m < 2 * s.len(),
    ensures
        exists|m2: int| 0 <= m2 < 2 * s.len() && #[trigger] neighbor_at(neighbor_at(s, m), m2) == s,
{
    let t = neighbor_at(s, m);
    lemma_neighbor_differs_once(s, m);
    lemma_differences_one_change(s, m / 2, alternative(s[m / 2], m % 2), s.len());
    lemma_differences_symmetric(s, t, s.len());
    lemma_neighbors_complete(t, s);
}

proof fn lemma_differences_symmetric(a: Seq<i8>, b: Seq<i8>, k: nat)
    ensures
        differences_below(a, b, k) == differences_below(b, a, k),
    decreases k,
{
    if k > 0 {
        lemma_differences_symmetric(a, b, (k - 1) as nat);
    }
}

proof fn lemma_differences_self(a: Seq<i8>, k: nat)
    ensures
        differences_below(a, a, k) == 0,
    decreases k,
{
    if k > 0 {
        lemma_differences_self(a, (k - 1) as nat);
    }
}

proof fn lemma_differences_bound(a: Seq<i8>, b: Seq<i8>, k: nat)
    ensures
        differences_below(a, b, k) <= k,
    decreases k,
{
    if k > 0 {
        lemma_differences_bound(a, b, (k - 1) as nat);
    }
}

/// The Hamming distance is symmetric.
pub proof fn lemma_hamming_symmetric(a: Seq<i8>, b: Seq<i8>)
    ensures
        hamming(a, b) == hamming(b, a),
{
    lemma_differences_symmetric(a, b, if a.len() <= b.len() { a.len() } else { b.len() });
}

/// A strategy is at Hamming distance 0 from itself.
pub proof fn lemma_hamming_self(a: Seq<i8>)
    ensures
        hamming(a, a) == 0,
{
    lemma_differences_self(a, a.len());
}

/// The Hamming distance is at most the shorter length.
pub proof fn lemma_hamming_bound(a: Seq<i8>, b: Seq<i8>)
    ensures
        hamming(a, b) <= a.len(),
        hamming(a, b) <= b.len(),
{
    lemma_differences_bound(a, b, if a.len() <= b.len() { a.len() } else { b.len() });
}

/// `t` is one of the listed neighbors of `s`.
pub open spec fn is_neighbor(s: Seq<i8>, t: Seq<i8>) -> bool {
    exists|m: int| 0 <= m < 2 * s.len() && #[trigger] neighbor_at(s, m) == t
}

/// `t` is `s` with one position changed to another trit.
pub open spec fn is_single_mutation(s: Seq<i8>, t: Seq<i8>) -> bool {
    exists|p: int, v: i8| 0 <= p < s.len() && v != s[p] && is_trit(v) && #[trigger] s.update(p, v) == t
}

/// For valid strategies, these say the same: `t` is a listed neighbor of `s`; `s` is a
/// listed neighbor of `t`; `t` has the length of `s` and Hamming distance 1 from it;
/// `t` is `s` with one position changed to another trit (what `with_mutation` gives).
pub proof fn lemma_neighbor_characterization(s: Seq<i8>, t: Seq<i8>)
    requires
        all_trits(s),
        all_trits(t),
    ensures
        is_neighbor(s, t) <==> (s.len() == t.len() && hamming(s, t) == 1),
        is_neighbor(s, t) <==> is_neighbor(t, s),
        is_neighbor(s, t) <==> is_single_mutation(s, t),
{
    if is_neighbor(s, t) {
        let m = choose|m: int| 0 <= m < 2 * s.len() && #[trigger] neighbor_at(s, m) == t;
        lemma_neighbor_differs_once(s, m);
        assert(is_trit(alternative(s[m / 2], m % 2)));
        assert(s.update(m / 2, alternative(s[m / 2], m % 2)) == t);
    }
    if s.len() == t.len() && hamming(s, t) == 1 {
        lemma_neighbors_complete(s, t);
        lemma_hamming_symmetric(s, t);
        lemma_neighbors_complete(t, s);
    }
    if is_neighbor(t, s) {
        let m = choose|m: int| 0 <= m < 2 * t.len() && #[trigger] neighbor_at(t, m) == s;
        lemma_neighbor_differs_once(t, m);
        lemma_hamming_symmetric(t, s);
        lemma_neighbors_complete(s, t);
    }
    if is_single_mutation(s, t) {
        let (p, v) = choose|p: int, v: i8| 0 <= p < s.len() && v != s[p] && is_trit(v) && #[trigger] s.update(p, v) == t;
        lemma_differences_one_change(s, p, v, s.len());
        lemma_neighbors_complete(s, t);
    }
}

/// A strategy composed of ternary choices: {-1, 0, +1}.
///
/// Each element corresponds to an action taken in a sequential decision process.
#[derive(Debug, PartialEq, Eq, Hash)]
pub struct TernaryStrategy {
    choices: Vec<i8>,
}

impl View for TernaryStrategy {
    type V = Seq<i8>;

    closed spec fn view(&self) -> Seq<i8> {
        self.choices@
    }
}

fn copy_choices(v: &Vec<i8>) -> (r: Vec<i8>)
    ensures
        r@ == v@,
{
    let mut r: Vec<i8> = Vec::with_capacity(v.len());
    let mut i: usize = 0;
    while i < v.len()
        invariant
            i <= v@.len(),
            r@ == v@.subrange(0, i as int),
        decreases v@.len() - i,
    {
        r.push(v[i]);
        i = i + 1;
        proof {
            assert(r@ =~= v@.subrange(0, i as int));
        }
    }
    proof {
        assert(r@ =~= v@);
    }
    r
}

impl Clone for TernaryStrategy {
    fn clone(&self) -> (r: Self)
        ensures
            r@ == self@,
    {
        proof { use_type_invariant(self); }
        TernaryStrategy { choices: copy_choices(&self.choices) }
    }
}

impl TernaryStrategy {
    #[verifier::type_invariant]
    spec fn well_formed(self) -> bool {
        all_trits(self.choices@)
    }

    /// Create a new strategy from a vector of {-1, 0, +1} values.
    pub fn new(choices: Vec<i8>) -> (s: Self)
        requires
            all_trits(choices@),
        ensures
            s@ == choices@,
    {
        TernaryStrategy { choices }
    }

    /// The number of decisions in this strategy.
    pub fn len(&self) -> (n: usize)
        ensures
            n == self@.len(),
            all_trits(self@),
    {
        proof { use_type_invariant(self); }
        self.choices.len()
    }

    /// Whether this is an empty strategy.
    pub fn is_empty(&self) -> (b: bool)
        ensures
            b == (self@.len() == 0),
    {
        self.choices.len() == 0
    }

    /// Access the choices as a slice.
    pub fn choices(&self) -> (c: &[i8])
        ensures
            c@ == self@,
            all_trits(c@),
    {
        proof { use_type_invariant(self); }
        self.choices.as_slice()
    }

    /// Get the choice at a given position.
    pub fn get(&self, index: usize) -> (r: Option<i8>)
        ensures
            r == (if index < self@.len() { Some(self@[index as int]) } else { None::<i8> }),
    {
        if index < self.choices.len() {
            Some(self.choices[index])
        } else {
            None
        }
    }

    /// Generate all neighbors by mutating exactly one position.
    ///
    /// Each position can change to 2 other values, so a strategy of length `n`
    /// has `2n` neighbors, listed by position and then by increasing new value.
    pub fn neighbors(&self) -> (r: Vec<TernaryStrategy>)
        ensures
            r@.len() == 2 * self@.len(),
            forall|m: int| 0 <= m < r@.len() ==> #[trigger] r@[m]@ == neighbor_at(self@, m),
    {
        proof { use_type_invariant(self); }
        let n = self.choices.len();
        let mut result: Vec<TernaryStrategy> = Vec::new();
        let mut i: usize = 0;
        while i < n
            invariant
                n == self@.len(),
                all_trits(self@),
                i <= n,
                result@.len() == 2 * i,
                forall|m: int| 0 <= m < result@.len() ==> #[trigger] result@[m]@ == neighbor_at(self@, m),
            decreases n - i,
        {
            let c = self.choices[i];
            let mut alt: i8 = -1;
            while alt <= 1
                invariant
                    n == self@.len(),
                    all_trits(self@),
                    i < n,
                    c == self@[i as int],
                    -1 <= alt <= 2,
                    result@.len() == 2 * i + (if alt <= c { alt + 1 } else { alt as int }),
                    forall|m: int| 0 <= m < result@.len() ==> #[trigger] result@[m]@ == neighbor_at(self@, m),
                decreases 2 - alt,
            {
                if alt != c {
                    let mut mutated = copy_choices(&self.choices);
                    mutated.set(i, alt);
                    proof {
                        let m = result@.len() as int;
                        assert(m / 2 == i as int);
                        assert(alternative(c, m % 2) == alt);
                        assert(mutated@ == neighbor_at(self@, m));
                        assert(all_trits(mutated@)) by {
                            assert forall|k: int| 0 <= k < mutated@.len() implies is_trit(#[trigger] mutated@[k]) by {
                                if k != i {
                                    assert(mutated@[k] == self@[k]);
                                }
                            }
                        }
                    }
                    result.push(TernaryStrategy { choices: mutated });
                }
                alt = alt + 1;
            }
            i = i + 1;
        }
        result
    }

    /// Mutate a single position to a specific value.
    ///
    /// Gives `None` when the position is out of range or already holds that value.
    pub fn with_mutation(&self, position: usize, new_value: i8) -> (r: Option<TernaryStrategy>)
        requires
            position < self@.len() && new_value != self@[position as int] ==> is_trit(new_value),
        ensures
            r is None <==> (position >= self@.len() || new_value == self@[position as int]),
            r matches Some(t) ==> t@ == self@.update(position as int, new_value),
    {
        proof { use_type_invariant(self); }
        if position >= self.choices.len() || new_value == self.choices[position] {
            return None;
        }
        let mut mutated = copy_choices(&self.choices);
        mutated.set(position, new_value);
        proof {
            assert(all_trits(mutated@)) by {
                assert forall|k: int| 0 <= k < mutated@.len() implies is_trit(#[trigger] mutated@[k]) by {
                    if k != position {
                        assert(mutated@[k] == self@[k]);
                    }
                }
            }
        }
        Some(TernaryStrategy { choices: mutated })
    }

    /// Whether two strategies hold the same choices.
    pub fn same_choices(&self, other: &TernaryStrategy) -> (b: bool)
        ensures
            b == (self@ == other@),
    {
        let n = self.choices.len();
        if n != other.choices.len() {
            return false;
        }
        let mut i: usize = 0;
        while i < n
            invariant
                n == self@.len(),
                n == other@.len(),
                i <= n,
                forall|k: int| 0 <= k < i ==> self@[k] == other@[k],
            decreases n - i,
        {
            if self.choices[i] != other.choices[i] {
                return false;
            }
            i = i + 1;
        }
        proof {
            assert(self@ =~= other@);
        }
        true
    }

    /// Count the number of non-zero choices.
    pub fn active_count(&self) -> (r: usize)
        ensures
            r == active_count_of(self@),
    {
        let n = self.choices.len();
        let mut count: usize = 0;
        let mut i: usize = 0;
        while i < n
            invariant
                n == self@.len(),
                i <= n,
                count == self@.subrange(0, i as int).filter(|c: i8| c != 0).len(),
                count <= i,
            decreases n - i,
        {
            proof {
                let p = |c: i8| c != 0;
                assert(self@.subrange(0, i + 1) =~= self@.subrange(0, i as int).push(self@[i as int]));
                self@.subrange(0, i as int).lemma_filter_push(self@[i as int], p);
            }
            if self.choices[i] != 0 {
                count = count + 1;
            }
            i = i + 1;
        }
        proof {
            assert(self@.subrange(0, n as int) =~= self@);
        }
        count
    }
    /// The displayed form of the strategy, such as `[-, 0, +]`.
    pub fn to_string(&self) -> (r: String)
        ensures
            r@ == display_of(self@),
    {
        let n = self.choices.len();
        let mut out = String::new();
        out.append("[");
        proof {
            reveal_strlit("[");
        }
        let mut i: usize = 0;
        while i < n
            invariant
                n == self@.len(),
                i <= n,
                out@ == seq!['['] + joined_symbols(self@.subrange(0, i as int)),
            decreases n - i,
        {
            let ghost before = out@;
            if i > 0 {
                out.append(", ");
                proof {
                    reveal_strlit(", ");
                }
            }
            let c = self.choices[i];
            if c == -1 {
                out.append("-");
                proof { reveal_strlit("-"); }
            } else if c == 0 {
                out.append("0");
                proof { reveal_strlit("0"); }
            } else if c == 1 {
                out.append("+");
                proof { reveal_strlit("+"); }
            } else {
                out.append("?");
                proof { reveal_strlit("?"); }
            }
            proof {
                let pre = self@.subrange(0, i as int);
                let post = self@.subrange(0, i + 1);
                assert(post.drop_last() =~= pre);
                assert(post.last() == c);
                if i == 0 {
                    assert(joined_symbols(pre) =~= Seq::<char>::empty());
                    assert(joined_symbols(post) == symbol(c));
                    assert(out@ =~= seq!['['] + joined_symbols(post));
                } else {
                    assert(out@ =~= seq!['['] + joined_symbols(post));
                }
            }
            i = i + 1;
        }
        out.append("]");
        proof {
            reveal_strlit("]");
            assert(self@.subrange(0, n as int) =~= self@);
            assert(out@ =~= display_of(self@));
        }
        out
    }
}

} // verus!
