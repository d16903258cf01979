//! The fitness of every strategy of a fixed length, as order keys.
//!
//! An environment scores each of the `3^n` strategies of length `n`. What the
//! analyses of this crate read of those scores is only how they compare, so a
//! table holds, for the strategy numbered `i` (see `encoding`), an order key
//! `keys[i]`: one strategy is fitter than another exactly when its key is
//! larger, and two are equally fit exactly when their keys are equal.
use vstd::prelude::*;
use crate::encoding::{pow3, encode, index_of, lemma_encode_bound};
use crate::strategy::TernaryStrategy;

verus! {

/// Order keys of the fitness of all `3^n` strategies of length `n`.
pub struct FitnessTable {
    n: usize,
    keys: Vec<u64>,
}

impl FitnessTable {
    #[verifier::type_invariant]
    spec fn well_formed(self) -> bool {
        self.keys@.len() == pow3(self.n as nat)
    }

    /// The number of states, i.e. the length of the strategies the table covers.
    pub closed spec fn dim(&self) -> nat {
        self.n as nat
    }

    /// `key_seq()[i]` is the order key of the strategy numbered `i`.
    pub closed spec fn key_seq(&self) -> Seq<u64> {
        self.keys@
    }

    /// Builds a table from the keys of the strategies numbered `0 .. 3^n`.
    ///
    /// Gives `None` when `keys` does not hold exactly `3^n` entries.
    pub fn new(n: usize, keys: Vec<u64>) -> (r: Option<FitnessTable>)
        ensures
            r is Some <==> keys@.len() == pow3(n as nat),
            r matches Some(t) ==> t.dim() == n && t.key_seq() == keys@,
    {
        let mut total: usize = 1;
        let mut k: usize = 0;
        while k < n
            invariant
                k <= n,
                total == pow3(k as nat),
            decreases n - k,
        {
            if total > keys.len() / 3 {
                proof {
                    crate::encoding::lemma_pow3_monotone((k + 1) as nat, n as nat);
                }
                return None;
            }
            total = total * 3;
            k = k + 1;
        }
        if total != keys.len() {
            return None;
        }
        Some(FitnessTable { n, keys })
    }

    /// Number of states (strategy length this table covers).
    pub fn num_states(&self) -> (n: usize)
        ensures
            n == self.dim(),
            self.key_seq().len() == pow3(self.dim()),
            pow3(self.dim()) <= usize::MAX,
    {
        proof { use_type_invariant(self); }
        let _ = self.keys.len();
        self.n
    }

    /// Number of strategies the table covers: `3^n`.
    pub fn size(&self) -> (s: usize)
        ensures
            s == pow3(self.dim()),
            s == self.key_seq().len(),
    {
        proof { use_type_invariant(self); }
        self.keys.len()
    }

    /// The order key of the strategy numbered `i`.
    pub fn key(&self, i: usize) -> (k: u64)
        requires
            i < self.key_seq().len(),
        ensures
            k == self.key_seq()[i as int],
    {
        self.keys[i]
    }

    /// A copy of all keys, in enumeration order.
    pub(crate) fn to_keys(&self) -> (v: Vec<u64>)
        ensures
            v@ == self.key_seq(),
    {
        let total = self.keys.len();
        let mut v: Vec<u64> = Vec::with_capacity(total);
        let mut i: usize = 0;
        while i < total
            invariant
                total == self.keys@.len(),
                i <= total,
                v@ == self.keys@.subrange(0, i as int),
            decreases total - i,
        {
            v.push(self.keys[i]);
            i = i + 1;
            proof {
                assert(v@ =~= self.keys@.subrange(0, i as int));
            }
        }
        proof {
            assert(v@ =~= self.keys@);
        }
        v
    }

    /// The order key of a strategy of the table's length.
    pub fn key_of(&self, strategy: &TernaryStrategy) -> (k: Option<u64>)
        ensures
            k is Some <==> strategy@.len() == self.dim(),
            k matches Some(v) ==> encode(strategy@) < self.key_seq().len()
                && v == self.key_seq()[encode(strategy@) as int],
    {
        proof { use_type_invariant(self); }
        let _ = self.keys.len();
        let c = strategy.choices();
        if c.len() != self.n {
            return None;
        }
        let i = index_of(c);
        proof {
            lemma_encode_bound(c@);
        }
        Some(self.keys[i])
    }
}

} // verus!
