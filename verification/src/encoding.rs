//! The numbering of ternary strategies of a fixed length.
//!
//! The strategy with number `i` among those of length `n` has, at position `k`,
//! the choice `(i / 3^k) % 3 - 1`: position 0 is the least significant base-3 digit.
use vstd::prelude::*;
use crate::strategy::{is_trit, all_trits};

verus! {

/// `3^n`.
pub open spec fn pow3(n: nat) -> nat
    decreases n,
{
    if n == 0 {
        1
    } else {
        3 * pow3((n - 1) as nat)
    }
}

/// The strategy of length `n` with number `i`.
pub open spec fn decode(n: nat, i: nat) -> Seq<i8>
    decreases n,
{
    if n == 0 {
        Seq::empty()
    } else {
        seq![((i % 3) as int - 1) as i8] + decode((n - 1) as nat, i / 3)
    }
}

/// The number of strategy `s` among the strategies of its length.
pub open spec fn encode(s: Seq<i8>) -> nat
    decreases s.len(),
{
    if s.len() == 0 {
        0
    } else {
        (s[0] + 1) as nat + 3 * encode(s.drop_first())
    }
}

pub proof fn lemma_pow3_positive(n: nat)
    ensures
        pow3(n) >= 1,
    decreases n,
{
    if n > 0 {
        lemma_pow3_positive((n - 1) as nat);
    }
}

pub proof fn lemma_pow3_monotone(a: nat, b: nat)
    requires
        a <= b,
    ensures
        pow3(a) <= pow3(b),
    decreases b,
{
    if a < b {
        lemma_pow3_monotone(a, (b - 1) as nat);
        lemma_pow3_positive((b - 1) as nat);
    }
}

pub proof fn lemma_decode_shape(n: nat, i: nat)
    ensures
        decode(n, i).len() == n,
        all_trits(decode(n, i)),
    decreases n,
{
    if n > 0 {
        lemma_decode_shape((n - 1) as nat, i / 3);
        let d = decode(n, i);
        let rest = decode((n - 1) as nat, i / 3);
        assert forall|k: int| 0 <= k < d.len() implies is_trit(#[trigger] d[k]) by {
            if k > 0 {
                assert(d[k] == rest[k - 1]);
            }
        }
    }
}

pub proof fn lemma_encode_bound(s: Seq<i8>)
    requires
        all_trits(s),
    ensures
        encode(s) < pow3(s.len()),
    decreases s.len(),
{
    if s.len() > 0 {
        let r = s.drop_first();
        assert(all_trits(r)) by {
            assert forall|k: int| 0 <= k < r.len() implies is_trit(#[trigger] r[k]) by {
                assert(r[k] == s[k + 1]);
            }
        }
        assert(is_trit(s[0]));
        lemma_encode_bound(r);
    }
}

/// Decoding the number of a strategy gives the strategy back.
pub proof fn lemma_decode_encode(s: Seq<i8>)
    requires
        all_trits(s),
    ensures
        decode(s.len(), encode(s)) == s,
    decreases s.len(),
{
    if s.len() > 0 {
        let r = s.drop_first();
        assert(all_trits(r)) by {
            assert forall|k: int| 0 <= k < r.len() implies is_trit(#[trigger] r[k]) by {
                assert(r[k] == s[k + 1]);
            }
        }
        assert(is_trit(s[0]));
        lemma_decode_encode(r);
        let e = encode(s);
        assert(e % 3 == (s[0] + 1) as nat);
        assert(e / 3 == encode(r));
        assert(decode(s.len(), e) =~= s);
    }
}

/// Encoding the strategy with number `i` gives `i` back.
pub proof fn lemma_encode_decode(n: nat, i: nat)
    requires
        i < pow3(n),
    ensures
        encode(decode(n, i)) == i,
    decreases n,
{
    if n > 0 {
        lemma_encode_decode((n - 1) as nat, i / 3);
        let d = decode(n, i);
        lemma_decode_shape(n, i);
        assert(d.drop_first() =~= decode((n - 1) as nat, i / 3));
    }
}

/// Different numbers below `3^n` name different strategies.
pub proof fn lemma_decode_injective(n: nat, i: nat, j: nat)
    requires
        i < pow3(n),
        j < pow3(n),
        i != j,
    ensures
        decode(n, i) != decode(n, j),
{
    lemma_encode_decode(n, i);
    lemma_encode_decode(n, j);
}

/// The number of a strategy, as an index into a table of `3^len` entries.
pub fn index_of(s: &[i8]) -> (idx: usize)
    requires
        all_trits(s@),
        pow3(s@.len() as nat) <= usize::MAX,
    ensures
        idx == encode(s@),
{
    let n = s.len();
    let mut idx: usize = 0;
    let mut k: usize = n;
    proof {
        assert(s@.skip(n as int) =~= Seq::<i8>::empty());
    }
    while k > 0
        invariant
            k <= n,
            n == s@.len(),
            all_trits(s@),
            pow3(n as nat) <= usize::MAX,
            idx == encode(s@.skip(k as int)),
        decreases k,
    {
        k = k - 1;
        let ghost tail = s@.skip(k as int);
        proof {
            assert(tail.drop_first() =~= s@.skip(k + 1));
            assert(tail[0] == s@[k as int]);
            assert(all_trits(tail)) by {
                assert forall|m: int| 0 <= m < tail.len() implies is_trit(#[trigger] tail[m]) by {
                    assert(tail[m] == s@[k + m]);
                }
            }
            lemma_encode_bound(tail);
            lemma_pow3_monotone(tail.len(), n as nat);
            assert(is_trit(s@[k as int]));
        }
        let digit: i8 = s[k] + 1;
        idx = idx * 3 + (digit as usize);
    }
    proof {
        assert(s@.skip(0) =~= s@);
    }
    idx
}

/// The strategy with number `i` among those of length `n`, as a vector of choices.
pub fn decode_choices(n: usize, i: usize) -> (v: Vec<i8>)
    ensures
        v@ == decode(n as nat, i as nat),
        all_trits(v@),
{
    let mut v: Vec<i8> = Vec::with_capacity(n);
    let mut idx = i;
    let mut j: usize = 0;
    while j < n
        invariant
            j <= n,
            v@ + decode((n - j) as nat, idx as nat) == decode(n as nat, i as nat),
        decreases n - j,
    {
        let ghost before = v@;
        let digit: i8 = (idx % 3) as i8;
        v.push(digit - 1);
        proof {
            let rest = decode((n - j - 1) as nat, (idx / 3) as nat);
            assert(decode((n - j) as nat, idx as nat) == seq![((idx % 3) as int - 1) as i8] + rest);
            assert(v@ + rest =~= before + (seq![((idx % 3) as int - 1) as i8] + rest));
        }
        idx = idx / 3;
        j = j + 1;
    }
    proof {
        assert(decode(0, idx as nat) =~= Seq::<i8>::empty());
        assert(v@ =~= v@ + decode(0, idx as nat));
        lemma_decode_shape(n as nat, i as nat);
    }
    v
}

} // verus!
