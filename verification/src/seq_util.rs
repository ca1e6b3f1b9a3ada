//! Keyed-sequence lookups and sums over sequences.
//!
//! The engine stores its keyed state (allow-list, stake positions, reward
//! accumulators, checkpoints) as vectors of records with pairwise-distinct
//! keys. The spec functions here give those vectors their mathematical
//! reading: `key_idx` finds the record with a given key, and `sum_by`
//! folds a value over every record.

use vstd::prelude::*;

verus! {

/// Index of the record with key `k` under the key function `key`,
/// or `-1` when no record has it. When keys are unique the index is
/// the only one.
pub open spec fn key_idx<T, K>(s: Seq<T>, key: spec_fn(T) -> K, k: K) -> int
    decreases s.len(),
{
    if s.len() == 0 {
        -1
    } else if key(s.last()) == k {
        s.len() - 1
    } else {
        key_idx(s.drop_last(), key, k)
    }
}

pub open spec fn has_key<T, K>(s: Seq<T>, key: spec_fn(T) -> K, k: K) -> bool {
    key_idx(s, key, k) >= 0
}

/// No two records share a key.
pub open spec fn unique_keys<T, K>(s: Seq<T>, key: spec_fn(T) -> K) -> bool {
    forall|i: int, j: int| 0 <= i < j < s.len() ==> key(s[i]) != key(s[j])
}

pub proof fn lemma_key_idx<T, K>(s: Seq<T>, key: spec_fn(T) -> K, k: K)
    ensures
        -1 <= key_idx(s, key, k) < s.len(),
        key_idx(s, key, k) >= 0 ==> key(s[key_idx(s, key, k)]) == k,
        key_idx(s, key, k) == -1 ==> forall|i: int| 0 <= i < s.len() ==> key(s[i]) != k,
    decreases s.len(),
{
    if s.len() == 0 {
    } else if key(s.last()) == k {
    } else {
        lemma_key_idx(s.drop_last(), key, k);
        assert(forall|i: int| 0 <= i < s.len() - 1 ==> s.drop_last()[i] == s[i]);
    }
}

/// With unique keys, a record that carries key `k` is the one `key_idx` finds.
pub proof fn lemma_key_idx_unique<T, K>(s: Seq<T>, key: spec_fn(T) -> K, k: K, i: int)
    requires
        unique_keys(s, key),
        0 <= i < s.len(),
        key(s[i]) == k,
    ensures
        key_idx(s, key, k) == i,
    decreases s.len(),
{
    if i == s.len() - 1 {
    } else {
        assert(key(s.last()) != k);
        lemma_key_idx_unique(s.drop_last(), key, k, i);
    }
}

/// `key_idx` on a push: the new record answers for its own key, every
/// other key is found where it was.
pub proof fn lemma_key_idx_push<T, K>(s: Seq<T>, key: spec_fn(T) -> K, x: T, k: K)
    ensures
        key(x) == k ==> key_idx(s.push(x), key, k) == s.len(),
        key(x) != k ==> key_idx(s.push(x), key, k) == key_idx(s, key, k),
{
    assert(s.push(x).drop_last() =~= s);
    assert(s.push(x).last() == x);
}

/// `key_idx` is unchanged by an update that keeps the record's key.
pub proof fn lemma_key_idx_update<T, K>(s: Seq<T>, key: spec_fn(T) -> K, i: int, x: T, k: K)
    requires
        0 <= i < s.len(),
        key(x) == key(s[i]),
    ensures
        key_idx(s.update(i, x), key, k) == key_idx(s, key, k),
    decreases s.len(),
{
    let t = s.update(i, x);
    if i == s.len() - 1 {
        assert(t.drop_last() =~= s.drop_last());
        assert(t.last() == x);
    } else {
        assert(t.drop_last() =~= s.drop_last().update(i, x));
        assert(t.last() == s.last());
        lemma_key_idx_update(s.drop_last(), key, i, x, k);
    }
}

/// The sum of `f` over all records of `s`.
pub open spec fn sum_by<T>(s: Seq<T>, f: spec_fn(T) -> int) -> int
    decreases s.len(),
{
    if s.len() == 0 {
        0
    } else {
        sum_by(s.drop_last(), f) + f(s.last())
    }
}

pub proof fn lemma_sum_by_push<T>(s: Seq<T>, f: spec_fn(T) -> int, x: T)
    ensures
        sum_by(s.push(x), f) == sum_by(s, f) + f(x),
{
    assert(s.push(x).drop_last() =~= s);
    assert(s.push(x).last() == x);
}

pub proof fn lemma_sum_by_update<T>(s: Seq<T>, f: spec_fn(T) -> int, i: int, x: T)
    requires
        0 <= i < s.len(),
    ensures
        sum_by(s.update(i, x), f) == sum_by(s, f) - f(s[i]) + f(x),
    decreases s.len(),
{
    let t = s.update(i, x);
    if i == s.len() - 1 {
        assert(t.drop_last() =~= s.drop_last());
        assert(t.last() == x);
    } else {
        assert(t.drop_last() =~= s.drop_last().update(i, x));
        assert(t.last() == s.last());
        lemma_sum_by_update(s.drop_last(), f, i, x);
    }
}

/// Summing a pointwise multiple scales the sum.
pub proof fn lemma_sum_by_scale<T>(
    s: Seq<T>,
    f: spec_fn(T) -> int,
    g: spec_fn(T) -> int,
    c: int,
)
    requires
        forall|i: int| 0 <= i < s.len() ==> g(s[i]) == f(s[i]) * c,
    ensures
        sum_by(s, g) == sum_by(s, f) * c,
    decreases s.len(),
{
    if s.len() == 0 {
        vstd::arithmetic::mul::lemma_mul_by_zero_is_zero(c);
    } else {
        assert(forall|i: int| 0 <= i < s.drop_last().len() ==> s.drop_last()[i] == s[i]);
        lemma_sum_by_scale(s.drop_last(), f, g, c);
        vstd::arithmetic::mul::lemma_mul_is_distributive_add_other_way(
            c,
            sum_by(s.drop_last(), f),
            f(s.last()),
        );
    }
}

/// Pointwise bounds carry over to the sums.
pub proof fn lemma_sum_by_le<T>(s: Seq<T>, f: spec_fn(T) -> int, g: spec_fn(T) -> int)
    requires
        forall|i: int| 0 <= i < s.len() ==> f(s[i]) <= g(s[i]),
    ensures
        sum_by(s, f) <= sum_by(s, g),
    decreases s.len(),
{
    if s.len() > 0 {
        assert(forall|i: int| 0 <= i < s.drop_last().len() ==> s.drop_last()[i] == s[i]);
        lemma_sum_by_le(s.drop_last(), f, g);
    }
}

/// Pointwise equal summands give equal sums.
pub proof fn lemma_sum_by_ext<T>(s: Seq<T>, f: spec_fn(T) -> int, g: spec_fn(T) -> int)
    requires
        forall|i: int| 0 <= i < s.len() ==> f(s[i]) == g(s[i]),
    ensures
        sum_by(s, f) == sum_by(s, g),
{
    lemma_sum_by_le(s, f, g);
    lemma_sum_by_le(s, g, f);
}

/// Summing a pointwise addition adds the sums.
pub proof fn lemma_sum_by_add<T>(
    s: Seq<T>,
    f: spec_fn(T) -> int,
    g: spec_fn(T) -> int,
    h: spec_fn(T) -> int,
)
    requires
        forall|i: int| 0 <= i < s.len() ==> h(s[i]) == f(s[i]) + g(s[i]),
    ensures
        sum_by(s, h) == sum_by(s, f) + sum_by(s, g),
    decreases s.len(),
{
    if s.len() > 0 {
        assert(forall|i: int| 0 <= i < s.drop_last().len() ==> s.drop_last()[i] == s[i]);
        lemma_sum_by_add(s.drop_last(), f, g, h);
    }
}

/// A sum of all-zero summands is zero.
pub proof fn lemma_sum_by_all_zero<T>(s: Seq<T>, f: spec_fn(T) -> int)
    requires
        forall|i: int| 0 <= i < s.len() ==> f(s[i]) == 0,
    ensures
        sum_by(s, f) == 0,
    decreases s.len(),
{
    if s.len() > 0 {
        assert(forall|i: int| 0 <= i < s.drop_last().len() ==> s.drop_last()[i] == s[i]);
        lemma_sum_by_all_zero(s.drop_last(), f);
    }
}

pub proof fn lemma_sum_by_nonneg<T>(s: Seq<T>, f: spec_fn(T) -> int)
    requires
        forall|i: int| 0 <= i < s.len() ==> f(s[i]) >= 0,
    ensures
        sum_by(s, f) >= 0,
    decreases s.len(),
{
    if s.len() > 0 {
        assert(forall|i: int| 0 <= i < s.drop_last().len() ==> s.drop_last()[i] == s[i]);
        lemma_sum_by_nonneg(s.drop_last(), f);
    }
}

/// The sum over a prefix, one more record at a time.
pub proof fn lemma_sum_by_take_succ<T>(s: Seq<T>, f: spec_fn(T) -> int, k: int)
    requires
        0 <= k < s.len(),
    ensures
        sum_by(s.take(k + 1), f) == sum_by(s.take(k), f) + f(s[k]),
{
    assert(s.take(k + 1).drop_last() =~= s.take(k));
    assert(s.take(k + 1).last() == s[k]);
}

pub proof fn lemma_sum_by_take_all<T>(s: Seq<T>, f: spec_fn(T) -> int)
    ensures
        sum_by(s.take(s.len() as int), f) == sum_by(s, f),
{
    assert(s.take(s.len() as int) =~= s);
}

/// With nonnegative summands, a prefix sum never exceeds the whole sum.
pub proof fn lemma_sum_by_take_le<T>(s: Seq<T>, f: spec_fn(T) -> int, k: int)
    requires
        0 <= k <= s.len(),
        forall|i: int| 0 <= i < s.len() ==> f(s[i]) >= 0,
    ensures
        sum_by(s.take(k), f) <= sum_by(s, f),
    decreases s.len() - k,
{
    if k == s.len() {
        lemma_sum_by_take_all(s, f);
    } else {
        lemma_sum_by_take_succ(s, f, k);
        lemma_sum_by_take_le(s, f, k + 1);
    }
}

/// With nonnegative summands, each record's value is at most the sum.
pub proof fn lemma_sum_by_elem_le<T>(s: Seq<T>, f: spec_fn(T) -> int, i: int)
    requires
        0 <= i < s.len(),
        forall|j: int| 0 <= j < s.len() ==> f(s[j]) >= 0,
    ensures
        f(s[i]) <= sum_by(s, f),
{
    lemma_sum_by_take_succ(s, f, i);
    assert(forall|j: int| 0 <= j < s.take(i).len() ==> f(s.take(i)[j]) >= 0);
    lemma_sum_by_nonneg(s.take(i), f);
    lemma_sum_by_take_le(s, f, i + 1);
}

} // verus!
