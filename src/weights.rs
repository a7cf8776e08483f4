//! Multiplicity bookkeeping over lists of `(key, multiplicity)` entries.
use vstd::prelude::*;

verus! {

/// Largest multiplicity that a table entry can hold.
pub open spec fn max_count() -> nat {
    u64::MAX as nat
}

/// Total multiplicity that the entries of `s` record for the key `k`.
pub open spec fn weight<K>(s: Seq<(K, u64)>, k: K) -> nat
    decreases s.len(),
{
    if s.len() == 0 {
        0
    } else {
        weight(s.drop_last(), k) + (if s.last().0 == k {
            s.last().1 as nat
        } else {
            0
        })
    }
}

/// Sum of all multiplicities in `s`.
pub open spec fn total<K>(s: Seq<(K, u64)>) -> nat
    decreases s.len(),
{
    if s.len() == 0 {
        0
    } else {
        total(s.drop_last()) + s.last().1 as nat
    }
}

/// No key occurs twice and every multiplicity is positive.
pub open spec fn is_table<K>(s: Seq<(K, u64)>) -> bool {
    &&& forall|i: int, j: int| 0 <= i < j < s.len() ==> s[i].0 != s[j].0
    &&& forall|i: int| 0 <= i < s.len() ==> s[i].1 > 0
}

/// Multiplicity gathered at `k` when each entry of `s` is moved to the key `f(key)`.
pub open spec fn image_weight<K, L>(s: Seq<(K, u64)>, f: spec_fn(K) -> L, k: L) -> nat
    decreases s.len(),
{
    if s.len() == 0 {
        0
    } else {
        image_weight(s.drop_last(), f, k) + (if f(s.last().0) == k {
            s.last().1 as nat
        } else {
            0
        })
    }
}

/// Multiplicity gathered at `k` by pairing the entry `x` with every entry of `t`:
/// the pair goes to the key `f(x key, t key)` with the product of the multiplicities.
pub open spec fn row_weight<K, M, L>(
    x: (K, u64),
    t: Seq<(M, u64)>,
    f: spec_fn(K, M) -> L,
    k: L,
) -> nat
    decreases t.len(),
{
    if t.len() == 0 {
        0
    } else {
        row_weight(x, t.drop_last(), f, k) + (if f(x.0, t.last().0) == k {
            x.1 as nat * t.last().1 as nat
        } else {
            0
        })
    }
}

/// Multiplicity gathered at `k` over every pair of an entry of `s` and an entry of `t`.
pub open spec fn pair_weight<K, M, L>(
    s: Seq<(K, u64)>,
    t: Seq<(M, u64)>,
    f: spec_fn(K, M) -> L,
    k: L,
) -> nat
    decreases s.len(),
{
    if s.len() == 0 {
        0
    } else {
        pair_weight(s.drop_last(), t, f, k) + row_weight(s.last(), t, f, k)
    }
}

pub proof fn lemma_weight_push<K>(s: Seq<(K, u64)>, e: (K, u64))
    ensures
        forall|k: K|
            #[trigger] weight(s.push(e), k) == weight(s, k) + (if e.0 == k {
                e.1 as nat
            } else {
                0
            }),
        total(s.push(e)) == total(s) + e.1 as nat,
{
    assert(s.push(e).drop_last() =~= s);
}

pub proof fn lemma_weight_update<K>(s: Seq<(K, u64)>, i: int, c: u64)
    requires
        0 <= i < s.len(),
    ensures
        forall|k: K|
            #[trigger] weight(s.update(i, (s[i].0, c)), k) + (if s[i].0 == k {
                s[i].1 as nat
            } else {
                0
            }) == weight(s, k) + (if s[i].0 == k {
                c as nat
            } else {
                0
            }),
        total(s.update(i, (s[i].0, c))) + s[i].1 as nat == total(s) + c as nat,
    decreases s.len(),
{
    let u = s.update(i, (s[i].0, c));
    if i == s.len() - 1 {
        assert(u.drop_last() =~= s.drop_last());
    } else {
        lemma_weight_update(s.drop_last(), i, c);
        assert(u.drop_last() =~= s.drop_last().update(i, (s[i].0, c)));
    }
    assert forall|k: K|
        #[trigger] weight(u, k) + (if s[i].0 == k {
            s[i].1 as nat
        } else {
            0
        }) == weight(s, k) + (if s[i].0 == k {
            c as nat
        } else {
            0
        }) by {
        if i < s.len() - 1 {
            assert(weight(u.drop_last(), k) + (if s[i].0 == k {
                s[i].1 as nat
            } else {
                0
            }) == weight(s.drop_last(), k) + (if s[i].0 == k {
                c as nat
            } else {
                0
            }));
        }
    }
}

pub proof fn lemma_total_prefix<K>(s: Seq<(K, u64)>, i: int)
    requires
        0 <= i < s.len(),
    ensures
        total(s.take(i + 1)) == total(s.take(i)) + s[i].1 as nat,
{
    assert(s.take(i + 1).drop_last() =~= s.take(i));
}

pub proof fn lemma_weight_absent<K>(s: Seq<(K, u64)>, k: K)
    requires
        forall|i: int| 0 <= i < s.len() ==> s[i].0 != k,
    ensures
        weight(s, k) == 0,
    decreases s.len(),
{
    if s.len() > 0 {
        lemma_weight_absent(s.drop_last(), k);
    }
}

pub proof fn lemma_weight_at<K>(s: Seq<(K, u64)>, i: int)
    requires
        is_table(s),
        0 <= i < s.len(),
    ensures
        weight(s, s[i].0) == s[i].1,
    decreases s.len(),
{
    if i == s.len() - 1 {
        lemma_weight_absent(s.drop_last(), s[i].0);
    } else {
        lemma_weight_at(s.drop_last(), i);
    }
}

pub proof fn lemma_image_weight_prefix<K, L>(s: Seq<(K, u64)>, f: spec_fn(K) -> L, i: int, k: L)
    requires
        0 <= i < s.len(),
    ensures
        image_weight(s.take(i + 1), f, k) == image_weight(s.take(i), f, k) + (if f(s[i].0) == k {
            s[i].1 as nat
        } else {
            0
        }),
        total(s.take(i + 1)) == total(s.take(i)) + s[i].1 as nat,
{
    assert(s.take(i + 1).drop_last() =~= s.take(i));
}

pub proof fn lemma_image_weight_mono<K, L>(s: Seq<(K, u64)>, f: spec_fn(K) -> L, i: int, k: L)
    requires
        0 <= i <= s.len(),
    ensures
        image_weight(s.take(i), f, k) <= image_weight(s, f, k),
    decreases s.len() - i,
{
    if i < s.len() {
        lemma_image_weight_prefix(s, f, i, k);
        lemma_image_weight_mono(s, f, i + 1, k);
    } else {
        assert(s.take(i) =~= s);
    }
}

pub proof fn lemma_row_weight_prefix<K, M, L>(
    x: (K, u64),
    t: Seq<(M, u64)>,
    f: spec_fn(K, M) -> L,
    j: int,
    k: L,
)
    requires
        0 <= j < t.len(),
    ensures
        row_weight(x, t.take(j + 1), f, k) == row_weight(x, t.take(j), f, k) + (if f(x.0, t[j].0)
            == k {
            x.1 as nat * t[j].1 as nat
        } else {
            0
        }),
{
    assert(t.take(j + 1).drop_last() =~= t.take(j));
}

pub proof fn lemma_row_weight_mono<K, M, L>(
    x: (K, u64),
    t: Seq<(M, u64)>,
    f: spec_fn(K, M) -> L,
    j: int,
    k: L,
)
    requires
        0 <= j <= t.len(),
    ensures
        row_weight(x, t.take(j), f, k) <= row_weight(x, t, f, k),
    decreases t.len() - j,
{
    if j < t.len() {
        lemma_row_weight_prefix(x, t, f, j, k);
        lemma_row_weight_mono(x, t, f, j + 1, k);
    } else {
        assert(t.take(j) =~= t);
    }
}

pub proof fn lemma_pair_weight_prefix<K, M, L>(
    s: Seq<(K, u64)>,
    t: Seq<(M, u64)>,
    f: spec_fn(K, M) -> L,
    i: int,
    k: L,
)
    requires
        0 <= i < s.len(),
    ensures
        pair_weight(s.take(i + 1), t, f, k) == pair_weight(s.take(i), t, f, k) + row_weight(
            s[i],
            t,
            f,
            k,
        ),
{
    assert(s.take(i + 1).drop_last() =~= s.take(i));
}

pub proof fn lemma_pair_weight_mono<K, M, L>(
    s: Seq<(K, u64)>,
    t: Seq<(M, u64)>,
    f: spec_fn(K, M) -> L,
    i: int,
    k: L,
)
    requires
        0 <= i <= s.len(),
    ensures
        pair_weight(s.take(i), t, f, k) <= pair_weight(s, t, f, k),
    decreases s.len() - i,
{
    if i < s.len() {
        lemma_pair_weight_prefix(s, t, f, i, k);
        lemma_pair_weight_mono(s, t, f, i + 1, k);
    } else {
        assert(s.take(i) =~= s);
    }
}

} // verus!

verus! {

/// Multiplicity gathered at `k` by pairing every entry of `t` with the entry `x` placed
/// second.
pub open spec fn col_weight<K, M, L>(
    t: Seq<(M, u64)>,
    x: (K, u64),
    g: spec_fn(M, K) -> L,
    k: L,
) -> nat
    decreases t.len(),
{
    if t.len() == 0 {
        0
    } else {
        col_weight(t.drop_last(), x, g, k) + (if g(t.last().0, x.0) == k {
            t.last().1 as nat * x.1 as nat
        } else {
            0
        })
    }
}

proof fn lemma_pair_weight_empty_right<K, M, L>(t: Seq<(M, u64)>, g: spec_fn(M, K) -> L, k: L)
    ensures
        pair_weight(t, Seq::<(K, u64)>::empty(), g, k) == 0,
    decreases t.len(),
{
    if t.len() > 0 {
        lemma_pair_weight_empty_right(t.drop_last(), g, k);
    }
}

proof fn lemma_pair_weight_push_right<K, M, L>(
    t: Seq<(M, u64)>,
    s: Seq<(K, u64)>,
    x: (K, u64),
    g: spec_fn(M, K) -> L,
    k: L,
)
    ensures
        pair_weight(t, s.push(x), g, k) == pair_weight(t, s, g, k) + col_weight(t, x, g, k),
    decreases t.len(),
{
    assert(s.push(x).drop_last() =~= s);
    if t.len() > 0 {
        lemma_pair_weight_push_right(t.drop_last(), s, x, g, k);
    }
}

proof fn lemma_col_row<K, M, L>(
    t: Seq<(M, u64)>,
    x: (K, u64),
    f: spec_fn(K, M) -> L,
    g: spec_fn(M, K) -> L,
    k: L,
)
    requires
        forall|a: K, b: M| #[trigger] g(b, a) == f(a, b),
    ensures
        col_weight(t, x, g, k) == row_weight(x, t, f, k),
    decreases t.len(),
{
    if t.len() > 0 {
        lemma_col_row(t.drop_last(), x, f, g, k);
        vstd::arithmetic::mul::lemma_mul_is_commutative(t.last().1 as int, x.1 as int);
        assert(g(t.last().0, x.0) == f(x.0, t.last().0));
    }
}

/// Summing over all pairs does not depend on which list is taken first.
pub proof fn lemma_pair_weight_swap<K, M, L>(
    s: Seq<(K, u64)>,
    t: Seq<(M, u64)>,
    f: spec_fn(K, M) -> L,
    g: spec_fn(M, K) -> L,
    k: L,
)
    requires
        forall|a: K, b: M| #[trigger] g(b, a) == f(a, b),
    ensures
        pair_weight(s, t, f, k) == pair_weight(t, s, g, k),
    decreases s.len(),
{
    if s.len() == 0 {
        lemma_pair_weight_empty_right(t, g, k);
        assert(s =~= Seq::<(K, u64)>::empty());
    } else {
        let x = s.last();
        let p = s.drop_last();
        lemma_pair_weight_swap(p, t, f, g, k);
        lemma_pair_weight_push_right(t, p, x, g, k);
        lemma_col_row(t, x, f, g, k);
        assert(p.push(x) =~= s);
    }
}

} // verus!

verus! {

/// A key with a positive gathered multiplicity comes from some entry.
pub proof fn lemma_image_preimage<K, L>(s: Seq<(K, u64)>, f: spec_fn(K) -> L, k: L)
    requires
        image_weight(s, f, k) > 0,
    ensures
        exists|j: int| 0 <= j < s.len() && f(s[j].0) == k,
    decreases s.len(),
{
    if f(s.last().0) != k {
        lemma_image_preimage(s.drop_last(), f, k);
        let j = choose|j: int| 0 <= j < s.drop_last().len() && f(s.drop_last()[j].0) == k;
        assert(s[j] == s.drop_last()[j]);
    } else {
        assert(f(s[s.len() - 1].0) == k);
    }
}

} // verus!

verus! {

/// An entry with a positive count puts a positive multiplicity at its image.
pub proof fn lemma_image_weight_at<K, L>(s: Seq<(K, u64)>, f: spec_fn(K) -> L, j: int)
    requires
        0 <= j < s.len(),
        s[j].1 > 0,
    ensures
        image_weight(s, f, f(s[j].0)) > 0,
    decreases s.len(),
{
    if j < s.len() - 1 {
        lemma_image_weight_at(s.drop_last(), f, j);
    }
}

/// A key with a positive multiplicity is the key of some entry.
pub proof fn lemma_weight_present<K>(s: Seq<(K, u64)>, k: K)
    requires
        weight(s, k) > 0,
    ensures
        exists|i: int| 0 <= i < s.len() && s[i].0 == k,
{
    if !(exists|i: int| 0 <= i < s.len() && s[i].0 == k) {
        lemma_weight_absent(s, k);
    }
}

} // verus!
