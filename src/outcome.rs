//! Outcome vectors: the individual die faces of one combined roll.
use vstd::prelude::*;

use crate::Int;

verus! {

/// Every element is at most every later one.
pub open spec fn is_ascending(s: Seq<Int>) -> bool {
    forall|i: int, j: int| 0 <= i < j < s.len() ==> s[i] <= s[j]
}

/// `s` with `v` placed after the last element that is not greater than `v`.
pub open spec fn insert_ascending(s: Seq<Int>, v: Int) -> Seq<Int>
    decreases s.len(),
{
    if s.len() == 0 {
        seq![v]
    } else if s.last() <= v {
        s.push(v)
    } else {
        insert_ascending(s.drop_last(), v).push(s.last())
    }
}

/// The elements of `s` in ascending order.
pub open spec fn sorted_outcome(s: Seq<Int>) -> Seq<Int>
    decreases s.len(),
{
    if s.len() == 0 {
        s
    } else {
        insert_ascending(sorted_outcome(s.drop_last()), s.last())
    }
}

/// The `n` highest faces of `s` (all of them when `s` has fewer).
pub open spec fn highest(s: Seq<Int>, n: nat) -> Seq<Int> {
    let c = sorted_outcome(s);
    if n >= c.len() {
        c
    } else {
        c.subrange(c.len() - n, c.len() as int)
    }
}

/// The `n` lowest faces of `s` (all of them when `s` has fewer).
pub open spec fn lowest(s: Seq<Int>, n: nat) -> Seq<Int> {
    let c = sorted_outcome(s);
    if n >= c.len() {
        c
    } else {
        c.take(n as int)
    }
}

/// How many faces of `s` are strictly greater than `n`.
pub open spec fn successes(s: Seq<Int>, n: int) -> nat
    decreases s.len(),
{
    if s.len() == 0 {
        0
    } else {
        successes(s.drop_last(), n) + (if s.last() > n {
            1nat
        } else {
            0nat
        })
    }
}

/// The sum of the faces of `s`.
pub open spec fn face_sum(s: Seq<Int>) -> int
    decreases s.len(),
{
    if s.len() == 0 {
        0
    } else {
        face_sum(s.drop_last()) + s.last()
    }
}

pub proof fn lemma_insert_ascending_len(s: Seq<Int>, v: Int)
    ensures
        insert_ascending(s, v).len() == s.len() + 1,
    decreases s.len(),
{
    if s.len() > 0 {
        lemma_insert_ascending_len(s.drop_last(), v);
    }
}

pub proof fn lemma_sorted_outcome_len(s: Seq<Int>)
    ensures
        sorted_outcome(s).len() == s.len(),
    decreases s.len(),
{
    if s.len() > 0 {
        lemma_sorted_outcome_len(s.drop_last());
        lemma_insert_ascending_len(sorted_outcome(s.drop_last()), s.last());
    }
}

/// Sorting an ascending vector leaves it as it is.
pub proof fn lemma_sorted_outcome_fixed(s: Seq<Int>)
    requires
        is_ascending(s),
    ensures
        sorted_outcome(s) == s,
    decreases s.len(),
{
    if s.len() > 0 {
        lemma_sorted_outcome_fixed(s.drop_last());
        assert(s.drop_last().push(s.last()) =~= s);
    }
}

proof fn lemma_insert_at(s: Seq<Int>, v: Int, p: int)
    requires
        0 <= p <= s.len(),
        forall|q: int| p <= q < s.len() ==> s[q] > v,
        p == 0 || s[p - 1] <= v,
    ensures
        insert_ascending(s, v) == s.insert(p, v),
    decreases s.len(),
{
    if p == s.len() {
        assert(s.insert(p, v) =~= s.push(v));
    } else {
        lemma_insert_at(s.drop_last(), v, p);
        assert(s.drop_last().insert(p, v).push(s.last()) =~= s.insert(p, v));
    }
}

/// Puts `x` into `v` at the place that `insert_ascending` gives it.
fn insert_face(v: &mut Vec<Int>, x: Int)
    ensures
        final(v)@ == insert_ascending(old(v)@, x),
{
    let mut p: usize = v.len();
    while p > 0 && v[p - 1] > x
        invariant
            p <= v.len(),
            forall|q: int| p <= q < v.len() ==> v@[q] > x,
        decreases p,
    {
        p = p - 1;
    }
    proof {
        lemma_insert_at(v@, x, p as int);
    }
    v.insert(p, x);
}

fn ascending(v: &Vec<Int>) -> (r: bool)
    ensures
        r == is_ascending(v@),
{
    let mut i: usize = 1;
    if v.len() < 2 {
        return true;
    }
    while i < v.len()
        invariant
            1 <= i <= v.len(),
            forall|a: int, b: int| 0 <= a < b < i ==> v@[a] <= v@[b],
        decreases v.len() - i,
    {
        if v[i - 1] > v[i] {
            return false;
        }
        i = i + 1;
    }
    true
}

/// The faces of `v` in ascending order.
pub fn sorted_faces(v: &Vec<Int>) -> (r: Vec<Int>)
    ensures
        r@ == sorted_outcome(v@),
{
    if ascending(v) {
        let r = v.clone();
        assert(r@ =~= v@);
        proof {
            lemma_sorted_outcome_fixed(v@);
        }
        return r;
    }
    let mut r: Vec<Int> = Vec::new();
    let mut i: usize = 0;
    while i < v.len()
        invariant
            i <= v.len(),
            r@ == sorted_outcome(v@.take(i as int)),
        decreases v.len() - i,
    {
        assert(v@.take(i + 1).drop_last() =~= v@.take(i as int));
        insert_face(&mut r, v[i]);
        i = i + 1;
    }
    assert(v@.take(v.len() as int) =~= v@);
    r
}

/// `sorted` with the faces of `y` added, in ascending order.
pub fn merged_faces(sorted: &Vec<Int>, y: &Vec<Int>, Ghost(x): Ghost<Seq<Int>>) -> (r: Vec<Int>)
    requires
        sorted@ == sorted_outcome(x),
    ensures
        r@ == sorted_outcome(x + y@),
{
    let mut r = sorted.clone();
    assert(r@ =~= sorted@);
    assert(x + y@.take(0) =~= x);
    let mut j: usize = 0;
    while j < y.len()
        invariant
            j <= y.len(),
            r@ == sorted_outcome(x + y@.take(j as int)),
        decreases y.len() - j,
    {
        assert((x + y@.take(j + 1)).drop_last() =~= x + y@.take(j as int));
        insert_face(&mut r, y[j]);
        j = j + 1;
    }
    assert(y@.take(y.len() as int) =~= y@);
    r
}

/// Whether the two outcome vectors are equal.
pub fn same_faces(a: &Vec<Int>, b: &Vec<Int>) -> (r: bool)
    ensures
        r == (a@ == b@),
{
    if a.len() != b.len() {
        return false;
    }
    let mut i: usize = 0;
    while i < a.len()
        invariant
            a.len() == b.len(),
            i <= a.len(),
            forall|q: int| 0 <= q < i ==> a@[q] == b@[q],
        decreases a.len() - i,
    {
        if a[i] != b[i] {
            return false;
        }
        i = i + 1;
    }
    assert(a@ =~= b@);
    true
}

} // verus!
