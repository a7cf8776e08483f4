//! The possibility space: every distinguishable combination of die faces, with the
//! number of ways in which it comes about.
use vstd::prelude::*;

use crate::outcome::{
    highest, lowest, merged_faces, same_faces, sorted_faces, sorted_outcome, successes,
    lemma_sorted_outcome_len,
};
use crate::weights::{
    image_weight, is_table, lemma_image_weight_mono, lemma_image_weight_prefix,
    lemma_pair_weight_mono, lemma_pair_weight_prefix, lemma_row_weight_mono,
    lemma_row_weight_prefix, lemma_weight_at, lemma_weight_push, lemma_weight_update, max_count,
    pair_weight, row_weight, total, weight,
};
use crate::{BigInt, Int};

verus! {

const MAX_BUCKETS: usize = 65536;

const MIN_BUCKETS: usize = 16;

const HASH_MODULUS: u64 = 1000003;

/// Outcome vectors, each with its multiplicity.
#[derive(Debug)]
pub struct PosibilitySpace(pub Vec<(Vec<Int>, BigInt)>);

/// The entries with each outcome vector seen as a sequence.
pub open spec fn outcome_entries(v: Seq<(Vec<Int>, BigInt)>) -> Seq<(Seq<Int>, u64)> {
    v.map_values(|e: (Vec<Int>, BigInt)| (e.0@, e.1))
}

/// The outcome vector of combining the outcomes `x` and `y`: all faces, sorted.
pub open spec fn joined(x: Seq<Int>, y: Seq<Int>) -> Seq<Int> {
    sorted_outcome(x + y)
}

pub open spec fn join_fn() -> spec_fn(Seq<Int>, Seq<Int>) -> Seq<Int> {
    |x: Seq<Int>, y: Seq<Int>| joined(x, y)
}

/// A way of cutting each outcome vector down.
pub enum Projection {
    Highest(usize),
    Lowest(usize),
    Successes(usize),
}

/// The outcome vector `s` cut down by `p`.
pub open spec fn project(p: Projection, s: Seq<Int>) -> Seq<Int> {
    match p {
        Projection::Highest(n) => highest(s, n as nat),
        Projection::Lowest(n) => lowest(s, n as nat),
        Projection::Successes(n) => seq![successes(s, n as int) as Int],
    }
}

pub open spec fn project_fn(p: Projection) -> spec_fn(Seq<Int>) -> Seq<Int> {
    |s: Seq<Int>| project(p, s)
}

/// Whether `p` can be applied to every outcome vector of `s` (a count of successes must
/// fit in an `Int`).
pub open spec fn projectable(p: Projection, s: Seq<(Seq<Int>, u64)>) -> bool {
    match p {
        Projection::Successes(n) => forall|i: int|
            0 <= i < s.len() ==> #[trigger] successes(s[i].0, n as int) <= Int::MAX,
        _ => true,
    }
}

/// `r` is what combining `a` with `b` gives: `b` itself when `a` is empty, and otherwise
/// the table that holds, for every outcome vector, the summed products over the pairs of
/// entries whose joined outcome it is.
pub open spec fn is_combination(
    a: Seq<(Seq<Int>, u64)>,
    b: Seq<(Seq<Int>, u64)>,
    r: Seq<(Seq<Int>, u64)>,
) -> bool {
    if a.len() == 0 {
        r == b
    } else {
        &&& is_table(r)
        &&& forall|k: Seq<Int>| #[trigger] weight(r, k) == pair_weight(a, b, join_fn(), k)
        &&& total(r) == total(a) * total(b)
    }
}

/// Combining `a` with `b` would give some outcome more than `BigInt::MAX` ways.
pub open spec fn combination_overflows(a: Seq<(Seq<Int>, u64)>, b: Seq<(Seq<Int>, u64)>) -> bool {
    a.len() > 0 && exists|k: Seq<Int>| pair_weight(a, b, join_fn(), k) > max_count()
}

/// `c` starts from the empty space and each of its steps combines the previous one with `s`.
pub open spec fn is_chain(s: Seq<(Seq<Int>, u64)>, c: Seq<Seq<(Seq<Int>, u64)>>) -> bool {
    &&& c.len() >= 1
    &&& c[0].len() == 0
    &&& forall|i: int| 0 <= i < c.len() - 1 ==> is_combination(#[trigger] c[i], s, c[i + 1])
}

/// `b` to the power `e`.
pub open spec fn power(b: nat, e: nat) -> nat
    decreases e,
{
    if e == 0 {
        1
    } else {
        b * power(b, (e - 1) as nat)
    }
}

spec fn outcome_hash(s: Seq<Int>) -> nat
    decreases s.len(),
{
    if s.len() == 0 {
        0
    } else {
        ((outcome_hash(s.drop_last()) * 31 + (s.last() as u32) as nat) % (HASH_MODULUS as nat))
            as nat
    }
}

spec fn bucket_of(s: Seq<Int>, n: nat) -> int {
    (outcome_hash(s) % n) as int
}

fn bucket_index(v: &Vec<Int>, n: usize) -> (b: usize)
    requires
        n > 0,
    ensures
        b == bucket_of(v@, n as nat),
        b < n,
{
    let mut h: u64 = 0;
    let mut i: usize = 0;
    while i < v.len()
        invariant
            i <= v.len(),
            h == outcome_hash(v@.take(i as int)),
            h < HASH_MODULUS,
        decreases v.len() - i,
    {
        assert(v@.take(i + 1).drop_last() =~= v@.take(i as int));
        h = (h * 31 + (v[i] as u32) as u64) % HASH_MODULUS;
        i = i + 1;
    }
    assert(v@.take(v.len() as int) =~= v@);
    (h % (n as u64)) as usize
}

/// A possibility space under construction, with an index from outcome hash to entry.
struct OutcomeTable {
    entries: Vec<(Vec<Int>, BigInt)>,
    buckets: Vec<Vec<usize>>,
}

impl OutcomeTable {
    spec fn view(&self) -> Seq<(Seq<Int>, u64)> {
        outcome_entries(self.entries@)
    }

    spec fn inv(&self) -> bool {
        &&& is_table(self.view())
        &&& self.buckets.len() > 0
        &&& forall|i: int|
            0 <= i < self.entries.len() ==> #[trigger] self.buckets@[bucket_of(self.entries@[i].0@, self.buckets.len() as nat)]@.contains(i as usize)
        &&& forall|b: int, j: int|
            0 <= b < self.buckets.len() && 0 <= j < self.buckets@[b].len() ==> #[trigger] self.buckets@[b]@[j]
                < self.entries.len()
    }

    /// An empty table with about `expected` buckets.
    fn new(expected: usize) -> (t: Self)
        ensures
            t.inv(),
            t.view().len() == 0,
    {
        let n = if expected < MIN_BUCKETS {
            MIN_BUCKETS
        } else if expected > MAX_BUCKETS {
            MAX_BUCKETS
        } else {
            expected
        };
        let mut buckets: Vec<Vec<usize>> = Vec::new();
        while buckets.len() < n
            invariant
                n >= MIN_BUCKETS,
                buckets.len() <= n,
                forall|b: int| 0 <= b < buckets.len() ==> buckets@[b].len() == 0,
            decreases n - buckets.len(),
        {
            buckets.push(Vec::new());
        }
        let t = OutcomeTable { entries: Vec::new(), buckets };
        assert(t.view() =~= Seq::empty());
        t
    }

    fn find(&self, key: &Vec<Int>) -> (r: Option<usize>)
        requires
            self.inv(),
        ensures
            match r {
                Some(i) => i < self.entries.len() && self.view()[i as int].0 == key@,
                None => forall|i: int| 0 <= i < self.entries.len() ==> self.view()[i].0 != key@,
            },
    {
        let b = bucket_index(key, self.buckets.len());
        let bucket = &self.buckets[b];
        let mut j: usize = 0;
        while j < bucket.len()
            invariant
                self.inv(),
                bucket == &self.buckets@[b as int],
                b == bucket_of(key@, self.buckets.len() as nat),
                j <= bucket.len(),
                forall|q: int|
                    0 <= q < j ==> self.view()[bucket@[q] as int].0 != key@,
            decreases bucket.len() - j,
        {
            let idx = bucket[j];
            assert(self.buckets@[b as int]@[j as int] < self.entries.len());
            if same_faces(&self.entries[idx].0, key) {
                return Some(idx);
            }
            j = j + 1;
        }
        assert forall|i: int| 0 <= i < self.entries.len() implies self.view()[i].0 != key@ by {
            if self.view()[i].0 == key@ {
                assert(self.buckets@[bucket_of(self.entries@[i].0@, self.buckets.len() as nat)]@.contains(i as usize));
                let q = choose|q: int| 0 <= q < bucket.len() && bucket@[q] == i as usize;
            }
        }
        None
    }

    /// Adds `amount` ways to the outcome `key`; false when its count would pass `BigInt::MAX`.
    fn record(&mut self, key: Vec<Int>, amount: BigInt) -> (ok: bool)
        requires
            old(self).inv(),
            amount > 0,
        ensures
            final(self).inv(),
            ok == (weight(old(self).view(), key@) + amount <= max_count()),
            ok ==> forall|k: Seq<Int>|
                #[trigger] weight(final(self).view(), k) == weight(old(self).view(), k) + (if k
                    == key@ {
                    amount as nat
                } else {
                    0
                }),
            ok ==> total(final(self).view()) == total(old(self).view()) + amount,
    {
        proof {
            lemma_weight_push(self.view(), (key@, amount));
        }
        match self.find(&key) {
            Some(i) => {
                proof {
                    lemma_weight_at(self.view(), i as int);
                }
                let c = self.entries[i].1;
                if c > BigInt::MAX - amount {
                    return false;
                }
                proof {
                    lemma_weight_update(self.view(), i as int, (c + amount) as u64);
                }
                let ghost before = self.view();
                self.entries.set(i, (key, c + amount));
                assert(self.view() =~= before.update(i as int, (before[i as int].0, (c + amount) as u64)));
                true
            },
            None => {
                let b = bucket_index(&key, self.buckets.len());
                let n = self.entries.len();
                let ghost before = self.view();
                let ghost old_entries = self.entries@;
                let ghost old_buckets = self.buckets@;
                proof {
                    crate::weights::lemma_weight_absent(before, key@);
                }
                let mut bucket = self.buckets[b].clone();
                assert(bucket@ =~= old_buckets[b as int]@);
                bucket.push(n);
                self.buckets.set(b, bucket);
                self.entries.push((key, amount));
                assert(self.view() =~= before.push((key@, amount)));
                assert forall|i: int| 0 <= i < self.entries.len() implies #[trigger] self.buckets@[bucket_of(self.entries@[i].0@, self.buckets.len() as nat)]@.contains(i as usize) by {
                    if i < n {
                        assert(self.entries@[i] == old_entries[i]);
                        let bi = bucket_of(self.entries@[i].0@, self.buckets.len() as nat);
                        assert(old_buckets[bi]@.contains(i as usize));
                        if bi == b {
                            let q = choose|q: int| 0 <= q < old_buckets[bi].len() && old_buckets[bi]@[q] == i as usize;
                            assert(self.buckets@[bi]@[q] == i as usize);
                        }
                    } else {
                        assert(self.buckets@[b as int]@[old_buckets[b as int].len() as int] == n);
                    }
                }
                assert forall|bb: int, j: int|
                    0 <= bb < self.buckets.len() && 0 <= j < self.buckets@[bb].len() implies #[trigger] self.buckets@[bb]@[j]
                        < self.entries.len() by {
                    if bb != b || j < old_buckets[b as int].len() {
                        assert(old_buckets[bb]@[j] < n);
                    }
                }
                true
            },
        }
    }
}

impl View for PosibilitySpace {
    type V = Seq<(Seq<Int>, u64)>;

    open spec fn view(&self) -> Seq<(Seq<Int>, u64)> {
        outcome_entries(self.0@)
    }
}

impl PosibilitySpace {
    /// No outcome vector occurs twice and every multiplicity is positive.
    pub open spec fn wf(&self) -> bool {
        is_table(self@)
    }

    /// The space with no outcome at all.
    pub fn empty() -> (r: Self)
        ensures
            r@.len() == 0,
            r.wf(),
    {
        let r = PosibilitySpace(Vec::new());
        assert(r@ =~= Seq::empty());
        r
    }

    /// A copy of this space.
    pub fn duplicate(&self) -> (r: Self)
        ensures
            r@ == self@,
    {
        let mut v: Vec<(Vec<Int>, BigInt)> = Vec::new();
        let mut i: usize = 0;
        while i < self.0.len()
            invariant
                i <= self.0.len(),
                outcome_entries(v@) =~= self@.take(i as int),
            decreases self.0.len() - i,
        {
            let faces = self.0[i].0.clone();
            assert(faces@ =~= self.0@[i as int].0@);
            let ghost prev = v@;
            v.push((faces, self.0[i].1));
            assert(v@ == prev.push((faces, self.0@[i as int].1)));
            assert(outcome_entries(v@) =~= outcome_entries(prev).push(self@[i as int]));
            assert(self@.take(i + 1) =~= self@.take(i as int).push(self@[i as int]));
            i = i + 1;
        }
        assert(self@.take(self.0.len() as int) =~= self@);
        PosibilitySpace(v)
    }

    /// Every outcome vector cut down by `p`, with the multiplicities of the vectors that
    /// then coincide added up.
    pub fn project(&self, p: Projection) -> (r: Option<Self>)
        requires
            self.wf(),
        ensures
            r is None <==> !projectable(p, self@) || exists|k: Seq<Int>|
                image_weight(self@, project_fn(p), k) > max_count(),
            r matches Some(s) ==> {
                &&& s.wf()
                &&& forall|k: Seq<Int>|
                    #[trigger] weight(s@, k) == image_weight(self@, project_fn(p), k)
                &&& total(s@) == total(self@)
            },
    {
        let mut t = OutcomeTable::new(self.0.len());
        let mut i: usize = 0;
        assert(self@.take(0) =~= Seq::empty());
        while i < self.0.len()
            invariant
                self.wf(),
                t.inv(),
                i <= self.0.len(),
                forall|k: Seq<Int>|
                    #[trigger] weight(t.view(), k) == image_weight(
                        self@.take(i as int),
                        project_fn(p),
                        k,
                    ),
                total(t.view()) == total(self@.take(i as int)),
                projectable(p, self@.take(i as int)),
            decreases self.0.len() - i,
        {
            let faces = &self.0[i].0;
            let amount = self.0[i].1;
            let key = match p {
                Projection::Highest(n) => {
                    let c = sorted_faces(faces);
                    proof {
                        lemma_sorted_outcome_len(faces@);
                    }
                    let m = if n < c.len() {
                        n
                    } else {
                        c.len()
                    };
                    let mut key: Vec<Int> = Vec::new();
                    let mut j: usize = c.len() - m;
                    while j < c.len()
                        invariant
                            m <= c.len(),
                            c.len() - m <= j <= c.len(),
                            key@ =~= c@.subrange(c.len() - m, j as int),
                        decreases c.len() - j,
                    {
                        key.push(c[j]);
                        j = j + 1;
                    }
                    assert(key@ =~= project(p, faces@));
                    key
                },
                Projection::Lowest(n) => {
                    let c = sorted_faces(faces);
                    proof {
                        lemma_sorted_outcome_len(faces@);
                    }
                    let m = if n < c.len() {
                        n
                    } else {
                        c.len()
                    };
                    let mut key: Vec<Int> = Vec::new();
                    let mut j: usize = 0;
                    while j < m
                        invariant
                            m <= c.len(),
                            j <= m,
                            key@ =~= c@.take(j as int),
                        decreases m - j,
                    {
                        key.push(c[j]);
                        j = j + 1;
                    }
                    assert(key@ =~= project(p, faces@));
                    key
                },
                Projection::Successes(n) => {
                    let mut count: usize = 0;
                    let mut j: usize = 0;
                    while j < faces.len()
                        invariant
                            j <= faces.len(),
                            count == successes(faces@.take(j as int), n as int),
                            count <= j,
                        decreases faces.len() - j,
                    {
                        assert(faces@.take(j + 1).drop_last() =~= faces@.take(j as int));
                        assert(faces@.take(j + 1).last() == faces@[j as int]);
                        if faces[j] as i128 > n as i128 {
                            count = count + 1;
                        }
                        j = j + 1;
                    }
                    assert(faces@.take(faces.len() as int) =~= faces@);
                    if count > Int::MAX as usize {
                        assert(self@[i as int].0 == faces@);
                        assert(successes(self@[i as int].0, n as int) > Int::MAX);
                        assert(!projectable(p, self@));
                        return None;
                    }
                    let key = vec![count as Int];
                    assert(key@ =~= project(p, faces@));
                    key
                },
            };
            proof {
                assert(project_fn(p)(self@[i as int].0) == key@);
                assert forall|k: Seq<Int>| #[trigger]
                    image_weight(self@.take(i + 1), project_fn(p), k) == image_weight(
                        self@.take(i as int),
                        project_fn(p),
                        k,
                    ) + (if k == key@ {
                        amount as nat
                    } else {
                        0
                    }) by {
                    lemma_image_weight_prefix(self@, project_fn(p), i as int, k);
                }
                lemma_image_weight_prefix(self@, project_fn(p), i as int, key@);
                assert(self@.take(i + 1).drop_last() =~= self@.take(i as int));
            }
            if !t.record(key, amount) {
                proof {
                    lemma_image_weight_mono(self@, project_fn(p), i + 1, key@);
                }
                return None;
            }
            i = i + 1;
        }
        assert(self@.take(self.0.len() as int) =~= self@);
        proof {
            if !projectable(p, self@) {
                assert(projectable(p, self@.take(self.0.len() as int)));
            }
            assert forall|k: Seq<Int>| image_weight(self@, project_fn(p), k) <= max_count() by {
                assert(weight(t.view(), k) <= max_count()) by {
                    if weight(t.view(), k) > max_count() {
                        lemma_weight_bounded(t.view(), k);
                    }
                }
            }
        }
        Some(PosibilitySpace(t.entries))
    }
}

impl PosibilitySpace {
    /// The cartesian product of the two spaces: each pair of outcome vectors is joined and
    /// sorted, with the product of the multiplicities; pairs that join to the same vector
    /// add up. When `self` is empty the result is `rhs` as it is.
    pub fn combine(&self, rhs: &Self) -> (r: Option<Self>)
        requires
            self.wf(),
            rhs.wf(),
        ensures
            r is None <==> combination_overflows(self@, rhs@),
            r matches Some(s) ==> {
                &&& s.wf()
                &&& is_combination(self@, rhs@, s@)
                &&& self@.len() > 0 ==> total(s@) == total(self@) * total(rhs@)
            },
    {
        if self.0.len() == 0 {
            return Some(rhs.duplicate());
        }
        let ghost f = join_fn();
        let expected = if rhs.0.len() == 0 || self.0.len() <= MAX_BUCKETS / rhs.0.len() {
            proof {
                if rhs.0.len() > 0 {
                    let (a, b) = (self.0.len() as int, rhs.0.len() as int);
                    assert(a * b <= MAX_BUCKETS) by (nonlinear_arith)
                        requires
                            b > 0,
                            a <= MAX_BUCKETS as int / b,
                    ;
                }
            }
            self.0.len() * rhs.0.len()
        } else {
            MAX_BUCKETS
        };
        let mut t = OutcomeTable::new(expected);
        let mut i: usize = 0;
        assert(self@.take(0) =~= Seq::empty());
        while i < self.0.len()
            invariant
                self.wf(),
                rhs.wf(),
                f == join_fn(),
                t.inv(),
                i <= self.0.len(),
                forall|k: Seq<Int>|
                    #[trigger] weight(t.view(), k) == pair_weight(self@.take(i as int), rhs@, f, k),
                total(t.view()) == total(self@.take(i as int)) * total(rhs@),
            decreases self.0.len() - i,
        {
            let base = sorted_faces(&self.0[i].0);
            let cx = self.0[i].1;
            let ghost x = self@[i as int];
            let mut j: usize = 0;
            assert(rhs@.take(0) =~= Seq::empty());
            assert(total(rhs@.take(0)) == 0);
            assert(cx * 0 == 0);
            while j < rhs.0.len()
                invariant
                    self.wf(),
                    rhs.wf(),
                    f == join_fn(),
                    t.inv(),
                    i < self.0.len(),
                    x == self@[i as int],
                    cx == x.1,
                    base@ == sorted_outcome(x.0),
                    j <= rhs.0.len(),
                    forall|k: Seq<Int>|
                        #[trigger] weight(t.view(), k) == pair_weight(self@.take(i as int), rhs@, f, k)
                            + row_weight(x, rhs@.take(j as int), f, k),
                    total(t.view()) == total(self@.take(i as int)) * total(rhs@) + cx * total(
                        rhs@.take(j as int),
                    ),
                decreases rhs.0.len() - j,
            {
                let key = merged_faces(&base, &rhs.0[j].0, Ghost(x.0));
                let cy = rhs.0[j].1;
                proof {
                    assert(rhs@[j as int].0 == rhs.0@[j as int].0@);
                    assert(f(x.0, rhs@[j as int].0) == key@);
                    lemma_pair_weight_mono(self@, rhs@, f, i + 1, key@);
                    lemma_pair_weight_prefix(self@, rhs@, f, i as int, key@);
                    lemma_row_weight_mono(x, rhs@, f, j + 1, key@);
                    lemma_row_weight_prefix(x, rhs@, f, j as int, key@);
                }
                if cx > BigInt::MAX / cy {
                    proof {
                        assert(cx * cy > BigInt::MAX) by (nonlinear_arith)
                            requires
                                cx > BigInt::MAX / cy,
                                cy > 0,
                        ;
                    }
                    return None;
                }
                assert(cx * cy <= BigInt::MAX) by (nonlinear_arith)
                    requires
                        cx <= BigInt::MAX / cy,
                        cy > 0,
                ;
                assert(cx * cy > 0) by (nonlinear_arith)
                    requires
                        cx > 0,
                        cy > 0,
                ;
                let amount = cx * cy;
                if !t.record(key, amount) {
                    return None;
                }
                proof {
                    assert forall|k: Seq<Int>| #[trigger]
                        weight(t.view(), k) == pair_weight(self@.take(i as int), rhs@, f, k)
                            + row_weight(x, rhs@.take(j + 1), f, k) by {
                        lemma_row_weight_prefix(x, rhs@, f, j as int, k);
                    }
                    crate::weights::lemma_total_prefix(rhs@, j as int);
                    vstd::arithmetic::mul::lemma_mul_is_distributive_add(
                        cx as int,
                        total(rhs@.take(j as int)) as int,
                        cy as int,
                    );
                }
                j = j + 1;
            }
            proof {
                assert(rhs@.take(rhs.0.len() as int) =~= rhs@);
                assert forall|k: Seq<Int>| #[trigger]
                    weight(t.view(), k) == pair_weight(self@.take(i + 1), rhs@, f, k) by {
                    lemma_pair_weight_prefix(self@, rhs@, f, i as int, k);
                }
                crate::weights::lemma_total_prefix(self@, i as int);
                vstd::arithmetic::mul::lemma_mul_is_distributive_add_other_way(
                    total(rhs@) as int,
                    total(self@.take(i as int)) as int,
                    cx as int,
                );
            }
            i = i + 1;
        }
        assert(self@.take(self.0.len() as int) =~= self@);
        proof {
            assert forall|k: Seq<Int>| pair_weight(self@, rhs@, f, k) <= max_count() by {
                lemma_weight_bounded(t.view(), k);
            }
        }
        Some(PosibilitySpace(t.entries))
    }

    /// The space combined with itself `rhs` times, starting from the empty space.
    pub fn multiply(&self, rhs: BigInt) -> (r: Option<Self>)
        requires
            self.wf(),
        ensures
            r matches Some(s) ==> {
                &&& s.wf()
                &&& exists|c: Seq<Seq<(Seq<Int>, u64)>>|
                    is_chain(self@, c) && c.len() == rhs + 1 && #[trigger] c.last() == s@
                &&& total(s@) == if rhs == 0 {
                    0
                } else {
                    power(total(self@), rhs as nat)
                }
            },
            r is None ==> exists|c: Seq<Seq<(Seq<Int>, u64)>>|
                is_chain(self@, c) && c.len() <= rhs && combination_overflows(
                    #[trigger] c.last(),
                    self@,
                ),
    {
        let mut acc = Self::empty();
        if rhs == 0 {
            assert(is_chain(self@, seq![acc@]));
            assert(seq![acc@].last() == acc@);
            return Some(acc);
        }
        let ghost c: Seq<Seq<(Seq<Int>, u64)>> = seq![acc@];
        let mut i: BigInt = 0;
        while i < rhs
            invariant
                self.wf(),
                acc.wf(),
                i <= rhs,
                is_chain(self@, c),
                c.len() == i + 1,
                c.last() == acc@,
                i == 0 ==> acc@.len() == 0,
                i > 0 ==> total(acc@) == power(total(self@), i as nat),
            decreases rhs - i,
        {
            match acc.combine(self) {
                None => {
                    return None;
                },
                Some(next) => {
                    proof {
                        let c2 = c.push(next@);
                        assert forall|q: int| 0 <= q < c2.len() - 1 implies is_combination(
                            #[trigger] c2[q],
                            self@,
                            c2[q + 1],
                        ) by {
                            if q < c.len() - 1 {
                                assert(c2[q] == c[q] && c2[q + 1] == c[q + 1]);
                            }
                        }
                        if i == 0 {
                            assert(next@ == self@);
                            assert(power(total(self@), 0) == 1);
                            assert(total(self@) * 1 == total(self@));
                            assert(power(total(self@), 1) == total(self@));
                            assert(power(total(self@), 1) == total(self@) * power(total(self@), 0));
                            assert(total(next@) == power(total(self@), (i + 1) as nat));
                        } else if acc@.len() == 0 {
                            assert(total(acc@) == 0);
                            lemma_power_zero(total(self@), i as nat);
                            assert(next@ == self@);
                            assert(power(total(self@), (i + 1) as nat) == total(self@) * power(
                                total(self@),
                                i as nat,
                            ));
                            assert(total(self@) == 0);
                            assert(total(self@) * power(total(self@), i as nat) == 0);
                            assert(total(next@) == power(total(self@), (i + 1) as nat));
                        } else {
                            assert(power(total(self@), (i + 1) as nat) == total(self@) * power(
                                total(self@),
                                i as nat,
                            ));
                            vstd::arithmetic::mul::lemma_mul_is_commutative(
                                total(self@) as int,
                                total(acc@) as int,
                            );
                            assert(total(next@) == total(acc@) * total(self@));
                            assert(total(next@) == power(total(self@), (i + 1) as nat));
                        }
                        assert(total(next@) == power(total(self@), (i + 1) as nat));
                        c = c2;
                    }
                    acc = next;
                },
            }
            i = i + 1;
        }
        Some(acc)
    }

    /// Each outcome vector cut down to its `n` highest faces.
    pub fn keep_highest(&self, n: usize) -> (r: Option<Self>)
        requires
            self.wf(),
        ensures
            r is None <==> exists|k: Seq<Int>|
                image_weight(self@, project_fn(Projection::Highest(n)), k) > max_count(),
            r matches Some(s) ==> {
                &&& s.wf()
                &&& forall|k: Seq<Int>|
                    #[trigger] weight(s@, k) == image_weight(
                        self@,
                        project_fn(Projection::Highest(n)),
                        k,
                    )
                &&& total(s@) == total(self@)
            },
    {
        self.project(Projection::Highest(n))
    }

    /// Each outcome vector cut down to its `n` lowest faces.
    pub fn keep_lowest(&self, n: usize) -> (r: Option<Self>)
        requires
            self.wf(),
        ensures
            r is None <==> exists|k: Seq<Int>|
                image_weight(self@, project_fn(Projection::Lowest(n)), k) > max_count(),
            r matches Some(s) ==> {
                &&& s.wf()
                &&& forall|k: Seq<Int>|
                    #[trigger] weight(s@, k) == image_weight(
                        self@,
                        project_fn(Projection::Lowest(n)),
                        k,
                    )
                &&& total(s@) == total(self@)
            },
    {
        self.project(Projection::Lowest(n))
    }

    /// Each outcome vector replaced by the one-face vector that counts its faces above `n`.
    pub fn count_successes(&self, n: usize) -> (r: Option<Self>)
        requires
            self.wf(),
        ensures
            r is None <==> !projectable(Projection::Successes(n), self@) || exists|k: Seq<Int>|
                image_weight(self@, project_fn(Projection::Successes(n)), k) > max_count(),
            r matches Some(s) ==> {
                &&& s.wf()
                &&& forall|k: Seq<Int>|
                    #[trigger] weight(s@, k) == image_weight(
                        self@,
                        project_fn(Projection::Successes(n)),
                        k,
                    )
                &&& total(s@) == total(self@)
            },
    {
        self.project(Projection::Successes(n))
    }
}

proof fn lemma_power_zero(b: nat, e: nat)
    requires
        power(b, e) == 0,
    ensures
        b == 0,
    decreases e,
{
    if e > 0 {
        let p = power(b, (e - 1) as nat);
        assert(b == 0 || p == 0) by (nonlinear_arith)
            requires
                b * p == 0,
        ;
        if b != 0 {
            lemma_power_zero(b, (e - 1) as nat);
        }
    }
}

proof fn lemma_weight_bounded(s: Seq<(Seq<Int>, u64)>, k: Seq<Int>)
    requires
        is_table(s),
    ensures
        weight(s, k) <= max_count(),
{
    if exists|i: int| 0 <= i < s.len() && s[i].0 == k {
        let i = choose|i: int| 0 <= i < s.len() && s[i].0 == k;
        lemma_weight_at(s, i);
    } else {
        crate::weights::lemma_weight_absent(s, k);
    }
}

} // verus!

verus! {

/// `v` has as many faces as the shorter of `n` and some outcome vector of `s`.
pub open spec fn cut_from(s: Seq<(Seq<Int>, u64)>, n: usize, v: Seq<Int>) -> bool {
    exists|j: int|
        0 <= j < s.len() && v.len() == if n < s[j].0.len() {
            n as int
        } else {
            s[j].0.len() as int
        }
}

/// Keeping the `n` highest (or lowest) faces leaves each outcome vector with as many faces
/// as the shorter of `n` and a vector that it came from.
pub proof fn lemma_kept_lengths(space: PosibilitySpace, n: usize, lowest: bool, kept: PosibilitySpace)
    requires
        space.wf(),
        kept.wf(),
        forall|k: Seq<Int>|
            #[trigger] weight(kept@, k) == image_weight(
                space@,
                project_fn(
                    if lowest {
                        Projection::Lowest(n)
                    } else {
                        Projection::Highest(n)
                    },
                ),
                k,
            ),
    ensures
        forall|i: int| 0 <= i < kept@.len() ==> cut_from(space@, n, #[trigger] kept@[i].0),
        forall|j: int|
            0 <= j < space@.len() ==> exists|i: int|
                0 <= i < kept@.len() && kept@[i].0 == project(
                    if lowest {
                        Projection::Lowest(n)
                    } else {
                        Projection::Highest(n)
                    },
                    #[trigger] space@[j].0,
                ) && kept@[i].0.len() == if n < space@[j].0.len() {
                    n as int
                } else {
                    space@[j].0.len() as int
                },
{
    let p = if lowest {
        Projection::Lowest(n)
    } else {
        Projection::Highest(n)
    };
    assert forall|i: int| 0 <= i < kept@.len() implies cut_from(space@, n, #[trigger] kept@[i].0) by {
        let k = kept@[i].0;
        lemma_weight_at(kept@, i);
        crate::weights::lemma_image_preimage(space@, project_fn(p), k);
        let j = choose|j: int| 0 <= j < space@.len() && project_fn(p)(space@[j].0) == k;
        lemma_sorted_outcome_len(space@[j].0);
    }
    assert forall|j: int| 0 <= j < space@.len() implies exists|i: int|
        0 <= i < kept@.len() && kept@[i].0 == project(p, #[trigger] space@[j].0)
            && kept@[i].0.len() == if n < space@[j].0.len() {
            n as int
        } else {
            space@[j].0.len() as int
        } by {
        let k = project(p, space@[j].0);
        crate::weights::lemma_image_weight_at(space@, project_fn(p), j);
        assert(weight(kept@, k) > 0);
        crate::weights::lemma_weight_present(kept@, k);
        lemma_sorted_outcome_len(space@[j].0);
    }
}

} // verus!
