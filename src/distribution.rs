//! The aggregated distribution: each result value with the number of ways to reach it.
use vstd::prelude::*;

use crate::outcome::face_sum;
use crate::dice::die_entries;
use crate::posibility_space::{is_chain, is_combination, power, PosibilitySpace};
use crate::weights::{
    image_weight, is_table, lemma_image_weight_mono, lemma_image_weight_prefix,
    lemma_pair_weight_mono, lemma_pair_weight_prefix, lemma_row_weight_mono,
    lemma_row_weight_prefix, lemma_total_prefix, lemma_weight_absent, lemma_weight_at,
    lemma_weight_push, lemma_weight_update, max_count, pair_weight, row_weight, total, weight,
};
use crate::{BigInt, Int};

verus! {

/// Result values, each with its multiplicity.
#[derive(Debug)]
pub struct Distribution(pub Vec<(Int, BigInt)>);

impl View for Distribution {
    type V = Seq<(Int, u64)>;

    open spec fn view(&self) -> Seq<(Int, u64)> {
        self.0@
    }
}

/// The sum of an outcome vector's faces, as a result value.
pub open spec fn sum_fn() -> spec_fn(Seq<Int>) -> Int {
    |s: Seq<Int>| face_sum(s) as Int
}

/// Every outcome vector of `s` sums to a value that an `Int` holds.
pub open spec fn sums_fit(s: Seq<(Seq<Int>, u64)>) -> bool {
    forall|i: int|
        0 <= i < s.len() ==> Int::MIN <= #[trigger] face_sum(s[i].0) <= Int::MAX
}

/// How the two values of a pair make one result.
pub enum Convolution {
    Sum,
    Difference,
}

/// The exact result of the pair `(x, y)` under `c`.
pub open spec fn pair_result(c: Convolution, x: Int, y: Int) -> int {
    match c {
        Convolution::Sum => x + y,
        Convolution::Difference => x - y,
    }
}

pub open spec fn pair_fn(c: Convolution) -> spec_fn(Int, Int) -> Int {
    |x: Int, y: Int| pair_result(c, x, y) as Int
}

/// Every pair of keys of `a` and `b` gives a result that an `Int` holds.
pub open spec fn pairs_fit(c: Convolution, a: Seq<(Int, u64)>, b: Seq<(Int, u64)>) -> bool {
    forall|i: int, j: int|
        0 <= i < a.len() && 0 <= j < b.len() ==> Int::MIN <= #[trigger] pair_result(
            c,
            a[i].0,
            b[j].0,
        ) <= Int::MAX
}

/// What convolving `a` with `b` gives: `b` itself when `a` is empty, and otherwise the
/// table of the summed products over the pairs of keys that give each result.
pub open spec fn is_convolution(
    c: Convolution,
    a: Seq<(Int, u64)>,
    b: Seq<(Int, u64)>,
    r: Seq<(Int, u64)>,
) -> bool {
    if a.len() == 0 {
        r == b
    } else {
        &&& is_table(r)
        &&& forall|k: Int| #[trigger] weight(r, k) == pair_weight(a, b, pair_fn(c), k)
        &&& total(r) == total(a) * total(b)
    }
}

/// Convolving `a` with `b` leaves the range of `Int` or of `BigInt`.
pub open spec fn convolution_fails(c: Convolution, a: Seq<(Int, u64)>, b: Seq<(Int, u64)>) -> bool {
    a.len() > 0 && (!pairs_fit(c, a, b) || exists|k: Int|
        pair_weight(a, b, pair_fn(c), k) > max_count())
}

/// The key function of a transform whose value is defined at every key in question.
pub open spec fn defined_fn(g: spec_fn(Int) -> Option<Int>) -> spec_fn(Int) -> Int {
    |x: Int| g(x).unwrap()
}

/// `g` is defined at every key of `s`.
pub open spec fn defined_on(g: spec_fn(Int) -> Option<Int>, s: Seq<(Int, u64)>) -> bool {
    forall|i: int| 0 <= i < s.len() ==> #[trigger] g(s[i].0) is Some
}

proof fn lemma_weight_bounded(s: Seq<(Int, u64)>, k: Int)
    requires
        is_table(s),
    ensures
        weight(s, k) <= max_count(),
{
    if exists|i: int| 0 <= i < s.len() && s[i].0 == k {
        let i = choose|i: int| 0 <= i < s.len() && s[i].0 == k;
        lemma_weight_at(s, i);
    } else {
        lemma_weight_absent(s, k);
    }
}

/// Adds `amount` ways to the result `key`; false when its count would pass `BigInt::MAX`.
fn tally(entries: &mut Vec<(Int, BigInt)>, key: Int, amount: BigInt) -> (ok: bool)
    requires
        is_table(old(entries)@),
        amount > 0,
    ensures
        is_table(final(entries)@),
        ok == (weight(old(entries)@, key) + amount <= max_count()),
        ok ==> forall|k: Int|
            #[trigger] weight(final(entries)@, k) == weight(old(entries)@, k) + (if k == key {
                amount as nat
            } else {
                0
            }),
        ok ==> total(final(entries)@) == total(old(entries)@) + amount,
{
    let mut i: usize = 0;
    while i < entries.len()
        invariant
            is_table(entries@),
            entries@ == old(entries)@,
            amount > 0,
            i <= entries.len(),
            forall|q: int| 0 <= q < i ==> entries@[q].0 != key,
        decreases entries.len() - i,
    {
        if entries[i].0 == key {
            proof {
                lemma_weight_at(entries@, i as int);
            }
            let c = entries[i].1;
            if c > BigInt::MAX - amount {
                return false;
            }
            proof {
                lemma_weight_update(entries@, i as int, (c + amount) as u64);
            }
            entries.set(i, (key, c + amount));
            return true;
        }
        i = i + 1;
    }
    proof {
        lemma_weight_absent(entries@, key);
        lemma_weight_push(entries@, (key, amount));
    }
    entries.push((key, amount));
    true
}

impl Distribution {
    /// No result value occurs twice and every multiplicity is positive.
    pub open spec fn wf(&self) -> bool {
        is_table(self@)
    }

    /// A copy of this distribution.
    pub fn duplicate(&self) -> (r: Self)
        ensures
            r@ == self@,
    {
        let mut v: Vec<(Int, BigInt)> = Vec::new();
        let mut i: usize = 0;
        while i < self.0.len()
            invariant
                i <= self.0.len(),
                v@ =~= self@.take(i as int),
            decreases self.0.len() - i,
        {
            v.push(self.0[i]);
            i = i + 1;
        }
        assert(self@.take(self.0.len() as int) =~= self@);
        Distribution(v)
    }

    /// The distribution of one value with multiplicity one.
    pub fn single(c: Int) -> (r: Self)
        ensures
            r@ == seq![(c, 1u64)],
            r.wf(),
    {
        let r = Distribution(vec![(c, 1)]);
        assert(r@ =~= seq![(c, 1u64)]);
        r
    }

    /// Whether some result value equals `k`.
    pub fn contains_key(&self, k: Int) -> (r: bool)
        ensures
            r == exists|i: int| 0 <= i < self@.len() && self@[i].0 == k,
    {
        let mut i: usize = 0;
        while i < self.0.len()
            invariant
                i <= self.0.len(),
                forall|q: int| 0 <= q < i ==> self@[q].0 != k,
            decreases self.0.len() - i,
        {
            if self.0[i].0 == k {
                assert(self@[i as int].0 == k);
                return true;
            }
            i = i + 1;
        }
        false
    }

    /// Sums each outcome vector of the space into one result value and adds up the
    /// multiplicities of the vectors with the same sum.
    pub fn from_space(space: &PosibilitySpace) -> (r: Option<Self>)
        requires
            space.wf(),
        ensures
            r is None <==> !sums_fit(space@) || exists|k: Int|
                image_weight(space@, sum_fn(), k) > max_count(),
            r matches Some(d) ==> {
                &&& d.wf()
                &&& forall|k: Int| #[trigger] weight(d@, k) == image_weight(space@, sum_fn(), k)
                &&& total(d@) == total(space@)
            },
    {
        let ghost s = space@;
        let mut v: Vec<(Int, BigInt)> = Vec::new();
        let mut i: usize = 0;
        assert(s.take(0) =~= Seq::empty());
        while i < space.0.len()
            invariant
                s == space@,
                space.wf(),
                i <= space.0.len(),
                is_table(v@),
                forall|k: Int| #[trigger] weight(v@, k) == image_weight(s.take(i as int), sum_fn(), k),
                total(v@) == total(s.take(i as int)),
                sums_fit(s.take(i as int)),
            decreases space.0.len() - i,
        {
            let faces = &space.0[i].0;
            let amount = space.0[i].1;
            assert(s[i as int].0 == faces@);
            let mut acc: i128 = 0;
            let mut j: usize = 0;
            while j < faces.len()
                invariant
                    j <= faces.len(),
                    acc == face_sum(faces@.take(j as int)),
                    -(j as int) * 0x8000_0000 <= acc <= (j as int) * 0x8000_0000,
                decreases faces.len() - j,
            {
                assert(faces@.take(j + 1).drop_last() =~= faces@.take(j as int));
                acc = acc + faces[j] as i128;
                j = j + 1;
            }
            assert(faces@.take(faces.len() as int) =~= faces@);
            if acc < Int::MIN as i128 || acc > Int::MAX as i128 {
                return None;
            }
            let key = acc as Int;
            proof {
                assert(s[i as int] == (faces@, amount));
                assert forall|k: Int| #[trigger]
                    image_weight(s.take(i + 1), sum_fn(), k) == image_weight(
                        s.take(i as int),
                        sum_fn(),
                        k,
                    ) + (if k == key {
                        amount as nat
                    } else {
                        0
                    }) by {
                    lemma_image_weight_prefix(s, sum_fn(), i as int, k);
                }
                lemma_image_weight_prefix(s, sum_fn(), i as int, key);
                lemma_image_weight_mono(s, sum_fn(), i + 1, key);
                assert(s.take(i + 1).drop_last() =~= s.take(i as int));
            }
            if !tally(&mut v, key, amount) {
                return None;
            }
            i = i + 1;
        }
        assert(s.take(space.0.len() as int) =~= s);
        proof {
            assert forall|k: Int| image_weight(s, sum_fn(), k) <= max_count() by {
                lemma_weight_bounded(v@, k);
            }
        }
        Some(Distribution(v))
    }

    /// Every pair of a value of `self` and a value of `rhs` combined by `c`, with the
    /// product of the multiplicities; pairs with the same result add up. When `self` is
    /// empty the result is `rhs` as it is.
    pub fn convolve(&self, rhs: &Self, c: Convolution) -> (r: Option<Self>)
        requires
            self.wf(),
            rhs.wf(),
        ensures
            r is None <==> convolution_fails(c, self@, rhs@),
            r matches Some(d) ==> d.wf() && is_convolution(c, self@, rhs@, d@),
    {
        if self.0.len() == 0 {
            return Some(rhs.duplicate());
        }
        let ghost f = pair_fn(c);
        let mut v: Vec<(Int, BigInt)> = Vec::new();
        let mut i: usize = 0;
        assert(self@.take(0) =~= Seq::empty());
        assert(total(v@) == 0 && total(self@.take(0)) == 0);
        assert(0 * total(rhs@) == 0);
        while i < self.0.len()
            invariant
                self.wf(),
                rhs.wf(),
                f == pair_fn(c),
                is_table(v@),
                i <= self.0.len(),
                forall|k: Int| #[trigger] weight(v@, k) == pair_weight(self@.take(i as int), rhs@, f, k),
                total(v@) == total(self@.take(i as int)) * total(rhs@),
                forall|a: int, b: int|
                    0 <= a < i && 0 <= b < rhs@.len() ==> Int::MIN <= #[trigger] pair_result(
                        c,
                        self@[a].0,
                        rhs@[b].0,
                    ) <= Int::MAX,
            decreases self.0.len() - i,
        {
            let (x, cx) = self.0[i];
            let ghost e = self@[i as int];
            let mut j: usize = 0;
            assert(rhs@.take(0) =~= Seq::empty());
            assert(total(rhs@.take(0)) == 0);
            assert(cx * 0 == 0);
            while j < rhs.0.len()
                invariant
                    self.wf(),
                    rhs.wf(),
                    f == pair_fn(c),
                    is_table(v@),
                    i < self.0.len(),
                    e == self@[i as int],
                    e == (x, cx),
                    j <= rhs.0.len(),
                    forall|k: Int|
                        #[trigger] weight(v@, k) == pair_weight(self@.take(i as int), rhs@, f, k)
                            + row_weight(e, rhs@.take(j as int), f, k),
                    total(v@) == total(self@.take(i as int)) * total(rhs@) + cx * total(
                        rhs@.take(j as int),
                    ),
                    forall|a: int, b: int|
                        (0 <= a < i && 0 <= b < rhs@.len()) || (a == i && 0 <= b < j)
                            ==> Int::MIN <= #[trigger] pair_result(c, self@[a].0, rhs@[b].0)
                            <= Int::MAX,
                decreases rhs.0.len() - j,
            {
                let (y, cy) = rhs.0[j];
                let exact: i64 = match c {
                    Convolution::Sum => x as i64 + y as i64,
                    Convolution::Difference => x as i64 - y as i64,
                };
                if exact < Int::MIN as i64 || exact > Int::MAX as i64 {
                    assert(rhs@[j as int] == (y, cy));
                    assert(!(Int::MIN <= pair_result(c, self@[i as int].0, rhs@[j as int].0)
                        <= Int::MAX));
                    return None;
                }
                let key = exact as Int;
                proof {
                    assert(f(x, y) == key);
                    lemma_pair_weight_mono(self@, rhs@, f, i + 1, key);
                    lemma_pair_weight_prefix(self@, rhs@, f, i as int, key);
                    lemma_row_weight_mono(e, rhs@, f, j + 1, key);
                    lemma_row_weight_prefix(e, rhs@, f, j as int, key);
                }
                if cx > BigInt::MAX / cy {
                    proof {
                        assert(cx * cy > BigInt::MAX) by (nonlinear_arith)
                            requires
                                cx > BigInt::MAX / cy,
                                cy > 0,
                        ;
                    }
                    return None;
                }
                assert(cx * cy <= BigInt::MAX) by (nonlinear_arith)
                    requires
                        cx <= BigInt::MAX / cy,
                        cy > 0,
                ;
                assert(cx * cy > 0) by (nonlinear_arith)
                    requires
                        cx > 0,
                        cy > 0,
                ;
                let amount = cx * cy;
                if !tally(&mut v, key, amount) {
                    return None;
                }
                proof {
                    assert forall|k: Int| #[trigger]
                        weight(v@, k) == pair_weight(self@.take(i as int), rhs@, f, k) + row_weight(
                            e,
                            rhs@.take(j + 1),
                            f,
                            k,
                        ) by {
                        lemma_row_weight_prefix(e, rhs@, f, j as int, k);
                    }
                    lemma_total_prefix(rhs@, j as int);
                    vstd::arithmetic::mul::lemma_mul_is_distributive_add(
                        cx as int,
                        total(rhs@.take(j as int)) as int,
                        cy as int,
                    );
                }
                j = j + 1;
            }
            proof {
                assert(rhs@.take(rhs.0.len() as int) =~= rhs@);
                assert forall|k: Int| #[trigger]
                    weight(v@, k) == pair_weight(self@.take(i + 1), rhs@, f, k) by {
                    lemma_pair_weight_prefix(self@, rhs@, f, i as int, k);
                }
                lemma_total_prefix(self@, i as int);
                vstd::arithmetic::mul::lemma_mul_is_distributive_add_other_way(
                    total(rhs@) as int,
                    total(self@.take(i as int)) as int,
                    cx as int,
                );
            }
            i = i + 1;
        }
        assert(self@.take(self.0.len() as int) =~= self@);
        proof {
            assert forall|k: Int| pair_weight(self@, rhs@, f, k) <= max_count() by {
                lemma_weight_bounded(v@, k);
            }
        }
        Some(Distribution(v))
    }

    /// The distribution of the sum of two independent results.
    pub fn convolve_add(&self, rhs: &Self) -> (r: Option<Self>)
        requires
            self.wf(),
            rhs.wf(),
        ensures
            r is None <==> convolution_fails(Convolution::Sum, self@, rhs@),
            r matches Some(d) ==> d.wf() && is_convolution(Convolution::Sum, self@, rhs@, d@),
    {
        self.convolve(rhs, Convolution::Sum)
    }

    /// The distribution of the difference of two independent results.
    pub fn convolve_sub(&self, rhs: &Self) -> (r: Option<Self>)
        requires
            self.wf(),
            rhs.wf(),
        ensures
            r is None <==> convolution_fails(Convolution::Difference, self@, rhs@),
            r matches Some(d) ==> d.wf() && is_convolution(
                Convolution::Difference,
                self@,
                rhs@,
                d@,
            ),
    {
        self.convolve(rhs, Convolution::Difference)
    }

    /// Applies `f` to every result value and adds up the multiplicities of the values that
    /// then coincide. `f` returns `None` where the new value is undefined; `g` says what
    /// `f` returns.
    pub fn mutate<F: Fn(Int) -> Option<Int>>(
        &self,
        f: F,
        Ghost(g): Ghost<spec_fn(Int) -> Option<Int>>,
    ) -> (r: Option<Self>)
        requires
            self.wf(),
            forall|i: int| 0 <= i < self@.len() ==> f.requires((#[trigger] self@[i].0,)),
            forall|x: Int, y: Option<Int>| f.ensures((x,), y) ==> y == g(x),
        ensures
            r is None <==> !defined_on(g, self@) || exists|k: Int|
                image_weight(self@, defined_fn(g), k) > max_count(),
            r matches Some(d) ==> {
                &&& d.wf()
                &&& forall|k: Int| #[trigger] weight(d@, k) == image_weight(self@, defined_fn(g), k)
                &&& total(d@) == total(self@)
            },
    {
        let ghost s = self@;
        let ghost h = defined_fn(g);
        let mut v: Vec<(Int, BigInt)> = Vec::new();
        let mut i: usize = 0;
        assert(s.take(0) =~= Seq::empty());
        while i < self.0.len()
            invariant
                s == self@,
                h == defined_fn(g),
                self.wf(),
                forall|q: int| 0 <= q < self@.len() ==> f.requires((#[trigger] self@[q].0,)),
                forall|x: Int, y: Option<Int>| f.ensures((x,), y) ==> y == g(x),
                i <= self.0.len(),
                is_table(v@),
                forall|k: Int| #[trigger] weight(v@, k) == image_weight(s.take(i as int), h, k),
                total(v@) == total(s.take(i as int)),
                defined_on(g, s.take(i as int)),
            decreases self.0.len() - i,
        {
            let (x, amount) = self.0[i];
            let key = match f(x) {
                Some(y) => y,
                None => {
                    return None;
                },
            };
            proof {
                assert(h(x) == key);
                assert forall|k: Int| #[trigger]
                    image_weight(s.take(i + 1), h, k) == image_weight(s.take(i as int), h, k) + (
                    if k == key {
                        amount as nat
                    } else {
                        0
                    }) by {
                    lemma_image_weight_prefix(s, h, i as int, k);
                }
                lemma_image_weight_prefix(s, h, i as int, key);
                lemma_image_weight_mono(s, h, i + 1, key);
                assert(s.take(i + 1).drop_last() =~= s.take(i as int));
            }
            if !tally(&mut v, key, amount) {
                return None;
            }
            i = i + 1;
        }
        assert(s.take(self.0.len() as int) =~= s);
        proof {
            assert forall|k: Int| image_weight(s, h, k) <= max_count() by {
                lemma_weight_bounded(v@, k);
            }
        }
        Some(Distribution(v))
    }
}

} // verus!

verus! {

/// Adding two independent results gives the same distribution in either order, as long as
/// neither is empty (an empty left operand hands back the right one as it is).
pub proof fn lemma_convolution_commutes(
    a: Distribution,
    b: Distribution,
    ab: Distribution,
    ba: Distribution,
)
    requires
        a.wf(),
        b.wf(),
        a@.len() > 0,
        b@.len() > 0,
        is_convolution(Convolution::Sum, a@, b@, ab@),
        is_convolution(Convolution::Sum, b@, a@, ba@),
    ensures
        forall|k: Int| #[trigger] weight(ab@, k) == weight(ba@, k),
{
    assert forall|k: Int| #[trigger] weight(ab@, k) == weight(ba@, k) by {
        let f = pair_fn(Convolution::Sum);
        assert forall|x: Int, y: Int| #[trigger] f(y, x) == f(x, y) by {}
        crate::weights::lemma_pair_weight_swap(a@, b@, f, f, k);
    }
}

} // verus!

verus! {

proof fn lemma_die_total(f: Int)
    ensures
        total(die_entries(f)) == (if f > 0 {
            f as int
        } else {
            0
        }),
    decreases (if f > 0 {
        f as int
    } else {
        0
    }),
{
    if f > 0 {
        lemma_die_total((f - 1) as Int);
        assert(die_entries(f).drop_last() =~= die_entries((f - 1) as Int));
    } else {
        assert(die_entries(f) =~= Seq::empty());
    }
}

/// Along a chain of combinations with `s`, step `i` holds `total(s)^i` ways.
proof fn lemma_chain_total(s: Seq<(Seq<Int>, u64)>, c: Seq<Seq<(Seq<Int>, u64)>>, i: int)
    requires
        is_chain(s, c),
        1 <= i < c.len(),
        total(s) >= 1,
    ensures
        total(c[i]) == power(total(s), i as nat),
    decreases i,
{
    assert(is_combination(c[i - 1], s, c[i]));
    if i == 1 {
        assert(power(total(s), 0) == 1);
        assert(power(total(s), 1) == total(s) * 1);
    } else {
        lemma_chain_total(s, c, i - 1);
        let p = power(total(s), (i - 1) as nat);
        assert(p >= 1) by {
            lemma_power_positive(total(s), (i - 1) as nat);
        }
        if c[i - 1].len() == 0 {
            assert(total(c[i - 1]) == 0);
        }
        assert(power(total(s), i as nat) == total(s) * p);
        vstd::arithmetic::mul::lemma_mul_is_commutative(total(s) as int, p as int);
    }
}

proof fn lemma_power_positive(b: nat, e: nat)
    requires
        b >= 1,
    ensures
        power(b, e) >= 1,
    decreases e,
{
    if e > 0 {
        lemma_power_positive(b, (e - 1) as nat);
        let p = power(b, (e - 1) as nat);
        assert(b * p >= 1) by (nonlinear_arith)
            requires
                b >= 1,
                p >= 1,
        ;
    }
}

/// Rolling `n` dice of `f` faces each and summing the faces up keeps all `f^n` ways: the
/// die that `from_dice` gives, combined `n` times as `multiply` does, and summed up by
/// `from_space`, which keeps the total.
pub proof fn lemma_roll_mass(
    f: Int,
    n: nat,
    c: Seq<Seq<(Seq<Int>, u64)>>,
    rolled: PosibilitySpace,
    d: Distribution,
)
    requires
        f >= 1,
        n >= 1,
        is_chain(die_entries(f), c),
        c.len() == n + 1,
        c.last() == rolled@,
        total(d@) == total(rolled@),
    ensures
        total(d@) == power(f as nat, n),
{
    lemma_die_total(f);
    lemma_chain_total(die_entries(f), c, n as int);
}

} // verus!
