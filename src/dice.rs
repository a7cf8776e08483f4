//! A single die.
use vstd::prelude::*;

use crate::posibility_space::{outcome_entries, PosibilitySpace};
use crate::weights::{is_table, lemma_weight_push, total};
use crate::Int;

verus! {

/// A die with faces `1..=n`.
#[derive(Clone, Copy, Debug)]
pub struct Dice(pub Int);

/// The entries of one die with faces `1..=f`: each face on its own, once.
pub open spec fn die_entries(f: Int) -> Seq<(Seq<Int>, u64)> {
    Seq::new(
        if f > 0 {
            f as nat
        } else {
            0
        },
        |i: int| (seq![(i + 1) as Int], 1u64),
    )
}

impl PosibilitySpace {
    /// One roll of the die: each face on its own, once. A die without faces gives the
    /// empty space.
    pub fn from_dice(d: Dice) -> (r: Self)
        ensures
            r.wf(),
            r@.len() == (if d.0 > 0 {
                d.0 as int
            } else {
                0
            }),
            forall|i: int| 0 <= i < r@.len() ==> #[trigger] r@[i] == (seq![(i + 1) as Int], 1u64),
            total(r@) == r@.len(),
            r@ == die_entries(d.0),
    {
        let mut v: Vec<(Vec<Int>, u64)> = Vec::new();
        let mut face: i64 = 1;
        if d.0 < 1 {
            let r = PosibilitySpace(v);
            assert(r@ =~= Seq::empty());
            assert(r@ =~= die_entries(d.0));
            return r;
        }
        while face <= d.0 as i64
            invariant
                1 <= face <= d.0 + 1,
                outcome_entries(v@).len() == face - 1,
                forall|i: int|
                    0 <= i < face - 1 ==> #[trigger] outcome_entries(v@)[i] == (
                        seq![(i + 1) as Int],
                        1u64,
                    ),
                total(outcome_entries(v@)) == face - 1,
            decreases d.0 as i64 + 1 - face,
        {
            let ghost prev = v@;
            let faces = vec![face as Int];
            proof {
                lemma_weight_push(outcome_entries(prev), (faces@, 1u64));
            }
            v.push((faces, 1));
            assert(outcome_entries(v@) =~= outcome_entries(prev).push((faces@, 1u64)));
            assert(faces@ =~= seq![(face - 1 + 1) as Int]);
            face = face + 1;
        }
        let r = PosibilitySpace(v);
        assert(r@ =~= die_entries(d.0));
        assert(is_table(r@)) by {
            assert forall|i: int, j: int| 0 <= i < j < r@.len() implies r@[i].0 != r@[j].0 by {
                assert(r@[i].0[0] != r@[j].0[0]);
            }
        }
        r
    }
}

} // verus!
