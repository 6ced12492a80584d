//! Choosing the first smallest of a row of scores.

use crate::point::offset_less;
use ord_subset::OrdSubsetIterExt;
use vstd::prelude::*;

verus! {

/// Whether `r` is the position of the first smallest score in `scores`, where
/// a candidate that is out of the running has no score: `None` when nobody
/// has a score, else the position of a score that none undercuts and that
/// none before it equals.
pub open spec fn is_first_min(scores: Seq<Option<int>>, r: Option<int>) -> bool {
    match r {
        None => forall|j: int| 0 <= j < scores.len() ==> scores[j] is None,
        Some(i) => {
            &&& 0 <= i < scores.len()
            &&& scores[i] is Some
            &&& forall|j: int|
                0 <= j < scores.len() && scores[j] is Some ==> scores[i]->0 <= (#[trigger] scores[j])->0
            &&& forall|j: int| 0 <= j < i && scores[j] is Some ==> scores[i]->0 < (#[trigger] scores[j])->0
        },
    }
}

/// Only one answer is the first smallest.
pub proof fn lemma_first_min_unique(scores: Seq<Option<int>>, a: Option<int>, b: Option<int>)
    requires
        is_first_min(scores, a),
        is_first_min(scores, b),
    ensures
        a == b,
{
    match (a, b) {
        (Some(i), Some(j)) => {
            if i < j {
                assert(scores[j]->0 < scores[i]->0);
            }
            if j < i {
                assert(scores[i]->0 < scores[j]->0);
            }
        },
        _ => {},
    }
}

/// Whether the offset `p` is smaller than the offset `q`, each given by its
/// product with a length and by the square of that length.
pub open spec fn pair_less(p: (int, int), q: (int, int)) -> bool {
    offset_less(p.0, p.1, q.0, q.1)
}

/// Whether `r` is the position of the first smallest offset in `offsets`,
/// where a candidate that is out of the running has none: `None` when nobody
/// has an offset, else the position of an offset than which none is smaller
/// and which is smaller than every one before it.
pub open spec fn is_first_least(offsets: Seq<Option<(int, int)>>, r: Option<int>) -> bool {
    match r {
        None => forall|j: int| 0 <= j < offsets.len() ==> offsets[j] is None,
        Some(i) => {
            &&& 0 <= i < offsets.len()
            &&& offsets[i] is Some
            &&& forall|j: int|
                0 <= j < offsets.len() && (#[trigger] offsets[j]) is Some ==> !pair_less(
                    offsets[j]->0,
                    offsets[i]->0,
                )
            &&& forall|j: int|
                0 <= j < i && (#[trigger] offsets[j]) is Some ==> pair_less(
                    offsets[i]->0,
                    offsets[j]->0,
                )
        },
    }
}

/// Only one answer is the first smallest offset.
pub proof fn lemma_first_least_unique(
    offsets: Seq<Option<(int, int)>>,
    a: Option<int>,
    b: Option<int>,
)
    requires
        is_first_least(offsets, a),
        is_first_least(offsets, b),
    ensures
        a == b,
{
    match (a, b) {
        (Some(i), Some(j)) => {
            if i < j {
                assert(pair_less(offsets[j]->0, offsets[i]->0));
            }
            if j < i {
                assert(pair_less(offsets[i]->0, offsets[j]->0));
            }
        },
        _ => {},
    }
}

/// The offsets as pairs of mathematical integers.
pub open spec fn widen_pairs(offsets: Seq<Option<(i64, i64)>>) -> Seq<Option<(int, int)>> {
    Seq::new(
        offsets.len(),
        |i: int|
            match offsets[i] {
                Some(p) => Some((p.0 as int, p.1 as int)),
                None => None,
            },
    )
}

/// The scores as mathematical integers.
pub open spec fn widen(scores: Seq<Option<i64>>) -> Seq<Option<int>> {
    Seq::new(
        scores.len(),
        |i: int|
            match scores[i] {
                Some(v) => Some(v as int),
                None => None,
            },
    )
}

/// The position as a mathematical integer.
pub open spec fn position(r: Option<usize>) -> Option<int> {
    match r {
        Some(i) => Some(i as int),
        None => None,
    }
}

/// `OrdSubsetIterExt::ord_subset_min_by_key` on the positions of `keys`, each
/// keyed by the integer at that position. Integers are never outside the
/// order, so the call is `Iterator::min_by_key`: `None` for an empty row, else
/// the position of a smallest key, the first one where several are equal.
#[verifier::external_body]
fn min_position(keys: &Vec<i64>) -> (r: Option<usize>)
    ensures
        match r {
            None => keys.len() == 0,
            Some(i) => {
                &&& i < keys.len()
                &&& forall|j: int| 0 <= j < keys.len() ==> keys[i as int] <= #[trigger] keys[j]
                &&& forall|j: int| 0 <= j < i ==> keys[i as int] < #[trigger] keys[j]
            },
        },
{
    (0..keys.len()).ord_subset_min_by_key(|i| keys[*i])
}

/// The position of the first smallest score.
pub fn first_min_index(scores: &Vec<Option<i64>>) -> (r: Option<usize>)
    ensures
        is_first_min(widen(scores@), position(r)),
{
    let mut kept: Vec<i64> = Vec::new();
    let mut at: Vec<usize> = Vec::new();
    let mut i: usize = 0;
    while i < scores.len()
        invariant
            i <= scores.len(),
            kept@.len() == at@.len(),
            forall|k: int|
                0 <= k < at@.len() ==> (#[trigger] at@[k]) < i && scores@[at@[k] as int] == Some(
                    kept@[k],
                ),
            forall|k: int, l: int| 0 <= k < l < at@.len() ==> at@[k] < at@[l],
            forall|j: int|
                0 <= j < i && (#[trigger] scores@[j]) is Some ==> exists|k: int|
                    0 <= k < at@.len() && #[trigger] at@[k] == j,
        decreases scores.len() - i,
    {
        let ghost at0 = at@;
        match scores[i] {
            Some(v) => {
                kept.push(v);
                at.push(i);
                assert forall|j: int| 0 <= j < i + 1 && (#[trigger] scores@[j]) is Some implies exists|
                    k: int,
                | 0 <= k < at@.len() && #[trigger] at@[k] == j by {
                    if j < i {
                        let k = choose|k: int| 0 <= k < at0.len() && #[trigger] at0[k] == j;
                        assert(at@[k] == j);
                    } else {
                        assert(at@[at0.len() as int] == j);
                    }
                }
            },
            None => {},
        }
        i += 1;
    }
    match min_position(&kept) {
        None => None,
        Some(m) => {
            let r = at[m];
            proof {
                let w = widen(scores@);
                assert forall|j: int| 0 <= j < w.len() && w[j] is Some implies w[r as int]->0 <= (
                #[trigger] w[j])->0 by {
                    let k = choose|k: int| 0 <= k < at@.len() && #[trigger] at@[k] == j;
                    assert(kept@[m as int] <= kept@[k]);
                }
                assert forall|j: int| 0 <= j < r && w[j] is Some implies w[r as int]->0 < (
                #[trigger] w[j])->0 by {
                    let k = choose|k: int| 0 <= k < at@.len() && #[trigger] at@[k] == j;
                    if k > m {
                        assert(at@[m as int] < at@[k]);
                    }
                    assert(kept@[m as int] < kept@[k]);
                }
            }
            Some(r)
        },
    }
}

} // verus!
