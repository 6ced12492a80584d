//! Facts about sequences without repetitions.

use vstd::prelude::*;

verus! {

/// Inserting a new element keeps a sequence free of repetitions and adds
/// that element to what it contains.
pub proof fn lemma_insert_fresh<A>(s: Seq<A>, i: int, a: A)
    requires
        0 <= i <= s.len(),
        s.no_duplicates(),
        !s.contains(a),
    ensures
        s.insert(i, a).no_duplicates(),
        s.insert(i, a).len() == s.len() + 1,
        forall|x: A| #[trigger] s.insert(i, a).contains(x) <==> (x == a || s.contains(x)),
{
    let t = s.insert(i, a);
    assert forall|j: int, k: int| 0 <= j < t.len() && 0 <= k < t.len() && j != k implies t[j]
        != t[k] by {
        if j != i && k != i {
            let j0 = if j < i { j } else { j - 1 };
            let k0 = if k < i { k } else { k - 1 };
            assert(t[j] == s[j0]);
            assert(t[k] == s[k0]);
        } else if j == i {
            let k0 = if k < i { k } else { k - 1 };
            assert(t[k] == s[k0]);
            assert(s.contains(s[k0]));
        } else {
            let j0 = if j < i { j } else { j - 1 };
            assert(t[j] == s[j0]);
            assert(s.contains(s[j0]));
        }
    }
    assert forall|x: A| #[trigger] t.contains(x) <==> (x == a || s.contains(x)) by {
        if t.contains(x) {
            let j = choose|j: int| 0 <= j < t.len() && t[j] == x;
            if j != i {
                let j0 = if j < i { j } else { j - 1 };
                assert(t[j] == s[j0]);
                assert(s.contains(x));
            }
        }
        if x == a {
            assert(t[i] == a);
        }
        if s.contains(x) {
            let j = choose|j: int| 0 <= j < s.len() && s[j] == x;
            let j1 = if j < i { j } else { j + 1 };
            assert(t[j1] == x);
        }
    }
}

/// Taking an element out of a sequence without repetitions leaves the
/// others, in their order and still without repetitions.
pub proof fn lemma_remove_value<A>(s: Seq<A>, a: A)
    requires
        s.no_duplicates(),
    ensures
        s.remove_value(a).no_duplicates(),
        s.contains(a) ==> s.remove_value(a).len() == s.len() - 1,
        !s.contains(a) ==> s.remove_value(a) == s,
        forall|x: A| #[trigger] s.remove_value(a).contains(x) <==> (x != a && s.contains(x)),
{
    s.index_of_first_ensures(a);
    let t = s.remove_value(a);
    match s.index_of_first(a) {
        None => {
            assert(t == s);
        },
        Some(i) => {
            assert(t == s.remove(i));
            assert forall|j: int, k: int| 0 <= j < t.len() && 0 <= k < t.len() && j != k implies t[j]
                != t[k] by {
                let j0 = if j < i { j } else { j + 1 };
                let k0 = if k < i { k } else { k + 1 };
                assert(t[j] == s[j0]);
                assert(t[k] == s[k0]);
            }
            assert forall|x: A| #[trigger] t.contains(x) <==> (x != a && s.contains(x)) by {
                if t.contains(x) {
                    let j = choose|j: int| 0 <= j < t.len() && t[j] == x;
                    let j0 = if j < i { j } else { j + 1 };
                    assert(t[j] == s[j0]);
                    assert(s.contains(x));
                    assert(j0 != i);
                }
                if x != a && s.contains(x) {
                    let j = choose|j: int| 0 <= j < s.len() && s[j] == x;
                    let j1 = if j < i { j } else { j - 1 };
                    assert(t[j1] == x);
                }
            }
        },
    }
}

/// Filtering one element more keeps what the filter kept so far and adds the
/// new element if it passes.
pub proof fn lemma_filter_step<A>(s: Seq<A>, pred: spec_fn(A) -> bool, i: int)
    requires
        0 <= i < s.len(),
    ensures
        s.take(i + 1).filter(pred) == if pred(s[i]) {
            s.take(i).filter(pred).push(s[i])
        } else {
            s.take(i).filter(pred)
        },
{
    reveal(Seq::filter);
    assert(s.take(i + 1).drop_last() =~= s.take(i));
}

/// Whether a value is not among `gone`.
pub open spec fn outside<A>(gone: Set<A>) -> spec_fn(A) -> bool {
    |a: A| !gone.contains(a)
}

/// Taking a value out of a sequence without repetitions takes it out of
/// what a filter keeps of that sequence.
pub proof fn lemma_filter_outside_remove<A>(s: Seq<A>, gone: Set<A>, t: A)
    requires
        s.no_duplicates(),
    ensures
        s.filter(outside(gone)).remove_value(t) == s.filter(outside(gone.insert(t))),
    decreases s.len(),
{
    reveal(Seq::filter);
    let kept = s.filter(outside(gone));
    let kept_less = s.filter(outside(gone.insert(t)));
    kept.index_of_first_ensures(t);
    if s.len() == 0 {
        assert(kept.remove_value(t) =~= kept_less);
    } else {
        let rest = s.drop_last();
        let x = s.last();
        let f = rest.filter(outside(gone));
        let f_less = rest.filter(outside(gone.insert(t)));
        lemma_filter_outside_remove(rest, gone, t);
        f.index_of_first_ensures(t);
        if gone.contains(x) {
        } else if x == t {
            if f.contains(t) {
                rest.lemma_filter_contains_rev(outside(gone), t);
                let i = choose|i: int| 0 <= i < rest.len() && rest[i] == t;
                assert(s[i] == s[s.len() - 1]);
            }
            assert(kept == f.push(t));
            assert(kept_less == f_less);
            let i = kept.index_of_first(t)->0;
            if i < f.len() {
                assert(f[i] == t);
                assert(f.contains(t));
            }
            assert(kept.remove(i) =~= f);
        } else {
            assert(kept == f.push(x));
            assert(kept_less == f_less.push(x));
            match f.index_of_first(t) {
                Some(i) => {
                    assert(kept[i] == t);
                    let k = kept.index_of_first(t)->0;
                    if k < i {
                        assert(f[k] == t);
                    }
                    if k > i {
                        assert(kept[i] != t);
                    }
                    assert(kept.remove(i) =~= f.remove(i).push(x));
                },
                None => {
                    if kept.contains(t) {
                        let k = choose|k: int| 0 <= k < kept.len() && kept[k] == t;
                        if k < f.len() {
                            assert(f[k] == t);
                            assert(f.contains(t));
                        }
                    }
                },
            }
        }
    }
}

/// A filter that lets everything pass keeps the sequence as it is.
pub proof fn lemma_filter_outside_nothing<A>(s: Seq<A>)
    ensures
        s.filter(outside(Set::<A>::empty())) == s,
    decreases s.len(),
{
    reveal(Seq::filter);
    if s.len() > 0 {
        lemma_filter_outside_nothing(s.drop_last());
        assert(s.drop_last().push(s.last()) =~= s);
    }
}

/// What the first `i + 1` elements of a sequence hold is what the first `i`
/// hold and the element at `i`, which makes one more where it is new.
pub proof fn lemma_take_to_set_step<A>(s: Seq<A>, i: int)
    requires
        0 <= i < s.len(),
    ensures
        s.take(i + 1).to_set() == s.take(i).to_set().insert(s[i]),
        s.take(i + 1).to_set().len() == s.take(i).to_set().len() + if s.take(i).to_set().contains(
            s[i],
        ) {
            0int
        } else {
            1int
        },
{
    assert(s.take(i + 1) =~= s.take(i) + seq![s[i]]);
    Seq::lemma_to_set_insert_commutes(s.take(i), s[i]);
    vstd::seq_lib::seq_to_set_is_finite(s.take(i));
    vstd::set::axiom_set_insert_len(s.take(i).to_set(), s[i]);
}

} // verus!
