//! Generic facts about searching, counting and splitting sequences.
//!
//! These spec functions define the shapes that the rest of the crate uses to
//! describe rows, fields and tokens: the first index of an element, how often
//! it occurs, and the pieces a sequence falls into when split on it.

use vstd::prelude::*;

verus! {

/// Index of the first occurrence of `x` in `s`, if any.
pub open spec fn find_elem<A>(s: Seq<A>, x: A) -> Option<int>
    decreases s.len(),
{
    if s.len() == 0 {
        None
    } else if s[0] == x {
        Some(0)
    } else {
        match find_elem(s.drop_first(), x) {
            None => None,
            Some(i) => Some(i + 1),
        }
    }
}

/// Index of the first element satisfying `p` in `s`, if any.
pub open spec fn find_pred<A>(s: Seq<A>, p: spec_fn(A) -> bool) -> Option<int>
    decreases s.len(),
{
    if s.len() == 0 {
        None
    } else if p(s[0]) {
        Some(0)
    } else {
        match find_pred(s.drop_first(), p) {
            None => None,
            Some(i) => Some(i + 1),
        }
    }
}

/// `find_pred` returns the least index satisfying `p`, or `None` when no
/// element satisfies it.
pub proof fn lemma_find_pred<A>(s: Seq<A>, p: spec_fn(A) -> bool)
    ensures
        match find_pred(s, p) {
            None => forall|j: int| 0 <= j < s.len() ==> !p(s[j]),
            Some(i) => 0 <= i < s.len() && p(s[i]) && forall|j: int| 0 <= j < i ==> !p(s[j]),
        },
    decreases s.len(),
{
    if s.len() > 0 && !p(s[0]) {
        lemma_find_pred(s.drop_first(), p);
        assert forall|j: int| 1 <= j < s.len() implies s[j] == s.drop_first()[j - 1] by {}
    }
}

/// The converse direction: an element at `k` satisfying `p` with none
/// satisfying it before is what `find_pred` returns.
pub proof fn lemma_find_pred_at<A>(s: Seq<A>, p: spec_fn(A) -> bool, k: int)
    requires
        0 <= k < s.len(),
        p(s[k]),
        forall|j: int| 0 <= j < k ==> !p(s[j]),
    ensures
        find_pred(s, p) == Some(k),
    decreases s.len(),
{
    if k > 0 {
        lemma_find_pred_at(s.drop_first(), p, k - 1);
    }
}

/// When no element of `s` satisfies `p`, `find_pred` returns `None`.
pub proof fn lemma_find_pred_none<A>(s: Seq<A>, p: spec_fn(A) -> bool)
    requires
        forall|j: int| 0 <= j < s.len() ==> !p(s[j]),
    ensures
        find_pred(s, p) is None,
    decreases s.len(),
{
    if s.len() > 0 {
        lemma_find_pred_none(s.drop_first(), p);
    }
}

/// Number of occurrences of `x` in `s`.
pub open spec fn count_elem<A>(s: Seq<A>, x: A) -> nat
    decreases s.len(),
{
    if s.len() == 0 {
        0
    } else {
        (if s[0] == x {
            1nat
        } else {
            0nat
        }) + count_elem(s.drop_first(), x)
    }
}

/// The pieces of `s` between occurrences of `x`; always at least one piece,
/// and a trailing occurrence yields a trailing empty piece.
pub open spec fn split_elem<A>(s: Seq<A>, x: A) -> Seq<Seq<A>>
    decreases s.len(),
{
    if s.len() == 0 {
        seq![Seq::<A>::empty()]
    } else if s[0] == x {
        seq![Seq::<A>::empty()] + split_elem(s.drop_first(), x)
    } else {
        let rest = split_elem(s.drop_first(), x);
        seq![seq![s[0]] + rest[0]] + rest.skip(1)
    }
}

/// `find_elem` returns the least index holding `x`, or `None` when `x` does
/// not occur.
pub proof fn lemma_find_elem<A>(s: Seq<A>, x: A)
    ensures
        match find_elem(s, x) {
            None => forall|j: int| 0 <= j < s.len() ==> s[j] != x,
            Some(i) => 0 <= i < s.len() && s[i] == x && forall|j: int| 0 <= j < i ==> s[j] != x,
        },
    decreases s.len(),
{
    if s.len() > 0 && s[0] != x {
        lemma_find_elem(s.drop_first(), x);
        assert forall|j: int| 1 <= j < s.len() implies s[j] == s.drop_first()[j - 1] by {}
    }
}

/// The converse direction: an element at `k` with nothing equal before it is
/// what `find_elem` returns.
pub proof fn lemma_find_elem_at<A>(s: Seq<A>, x: A, k: int)
    requires
        0 <= k < s.len(),
        s[k] == x,
        forall|j: int| 0 <= j < k ==> s[j] != x,
    ensures
        find_elem(s, x) == Some(k),
    decreases s.len(),
{
    if k > 0 {
        lemma_find_elem_at(s.drop_first(), x, k - 1);
    }
}

/// When `x` does not occur in `s` at all, `find_elem` returns `None`.
pub proof fn lemma_find_elem_none<A>(s: Seq<A>, x: A)
    requires
        forall|j: int| 0 <= j < s.len() ==> s[j] != x,
    ensures
        find_elem(s, x) is None,
    decreases s.len(),
{
    if s.len() > 0 {
        lemma_find_elem_none(s.drop_first(), x);
    }
}

/// A sequence containing `x` somewhere counts it at least once.
pub proof fn lemma_count_elem_pos<A>(s: Seq<A>, x: A, k: int)
    requires
        0 <= k < s.len(),
        s[k] == x,
    ensures
        count_elem(s, x) >= 1,
    decreases s.len(),
{
    if s[0] != x {
        lemma_count_elem_pos(s.drop_first(), x, k - 1);
    }
}

/// Counting restarts after the first occurrence.
pub proof fn lemma_count_elem_after_find<A>(s: Seq<A>, x: A)
    ensures
        match find_elem(s, x) {
            None => count_elem(s, x) == 0,
            Some(i) => count_elem(s, x) == 1 + count_elem(s.skip(i + 1), x),
        },
    decreases s.len(),
{
    if s.len() > 0 {
        if s[0] == x {
            assert(s.skip(1) =~= s.drop_first());
        } else {
            lemma_count_elem_after_find(s.drop_first(), x);
            lemma_find_elem(s.drop_first(), x);
            match find_elem(s.drop_first(), x) {
                None => {},
                Some(i) => {
                    assert(s.skip(i + 2) =~= s.drop_first().skip(i + 1));
                },
            }
        }
    }
}

/// How `split_elem` decomposes at the first occurrence of `x`.
pub proof fn lemma_split_elem_step<A>(s: Seq<A>, x: A)
    ensures
        match find_elem(s, x) {
            None => split_elem(s, x) == seq![s],
            Some(i) => split_elem(s, x) == seq![s.take(i)] + split_elem(s.skip(i + 1), x),
        },
    decreases s.len(),
{
    if s.len() == 0 {
        assert(split_elem(s, x) =~~= seq![s]);
    } else if s[0] == x {
        assert(s.skip(1) =~= s.drop_first());
        assert(s.take(0) =~= Seq::<A>::empty());
        assert(split_elem(s, x) =~~= seq![s.take(0)] + split_elem(s.skip(1), x));
    } else {
        lemma_split_elem_step(s.drop_first(), x);
        lemma_find_elem(s.drop_first(), x);
        match find_elem(s.drop_first(), x) {
            None => {
                lemma_split_elem_len(s.drop_first(), x);
                assert(seq![s[0]] + s.drop_first() =~= s);
                assert(split_elem(s, x) =~~= seq![s]);
            },
            Some(i) => {
                lemma_split_elem_len(s.skip(i + 2), x);
                assert(seq![s[0]] + s.drop_first().take(i) =~= s.take(i + 1));
                assert(s.drop_first().skip(i + 1) =~= s.skip(i + 2));
                assert(split_elem(s, x) =~~= seq![s.take(i + 1)] + split_elem(s.skip(i + 2), x));
            },
        }
    }
}

/// A split has one more piece than there are separators.
pub proof fn lemma_split_elem_len<A>(s: Seq<A>, x: A)
    ensures
        split_elem(s, x).len() == count_elem(s, x) + 1,
    decreases s.len(),
{
    if s.len() > 0 {
        lemma_split_elem_len(s.drop_first(), x);
    }
}

} // verus!
