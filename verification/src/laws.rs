//! General laws of the fold containers, stated over the models that the
//! containers' contracts use and proved once and for all.

use vstd::prelude::*;
use crate::fold_settings::FoldSettings;
use crate::fold_settings::fold_m;
use crate::fold_settings::lemma_fold_m_concat;
use crate::fold_settings::MaxI64Settings;
use crate::fold_simplification::FoldSimplification;
use crate::fold_simplification::FoldPredicate;
use crate::fold_simplification::fold2_m;
use crate::fold_simplification::lemma_fold2_m_concat;
use crate::fold_chain::lfold_of;

verus! {

/// Splitting a sequence at any point and joining the parts back in order
/// restores the sequence, and with it the fold of every prefix: a container
/// split by `take_left` and `drop_left` and re-concatenated is element-wise
/// the original.
pub proof fn lemma_split_rejoin<A>(s: Seq<A>, k: int)
    requires
        0 <= k <= s.len(),
    ensures
        s.take(k) + s.skip(k) == s,
{
    assert(s.take(k) + s.skip(k) =~= s);
}

/// The fold of a split-and-rejoined sequence is the combination of the
/// folds of its two parts, and equals the fold of the original.
pub proof fn lemma_split_rejoin_fold<T, D, S: FoldSettings<T, D>>(s: Seq<T>, k: int)
    requires
        0 <= k <= s.len(),
    ensures
        S::sop(fold_m::<T, D, S>(s.take(k)), fold_m::<T, D, S>(s.skip(k))) == fold_m::<T, D, S>(
            s,
        ),
{
    lemma_split_rejoin(s, k);
    lemma_fold_m_concat::<T, D, S>(s.take(k), s.skip(k));
}

/// Removing the first element of a sequence and putting it back restores
/// the element sequence, and with it every subtree fold, since the folds a
/// well-formed container caches are determined by its element sequence.
pub proof fn lemma_pop_append_restores<A>(s: Seq<A>)
    requires
        s.len() > 0,
    ensures
        seq![s[0]] + s.skip(1) == s,
{
    assert(seq![s[0]] + s.skip(1) =~= s);
}

/// A predicate that never holds puts the search boundary at the far end:
/// `take_left_until` keeps the entire view and `drop_left_until` keeps
/// nothing. `k` is the boundary position that the search contract
/// guarantees.
pub proof fn lemma_never_satisfied_boundary<
    T,
    D,
    S: FoldSettings<T, D>,
    Si: FoldSimplification<T, D, S>,
    Pr: FoldPredicate<T, D, S, Si>,
>(pr: Pr, e: Seq<T>, reversed: bool, k: int)
    requires
        forall|m: Si::M2| !pr.p(m),
        0 <= k <= e.len(),
        k < e.len() ==> pr.p(lfold_of::<T, D, S, Si>(e, reversed, k + 1)),
    ensures
        k == e.len(),
{
}

/// A predicate that always holds puts the search boundary at the near end:
/// `take_left_until` keeps nothing and `drop_left_until` keeps the entire
/// view. `k` is the boundary position that the search contract guarantees.
pub proof fn lemma_always_satisfied_boundary<
    T,
    D,
    S: FoldSettings<T, D>,
    Si: FoldSimplification<T, D, S>,
    Pr: FoldPredicate<T, D, S, Si>,
>(pr: Pr, e: Seq<T>, reversed: bool, k: int)
    requires
        forall|m: Si::M2| pr.p(m),
        0 <= k <= e.len(),
        k > 0 ==> !pr.p(lfold_of::<T, D, S, Si>(e, reversed, k)),
    ensures
        k == 0,
{
}

/// The simplified fold of a sequence is the simplification of its plain
/// fold.
pub proof fn lemma_simplified_fold<T, D, S: FoldSettings<T, D>, Si: FoldSimplification<T, D, S>>(
    s: Seq<T>,
)
    ensures
        fold2_m::<T, D, S, Si>(s) == Si::smap(fold_m::<T, D, S>(s)),
{
}

/// The fold of a sequence traversed in reverse with the arguments of the
/// combining operation swapped: what a reversed view computes when it folds
/// its elements in its own traversal order.
pub open spec fn fold2_flip_m<T, D, S: FoldSettings<T, D>, Si: FoldSimplification<T, D, S>>(
    s: Seq<T>,
) -> Si::M2
    decreases s.len(),
{
    if s.len() == 0 {
        Si::smap(S::sempty())
    } else {
        Si::sop2(
            Si::smap(S::sdelta(s.last())),
            fold2_flip_m::<T, D, S, Si>(s.drop_last()),
        )
    }
}

/// Reversing a view does not change its fold: folding the reversed element
/// order with the swapped combining operation gives the fold of the
/// original order.
pub proof fn lemma_fold_reversed_orientation<
    T,
    D,
    S: FoldSettings<T, D>,
    Si: FoldSimplification<T, D, S>,
>(s: Seq<T>)
    ensures
        fold2_flip_m::<T, D, S, Si>(s.reverse()) == fold2_m::<T, D, S, Si>(s),
    decreases s.len(),
{
    if s.len() == 0 {
        assert(s.reverse().len() == 0);
        assert(fold2_m::<T, D, S, Si>(s) == Si::smap(S::sempty()));
    } else {
        let rest = s.skip(1);
        assert(s.reverse().last() == s[0]);
        assert(s.reverse().drop_last() =~= rest.reverse());
        lemma_fold_reversed_orientation::<T, D, S, Si>(rest);
        assert(seq![s[0]].drop_last() =~= Seq::<T>::empty());
        lemma_fold2_m_concat::<T, D, S, Si>(seq![s[0]], rest);
        crate::fold_settings::lemma_fold_m_singleton::<T, D, S>(s[0]);
        assert(seq![s[0]] + rest =~= s);
    }
}

/// The fold of a sequence under the running-maximum settings stays at or
/// below a threshold exactly when every element does: the boundary that a
/// fold-driven search finds for "the maximum exceeds `t`" is the longest
/// prefix all of whose elements are at most `t`.
pub proof fn lemma_max_fold_bound(s: Seq<i64>, t: i64)
    ensures
        (fold_m::<i64, i64, MaxI64Settings>(s) <= t) <==> (forall|i: int|
            0 <= i < s.len() ==> s[i] <= t),
    decreases s.len(),
{
    if s.len() > 0 {
        lemma_max_fold_bound(s.drop_last(), t);
        if fold_m::<i64, i64, MaxI64Settings>(s) <= t {
            assert forall|i: int| 0 <= i < s.len() implies s[i] <= t by {
                if i < s.len() - 1 {
                    assert(s.drop_last()[i] == s[i]);
                }
            }
        }
    }
}

} // verus!

verus! {

/// The simplified fold written directly as a left fold over the simplified
/// deltas of the elements.
pub open spec fn fold2_direct_m<T, D, S: FoldSettings<T, D>, Si: FoldSimplification<T, D, S>>(
    s: Seq<T>,
) -> Si::M2
    decreases s.len(),
{
    if s.len() == 0 {
        Si::smap(S::sempty())
    } else {
        Si::sop2(
            fold2_direct_m::<T, D, S, Si>(s.drop_last()),
            Si::smap(S::sdelta(s.last())),
        )
    }
}

/// The fold a view reports equals the left fold of the simplified deltas of
/// its elements: combining the elements' deltas one by one with the
/// simplified operation gives the same answer as simplifying the combined
/// fold.
pub proof fn lemma_fold_is_foldl<T, D, S: FoldSettings<T, D>, Si: FoldSimplification<T, D, S>>(
    s: Seq<T>,
)
    ensures
        fold2_m::<T, D, S, Si>(s) == fold2_direct_m::<T, D, S, Si>(s),
    decreases s.len(),
{
    if s.len() > 0 {
        lemma_fold_is_foldl::<T, D, S, Si>(s.drop_last());
        Si::lemma_hom(fold_m::<T, D, S>(s.drop_last()), S::sdelta(s.last()));
    }
}

} // verus!
