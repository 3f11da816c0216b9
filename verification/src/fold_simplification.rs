//! Secondary monoids that a view can consult in place of the stored one;
//! see [`FoldSimplification`].

use vstd::prelude::*;
use crate::fold_settings::FoldSettings;
use crate::fold_settings::fold_m;
use crate::fold_settings::lemma_fold_m_concat;
use crate::fold_settings::sat_add;
use crate::fold_settings::lemma_sat_add_assoc;
use crate::fold_settings::exec_sat_add;

verus! {

/// A simplification maps the deltas of a fold, of type `D`, to cheaper values
/// of type `D2`, and supplies the operation `op2` under which the map is a
/// monoid homomorphism: simplifying a combination gives the combination of the
/// simplifications. A view that carries a simplification answers fold queries
/// in `D2` without ever building a `D` for the whole range.
///
/// As in [`FoldSettings`](crate::fold_settings::FoldSettings), the simplified
/// deltas are abstracted by models of type [`M2`](FoldSimplification::M2), and
/// the homomorphism law [`lemma_hom`](FoldSimplification::lemma_hom) is stated
/// over models. The executable operations receive the settings of the
/// underlying fold, so that a simplification needs no state of its own.
///
/// The trivial simplification `()` leaves the fold as it is.
pub trait FoldSimplification<T, D, S: FoldSettings<T, D>>: Sized + Copy {
    /// The simplified delta type.
    type D2;

    /// The mathematical model of a simplified delta.
    type M2;

    /// The model of a simplified delta value.
    spec fn md2(d: Self::D2) -> Self::M2;

    /// The model-level simplification map.
    spec fn smap(m: S::M) -> Self::M2;

    /// The model-level simplified combining operation.
    spec fn sop2(a: Self::M2, b: Self::M2) -> Self::M2;

    /// The simplification map is a monoid homomorphism.
    proof fn lemma_hom(a: S::M, b: S::M)
        ensures
            Self::smap(S::sop(a, b)) == Self::sop2(Self::smap(a), Self::smap(b)),
    ;

    /// Converts a delta to its simplified form.
    fn simplify(&self, s: &S, d: &D) -> (r: Self::D2)
        ensures
            Self::md2(r) == Self::smap(S::md(*d)),
    ;

    /// Performs the simplified fold operation.
    fn op2(&self, s: &S, a: Self::D2, b: Self::D2) -> (r: Self::D2)
        ensures
            Self::md2(r) == Self::sop2(Self::md2(a), Self::md2(b)),
    ;

    /// Creates the simplified form of the empty delta.
    fn empty2(&self, s: &S) -> (r: Self::D2)
        ensures
            Self::md2(r) == Self::smap(S::sempty()),
    ;

    /// Gets the simplified delta of an element.
    fn delta2(&self, s: &S, t: &T) -> (r: Self::D2)
        ensures
            Self::md2(r) == Self::smap(S::sdelta(*t)),
    ;

    /// Duplicates a simplified delta, preserving its model.
    fn clone_d2(&self, s: &S, d: &Self::D2) -> (r: Self::D2)
        ensures
            Self::md2(r) == Self::md2(*d),
    ;
}

/// The trivial simplification: the simplified fold is the fold itself.
/// A view that has not been simplified carries this one.
#[derive(Clone, Copy)]
pub struct NoSimplification;

impl<T, D, S: FoldSettings<T, D>> FoldSimplification<T, D, S> for NoSimplification {
    type D2 = D;

    type M2 = S::M;

    open spec fn md2(d: D) -> S::M {
        S::md(d)
    }

    open spec fn smap(m: S::M) -> S::M {
        m
    }

    open spec fn sop2(a: S::M, b: S::M) -> S::M {
        S::sop(a, b)
    }

    proof fn lemma_hom(a: S::M, b: S::M) {
    }

    fn simplify(&self, s: &S, d: &D) -> (r: D) {
        s.clone_delta(d)
    }

    fn op2(&self, s: &S, a: D, b: D) -> (r: D) {
        s.op(a, b)
    }

    fn empty2(&self, s: &S) -> (r: D) {
        s.empty()
    }

    fn delta2(&self, s: &S, t: &T) -> (r: D) {
        s.delta_of(t)
    }

    fn clone_d2(&self, s: &S, d: &D) -> (r: D) {
        s.clone_delta(d)
    }
}

/// A predicate over simplified folds, used to drive binary-search slicing.
/// The executable test must agree with a model-level predicate
/// [`p`](FoldPredicate::p).
pub trait FoldPredicate<T, D, S: FoldSettings<T, D>, Si: FoldSimplification<T, D, S>>: Sized {
    /// The model-level predicate.
    spec fn p(&self, m: Si::M2) -> bool;

    /// Tests the predicate on a simplified delta.
    fn test(&self, d: &Si::D2) -> (r: bool)
        ensures
            r == self.p(Si::md2(*d)),
    ;
}

/// A predicate behaves well under binary search from the left when, once it
/// holds of a cumulative fold, it keeps holding however the fold is extended
/// on the right.
pub open spec fn monotone_pred<
    T,
    D,
    S: FoldSettings<T, D>,
    Si: FoldSimplification<T, D, S>,
    Pr: FoldPredicate<T, D, S, Si>,
>(pr: Pr) -> bool {
    forall|a: Si::M2, b: Si::M2| pr.p(a) ==> #[trigger] pr.p(Si::sop2(a, b))
}

/// The mirror of [`monotone_pred`], for searches that start from the right:
/// once the predicate holds of a cumulative fold, it keeps holding however
/// the fold is extended on the left.
pub open spec fn monotone_pred_rev<
    T,
    D,
    S: FoldSettings<T, D>,
    Si: FoldSimplification<T, D, S>,
    Pr: FoldPredicate<T, D, S, Si>,
>(pr: Pr) -> bool {
    forall|a: Si::M2, b: Si::M2| pr.p(a) ==> #[trigger] pr.p(Si::sop2(b, a))
}

/// The model-level simplified fold of a sequence of elements: the
/// simplification map applied to the model-level fold.
pub open spec fn fold2_m<T, D, S: FoldSettings<T, D>, Si: FoldSimplification<T, D, S>>(
    s: Seq<T>,
) -> Si::M2 {
    Si::smap(fold_m::<T, D, S>(s))
}

/// The simplified fold of a concatenation is the simplified combination of
/// the simplified folds of the parts.
pub proof fn lemma_fold2_m_concat<T, D, S: FoldSettings<T, D>, Si: FoldSimplification<T, D, S>>(
    a: Seq<T>,
    b: Seq<T>,
)
    ensures
        fold2_m::<T, D, S, Si>(a + b) == Si::sop2(
            fold2_m::<T, D, S, Si>(a),
            fold2_m::<T, D, S, Si>(b),
        ),
{
    lemma_fold_m_concat::<T, D, S>(a, b);
    Si::lemma_hom(fold_m::<T, D, S>(a), fold_m::<T, D, S>(b));
}

/// For a predicate that is monotone from the left, a satisfied prefix fold
/// stays satisfied when the prefix grows to the right.
pub proof fn lemma_monotone_prefix_extends<
    T,
    D,
    S: FoldSettings<T, D>,
    Si: FoldSimplification<T, D, S>,
    Pr: FoldPredicate<T, D, S, Si>,
>(pr: Pr, s: Seq<T>, j: int, i: int)
    requires
        monotone_pred::<T, D, S, Si, Pr>(pr),
        0 <= j <= i <= s.len(),
        pr.p(fold2_m::<T, D, S, Si>(s.subrange(0, j))),
    ensures
        pr.p(fold2_m::<T, D, S, Si>(s.subrange(0, i))),
{
    assert(s.subrange(0, i) =~= s.subrange(0, j) + s.subrange(j, i));
    lemma_fold2_m_concat::<T, D, S, Si>(s.subrange(0, j), s.subrange(j, i));
}

/// For a predicate that is monotone from the right, a satisfied suffix fold
/// stays satisfied when the suffix grows to the left.
pub proof fn lemma_monotone_suffix_extends<
    T,
    D,
    S: FoldSettings<T, D>,
    Si: FoldSimplification<T, D, S>,
    Pr: FoldPredicate<T, D, S, Si>,
>(pr: Pr, s: Seq<T>, j: int, i: int)
    requires
        monotone_pred_rev::<T, D, S, Si, Pr>(pr),
        0 <= i <= j <= s.len(),
        pr.p(fold2_m::<T, D, S, Si>(s.subrange(j, s.len() as int))),
    ensures
        pr.p(fold2_m::<T, D, S, Si>(s.subrange(i, s.len() as int))),
{
    assert(s.subrange(i, s.len() as int) =~= s.subrange(i, j) + s.subrange(j, s.len() as int));
    lemma_fold2_m_concat::<T, D, S, Si>(s.subrange(i, j), s.subrange(j, s.len() as int));
}

} // verus!

verus! {

/// Simplifies the fold of [`ConcatSettings`](crate::fold_settings::ConcatSettings)
/// from the concatenated text to its length: lengths add (saturating at
/// `usize::MAX`) where texts concatenate.
#[derive(Clone, Copy)]
pub struct StringLenSimplification;

/// The length of a text, saturated at `usize::MAX`.
pub open spec fn sat_len(m: Seq<char>) -> usize {
    if m.len() > usize::MAX {
        usize::MAX
    } else {
        m.len() as usize
    }
}

impl FoldSimplification<String, String, crate::fold_settings::ConcatSettings> for StringLenSimplification {
    type D2 = usize;

    type M2 = usize;

    open spec fn md2(d: usize) -> usize {
        d
    }

    open spec fn smap(m: Seq<char>) -> usize {
        sat_len(m)
    }

    open spec fn sop2(a: usize, b: usize) -> usize {
        sat_add(a, b)
    }

    proof fn lemma_hom(a: Seq<char>, b: Seq<char>) {
    }

    fn simplify(&self, s: &crate::fold_settings::ConcatSettings, d: &String) -> (r: usize) {
        d.as_str().unicode_len()
    }

    fn op2(&self, s: &crate::fold_settings::ConcatSettings, a: usize, b: usize) -> (r: usize) {
        exec_sat_add(a, b)
    }

    fn empty2(&self, s: &crate::fold_settings::ConcatSettings) -> (r: usize) {
        0
    }

    fn delta2(&self, s: &crate::fold_settings::ConcatSettings, t: &String) -> (r: usize) {
        t.as_str().unicode_len()
    }

    fn clone_d2(&self, s: &crate::fold_settings::ConcatSettings, d: &usize) -> (r: usize) {
        *d
    }
}

/// The predicate "the cumulative fold exceeds this threshold", for folds
/// whose model is a `usize`. It behaves well under binary search whenever
/// the simplified combining operation never shrinks its arguments, as
/// saturating addition does not.
#[derive(Clone, Copy)]
pub struct UsizeAbove(pub usize);

impl FoldPredicate<
    String,
    usize,
    crate::fold_settings::LenSumSettings,
    NoSimplification,
> for UsizeAbove {
    open spec fn p(&self, m: usize) -> bool {
        m > self.0
    }

    fn test(&self, d: &usize) -> (r: bool) {
        *d > self.0
    }
}

impl FoldPredicate<
    usize,
    usize,
    crate::fold_settings::AddUsizeSettings,
    NoSimplification,
> for UsizeAbove {
    open spec fn p(&self, m: usize) -> bool {
        m > self.0
    }

    fn test(&self, d: &usize) -> (r: bool) {
        *d > self.0
    }
}

impl FoldPredicate<
    String,
    String,
    crate::fold_settings::ConcatSettings,
    StringLenSimplification,
> for UsizeAbove {
    open spec fn p(&self, m: usize) -> bool {
        m > self.0
    }

    fn test(&self, d: &usize) -> (r: bool) {
        *d > self.0
    }
}

/// [`UsizeAbove`] behaves well under binary search from either side over
/// the length-sum fold of text elements.
pub proof fn lemma_usize_above_monotone_len_sum(pr: UsizeAbove)
    ensures
        monotone_pred::<String, usize, crate::fold_settings::LenSumSettings, NoSimplification, UsizeAbove>(pr),
        monotone_pred_rev::<String, usize, crate::fold_settings::LenSumSettings, NoSimplification, UsizeAbove>(pr),
{
}

/// [`UsizeAbove`] behaves well under binary search from either side over
/// the saturating sum of `usize` elements.
pub proof fn lemma_usize_above_monotone_add(pr: UsizeAbove)
    ensures
        monotone_pred::<usize, usize, crate::fold_settings::AddUsizeSettings, NoSimplification, UsizeAbove>(pr),
        monotone_pred_rev::<usize, usize, crate::fold_settings::AddUsizeSettings, NoSimplification, UsizeAbove>(pr),
{
}

/// [`UsizeAbove`] behaves well under binary search from either side over
/// concatenated text simplified to its length.
pub proof fn lemma_usize_above_monotone_len_simp(pr: UsizeAbove)
    ensures
        monotone_pred::<String, String, crate::fold_settings::ConcatSettings, StringLenSimplification, UsizeAbove>(pr),
        monotone_pred_rev::<String, String, crate::fold_settings::ConcatSettings, StringLenSimplification, UsizeAbove>(pr),
{
}

/// The predicate "the cumulative fold exceeds this threshold", for folds
/// whose model is an `i64`, such as a running maximum.
#[derive(Clone, Copy)]
pub struct I64Above(pub i64);

impl FoldPredicate<
    i64,
    i64,
    crate::fold_settings::MaxI64Settings,
    NoSimplification,
> for I64Above {
    open spec fn p(&self, m: i64) -> bool {
        m > self.0
    }

    fn test(&self, d: &i64) -> (r: bool) {
        *d > self.0
    }
}

/// [`I64Above`] behaves well under binary search from either side over a
/// running maximum of `i64` elements.
pub proof fn lemma_i64_above_monotone(pr: I64Above)
    ensures
        monotone_pred::<i64, i64, crate::fold_settings::MaxI64Settings, NoSimplification, I64Above>(pr),
        monotone_pred_rev::<i64, i64, crate::fold_settings::MaxI64Settings, NoSimplification, I64Above>(pr),
{
}

} // verus!
