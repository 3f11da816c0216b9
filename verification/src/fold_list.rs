//! [`FoldList`]: a [`FoldChain`](crate::fold_chain::FoldChain) that also
//! keeps track of element counts, which adds index-based operations.

use vstd::prelude::*;
use crate::fold_settings::FoldSettings;
use crate::fold_settings::SettingsWithSize;
use crate::fold_settings::fold_m;
use crate::fold_settings::lemma_sized_fold_snd;
use crate::fold_simplification::FoldSimplification;
use crate::fold_simplification::FoldPredicate;
use crate::fold_simplification::NoSimplification;
use crate::fold_simplification::fold2_m;
use crate::fold_chain::FoldChain;
use crate::fold_chain::lfold_of;
use crate::fold_chain::rfold_of;
use crate::fold_chain::well_behaved_for;
use crate::fold_chain::boundary_left_in;
use crate::fold_chain::boundary_right_in;
use crate::fold_chain::lemma_take_left_part;
use crate::fold_chain::lemma_drop_left_part;
use crate::fold_chain::lemma_take_right_part;
use crate::fold_chain::lemma_drop_right_part;
use crate::fold_chain::lemma_remove_in_range;
use crate::fold_chain::lemma_insert_in_range;
use crate::fold_chain::lemma_update_in_range;
use crate::fold_chain::lemma_splice_in_range;
use crate::fold_simplification::monotone_pred;
use crate::fold_simplification::monotone_pred_rev;

verus! {

/// Lifts a simplification of a plain fold to the size-counting fold that
/// backs a [`FoldList`]: the count component is ignored and the plain
/// component is simplified as before.
#[derive(Clone, Copy)]
pub struct ListLevelSimp<Si>(pub Si);

impl<T, D, S: FoldSettings<T, D>, Si: FoldSimplification<T, D, S>> FoldSimplification<
    T,
    (usize, D),
    SettingsWithSize<S>,
> for ListLevelSimp<Si> {
    type D2 = Si::D2;

    type M2 = Si::M2;

    open spec fn md2(d: Si::D2) -> Si::M2 {
        Si::md2(d)
    }

    open spec fn smap(m: (usize, S::M)) -> Si::M2 {
        Si::smap(m.1)
    }

    open spec fn sop2(a: Si::M2, b: Si::M2) -> Si::M2 {
        Si::sop2(a, b)
    }

    proof fn lemma_hom(a: (usize, S::M), b: (usize, S::M)) {
        Si::lemma_hom(a.1, b.1);
    }

    fn simplify(&self, s: &SettingsWithSize<S>, d: &(usize, D)) -> (r: Si::D2) {
        self.0.simplify(&s.0, &d.1)
    }

    fn op2(&self, s: &SettingsWithSize<S>, a: Si::D2, b: Si::D2) -> (r: Si::D2) {
        self.0.op2(&s.0, a, b)
    }

    fn empty2(&self, s: &SettingsWithSize<S>) -> (r: Si::D2) {
        self.0.empty2(&s.0)
    }

    fn delta2(&self, s: &SettingsWithSize<S>, t: &T) -> (r: Si::D2) {
        self.0.delta2(&s.0, t)
    }

    fn clone_d2(&self, s: &SettingsWithSize<S>, d: &Si::D2) -> (r: Si::D2) {
        self.0.clone_d2(&s.0, d)
    }
}

/// Lifts a predicate over a plain fold's simplified deltas to the
/// size-counting fold that backs a [`FoldList`].
pub struct ListPred<Pr>(pub Pr);

impl<
    T,
    D,
    S: FoldSettings<T, D>,
    Si: FoldSimplification<T, D, S>,
    Pr: FoldPredicate<T, D, S, Si>,
> FoldPredicate<T, (usize, D), SettingsWithSize<S>, ListLevelSimp<Si>> for ListPred<Pr> {
    open spec fn p(&self, m: Si::M2) -> bool {
        self.0.p(m)
    }

    fn test(&self, d: &Si::D2) -> (r: bool) {
        self.0.test(d)
    }
}

/// The simplified fold of a sequence reads the same whether it is taken over
/// the plain fold or over the size-counting fold that backs a [`FoldList`].
pub proof fn lemma_list_fold2<T, D, S: FoldSettings<T, D>, Si: FoldSimplification<T, D, S>>(
    s: Seq<T>,
)
    ensures
        fold2_m::<T, (usize, D), SettingsWithSize<S>, ListLevelSimp<Si>>(s) == fold2_m::<
            T,
            D,
            S,
            Si,
        >(s),
{
    lemma_sized_fold_snd::<T, D, S>(s);
}

/// A list-like container, stored as a balanced tree, that maintains both a
/// user-defined fold and element counts, so that folds of contiguous ranges,
/// binary searches over cumulative folds, and index-based operations all
/// take logarithmic time.
///
/// Every `FoldList` is a [`FoldChain`] whose deltas also count elements; the
/// underlying chain has delta type `(usize, D)`.
pub struct FoldList<T, D, S: FoldSettings<T, D>> {
    /// The size-counting chain this list is built on.
    pub underlying: FoldChain<T, (usize, D), SettingsWithSize<S>>,
}

impl<T, D, S: FoldSettings<T, D>> View for FoldList<T, D, S> {
    type V = Seq<T>;

    open spec fn view(&self) -> Seq<T> {
        self.underlying@
    }
}

impl<T, D, S: FoldSettings<T, D>> FoldList<T, D, S> {
    /// Well-formedness: the underlying chain is well-formed.
    pub open spec fn wf(self) -> bool {
        self.underlying.wf()
    }

    /// The settings value this list folds with.
    pub open spec fn spec_settings(self) -> S {
        self.underlying.spec_settings().0
    }

    /// An empty list that folds as `settings` directs.
    pub fn new(settings: S) -> (r: Self)
        ensures
            r.wf(),
            r@ == Seq::<T>::empty(),
            r.spec_settings() == settings,
    {
        FoldList { underlying: FoldChain::from_settings(SettingsWithSize(settings)) }
    }

    /// An empty list that folds as `settings` directs.
    pub fn from_settings(settings: S) -> (r: Self)
        ensures
            r.wf(),
            r@ == Seq::<T>::empty(),
            r.spec_settings() == settings,
    {
        Self::new(settings)
    }

    /// A list holding the given elements in order.
    pub fn from_iter(settings: S, items: Vec<T>) -> (r: Self)
        ensures
            r.wf(),
            r@ == items@,
            r.spec_settings() == settings,
    {
        FoldList { underlying: FoldChain::from_iter(SettingsWithSize(settings), items) }
    }

    /// The settings value this list folds with.
    pub fn get_settings(&self) -> (r: S)
        ensures
            r == self.spec_settings(),
    {
        self.underlying.get_settings().0
    }

    /// The simplification currently applied to this list, which is none.
    pub fn get_current_simplification(&self) -> (r: NoSimplification) {
        NoSimplification
    }

    /// The size-counting chain this list is built on.
    pub fn as_sized_chain(&self) -> (r: &FoldChain<T, (usize, D), SettingsWithSize<S>>)
        ensures
            r == &self.underlying,
    {
        &self.underlying
    }

    /// The fold of all elements, combined left to right.
    pub fn fold(&self) -> (r: D)
        requires
            self.wf(),
        ensures
            S::md(r) == fold_m::<T, D, S>(self@),
    {
        let sized = self.underlying.fold();
        proof {
            lemma_sized_fold_snd::<T, D, S>(self@);
        }
        sized.1
    }

    /// The number of elements.
    pub fn len(&self) -> (r: usize)
        requires
            self.wf(),
        ensures
            r == self@.len(),
    {
        self.underlying.len_internal()
    }

    /// Whether the list holds no elements.
    pub fn is_empty(&self) -> (r: bool)
        requires
            self.wf(),
        ensures
            r == (self@.len() == 0),
    {
        self.underlying.is_empty()
    }

    /// The leftmost element, if any.
    pub fn left(&self) -> (r: Option<&T>)
        requires
            self.wf(),
        ensures
            self@.len() == 0 ==> r is None,
            self@.len() > 0 ==> r is Some && *r.unwrap() == self@[0],
    {
        self.underlying.left()
    }

    /// The rightmost element, if any.
    pub fn right(&self) -> (r: Option<&T>)
        requires
            self.wf(),
        ensures
            self@.len() == 0 ==> r is None,
            self@.len() > 0 ==> r is Some && *r.unwrap() == self@[self@.len() - 1],
    {
        self.underlying.right()
    }

    /// The element at a given index, or `None` when the index is out of
    /// bounds.
    pub fn get(&self, index: usize) -> (r: Option<&T>)
        requires
            self.wf(),
        ensures
            index < self@.len() ==> r is Some && *r.unwrap() == self@[index as int],
            index >= self@.len() ==> r is None,
    {
        if index < self.underlying.len_internal() {
            Some(self.underlying.get_index(index))
        } else {
            None
        }
    }

    /// The element at a given index, which must be in bounds.
    pub fn get_at(&self, index: usize) -> (r: &T)
        requires
            self.wf(),
            index < self@.len(),
        ensures
            *r == self@[index as int],
    {
        self.underlying.get_index(index)
    }

    /// Adds an element at the left end.
    pub fn append_left(&mut self, value: T)
        requires
            old(self).wf(),
            old(self)@.len() < usize::MAX,
        ensures
            final(self).wf(),
            final(self)@ == seq![value] + old(self)@,
            final(self).spec_settings() == old(self).spec_settings(),
    {
        self.underlying.append_left(value);
    }

    /// Adds an element at the right end.
    pub fn append_right(&mut self, value: T)
        requires
            old(self).wf(),
            old(self)@.len() < usize::MAX,
        ensures
            final(self).wf(),
            final(self)@ == old(self)@ + seq![value],
            final(self).spec_settings() == old(self).spec_settings(),
    {
        self.underlying.append_right(value);
    }

    /// Removes and returns the leftmost element, or `None` on an empty list.
    pub fn pop_left(&mut self) -> (r: Option<T>)
        requires
            old(self).wf(),
        ensures
            final(self).wf(),
            final(self).spec_settings() == old(self).spec_settings(),
            old(self)@.len() == 0 ==> r is None && final(self)@ == old(self)@,
            old(self)@.len() > 0 ==> r == Some(old(self)@[0]) && final(self)@ == old(self)@.skip(
                1,
            ),
    {
        self.underlying.pop_left()
    }

    /// Removes and returns the rightmost element, or `None` on an empty
    /// list.
    pub fn pop_right(&mut self) -> (r: Option<T>)
        requires
            old(self).wf(),
        ensures
            final(self).wf(),
            final(self).spec_settings() == old(self).spec_settings(),
            old(self)@.len() == 0 ==> r is None && final(self)@ == old(self)@,
            old(self)@.len() > 0 ==> r == Some(old(self)@.last()) && final(self)@ == old(
                self,
            )@.drop_last(),
    {
        self.underlying.pop_right()
    }

    /// Replaces the leftmost element, returning the old one; an empty list
    /// gives the value back as the error.
    pub fn set_left_or_err(&mut self, value: T) -> (r: Result<T, T>)
        requires
            old(self).wf(),
        ensures
            final(self).wf(),
            final(self).spec_settings() == old(self).spec_settings(),
            old(self)@.len() == 0 ==> r == Err::<T, T>(value) && final(self)@ == old(self)@,
            old(self)@.len() > 0 ==> r == Ok::<T, T>(old(self)@[0]) && final(self)@ == old(
                self,
            )@.update(0, value),
    {
        self.underlying.set_left_or_err(value)
    }

    /// Replaces the rightmost element, returning the old one; an empty list
    /// gives the value back as the error.
    pub fn set_right_or_err(&mut self, value: T) -> (r: Result<T, T>)
        requires
            old(self).wf(),
        ensures
            final(self).wf(),
            final(self).spec_settings() == old(self).spec_settings(),
            old(self)@.len() == 0 ==> r == Err::<T, T>(value) && final(self)@ == old(self)@,
            old(self)@.len() > 0 ==> r == Ok::<T, T>(old(self)@.last()) && final(self)@ == old(
                self,
            )@.update(old(self)@.len() - 1, value),
    {
        self.underlying.set_right_or_err(value)
    }

    /// Replaces the leftmost element, returning the old one. The list must
    /// not be empty.
    pub fn set_left(&mut self, value: T) -> (r: T)
        requires
            old(self).wf(),
            old(self)@.len() > 0,
        ensures
            final(self).wf(),
            final(self).spec_settings() == old(self).spec_settings(),
            r == old(self)@[0],
            final(self)@ == old(self)@.update(0, value),
    {
        self.underlying.set_left(value)
    }

    /// Replaces the rightmost element, returning the old one. The list must
    /// not be empty.
    pub fn set_right(&mut self, value: T) -> (r: T)
        requires
            old(self).wf(),
            old(self)@.len() > 0,
        ensures
            final(self).wf(),
            final(self).spec_settings() == old(self).spec_settings(),
            r == old(self)@.last(),
            final(self)@ == old(self)@.update(old(self)@.len() - 1, value),
    {
        self.underlying.set_right(value)
    }

    /// Inserts an element so that it ends up at the given index; the index
    /// may be one past the end.
    pub fn insert_at(&mut self, index: usize, value: T)
        requires
            old(self).wf(),
            index <= old(self)@.len(),
            old(self)@.len() < usize::MAX,
        ensures
            final(self).wf(),
            final(self)@ == old(self)@.insert(index as int, value),
            final(self).spec_settings() == old(self).spec_settings(),
    {
        self.underlying.insert_at_index(index, value);
    }

    /// Removes and returns the element at the given index, which must be in
    /// bounds.
    pub fn remove_at(&mut self, index: usize) -> (r: T)
        requires
            old(self).wf(),
            index < old(self)@.len(),
        ensures
            final(self).wf(),
            final(self)@ == old(self)@.remove(index as int),
            final(self).spec_settings() == old(self).spec_settings(),
            r == old(self)@[index as int],
    {
        self.underlying.remove_at_index(index)
    }

    /// Replaces the element at the given index, returning the old one. The
    /// index must be in bounds.
    pub fn set_at(&mut self, index: usize, value: T) -> (r: T)
        requires
            old(self).wf(),
            index < old(self)@.len(),
        ensures
            final(self).wf(),
            final(self)@ == old(self)@.update(index as int, value),
            final(self).spec_settings() == old(self).spec_settings(),
            r == old(self)@[index as int],
    {
        self.underlying.set_at_index(index, value)
    }

    /// Applies a function to the leftmost element, replacing it with the
    /// result; an empty list is left unchanged and the function unused.
    pub fn update_left<F: FnOnce(T) -> T>(&mut self, f: F) -> (updated: bool)
        requires
            old(self).wf(),
            old(self)@.len() > 0 ==> f.requires((old(self)@[0],)),
        ensures
            final(self).wf(),
            final(self).spec_settings() == old(self).spec_settings(),
            updated == (old(self)@.len() > 0),
            old(self)@.len() == 0 ==> final(self)@ == old(self)@,
            old(self)@.len() > 0 ==> final(self)@ == old(self)@.update(0, final(self)@[0])
                && f.ensures((old(self)@[0],), final(self)@[0]),
    {
        self.underlying.update_left(f)
    }

    /// Applies a function to the rightmost element, replacing it with the
    /// result; an empty list is left unchanged and the function unused.
    pub fn update_right<F: FnOnce(T) -> T>(&mut self, f: F) -> (updated: bool)
        requires
            old(self).wf(),
            old(self)@.len() > 0 ==> f.requires((old(self)@.last(),)),
        ensures
            final(self).wf(),
            final(self).spec_settings() == old(self).spec_settings(),
            updated == (old(self)@.len() > 0),
            old(self)@.len() == 0 ==> final(self)@ == old(self)@,
            old(self)@.len() > 0 ==> final(self)@ == old(self)@.update(
                old(self)@.len() - 1,
                final(self)@.last(),
            ) && f.ensures((old(self)@.last(),), final(self)@.last()),
    {
        self.underlying.update_right(f)
    }

    /// Applies a function to the element at the given index, replacing it
    /// with the result. The index must be in bounds.
    pub fn update_at<F: FnOnce(T) -> T>(&mut self, index: usize, f: F)
        requires
            old(self).wf(),
            index < old(self)@.len(),
            f.requires((old(self)@[index as int],)),
        ensures
            final(self).wf(),
            final(self).spec_settings() == old(self).spec_settings(),
            final(self)@ == old(self)@.update(index as int, final(self)@[index as int]),
            f.ensures((old(self)@[index as int],), final(self)@[index as int]),
    {
        proof {
            old(self).underlying.lemma_len_bound();
        }
        let v = self.underlying.remove_at_index(index);
        let v2 = f(v);
        self.underlying.insert_at_index(index, v2);
        proof {
            assert(old(self)@.remove(index as int).insert(index as int, final(self)@[index as int])
                =~= old(self)@.update(index as int, final(self)@[index as int]));
        }
    }

    /// Removes all elements into a new list, leaving this one empty.
    pub fn take_all(&mut self) -> (r: Self)
        requires
            old(self).wf(),
        ensures
            final(self).wf(),
            final(self)@ == Seq::<T>::empty(),
            final(self).spec_settings() == old(self).spec_settings(),
            r.wf(),
            r@ == old(self)@,
            r.spec_settings() == old(self).spec_settings(),
    {
        FoldList { underlying: self.underlying.take_all() }
    }

    /// Appends every element of another list after this one's elements.
    pub fn append_all_right(&mut self, list: Self)
        requires
            old(self).wf(),
            list.wf(),
            old(self)@.len() + list@.len() <= usize::MAX,
        ensures
            final(self).wf(),
            final(self)@ == old(self)@ + list@,
            final(self).spec_settings() == old(self).spec_settings(),
    {
        self.underlying.append_all_right(list.underlying);
    }

    /// Prepends every element of another list, in its order, before this
    /// one's elements.
    pub fn append_all_left(&mut self, list: Self)
        requires
            old(self).wf(),
            list.wf(),
            old(self)@.len() + list@.len() <= usize::MAX,
        ensures
            final(self).wf(),
            final(self)@ == list@ + old(self)@,
            final(self).spec_settings() == old(self).spec_settings(),
    {
        self.underlying.append_all_left(list.underlying);
    }

    /// Appends the elements of a vector, in order, at the right end.
    pub fn append_right_from_iter(&mut self, items: Vec<T>)
        requires
            old(self).wf(),
            old(self)@.len() + items@.len() <= usize::MAX,
        ensures
            final(self).wf(),
            final(self)@ == old(self)@ + items@,
            final(self).spec_settings() == old(self).spec_settings(),
    {
        self.underlying.append_right_from_iter(items);
    }

    /// Appends each element of a vector, in order, at the left end, so that
    /// the vector's elements end up before the old contents in reverse
    /// order.
    pub fn append_left_from_iter(&mut self, items: Vec<T>)
        requires
            old(self).wf(),
            old(self)@.len() + items@.len() <= usize::MAX,
        ensures
            final(self).wf(),
            final(self)@ == items@.reverse() + old(self)@,
            final(self).spec_settings() == old(self).spec_settings(),
    {
        self.underlying.append_left_from_iter(items);
    }
}

impl<T, D0, G: crate::fold_settings::FoldSemigroup<T, D0>> FoldList<
    T,
    Option<D0>,
    crate::fold_settings::OptSettings<G>,
> {
    /// An empty list over a fold with no identity of its own: the deltas
    /// are lifted into `Option`, with `None` as the empty delta.
    pub fn new_with_opt(semigroup: G) -> (r: Self)
        ensures
            r.wf(),
            r@ == Seq::<T>::empty(),
            r.spec_settings() == (crate::fold_settings::OptSettings(semigroup)),
    {
        FoldList::from_settings(crate::fold_settings::OptSettings(semigroup))
    }

    /// A list over a fold with no identity of its own, holding the given
    /// elements in order.
    pub fn new_with_opt_from_iter(semigroup: G, items: Vec<T>) -> (r: Self)
        ensures
            r.wf(),
            r@ == items@,
            r.spec_settings() == (crate::fold_settings::OptSettings(semigroup)),
    {
        FoldList::from_iter(crate::fold_settings::OptSettings(semigroup), items)
    }
}

impl<T, D, S: FoldSettings<T, D>> FoldChain<T, (usize, D), SettingsWithSize<S>> {
    /// Interprets a size-counting chain as the [`FoldList`] it backs.
    pub fn as_fold_list(self) -> (r: FoldList<T, D, S>)
        ensures
            r.underlying == self,
    {
        FoldList { underlying: self }
    }
}

/// The cumulative fold of the leading `j` elements of a possibly reversed
/// range reads the same over the plain fold as over the size-counting fold
/// that backs a [`FoldList`].
pub proof fn lemma_list_lfold<T, D, S: FoldSettings<T, D>, Si: FoldSimplification<T, D, S>>(
    e: Seq<T>,
    reversed: bool,
    j: int,
)
    requires
        0 <= j <= e.len(),
    ensures
        lfold_of::<T, (usize, D), SettingsWithSize<S>, ListLevelSimp<Si>>(e, reversed, j)
            == lfold_of::<T, D, S, Si>(e, reversed, j),
        rfold_of::<T, (usize, D), SettingsWithSize<S>, ListLevelSimp<Si>>(e, reversed, j)
            == rfold_of::<T, D, S, Si>(e, reversed, j),
{
    lemma_list_fold2::<T, D, S, Si>(e.subrange(0, j));
    lemma_list_fold2::<T, D, S, Si>(e.subrange(e.len() - j, e.len() as int));
}

/// A predicate that is monotone for the plain fold is monotone for the
/// size-counting fold that backs a [`FoldList`], in both directions of
/// search.
pub proof fn lemma_list_monotone<
    T,
    D,
    S: FoldSettings<T, D>,
    Si: FoldSimplification<T, D, S>,
    Pr: FoldPredicate<T, D, S, Si>,
>(pr: Pr)
    ensures
        monotone_pred::<T, D, S, Si, Pr>(pr) ==> monotone_pred::<
            T,
            (usize, D),
            SettingsWithSize<S>,
            ListLevelSimp<Si>,
            ListPred<Pr>,
        >(ListPred(pr)),
        monotone_pred_rev::<T, D, S, Si, Pr>(pr) ==> monotone_pred_rev::<
            T,
            (usize, D),
            SettingsWithSize<S>,
            ListLevelSimp<Si>,
            ListPred<Pr>,
        >(ListPred(pr)),
{
    if monotone_pred::<T, D, S, Si, Pr>(pr) {
        assert forall|a: Si::M2, b: Si::M2|
            ListPred(pr).p(a) implies #[trigger] ListPred(pr).p(
            <ListLevelSimp<Si> as FoldSimplification<T, (usize, D), SettingsWithSize<S>>>::sop2(
                a,
                b,
            ),
        ) by {
            assert(pr.p(Si::sop2(a, b)));
        }
    }
    if monotone_pred_rev::<T, D, S, Si, Pr>(pr) {
        assert forall|a: Si::M2, b: Si::M2|
            ListPred(pr).p(a) implies #[trigger] ListPred(pr).p(
            <ListLevelSimp<Si> as FoldSimplification<T, (usize, D), SettingsWithSize<S>>>::sop2(
                b,
                a,
            ),
        ) by {
            assert(pr.p(Si::sop2(b, a)));
        }
    }
}

/// An immutable view of a contiguous range of the list behind a
/// [`FoldList`], with an orientation and a simplification. View operations
/// narrow the range; they never change the underlying list.
pub struct FoldListSliceFrom<'a, T, D, S: FoldSettings<T, D>, Si: FoldSimplification<T, D, S>> {
    pub(crate) base: &'a FoldChain<T, (usize, D), SettingsWithSize<S>>,
    pub(crate) start: usize,
    pub(crate) end: usize,
    pub(crate) reversed: bool,
    pub(crate) simplification: Si,
}

impl<'a, T, D, S: FoldSettings<T, D>, Si: FoldSimplification<T, D, S>> View for FoldListSliceFrom<'a, T, D, S, Si> {
    type V = Seq<T>;

    closed spec fn view(&self) -> Seq<T> {
        if self.reversed {
            self.base@.subrange(self.start as int, self.end as int).reverse()
        } else {
            self.base@.subrange(self.start as int, self.end as int)
        }
    }
}

impl<'a, T, D, S: FoldSettings<T, D>, Si: FoldSimplification<T, D, S>> FoldListSliceFrom<'a, T, D, S, Si> {
    /// Well-formedness: the underlying list is well-formed and the range
    /// lies within it.
    pub closed spec fn wf(self) -> bool {
        self.base.wf() && self.start <= self.end <= self.base@.len()
    }

    /// The elements of the range in the order of the underlying list,
    /// whatever the orientation of the view.
    pub closed spec fn base_elems(self) -> Seq<T> {
        self.base@.subrange(self.start as int, self.end as int)
    }

    /// Whether this view traverses its range right to left.
    pub closed spec fn is_reversed(self) -> bool {
        self.reversed
    }

    /// The simplification this view consults for folds and searches.
    pub closed spec fn spec_simplification(self) -> Si {
        self.simplification
    }

    /// The settings of the underlying list.
    pub closed spec fn spec_settings(self) -> S {
        self.base.spec_settings().0
    }

    /// The cumulative simplified fold of the first `j` elements of the view
    /// in its orientation, combined in the order of the underlying list.
    pub open spec fn lfold(self, j: int) -> Si::M2 {
        lfold_of::<T, D, S, Si>(self.base_elems(), self.is_reversed(), j)
    }

    /// The cumulative simplified fold of the last `j` elements of the view
    /// in its orientation, combined in the order of the underlying list.
    pub open spec fn rfold(self, j: int) -> Si::M2 {
        rfold_of::<T, D, S, Si>(self.base_elems(), self.is_reversed(), j)
    }

    /// A copy of this view.
    pub fn borrow(&self) -> (r: FoldListSliceFrom<'_, T, D, S, Si>)
        ensures
            r == *self,
    {
        FoldListSliceFrom {
            base: self.base,
            start: self.start,
            end: self.end,
            reversed: self.reversed,
            simplification: self.simplification,
        }
    }

    /// This view itself; immutable views are already immutable.
    pub fn as_imm(self) -> (r: Self)
        ensures
            r == self,
    {
        self
    }

    /// The settings of the underlying list.
    pub fn get_settings(&self) -> (r: S)
        ensures
            r == self.spec_settings(),
    {
        self.base.get_settings().0
    }

    /// The simplification currently applied to this view.
    pub fn get_current_simplification(&self) -> (r: Si)
        ensures
            r == self.spec_simplification(),
    {
        self.simplification
    }

    /// The simplified fold of the view's elements, combined in the order of
    /// the underlying list (reversing a view does not change its fold).
    pub fn fold(&self) -> (r: Si::D2)
        requires
            self.wf(),
        ensures
            Si::md2(r) == fold2_m::<T, D, S, Si>(self.base_elems()),
    {
        let r = self.base.fold_range_in(&ListLevelSimp(self.simplification), self.start, self.end);
        proof {
            lemma_list_fold2::<T, D, S, Si>(self.base_elems());
        }
        r
    }

    /// The number of elements of the view.
    pub fn len(&self) -> (r: usize)
        requires
            self.wf(),
        ensures
            r == self@.len(),
    {
        self.end - self.start
    }

    /// Whether the view holds no elements.
    pub fn is_empty(&self) -> (r: bool)
        requires
            self.wf(),
        ensures
            r == (self@.len() == 0),
    {
        self.start == self.end
    }

    /// The first element of the view in its orientation, if any.
    pub fn left(&self) -> (r: Option<&T>)
        requires
            self.wf(),
        ensures
            self@.len() == 0 ==> r is None,
            self@.len() > 0 ==> r is Some && *r.unwrap() == self@[0],
    {
        if self.start == self.end {
            None
        } else if self.reversed {
            Some(self.base.get_index(self.end - 1))
        } else {
            Some(self.base.get_index(self.start))
        }
    }

    /// The last element of the view in its orientation, if any.
    pub fn right(&self) -> (r: Option<&T>)
        requires
            self.wf(),
        ensures
            self@.len() == 0 ==> r is None,
            self@.len() > 0 ==> r is Some && *r.unwrap() == self@[self@.len() - 1],
    {
        if self.start == self.end {
            None
        } else if self.reversed {
            Some(self.base.get_index(self.start))
        } else {
            Some(self.base.get_index(self.end - 1))
        }
    }

    /// The element at a given index of the view, in its orientation, or
    /// `None` when the index is out of bounds.
    pub fn get(&self, index: usize) -> (r: Option<&T>)
        requires
            self.wf(),
        ensures
            index < self@.len() ==> r is Some && *r.unwrap() == self@[index as int],
            index >= self@.len() ==> r is None,
    {
        if index >= self.end - self.start {
            None
        } else if self.reversed {
            Some(self.base.get_index(self.end - 1 - index))
        } else {
            Some(self.base.get_index(self.start + index))
        }
    }

    /// A view of the same range that traverses it in the opposite direction.
    pub fn view_reversed(self) -> (r: Self)
        requires
            self.wf(),
        ensures
            r.wf(),
            r.base_elems() == self.base_elems(),
            r.is_reversed() == !self.is_reversed(),
            r.spec_simplification() == self.spec_simplification(),
            r.spec_settings() == self.spec_settings(),
            r@ == self@.reverse(),
    {
        let r = FoldListSliceFrom {
            base: self.base,
            start: self.start,
            end: self.end,
            reversed: !self.reversed,
            simplification: self.simplification,
        };
        proof {
            assert(self.base_elems().reverse().reverse() =~= self.base_elems());
        }
        r
    }

    /// Narrows the view to its longest leading part, in its orientation,
    /// whose cumulative fold does not satisfy the predicate. When the
    /// predicate behaves well under binary search, every longer leading part
    /// satisfies it.
    pub fn view_take_left_until<Pr: FoldPredicate<T, D, S, Si>>(self, predicate: Pr) -> (r: Self)
        requires
            self.wf(),
        ensures
            r.wf(),
            r.is_reversed() == self.is_reversed(),
            r.spec_simplification() == self.spec_simplification(),
            r.spec_settings() == self.spec_settings(),
            r@.len() <= self@.len(),
            r@ == self@.take(r@.len() as int),
            r@.len() < self@.len() ==> predicate.p(self.lfold(r@.len() as int + 1)),
            r@.len() > 0 ==> !predicate.p(self.lfold(r@.len() as int)),
            well_behaved_for::<T, D, S, Si, Pr>(predicate, true, self.is_reversed()) ==> forall|i: int|
                r@.len() < i <= self@.len() ==> predicate.p(#[trigger] self.lfold(i)),
    {
        let ghost e = self.base_elems();
        let ghost n = self.end - self.start;
        let k = boundary_left_in(
            self.base,
            self.start,
            self.end,
            self.reversed,
            &ListLevelSimp(self.simplification),
            &ListPred(predicate),
        );
        let (new_start, new_end) = if self.reversed {
            (self.end - k, self.end)
        } else {
            (self.start, self.start + k)
        };
        proof {
            lemma_list_lfold::<T, D, S, Si>(e, self.reversed, k as int);
            if k < self.end - self.start {
                lemma_list_lfold::<T, D, S, Si>(e, self.reversed, k + 1);
            }
            lemma_list_monotone::<T, D, S, Si, Pr>(predicate);
            if well_behaved_for::<T, D, S, Si, Pr>(predicate, true, self.is_reversed()) {
                assert forall|i: int| k < i <= n implies predicate.p(#[trigger] lfold_of::<T, D, S, Si>(
                    e,
                    self.reversed,
                    i,
                )) by {
                    assert(ListPred(predicate).p(lfold_of::<
                        T,
                        (usize, D),
                        SettingsWithSize<S>,
                        ListLevelSimp<Si>,
                    >(e, self.reversed, i)));
                    lemma_list_lfold::<T, D, S, Si>(e, self.reversed, i);
                }
            }
            lemma_take_left_part(
                self.base@,
                self.start as int,
                self.end as int,
                self.reversed,
                k as int,
            );
        }
        FoldListSliceFrom {
            base: self.base,
            start: new_start,
            end: new_end,
            reversed: self.reversed,
            simplification: self.simplification,
        }
    }

    /// Narrows the view to the complement of
    /// [`view_take_left_until`](Self::view_take_left_until).
    pub fn view_drop_left_until<Pr: FoldPredicate<T, D, S, Si>>(self, predicate: Pr) -> (r: Self)
        requires
            self.wf(),
        ensures
            r.wf(),
            r.is_reversed() == self.is_reversed(),
            r.spec_simplification() == self.spec_simplification(),
            r.spec_settings() == self.spec_settings(),
            r@.len() <= self@.len(),
            r@ == self@.skip(self@.len() - r@.len()),
            self@.len() - r@.len() < self@.len() ==> predicate.p(self.lfold(self@.len() - r@.len() + 1)),
            self@.len() - r@.len() > 0 ==> !predicate.p(self.lfold(self@.len() - r@.len())),
            well_behaved_for::<T, D, S, Si, Pr>(predicate, true, self.is_reversed()) ==> forall|i: int|
                self@.len() - r@.len() < i <= self@.len() ==> predicate.p(#[trigger] self.lfold(i)),
    {
        let ghost e = self.base_elems();
        let ghost n = self.end - self.start;
        let k = boundary_left_in(
            self.base,
            self.start,
            self.end,
            self.reversed,
            &ListLevelSimp(self.simplification),
            &ListPred(predicate),
        );
        let (new_start, new_end) = if self.reversed {
            (self.start, self.end - k)
        } else {
            (self.start + k, self.end)
        };
        proof {
            lemma_list_lfold::<T, D, S, Si>(e, self.reversed, k as int);
            if k < self.end - self.start {
                lemma_list_lfold::<T, D, S, Si>(e, self.reversed, k + 1);
            }
            lemma_list_monotone::<T, D, S, Si, Pr>(predicate);
            if well_behaved_for::<T, D, S, Si, Pr>(predicate, true, self.is_reversed()) {
                assert forall|i: int| k < i <= n implies predicate.p(#[trigger] lfold_of::<T, D, S, Si>(
                    e,
                    self.reversed,
                    i,
                )) by {
                    assert(ListPred(predicate).p(lfold_of::<
                        T,
                        (usize, D),
                        SettingsWithSize<S>,
                        ListLevelSimp<Si>,
                    >(e, self.reversed, i)));
                    lemma_list_lfold::<T, D, S, Si>(e, self.reversed, i);
                }
            }
            lemma_drop_left_part(
                self.base@,
                self.start as int,
                self.end as int,
                self.reversed,
                k as int,
            );
        }
        FoldListSliceFrom {
            base: self.base,
            start: new_start,
            end: new_end,
            reversed: self.reversed,
            simplification: self.simplification,
        }
    }

    /// Narrows the view to its longest trailing part, in its orientation,
    /// whose cumulative fold, accumulated from the right end, does not
    /// satisfy the predicate.
    pub fn view_take_right_until<Pr: FoldPredicate<T, D, S, Si>>(self, predicate: Pr) -> (r: Self)
        requires
            self.wf(),
        ensures
            r.wf(),
            r.is_reversed() == self.is_reversed(),
            r.spec_simplification() == self.spec_simplification(),
            r.spec_settings() == self.spec_settings(),
            r@.len() <= self@.len(),
            r@ == self@.skip(self@.len() - r@.len()),
            r@.len() < self@.len() ==> predicate.p(self.rfold(r@.len() as int + 1)),
            r@.len() > 0 ==> !predicate.p(self.rfold(r@.len() as int)),
            well_behaved_for::<T, D, S, Si, Pr>(predicate, false, self.is_reversed()) ==> forall|i: int|
                r@.len() < i <= self@.len() ==> predicate.p(#[trigger] self.rfold(i)),
    {
        let ghost e = self.base_elems();
        let ghost n = self.end - self.start;
        let k = boundary_right_in(
            self.base,
            self.start,
            self.end,
            self.reversed,
            &ListLevelSimp(self.simplification),
            &ListPred(predicate),
        );
        let (new_start, new_end) = if self.reversed {
            (self.start, self.start + k)
        } else {
            (self.end - k, self.end)
        };
        proof {
            lemma_list_lfold::<T, D, S, Si>(e, self.reversed, k as int);
            if k < self.end - self.start {
                lemma_list_lfold::<T, D, S, Si>(e, self.reversed, k + 1);
            }
            lemma_list_monotone::<T, D, S, Si, Pr>(predicate);
            if well_behaved_for::<T, D, S, Si, Pr>(predicate, false, self.is_reversed()) {
                assert forall|i: int| k < i <= n implies predicate.p(#[trigger] rfold_of::<T, D, S, Si>(
                    e,
                    self.reversed,
                    i,
                )) by {
                    assert(ListPred(predicate).p(rfold_of::<
                        T,
                        (usize, D),
                        SettingsWithSize<S>,
                        ListLevelSimp<Si>,
                    >(e, self.reversed, i)));
                    lemma_list_lfold::<T, D, S, Si>(e, self.reversed, i);
                }
            }
            lemma_take_right_part(
                self.base@,
                self.start as int,
                self.end as int,
                self.reversed,
                k as int,
            );
        }
        FoldListSliceFrom {
            base: self.base,
            start: new_start,
            end: new_end,
            reversed: self.reversed,
            simplification: self.simplification,
        }
    }

    /// Narrows the view to the complement of
    /// [`view_take_right_until`](Self::view_take_right_until).
    pub fn view_drop_right_until<Pr: FoldPredicate<T, D, S, Si>>(self, predicate: Pr) -> (r: Self)
        requires
            self.wf(),
        ensures
            r.wf(),
            r.is_reversed() == self.is_reversed(),
            r.spec_simplification() == self.spec_simplification(),
            r.spec_settings() == self.spec_settings(),
            r@.len() <= self@.len(),
            r@ == self@.take(r@.len() as int),
            self@.len() - r@.len() < self@.len() ==> predicate.p(self.rfold(self@.len() - r@.len() + 1)),
            self@.len() - r@.len() > 0 ==> !predicate.p(self.rfold(self@.len() - r@.len())),
            well_behaved_for::<T, D, S, Si, Pr>(predicate, false, self.is_reversed()) ==> forall|i: int|
                self@.len() - r@.len() < i <= self@.len() ==> predicate.p(#[trigger] self.rfold(i)),
    {
        let ghost e = self.base_elems();
        let ghost n = self.end - self.start;
        let k = boundary_right_in(
            self.base,
            self.start,
            self.end,
            self.reversed,
            &ListLevelSimp(self.simplification),
            &ListPred(predicate),
        );
        let (new_start, new_end) = if self.reversed {
            (self.start + k, self.end)
        } else {
            (self.start, self.end - k)
        };
        proof {
            lemma_list_lfold::<T, D, S, Si>(e, self.reversed, k as int);
            if k < self.end - self.start {
                lemma_list_lfold::<T, D, S, Si>(e, self.reversed, k + 1);
            }
            lemma_list_monotone::<T, D, S, Si, Pr>(predicate);
            if well_behaved_for::<T, D, S, Si, Pr>(predicate, false, self.is_reversed()) {
                assert forall|i: int| k < i <= n implies predicate.p(#[trigger] rfold_of::<T, D, S, Si>(
                    e,
                    self.reversed,
                    i,
                )) by {
                    assert(ListPred(predicate).p(rfold_of::<
                        T,
                        (usize, D),
                        SettingsWithSize<S>,
                        ListLevelSimp<Si>,
                    >(e, self.reversed, i)));
                    lemma_list_lfold::<T, D, S, Si>(e, self.reversed, i);
                }
            }
            lemma_drop_right_part(
                self.base@,
                self.start as int,
                self.end as int,
                self.reversed,
                k as int,
            );
        }
        FoldListSliceFrom {
            base: self.base,
            start: new_start,
            end: new_end,
            reversed: self.reversed,
            simplification: self.simplification,
        }
    }

    /// Narrows the view to its first `count` elements in its orientation,
    /// or to everything when `count` exceeds the length.
    pub fn view_take_left(self, count: usize) -> (r: Self)
        requires
            self.wf(),
        ensures
            r.wf(),
            r.is_reversed() == self.is_reversed(),
            r.spec_simplification() == self.spec_simplification(),
            r.spec_settings() == self.spec_settings(),
            r@.len() == if count <= self@.len() {
                count as int
            } else {
                self@.len() as int
            },
            r@ == self@.take(r@.len() as int),
    {
        let n = self.end - self.start;
        let k = if count < n {
            count
        } else {
            n
        };
        let (new_start, new_end) = if self.reversed {
            (self.end - k, self.end)
        } else {
            (self.start, self.start + k)
        };
        proof {
            lemma_take_left_part(
                self.base@,
                self.start as int,
                self.end as int,
                self.reversed,
                k as int,
            );
        }
        FoldListSliceFrom {
            base: self.base,
            start: new_start,
            end: new_end,
            reversed: self.reversed,
            simplification: self.simplification,
        }
    }

    /// Narrows the view to everything but its first `count` elements in its
    /// orientation.
    pub fn view_drop_left(self, count: usize) -> (r: Self)
        requires
            self.wf(),
        ensures
            r.wf(),
            r.is_reversed() == self.is_reversed(),
            r.spec_simplification() == self.spec_simplification(),
            r.spec_settings() == self.spec_settings(),
            r@.len() == if count <= self@.len() {
                self@.len() - count
            } else {
                0
            },
            r@ == self@.skip(self@.len() - r@.len()),
    {
        let n = self.end - self.start;
        let k = if count < n {
            count
        } else {
            n
        };
        let (new_start, new_end) = if self.reversed {
            (self.start, self.end - k)
        } else {
            (self.start + k, self.end)
        };
        proof {
            lemma_drop_left_part(
                self.base@,
                self.start as int,
                self.end as int,
                self.reversed,
                k as int,
            );
        }
        FoldListSliceFrom {
            base: self.base,
            start: new_start,
            end: new_end,
            reversed: self.reversed,
            simplification: self.simplification,
        }
    }

    /// Narrows the view to its last `count` elements in its orientation,
    /// or to everything when `count` exceeds the length.
    pub fn view_take_right(self, count: usize) -> (r: Self)
        requires
            self.wf(),
        ensures
            r.wf(),
            r.is_reversed() == self.is_reversed(),
            r.spec_simplification() == self.spec_simplification(),
            r.spec_settings() == self.spec_settings(),
            r@.len() == if count <= self@.len() {
                count as int
            } else {
                self@.len() as int
            },
            r@ == self@.skip(self@.len() - r@.len()),
    {
        let n = self.end - self.start;
        let k = if count < n {
            count
        } else {
            n
        };
        let (new_start, new_end) = if self.reversed {
            (self.start, self.start + k)
        } else {
            (self.end - k, self.end)
        };
        proof {
            lemma_take_right_part(
                self.base@,
                self.start as int,
                self.end as int,
                self.reversed,
                k as int,
            );
        }
        FoldListSliceFrom {
            base: self.base,
            start: new_start,
            end: new_end,
            reversed: self.reversed,
            simplification: self.simplification,
        }
    }

    /// Narrows the view to everything but its last `count` elements in its
    /// orientation.
    pub fn view_drop_right(self, count: usize) -> (r: Self)
        requires
            self.wf(),
        ensures
            r.wf(),
            r.is_reversed() == self.is_reversed(),
            r.spec_simplification() == self.spec_simplification(),
            r.spec_settings() == self.spec_settings(),
            r@.len() == if count <= self@.len() {
                self@.len() - count
            } else {
                0
            },
            r@ == self@.take(r@.len() as int),
    {
        let n = self.end - self.start;
        let k = if count < n {
            count
        } else {
            n
        };
        let (new_start, new_end) = if self.reversed {
            (self.start + k, self.end)
        } else {
            (self.start, self.end - k)
        };
        proof {
            lemma_drop_right_part(
                self.base@,
                self.start as int,
                self.end as int,
                self.reversed,
                k as int,
            );
        }
        FoldListSliceFrom {
            base: self.base,
            start: new_start,
            end: new_end,
            reversed: self.reversed,
            simplification: self.simplification,
        }
    }

    /// The same view consulting a different simplification.
    pub fn view_with_simplification<NewSi: FoldSimplification<T, D, S>>(self, new_simplification: NewSi) -> (r: FoldListSliceFrom<'a, T, D, S, NewSi>)
        requires
            self.wf(),
        ensures
            r.wf(),
            r.base_elems() == self.base_elems(),
            r.is_reversed() == self.is_reversed(),
            r.spec_settings() == self.spec_settings(),
            r.spec_simplification() == new_simplification,
            r@ == self@,
    {
        FoldListSliceFrom {
            base: self.base,
            start: self.start,
            end: self.end,
            reversed: self.reversed,
            simplification: new_simplification,
        }
    }

    /// The same view consulting the given simplification.
    pub fn view_simplify<NewSi: FoldSimplification<T, D, S>>(self, simplification: NewSi) -> (r: FoldListSliceFrom<'a, T, D, S, NewSi>)
        requires
            self.wf(),
        ensures
            r.wf(),
            r.base_elems() == self.base_elems(),
            r.is_reversed() == self.is_reversed(),
            r.spec_settings() == self.spec_settings(),
            r.spec_simplification() == simplification,
            r@ == self@,
    {
        self.view_with_simplification(simplification)
    }

    /// Like [`view_simplify`](Self::view_simplify), for a simplification
    /// whose empty and per-element shortcuts do their work directly.
    pub fn view_simplify_with_shortcut<NewSi: FoldSimplification<T, D, S>>(self, simplification: NewSi) -> (r: FoldListSliceFrom<'a, T, D, S, NewSi>)
        requires
            self.wf(),
        ensures
            r.wf(),
            r.base_elems() == self.base_elems(),
            r.is_reversed() == self.is_reversed(),
            r.spec_settings() == self.spec_settings(),
            r.spec_simplification() == simplification,
            r@ == self@,
    {
        self.view_with_simplification(simplification)
    }

    /// The same view with no simplification applied.
    pub fn view_unsimplify(self) -> (r: FoldListSliceFrom<'a, T, D, S, NoSimplification>)
        requires
            self.wf(),
        ensures
            r.wf(),
            r.base_elems() == self.base_elems(),
            r.is_reversed() == self.is_reversed(),
            r.spec_settings() == self.spec_settings(),
            r@ == self@,
    {
        self.view_with_simplification(NoSimplification)
    }
}

/// A mutable view of a contiguous range of the list behind a [`FoldList`],
/// with an orientation and a simplification. View operations narrow the
/// range; mutating operations change the underlying list through the view.
/// All of them consume the view and those that keep it alive return the
/// narrowed or updated view.
pub struct MutFoldListSliceStruct<'a, T, D, S: FoldSettings<T, D>, Si: FoldSimplification<T, D, S>> {
    pub(crate) base: &'a mut FoldChain<T, (usize, D), SettingsWithSize<S>>,
    pub(crate) start: usize,
    pub(crate) end: usize,
    pub(crate) reversed: bool,
    pub(crate) simplification: Si,
}

impl<'a, T, D, S: FoldSettings<T, D>, Si: FoldSimplification<T, D, S>> View for MutFoldListSliceStruct<'a, T, D, S, Si> {
    type V = Seq<T>;

    closed spec fn view(&self) -> Seq<T> {
        if self.reversed {
            (*self.base)@.subrange(self.start as int, self.end as int).reverse()
        } else {
            (*self.base)@.subrange(self.start as int, self.end as int)
        }
    }
}

impl<'a, T, D, S: FoldSettings<T, D>, Si: FoldSimplification<T, D, S>> MutFoldListSliceStruct<'a, T, D, S, Si> {
    /// Well-formedness: the underlying list is well-formed and the range
    /// lies within it.
    pub closed spec fn wf(self) -> bool {
        (*self.base).wf() && self.start <= self.end <= self.base@.len()
    }

    /// The elements of the range in the order of the underlying list,
    /// whatever the orientation of the view.
    pub closed spec fn base_elems(self) -> Seq<T> {
        (*self.base)@.subrange(self.start as int, self.end as int)
    }

    /// The elements of the underlying list before the range.
    pub closed spec fn base_prefix(self) -> Seq<T> {
        (*self.base)@.subrange(0, self.start as int)
    }

    /// The elements of the underlying list after the range.
    pub closed spec fn base_suffix(self) -> Seq<T> {
        (*self.base)@.subrange(self.end as int, (*self.base)@.len() as int)
    }

    /// The whole underlying list's elements.
    pub closed spec fn base_all(self) -> Seq<T> {
        (*self.base)@
    }

    /// The decomposition of the underlying list around the view.
    pub proof fn lemma_base_decomposition(self)
        requires
            self.wf(),
        ensures
            self.base_all() == self.base_prefix() + self.base_elems() + self.base_suffix(),
    {
        assert(self.base_all() =~= self.base_prefix() + self.base_elems() + self.base_suffix());
    }

    /// Whether this view traverses its range right to left.
    pub closed spec fn is_reversed(self) -> bool {
        self.reversed
    }

    /// The simplification this view consults for folds and searches.
    pub closed spec fn spec_simplification(self) -> Si {
        self.simplification
    }

    /// The settings of the underlying list.
    pub closed spec fn spec_settings(self) -> S {
        (*self.base).spec_settings().0
    }

    /// The cumulative simplified fold of the first `j` elements of the view
    /// in its orientation, combined in the order of the underlying list.
    pub open spec fn lfold(self, j: int) -> Si::M2 {
        lfold_of::<T, D, S, Si>(self.base_elems(), self.is_reversed(), j)
    }

    /// The cumulative simplified fold of the last `j` elements of the view
    /// in its orientation, combined in the order of the underlying list.
    pub open spec fn rfold(self, j: int) -> Si::M2 {
        rfold_of::<T, D, S, Si>(self.base_elems(), self.is_reversed(), j)
    }

    /// An immutable copy of this view's range.
    pub fn borrow(&self) -> (r: FoldListSliceFrom<'_, T, D, S, Si>)
        requires
            self.wf(),
        ensures
            r.wf(),
            r.base_elems() == self.base_elems(),
            r.is_reversed() == self.is_reversed(),
            r.spec_simplification() == self.spec_simplification(),
            r.spec_settings() == self.spec_settings(),
            r@ == self@,
    {
        FoldListSliceFrom {
            base: &*self.base,
            start: self.start,
            end: self.end,
            reversed: self.reversed,
            simplification: self.simplification,
        }
    }

    /// This view, immutable from here on: the underlying list keeps its
    /// current contents for the rest of the borrow.
    pub fn as_imm(self) -> (r: FoldListSliceFrom<'a, T, D, S, Si>)
        requires
            self.wf(),
        ensures
            r.wf(),
            r.base_elems() == self.base_elems(),
            r.is_reversed() == self.is_reversed(),
            r.spec_simplification() == self.spec_simplification(),
            r.spec_settings() == self.spec_settings(),
            r@ == self@,
    {
        FoldListSliceFrom {
            base: self.base,
            start: self.start,
            end: self.end,
            reversed: self.reversed,
            simplification: self.simplification,
        }
    }

    /// The settings of the underlying list.
    pub fn get_settings(&self) -> (r: S)
        ensures
            r == self.spec_settings(),
    {
        self.base.get_settings().0
    }

    /// The simplification currently applied to this view.
    pub fn get_current_simplification(&self) -> (r: Si)
        ensures
            r == self.spec_simplification(),
    {
        self.simplification
    }

    /// The simplified fold of the view's elements, combined in the order of
    /// the underlying list (reversing a view does not change its fold).
    pub fn fold(&self) -> (r: Si::D2)
        requires
            self.wf(),
        ensures
            Si::md2(r) == fold2_m::<T, D, S, Si>(self.base_elems()),
    {
        let r = self.base.fold_range_in(&ListLevelSimp(self.simplification), self.start, self.end);
        proof {
            lemma_list_fold2::<T, D, S, Si>(self.base_elems());
        }
        r
    }

    /// The number of elements of the view.
    pub fn len(&self) -> (r: usize)
        requires
            self.wf(),
        ensures
            r == self@.len(),
    {
        self.end - self.start
    }

    /// Whether the view holds no elements.
    pub fn is_empty(&self) -> (r: bool)
        requires
            self.wf(),
        ensures
            r == (self@.len() == 0),
    {
        self.start == self.end
    }

    /// The first element of the view in its orientation, if any.
    pub fn left(&self) -> (r: Option<&T>)
        requires
            self.wf(),
        ensures
            self@.len() == 0 ==> r is None,
            self@.len() > 0 ==> r is Some && *r.unwrap() == self@[0],
    {
        if self.start == self.end {
            None
        } else if self.reversed {
            Some(self.base.get_index(self.end - 1))
        } else {
            Some(self.base.get_index(self.start))
        }
    }

    /// The last element of the view in its orientation, if any.
    pub fn right(&self) -> (r: Option<&T>)
        requires
            self.wf(),
        ensures
            self@.len() == 0 ==> r is None,
            self@.len() > 0 ==> r is Some && *r.unwrap() == self@[self@.len() - 1],
    {
        if self.start == self.end {
            None
        } else if self.reversed {
            Some(self.base.get_index(self.start))
        } else {
            Some(self.base.get_index(self.end - 1))
        }
    }

    /// The element at a given index of the view, in its orientation, or
    /// `None` when the index is out of bounds.
    pub fn get(&self, index: usize) -> (r: Option<&T>)
        requires
            self.wf(),
        ensures
            index < self@.len() ==> r is Some && *r.unwrap() == self@[index as int],
            index >= self@.len() ==> r is None,
    {
        if index >= self.end - self.start {
            None
        } else if self.reversed {
            Some(self.base.get_index(self.end - 1 - index))
        } else {
            Some(self.base.get_index(self.start + index))
        }
    }

    /// A view of the same range that traverses it in the opposite direction.
    pub fn mut_view_reversed(self) -> (r: Self)
        requires
            self.wf(),
        ensures
            r.wf(),
            r.base_elems() == self.base_elems(),
            r.base_all() == self.base_all(),
            r.is_reversed() == !self.is_reversed(),
            r.spec_simplification() == self.spec_simplification(),
            r.spec_settings() == self.spec_settings(),
            r@ == self@.reverse(),
    {
        let ghost be = self.base_elems();
        proof {
            assert(be.reverse().reverse() =~= be);
        }
        MutFoldListSliceStruct {
            base: self.base,
            start: self.start,
            end: self.end,
            reversed: !self.reversed,
            simplification: self.simplification,
        }
    }

    /// Narrows the view to its longest leading part, in its orientation,
    /// whose cumulative fold does not satisfy the predicate. When the
    /// predicate behaves well under binary search, every longer leading part
    /// satisfies it.
    pub fn mut_view_take_left_until<Pr: FoldPredicate<T, D, S, Si>>(self, predicate: Pr) -> (r: Self)
        requires
            self.wf(),
        ensures
            r.wf(),
            r.is_reversed() == self.is_reversed(),
            r.spec_simplification() == self.spec_simplification(),
            r.spec_settings() == self.spec_settings(),
            r@.len() <= self@.len(),
            r@ == self@.take(r@.len() as int),
            r@.len() < self@.len() ==> predicate.p(self.lfold(r@.len() as int + 1)),
            r@.len() > 0 ==> !predicate.p(self.lfold(r@.len() as int)),
            well_behaved_for::<T, D, S, Si, Pr>(predicate, true, self.is_reversed()) ==> forall|i: int|
                r@.len() < i <= self@.len() ==> predicate.p(#[trigger] self.lfold(i)),
    {
        let ghost e = self.base_elems();
        let ghost n = self.end - self.start;
        let k = boundary_left_in(
            &*self.base,
            self.start,
            self.end,
            self.reversed,
            &ListLevelSimp(self.simplification),
            &ListPred(predicate),
        );
        let (new_start, new_end) = if self.reversed {
            (self.end - k, self.end)
        } else {
            (self.start, self.start + k)
        };
        proof {
            lemma_list_lfold::<T, D, S, Si>(e, self.reversed, k as int);
            if k < self.end - self.start {
                lemma_list_lfold::<T, D, S, Si>(e, self.reversed, k + 1);
            }
            lemma_list_monotone::<T, D, S, Si, Pr>(predicate);
            if well_behaved_for::<T, D, S, Si, Pr>(predicate, true, self.is_reversed()) {
                assert forall|i: int| k < i <= n implies predicate.p(#[trigger] lfold_of::<T, D, S, Si>(
                    e,
                    self.reversed,
                    i,
                )) by {
                    assert(ListPred(predicate).p(lfold_of::<
                        T,
                        (usize, D),
                        SettingsWithSize<S>,
                        ListLevelSimp<Si>,
                    >(e, self.reversed, i)));
                    lemma_list_lfold::<T, D, S, Si>(e, self.reversed, i);
                }
            }
            lemma_take_left_part(
                (*self.base)@,
                self.start as int,
                self.end as int,
                self.reversed,
                k as int,
            );
        }
        MutFoldListSliceStruct {
            base: self.base,
            start: new_start,
            end: new_end,
            reversed: self.reversed,
            simplification: self.simplification,
        }
    }

    /// Narrows the view to the complement of
    /// [`mut_view_take_left_until`](Self::mut_view_take_left_until).
    pub fn mut_view_drop_left_until<Pr: FoldPredicate<T, D, S, Si>>(self, predicate: Pr) -> (r: Self)
        requires
            self.wf(),
        ensures
            r.wf(),
            r.is_reversed() == self.is_reversed(),
            r.spec_simplification() == self.spec_simplification(),
            r.spec_settings() == self.spec_settings(),
            r@.len() <= self@.len(),
            r@ == self@.skip(self@.len() - r@.len()),
            self@.len() - r@.len() < self@.len() ==> predicate.p(self.lfold(self@.len() - r@.len() + 1)),
            self@.len() - r@.len() > 0 ==> !predicate.p(self.lfold(self@.len() - r@.len())),
            well_behaved_for::<T, D, S, Si, Pr>(predicate, true, self.is_reversed()) ==> forall|i: int|
                self@.len() - r@.len() < i <= self@.len() ==> predicate.p(#[trigger] self.lfold(i)),
    {
        let ghost e = self.base_elems();
        let ghost n = self.end - self.start;
        let k = boundary_left_in(
            &*self.base,
            self.start,
            self.end,
            self.reversed,
            &ListLevelSimp(self.simplification),
            &ListPred(predicate),
        );
        let (new_start, new_end) = if self.reversed {
            (self.start, self.end - k)
        } else {
            (self.start + k, self.end)
        };
        proof {
            lemma_list_lfold::<T, D, S, Si>(e, self.reversed, k as int);
            if k < self.end - self.start {
                lemma_list_lfold::<T, D, S, Si>(e, self.reversed, k + 1);
            }
            lemma_list_monotone::<T, D, S, Si, Pr>(predicate);
            if well_behaved_for::<T, D, S, Si, Pr>(predicate, true, self.is_reversed()) {
                assert forall|i: int| k < i <= n implies predicate.p(#[trigger] lfold_of::<T, D, S, Si>(
                    e,
                    self.reversed,
                    i,
                )) by {
                    assert(ListPred(predicate).p(lfold_of::<
                        T,
                        (usize, D),
                        SettingsWithSize<S>,
                        ListLevelSimp<Si>,
                    >(e, self.reversed, i)));
                    lemma_list_lfold::<T, D, S, Si>(e, self.reversed, i);
                }
            }
            lemma_drop_left_part(
                (*self.base)@,
                self.start as int,
                self.end as int,
                self.reversed,
                k as int,
            );
        }
        MutFoldListSliceStruct {
            base: self.base,
            start: new_start,
            end: new_end,
            reversed: self.reversed,
            simplification: self.simplification,
        }
    }

    /// Narrows the view to its longest trailing part, in its orientation,
    /// whose cumulative fold, accumulated from the right end, does not
    /// satisfy the predicate.
    pub fn mut_view_take_right_until<Pr: FoldPredicate<T, D, S, Si>>(self, predicate: Pr) -> (r: Self)
        requires
            self.wf(),
        ensures
            r.wf(),
            r.is_reversed() == self.is_reversed(),
            r.spec_simplification() == self.spec_simplification(),
            r.spec_settings() == self.spec_settings(),
            r@.len() <= self@.len(),
            r@ == self@.skip(self@.len() - r@.len()),
            r@.len() < self@.len() ==> predicate.p(self.rfold(r@.len() as int + 1)),
            r@.len() > 0 ==> !predicate.p(self.rfold(r@.len() as int)),
            well_behaved_for::<T, D, S, Si, Pr>(predicate, false, self.is_reversed()) ==> forall|i: int|
                r@.len() < i <= self@.len() ==> predicate.p(#[trigger] self.rfold(i)),
    {
        let ghost e = self.base_elems();
        let ghost n = self.end - self.start;
        let k = boundary_right_in(
            &*self.base,
            self.start,
            self.end,
            self.reversed,
            &ListLevelSimp(self.simplification),
            &ListPred(predicate),
        );
        let (new_start, new_end) = if self.reversed {
            (self.start, self.start + k)
        } else {
            (self.end - k, self.end)
        };
        proof {
            lemma_list_lfold::<T, D, S, Si>(e, self.reversed, k as int);
            if k < self.end - self.start {
                lemma_list_lfold::<T, D, S, Si>(e, self.reversed, k + 1);
            }
            lemma_list_monotone::<T, D, S, Si, Pr>(predicate);
            if well_behaved_for::<T, D, S, Si, Pr>(predicate, false, self.is_reversed()) {
                assert forall|i: int| k < i <= n implies predicate.p(#[trigger] rfold_of::<T, D, S, Si>(
                    e,
                    self.reversed,
                    i,
                )) by {
                    assert(ListPred(predicate).p(rfold_of::<
                        T,
                        (usize, D),
                        SettingsWithSize<S>,
                        ListLevelSimp<Si>,
                    >(e, self.reversed, i)));
                    lemma_list_lfold::<T, D, S, Si>(e, self.reversed, i);
                }
            }
            lemma_take_right_part(
                (*self.base)@,
                self.start as int,
                self.end as int,
                self.reversed,
                k as int,
            );
        }
        MutFoldListSliceStruct {
            base: self.base,
            start: new_start,
            end: new_end,
            reversed: self.reversed,
            simplification: self.simplification,
        }
    }

    /// Narrows the view to the complement of
    /// [`mut_view_take_right_until`](Self::mut_view_take_right_until).
    pub fn mut_view_drop_right_until<Pr: FoldPredicate<T, D, S, Si>>(self, predicate: Pr) -> (r: Self)
        requires
            self.wf(),
        ensures
            r.wf(),
            r.is_reversed() == self.is_reversed(),
            r.spec_simplification() == self.spec_simplification(),
            r.spec_settings() == self.spec_settings(),
            r@.len() <= self@.len(),
            r@ == self@.take(r@.len() as int),
            self@.len() - r@.len() < self@.len() ==> predicate.p(self.rfold(self@.len() - r@.len() + 1)),
            self@.len() - r@.len() > 0 ==> !predicate.p(self.rfold(self@.len() - r@.len())),
            well_behaved_for::<T, D, S, Si, Pr>(predicate, false, self.is_reversed()) ==> forall|i: int|
                self@.len() - r@.len() < i <= self@.len() ==> predicate.p(#[trigger] self.rfold(i)),
    {
        let ghost e = self.base_elems();
        let ghost n = self.end - self.start;
        let k = boundary_right_in(
            &*self.base,
            self.start,
            self.end,
            self.reversed,
            &ListLevelSimp(self.simplification),
            &ListPred(predicate),
        );
        let (new_start, new_end) = if self.reversed {
            (self.start + k, self.end)
        } else {
            (self.start, self.end - k)
        };
        proof {
            lemma_list_lfold::<T, D, S, Si>(e, self.reversed, k as int);
            if k < self.end - self.start {
                lemma_list_lfold::<T, D, S, Si>(e, self.reversed, k + 1);
            }
            lemma_list_monotone::<T, D, S, Si, Pr>(predicate);
            if well_behaved_for::<T, D, S, Si, Pr>(predicate, false, self.is_reversed()) {
                assert forall|i: int| k < i <= n implies predicate.p(#[trigger] rfold_of::<T, D, S, Si>(
                    e,
                    self.reversed,
                    i,
                )) by {
                    assert(ListPred(predicate).p(rfold_of::<
                        T,
                        (usize, D),
                        SettingsWithSize<S>,
                        ListLevelSimp<Si>,
                    >(e, self.reversed, i)));
                    lemma_list_lfold::<T, D, S, Si>(e, self.reversed, i);
                }
            }
            lemma_drop_right_part(
                (*self.base)@,
                self.start as int,
                self.end as int,
                self.reversed,
                k as int,
            );
        }
        MutFoldListSliceStruct {
            base: self.base,
            start: new_start,
            end: new_end,
            reversed: self.reversed,
            simplification: self.simplification,
        }
    }

    /// Narrows the view to its first `count` elements in its orientation,
    /// or to everything when `count` exceeds the length.
    pub fn mut_view_take_left(self, count: usize) -> (r: Self)
        requires
            self.wf(),
        ensures
            r.wf(),
            r.is_reversed() == self.is_reversed(),
            r.spec_simplification() == self.spec_simplification(),
            r.spec_settings() == self.spec_settings(),
            r@.len() == if count <= self@.len() {
                count as int
            } else {
                self@.len() as int
            },
            r@ == self@.take(r@.len() as int),
    {
        let n = self.end - self.start;
        let k = if count < n {
            count
        } else {
            n
        };
        let (new_start, new_end) = if self.reversed {
            (self.end - k, self.end)
        } else {
            (self.start, self.start + k)
        };
        proof {
            lemma_take_left_part(
                (*self.base)@,
                self.start as int,
                self.end as int,
                self.reversed,
                k as int,
            );
        }
        MutFoldListSliceStruct {
            base: self.base,
            start: new_start,
            end: new_end,
            reversed: self.reversed,
            simplification: self.simplification,
        }
    }

    /// Narrows the view to everything but its first `count` elements in its
    /// orientation.
    pub fn mut_view_drop_left(self, count: usize) -> (r: Self)
        requires
            self.wf(),
        ensures
            r.wf(),
            r.is_reversed() == self.is_reversed(),
            r.spec_simplification() == self.spec_simplification(),
            r.spec_settings() == self.spec_settings(),
            r@.len() == if count <= self@.len() {
                self@.len() - count
            } else {
                0
            },
            r@ == self@.skip(self@.len() - r@.len()),
    {
        let n = self.end - self.start;
        let k = if count < n {
            count
        } else {
            n
        };
        let (new_start, new_end) = if self.reversed {
            (self.start, self.end - k)
        } else {
            (self.start + k, self.end)
        };
        proof {
            lemma_drop_left_part(
                (*self.base)@,
                self.start as int,
                self.end as int,
                self.reversed,
                k as int,
            );
        }
        MutFoldListSliceStruct {
            base: self.base,
            start: new_start,
            end: new_end,
            reversed: self.reversed,
            simplification: self.simplification,
        }
    }

    /// Narrows the view to its last `count` elements in its orientation,
    /// or to everything when `count` exceeds the length.
    pub fn mut_view_take_right(self, count: usize) -> (r: Self)
        requires
            self.wf(),
        ensures
            r.wf(),
            r.is_reversed() == self.is_reversed(),
            r.spec_simplification() == self.spec_simplification(),
            r.spec_settings() == self.spec_settings(),
            r@.len() == if count <= self@.len() {
                count as int
            } else {
                self@.len() as int
            },
            r@ == self@.skip(self@.len() - r@.len()),
    {
        let n = self.end - self.start;
        let k = if count < n {
            count
        } else {
            n
        };
        let (new_start, new_end) = if self.reversed {
            (self.start, self.start + k)
        } else {
            (self.end - k, self.end)
        };
        proof {
            lemma_take_right_part(
                (*self.base)@,
                self.start as int,
                self.end as int,
                self.reversed,
                k as int,
            );
        }
        MutFoldListSliceStruct {
            base: self.base,
            start: new_start,
            end: new_end,
            reversed: self.reversed,
            simplification: self.simplification,
        }
    }

    /// Narrows the view to everything but its last `count` elements in its
    /// orientation.
    pub fn mut_view_drop_right(self, count: usize) -> (r: Self)
        requires
            self.wf(),
        ensures
            r.wf(),
            r.is_reversed() == self.is_reversed(),
            r.spec_simplification() == self.spec_simplification(),
            r.spec_settings() == self.spec_settings(),
            r@.len() == if count <= self@.len() {
                self@.len() - count
            } else {
                0
            },
            r@ == self@.take(r@.len() as int),
    {
        let n = self.end - self.start;
        let k = if count < n {
            count
        } else {
            n
        };
        let (new_start, new_end) = if self.reversed {
            (self.start + k, self.end)
        } else {
            (self.start, self.end - k)
        };
        proof {
            lemma_drop_right_part(
                (*self.base)@,
                self.start as int,
                self.end as int,
                self.reversed,
                k as int,
            );
        }
        MutFoldListSliceStruct {
            base: self.base,
            start: new_start,
            end: new_end,
            reversed: self.reversed,
            simplification: self.simplification,
        }
    }

    /// The same view consulting a different simplification.
    pub fn mut_view_with_simplification<NewSi: FoldSimplification<T, D, S>>(self, new_simplification: NewSi) -> (r: MutFoldListSliceStruct<'a, T, D, S, NewSi>)
        requires
            self.wf(),
        ensures
            r.wf(),
            r.base_elems() == self.base_elems(),
            r.base_all() == self.base_all(),
            r.is_reversed() == self.is_reversed(),
            r.spec_settings() == self.spec_settings(),
            r.spec_simplification() == new_simplification,
            r@ == self@,
    {
        MutFoldListSliceStruct {
            base: self.base,
            start: self.start,
            end: self.end,
            reversed: self.reversed,
            simplification: new_simplification,
        }
    }

    /// The same view consulting the given simplification.
    pub fn mut_view_simplify<NewSi: FoldSimplification<T, D, S>>(self, simplification: NewSi) -> (r: MutFoldListSliceStruct<'a, T, D, S, NewSi>)
        requires
            self.wf(),
        ensures
            r.wf(),
            r.base_elems() == self.base_elems(),
            r.base_all() == self.base_all(),
            r.is_reversed() == self.is_reversed(),
            r.spec_settings() == self.spec_settings(),
            r.spec_simplification() == simplification,
            r@ == self@,
    {
        self.mut_view_with_simplification(simplification)
    }

    /// Like [`mut_view_simplify`](Self::mut_view_simplify), for a simplification
    /// whose empty and per-element shortcuts do their work directly.
    pub fn mut_view_simplify_with_shortcut<NewSi: FoldSimplification<T, D, S>>(self, simplification: NewSi) -> (r: MutFoldListSliceStruct<'a, T, D, S, NewSi>)
        requires
            self.wf(),
        ensures
            r.wf(),
            r.base_elems() == self.base_elems(),
            r.base_all() == self.base_all(),
            r.is_reversed() == self.is_reversed(),
            r.spec_settings() == self.spec_settings(),
            r.spec_simplification() == simplification,
            r@ == self@,
    {
        self.mut_view_with_simplification(simplification)
    }

    /// The same view with no simplification applied.
    pub fn mut_view_unsimplify(self) -> (r: MutFoldListSliceStruct<'a, T, D, S, NoSimplification>)
        requires
            self.wf(),
        ensures
            r.wf(),
            r.base_elems() == self.base_elems(),
            r.base_all() == self.base_all(),
            r.is_reversed() == self.is_reversed(),
            r.spec_settings() == self.spec_settings(),
            r@ == self@,
    {
        self.mut_view_with_simplification(NoSimplification)
    }
}


} // verus!

verus! {

impl<'a, T, D, S: FoldSettings<T, D>, Si: FoldSimplification<T, D, S>> MutFoldListSliceStruct<'a, T, D, S, Si> {
    /// Removes and returns the first element of the view in its orientation,
    /// or `None` when the view is empty. The element leaves the underlying
    /// chain; everything outside the view is untouched.
    pub fn pop_left(self) -> (res: (Option<T>, Self))
        requires
            self.wf(),
        ensures
            res.1.wf(),
            res.1.is_reversed() == self.is_reversed(),
            res.1.spec_simplification() == self.spec_simplification(),
            res.1.spec_settings() == self.spec_settings(),
            res.1.base_prefix() == self.base_prefix(),
            res.1.base_suffix() == self.base_suffix(),
            self@.len() == 0 ==> res.0 is None && res.1@ == self@ && res.1.base_all()
                == self.base_all(),
            self@.len() > 0 ==> res.0 == Some(self@[0]) && res.1@ == self@.skip(1),
    {
        if self.start == self.end {
            (None, self)
        } else {
            let MutFoldListSliceStruct { base, start, end, reversed, simplification } = self;
            let idx = if reversed {
                end - 1
            } else {
                start
            };
            let v = base.remove_at_index(idx);
            let r = MutFoldListSliceStruct {
                base,
                start,
                end: end - 1,
                reversed,
                simplification,
            };
            proof {
                lemma_remove_in_range((*old(self.base))@, start as int, end as int, idx as int);
            }
            (Some(v), r)
        }
    }

    /// Removes and returns the last element of the view in its orientation,
    /// or `None` when the view is empty.
    pub fn pop_right(self) -> (res: (Option<T>, Self))
        requires
            self.wf(),
        ensures
            res.1.wf(),
            res.1.is_reversed() == self.is_reversed(),
            res.1.spec_simplification() == self.spec_simplification(),
            res.1.spec_settings() == self.spec_settings(),
            res.1.base_prefix() == self.base_prefix(),
            res.1.base_suffix() == self.base_suffix(),
            self@.len() == 0 ==> res.0 is None && res.1@ == self@ && res.1.base_all()
                == self.base_all(),
            self@.len() > 0 ==> res.0 == Some(self@.last()) && res.1@ == self@.drop_last(),
    {
        if self.start == self.end {
            (None, self)
        } else {
            let MutFoldListSliceStruct { base, start, end, reversed, simplification } = self;
            let idx = if reversed {
                start
            } else {
                end - 1
            };
            let v = base.remove_at_index(idx);
            let r = MutFoldListSliceStruct {
                base,
                start,
                end: end - 1,
                reversed,
                simplification,
            };
            proof {
                lemma_remove_in_range((*old(self.base))@, start as int, end as int, idx as int);
            }
            (Some(v), r)
        }
    }

    /// Adds an element before the first element of the view in its
    /// orientation.
    pub fn append_left(self, value: T) -> (r: Self)
        requires
            self.wf(),
            self.base_all().len() < usize::MAX,
        ensures
            r.wf(),
            r.is_reversed() == self.is_reversed(),
            r.spec_simplification() == self.spec_simplification(),
            r.spec_settings() == self.spec_settings(),
            r.base_prefix() == self.base_prefix(),
            r.base_suffix() == self.base_suffix(),
            r@ == seq![value] + self@,
    {
        let MutFoldListSliceStruct { base, start, end, reversed, simplification } = self;
        let idx = if reversed {
            end
        } else {
            start
        };
        base.insert_at_index(idx, value);
        let r = MutFoldListSliceStruct {
            base,
            start,
            end: end + 1,
            reversed,
            simplification,
        };
        proof {
            lemma_insert_in_range((*old(self.base))@, start as int, end as int, idx as int, value);
        }
        r
    }

    /// Adds an element after the last element of the view in its
    /// orientation.
    pub fn append_right(self, value: T) -> (r: Self)
        requires
            self.wf(),
            self.base_all().len() < usize::MAX,
        ensures
            r.wf(),
            r.is_reversed() == self.is_reversed(),
            r.spec_simplification() == self.spec_simplification(),
            r.spec_settings() == self.spec_settings(),
            r.base_prefix() == self.base_prefix(),
            r.base_suffix() == self.base_suffix(),
            r@ == self@ + seq![value],
    {
        let MutFoldListSliceStruct { base, start, end, reversed, simplification } = self;
        let idx = if reversed {
            start
        } else {
            end
        };
        base.insert_at_index(idx, value);
        let r = MutFoldListSliceStruct {
            base,
            start,
            end: end + 1,
            reversed,
            simplification,
        };
        proof {
            lemma_insert_in_range((*old(self.base))@, start as int, end as int, idx as int, value);
        }
        r
    }

    /// Replaces the first element of the view in its orientation, returning
    /// the old one; an empty view gives the value back as the error.
    pub fn set_left_or_err(self, value: T) -> (res: (Result<T, T>, Self))
        requires
            self.wf(),
        ensures
            res.1.wf(),
            res.1.is_reversed() == self.is_reversed(),
            res.1.spec_simplification() == self.spec_simplification(),
            res.1.spec_settings() == self.spec_settings(),
            res.1.base_prefix() == self.base_prefix(),
            res.1.base_suffix() == self.base_suffix(),
            self@.len() == 0 ==> res.0 == Err::<T, T>(value) && res.1@ == self@ && res.1.base_all()
                == self.base_all(),
            self@.len() > 0 ==> res.0 == Ok::<T, T>(self@[0]) && res.1@ == self@.update(0, value),
    {
        if self.start == self.end {
            (Err(value), self)
        } else {
            let MutFoldListSliceStruct { base, start, end, reversed, simplification } = self;
            let idx = if reversed {
                end - 1
            } else {
                start
            };
            let v = base.set_at_index(idx, value);
            let r = MutFoldListSliceStruct { base, start, end, reversed, simplification };
            proof {
                lemma_update_in_range(
                    (*old(self.base))@,
                    start as int,
                    end as int,
                    idx as int,
                    value,
                );
            }
            (Ok(v), r)
        }
    }

    /// Replaces the last element of the view in its orientation, returning
    /// the old one; an empty view gives the value back as the error.
    pub fn set_right_or_err(self, value: T) -> (res: (Result<T, T>, Self))
        requires
            self.wf(),
        ensures
            res.1.wf(),
            res.1.is_reversed() == self.is_reversed(),
            res.1.spec_simplification() == self.spec_simplification(),
            res.1.spec_settings() == self.spec_settings(),
            res.1.base_prefix() == self.base_prefix(),
            res.1.base_suffix() == self.base_suffix(),
            self@.len() == 0 ==> res.0 == Err::<T, T>(value) && res.1@ == self@ && res.1.base_all()
                == self.base_all(),
            self@.len() > 0 ==> res.0 == Ok::<T, T>(self@.last()) && res.1@ == self@.update(
                self@.len() - 1,
                value,
            ),
    {
        if self.start == self.end {
            (Err(value), self)
        } else {
            let MutFoldListSliceStruct { base, start, end, reversed, simplification } = self;
            let idx = if reversed {
                start
            } else {
                end - 1
            };
            let v = base.set_at_index(idx, value);
            let r = MutFoldListSliceStruct { base, start, end, reversed, simplification };
            proof {
                lemma_update_in_range(
                    (*old(self.base))@,
                    start as int,
                    end as int,
                    idx as int,
                    value,
                );
            }
            (Ok(v), r)
        }
    }

    /// Removes every element of the view into a new chain, in the order of
    /// the underlying chain, leaving the view empty.
    pub fn take_all(self) -> (res: (FoldList<T, D, S>, Self))
        requires
            self.wf(),
        ensures
            res.0.wf(),
            res.0@ == self.base_elems(),
            res.0.spec_settings() == self.spec_settings(),
            res.1.wf(),
            res.1.is_reversed() == self.is_reversed(),
            res.1.spec_simplification() == self.spec_simplification(),
            res.1.spec_settings() == self.spec_settings(),
            res.1@ == Seq::<T>::empty(),
            res.1.base_all() == self.base_prefix() + self.base_suffix(),
    {
        let MutFoldListSliceStruct { base, start, end, reversed, simplification } = self;
        let c = FoldList { underlying: base.take_range(start, end) };
        let r = MutFoldListSliceStruct {
            base,
            start,
            end: start,
            reversed,
            simplification,
        };
        proof {
            assert(r.base_all() =~= self.base_prefix() + self.base_suffix());
            assert(r.base_elems() =~= Seq::<T>::empty());
        }
        (c, r)
    }

    /// Splices every element of another chain in after the last element of
    /// the view in its orientation. From the underlying chain's point of
    /// view the spliced elements keep their order.
    pub fn append_all_right(self, list: FoldList<T, D, S>) -> (r: Self)
        requires
            self.wf(),
            list.wf(),
            self.base_all().len() + list@.len() <= usize::MAX,
        ensures
            r.wf(),
            r.is_reversed() == self.is_reversed(),
            r.spec_simplification() == self.spec_simplification(),
            r.spec_settings() == self.spec_settings(),
            r.base_prefix() == self.base_prefix(),
            r.base_suffix() == self.base_suffix(),
            r@ == self@ + (if self.is_reversed() {
                list@.reverse()
            } else {
                list@
            }),
    {
        let MutFoldListSliceStruct { base, start, end, reversed, simplification } = self;
        let idx = if reversed {
            start
        } else {
            end
        };
        let ghost chain_elems = list@;
        let chain_len = list.underlying.len_internal();
        base.insert_all_at_index(idx, list.underlying);
        let r = MutFoldListSliceStruct {
            base,
            start,
            end: end + chain_len,
            reversed,
            simplification,
        };
        proof {
            lemma_splice_in_range(
                (*old(self.base))@,
                start as int,
                end as int,
                idx as int,
                chain_elems,
            );
        }
        r
    }

    /// Splices every element of another chain in before the first element of
    /// the view in its orientation. From the underlying chain's point of
    /// view the spliced elements keep their order.
    pub fn append_all_left(self, list: FoldList<T, D, S>) -> (r: Self)
        requires
            self.wf(),
            list.wf(),
            self.base_all().len() + list@.len() <= usize::MAX,
        ensures
            r.wf(),
            r.is_reversed() == self.is_reversed(),
            r.spec_simplification() == self.spec_simplification(),
            r.spec_settings() == self.spec_settings(),
            r.base_prefix() == self.base_prefix(),
            r.base_suffix() == self.base_suffix(),
            r@ == (if self.is_reversed() {
                list@.reverse()
            } else {
                list@
            }) + self@,
    {
        let MutFoldListSliceStruct { base, start, end, reversed, simplification } = self;
        let idx = if reversed {
            end
        } else {
            start
        };
        let ghost chain_elems = list@;
        let chain_len = list.underlying.len_internal();
        base.insert_all_at_index(idx, list.underlying);
        let r = MutFoldListSliceStruct {
            base,
            start,
            end: end + chain_len,
            reversed,
            simplification,
        };
        proof {
            lemma_splice_in_range(
                (*old(self.base))@,
                start as int,
                end as int,
                idx as int,
                chain_elems,
            );
        }
        r
    }
}

} // verus!

verus! {

impl<T, D, S: FoldSettings<T, D>> FoldList<T, D, S> {
    /// An immutable view of the whole list.
    pub fn as_imm(&self) -> (r: FoldListSliceFrom<'_, T, D, S, NoSimplification>)
        requires
            self.wf(),
        ensures
            r.wf(),
            r.base_elems() == self@,
            !r.is_reversed(),
            r.spec_settings() == self.spec_settings(),
            r@ == self@,
    {
        proof {
            self.underlying.lemma_len_bound();
            assert(self@.subrange(0, self@.len() as int) =~= self@);
        }
        FoldListSliceFrom {
            base: &self.underlying,
            start: 0,
            end: self.underlying.len_internal(),
            reversed: false,
            simplification: NoSimplification,
        }
    }

    /// An immutable view of the whole list.
    pub fn borrow(&self) -> (r: FoldListSliceFrom<'_, T, D, S, NoSimplification>)
        requires
            self.wf(),
        ensures
            r.wf(),
            r.base_elems() == self@,
            !r.is_reversed(),
            r.spec_settings() == self.spec_settings(),
            r@ == self@,
    {
        self.as_imm()
    }

    /// An immutable view of the whole list, traversed right to left.
    pub fn view_reversed(&self) -> (r: FoldListSliceFrom<'_, T, D, S, NoSimplification>)
        requires
            self.wf(),
        ensures
            r.wf(),
            r.base_elems() == self@,
            r.is_reversed(),
            r.spec_settings() == self.spec_settings(),
            r@ == self@.reverse(),
    {
        self.as_imm().view_reversed()
    }

    /// A mutable view of the whole list.
    pub fn as_mut(&mut self) -> (r: MutFoldListSliceStruct<'_, T, D, S, NoSimplification>)
        requires
            old(self).wf(),
        ensures
            r.wf(),
            r.base_all() == old(self)@,
            r.base_elems() == old(self)@,
            !r.is_reversed(),
            r.spec_settings() == old(self).spec_settings(),
            r@ == old(self)@,
    {
        proof {
            old(self).underlying.lemma_len_bound();
        }
        let end = self.underlying.len_internal();
        proof {
            assert(old(self)@.subrange(0, old(self)@.len() as int) =~= old(self)@);
        }
        MutFoldListSliceStruct {
            base: &mut self.underlying,
            start: 0,
            end,
            reversed: false,
            simplification: NoSimplification,
        }
    }

    /// A mutable view of the whole list.
    pub fn borrow_mut(&mut self) -> (r: MutFoldListSliceStruct<'_, T, D, S, NoSimplification>)
        requires
            old(self).wf(),
        ensures
            r.wf(),
            r.base_all() == old(self)@,
            r.base_elems() == old(self)@,
            !r.is_reversed(),
            r.spec_settings() == old(self).spec_settings(),
            r@ == old(self)@,
    {
        self.as_mut()
    }

    /// A mutable view of the whole list, traversed right to left.
    pub fn mut_view_reversed(&mut self) -> (r: MutFoldListSliceStruct<'_, T, D, S, NoSimplification>)
        requires
            old(self).wf(),
        ensures
            r.wf(),
            r.base_all() == old(self)@,
            r.base_elems() == old(self)@,
            r.is_reversed(),
            r.spec_settings() == old(self).spec_settings(),
            r@ == old(self)@.reverse(),
    {
        self.as_mut().mut_view_reversed()
    }

    /// An immutable view of the whole list consulting the given
    /// simplification.
    pub fn view_with_simplification<NewSi: FoldSimplification<T, D, S>>(&self, new_simplification: NewSi) -> (r: FoldListSliceFrom<'_, T, D, S, NewSi>)
        requires
            self.wf(),
        ensures
            r.wf(),
            r.base_elems() == self@,
            !r.is_reversed(),
            r.spec_settings() == self.spec_settings(),
            r.spec_simplification() == new_simplification,
            r@ == self@,
    {
        self.as_imm().view_with_simplification(new_simplification)
    }

    /// An immutable view of the whole list consulting the given
    /// simplification.
    pub fn view_simplify<NewSi: FoldSimplification<T, D, S>>(&self, simplification: NewSi) -> (r: FoldListSliceFrom<'_, T, D, S, NewSi>)
        requires
            self.wf(),
        ensures
            r.wf(),
            r.base_elems() == self@,
            !r.is_reversed(),
            r.spec_settings() == self.spec_settings(),
            r.spec_simplification() == simplification,
            r@ == self@,
    {
        self.as_imm().view_with_simplification(simplification)
    }

    /// Like [`view_simplify`](Self::view_simplify), for a simplification
    /// whose empty and per-element shortcuts do their work directly.
    pub fn view_simplify_with_shortcut<NewSi: FoldSimplification<T, D, S>>(&self, simplification: NewSi) -> (r: FoldListSliceFrom<'_, T, D, S, NewSi>)
        requires
            self.wf(),
        ensures
            r.wf(),
            r.base_elems() == self@,
            !r.is_reversed(),
            r.spec_settings() == self.spec_settings(),
            r.spec_simplification() == simplification,
            r@ == self@,
    {
        self.as_imm().view_with_simplification(simplification)
    }

    /// An immutable view of the whole list with no simplification.
    pub fn view_unsimplify(&self) -> (r: FoldListSliceFrom<'_, T, D, S, NoSimplification>)
        requires
            self.wf(),
        ensures
            r.wf(),
            r.base_elems() == self@,
            !r.is_reversed(),
            r.spec_settings() == self.spec_settings(),
            r@ == self@,
    {
        self.as_imm()
    }

    /// A mutable view of the whole list consulting the given simplification.
    pub fn mut_view_with_simplification<NewSi: FoldSimplification<T, D, S>>(&mut self, new_simplification: NewSi) -> (r: MutFoldListSliceStruct<'_, T, D, S, NewSi>)
        requires
            old(self).wf(),
        ensures
            r.wf(),
            r.base_all() == old(self)@,
            r.base_elems() == old(self)@,
            !r.is_reversed(),
            r.spec_settings() == old(self).spec_settings(),
            r.spec_simplification() == new_simplification,
            r@ == old(self)@,
    {
        self.as_mut().mut_view_with_simplification(new_simplification)
    }

    /// A mutable view of the whole list consulting the given simplification.
    pub fn mut_view_simplify<NewSi: FoldSimplification<T, D, S>>(&mut self, simplification: NewSi) -> (r: MutFoldListSliceStruct<'_, T, D, S, NewSi>)
        requires
            old(self).wf(),
        ensures
            r.wf(),
            r.base_all() == old(self)@,
            r.base_elems() == old(self)@,
            !r.is_reversed(),
            r.spec_settings() == old(self).spec_settings(),
            r.spec_simplification() == simplification,
            r@ == old(self)@,
    {
        self.as_mut().mut_view_with_simplification(simplification)
    }

    /// Like [`mut_view_simplify`](Self::mut_view_simplify), for a
    /// simplification whose empty and per-element shortcuts do their work
    /// directly.
    pub fn mut_view_simplify_with_shortcut<NewSi: FoldSimplification<T, D, S>>(&mut self, simplification: NewSi) -> (r: MutFoldListSliceStruct<'_, T, D, S, NewSi>)
        requires
            old(self).wf(),
        ensures
            r.wf(),
            r.base_all() == old(self)@,
            r.base_elems() == old(self)@,
            !r.is_reversed(),
            r.spec_settings() == old(self).spec_settings(),
            r.spec_simplification() == simplification,
            r@ == old(self)@,
    {
        self.as_mut().mut_view_with_simplification(simplification)
    }

    /// A mutable view of the whole list with no simplification.
    pub fn mut_view_unsimplify(&mut self) -> (r: MutFoldListSliceStruct<'_, T, D, S, NoSimplification>)
        requires
            old(self).wf(),
        ensures
            r.wf(),
            r.base_all() == old(self)@,
            r.base_elems() == old(self)@,
            !r.is_reversed(),
            r.spec_settings() == old(self).spec_settings(),
            r@ == old(self)@,
    {
        self.as_mut()
    }

    /// An immutable view of the first `count` elements, or of everything
    /// when `count` exceeds the length.
    pub fn view_take_left(&self, count: usize) -> (r: FoldListSliceFrom<'_, T, D, S, NoSimplification>)
        requires
            self.wf(),
        ensures
            r.wf(),
            !r.is_reversed(),
            r.spec_settings() == self.spec_settings(),
            r@.len() == if count <= self@.len() { count as int } else { self@.len() as int },
            r@ == self@.take(r@.len() as int),
    {
        self.as_imm().view_take_left(count)
    }

    /// An immutable view of everything but the first `count` elements.
    pub fn view_drop_left(&self, count: usize) -> (r: FoldListSliceFrom<'_, T, D, S, NoSimplification>)
        requires
            self.wf(),
        ensures
            r.wf(),
            !r.is_reversed(),
            r.spec_settings() == self.spec_settings(),
            r@.len() == if count <= self@.len() { self@.len() - count } else { 0 },
            r@ == self@.skip(self@.len() - r@.len()),
    {
        self.as_imm().view_drop_left(count)
    }

    /// An immutable view of the last `count` elements, or of everything
    /// when `count` exceeds the length.
    pub fn view_take_right(&self, count: usize) -> (r: FoldListSliceFrom<'_, T, D, S, NoSimplification>)
        requires
            self.wf(),
        ensures
            r.wf(),
            !r.is_reversed(),
            r.spec_settings() == self.spec_settings(),
            r@.len() == if count <= self@.len() { count as int } else { self@.len() as int },
            r@ == self@.skip(self@.len() - r@.len()),
    {
        self.as_imm().view_take_right(count)
    }

    /// An immutable view of everything but the last `count` elements.
    pub fn view_drop_right(&self, count: usize) -> (r: FoldListSliceFrom<'_, T, D, S, NoSimplification>)
        requires
            self.wf(),
        ensures
            r.wf(),
            !r.is_reversed(),
            r.spec_settings() == self.spec_settings(),
            r@.len() == if count <= self@.len() { self@.len() - count } else { 0 },
            r@ == self@.take(r@.len() as int),
    {
        self.as_imm().view_drop_right(count)
    }

    /// A mutable view of the first `count` elements, or of everything when
    /// `count` exceeds the length.
    pub fn mut_view_take_left(&mut self, count: usize) -> (r: MutFoldListSliceStruct<'_, T, D, S, NoSimplification>)
        requires
            old(self).wf(),
        ensures
            r.wf(),
            !r.is_reversed(),
            r.spec_settings() == old(self).spec_settings(),
            r@.len() == if count <= old(self)@.len() { count as int } else { old(self)@.len() as int },
            r@ == old(self)@.take(r@.len() as int),
    {
        self.as_mut().mut_view_take_left(count)
    }

    /// A mutable view of everything but the first `count` elements.
    pub fn mut_view_drop_left(&mut self, count: usize) -> (r: MutFoldListSliceStruct<'_, T, D, S, NoSimplification>)
        requires
            old(self).wf(),
        ensures
            r.wf(),
            !r.is_reversed(),
            r.spec_settings() == old(self).spec_settings(),
            r@.len() == if count <= old(self)@.len() { old(self)@.len() - count } else { 0 },
            r@ == old(self)@.skip(old(self)@.len() - r@.len()),
    {
        self.as_mut().mut_view_drop_left(count)
    }

    /// A mutable view of the last `count` elements, or of everything when
    /// `count` exceeds the length.
    pub fn mut_view_take_right(&mut self, count: usize) -> (r: MutFoldListSliceStruct<'_, T, D, S, NoSimplification>)
        requires
            old(self).wf(),
        ensures
            r.wf(),
            !r.is_reversed(),
            r.spec_settings() == old(self).spec_settings(),
            r@.len() == if count <= old(self)@.len() { count as int } else { old(self)@.len() as int },
            r@ == old(self)@.skip(old(self)@.len() - r@.len()),
    {
        self.as_mut().mut_view_take_right(count)
    }

    /// A mutable view of everything but the last `count` elements.
    pub fn mut_view_drop_right(&mut self, count: usize) -> (r: MutFoldListSliceStruct<'_, T, D, S, NoSimplification>)
        requires
            old(self).wf(),
        ensures
            r.wf(),
            !r.is_reversed(),
            r.spec_settings() == old(self).spec_settings(),
            r@.len() == if count <= old(self)@.len() { old(self)@.len() - count } else { 0 },
            r@ == old(self)@.take(r@.len() as int),
    {
        self.as_mut().mut_view_drop_right(count)
    }

    /// A view of the longest prefix whose cumulative fold does not satisfy the predicate.
    pub fn view_take_left_until<Pr: FoldPredicate<T, D, S, NoSimplification>>(&self, predicate: Pr) -> (r: FoldListSliceFrom<'_, T, D, S, NoSimplification>)
        requires
            self.wf(),
        ensures
            r.wf(),
            !r.is_reversed(),
            r.spec_settings() == self.spec_settings(),
            r@.len() <= self@.len(),
            r@ == self@.take(r@.len() as int),
            r@.len() < self@.len() ==> predicate.p(lfold_of::<T, D, S, NoSimplification>(self@, false, r@.len() as int + 1)),
            r@.len() > 0 ==> !predicate.p(lfold_of::<T, D, S, NoSimplification>(self@, false, r@.len() as int)),
            monotone_pred::<T, D, S, NoSimplification, Pr>(predicate) ==> forall|i: int|
                r@.len() < i <= self@.len() ==> predicate.p(#[trigger] lfold_of::<T, D, S, NoSimplification>(self@, false, i)),
    {
        let ghost e = self@;
        let sl = self.as_imm();
        let r = sl.view_take_left_until(predicate);
        proof {
            if monotone_pred::<T, D, S, NoSimplification, Pr>(predicate) {
                assert forall|i: int| r@.len() < i <= e.len() implies predicate.p(
                    #[trigger] lfold_of::<T, D, S, NoSimplification>(e, false, i),
                ) by {
                    assert(predicate.p(sl.lfold(i)));
                }
            }
        }
        r
    }

    /// A view of the complement of the longest prefix whose cumulative fold does not satisfy the predicate.
    pub fn view_drop_left_until<Pr: FoldPredicate<T, D, S, NoSimplification>>(&self, predicate: Pr) -> (r: FoldListSliceFrom<'_, T, D, S, NoSimplification>)
        requires
            self.wf(),
        ensures
            r.wf(),
            !r.is_reversed(),
            r.spec_settings() == self.spec_settings(),
            r@.len() <= self@.len(),
            r@ == self@.skip(self@.len() - r@.len()),
            self@.len() - r@.len() < self@.len() ==> predicate.p(lfold_of::<T, D, S, NoSimplification>(self@, false, self@.len() - r@.len() + 1)),
            self@.len() - r@.len() > 0 ==> !predicate.p(lfold_of::<T, D, S, NoSimplification>(self@, false, self@.len() - r@.len())),
            monotone_pred::<T, D, S, NoSimplification, Pr>(predicate) ==> forall|i: int|
                self@.len() - r@.len() < i <= self@.len() ==> predicate.p(#[trigger] lfold_of::<T, D, S, NoSimplification>(self@, false, i)),
    {
        let ghost e = self@;
        let sl = self.as_imm();
        let r = sl.view_drop_left_until(predicate);
        proof {
            if monotone_pred::<T, D, S, NoSimplification, Pr>(predicate) {
                assert forall|i: int| self@.len() - r@.len() < i <= e.len() implies predicate.p(
                    #[trigger] lfold_of::<T, D, S, NoSimplification>(e, false, i),
                ) by {
                    assert(predicate.p(sl.lfold(i)));
                }
            }
        }
        r
    }

    /// A view of the longest suffix whose cumulative fold, taken from the right end, does not satisfy the predicate.
    pub fn view_take_right_until<Pr: FoldPredicate<T, D, S, NoSimplification>>(&self, predicate: Pr) -> (r: FoldListSliceFrom<'_, T, D, S, NoSimplification>)
        requires
            self.wf(),
        ensures
            r.wf(),
            !r.is_reversed(),
            r.spec_settings() == self.spec_settings(),
            r@.len() <= self@.len(),
            r@ == self@.skip(self@.len() - r@.len()),
            r@.len() < self@.len() ==> predicate.p(rfold_of::<T, D, S, NoSimplification>(self@, false, r@.len() as int + 1)),
            r@.len() > 0 ==> !predicate.p(rfold_of::<T, D, S, NoSimplification>(self@, false, r@.len() as int)),
            monotone_pred_rev::<T, D, S, NoSimplification, Pr>(predicate) ==> forall|i: int|
                r@.len() < i <= self@.len() ==> predicate.p(#[trigger] rfold_of::<T, D, S, NoSimplification>(self@, false, i)),
    {
        let ghost e = self@;
        let sl = self.as_imm();
        let r = sl.view_take_right_until(predicate);
        proof {
            if monotone_pred_rev::<T, D, S, NoSimplification, Pr>(predicate) {
                assert forall|i: int| r@.len() < i <= e.len() implies predicate.p(
                    #[trigger] rfold_of::<T, D, S, NoSimplification>(e, false, i),
                ) by {
                    assert(predicate.p(sl.rfold(i)));
                }
            }
        }
        r
    }

    /// A view of the complement of the longest suffix whose cumulative fold, taken from the right end, does not satisfy the predicate.
    pub fn view_drop_right_until<Pr: FoldPredicate<T, D, S, NoSimplification>>(&self, predicate: Pr) -> (r: FoldListSliceFrom<'_, T, D, S, NoSimplification>)
        requires
            self.wf(),
        ensures
            r.wf(),
            !r.is_reversed(),
            r.spec_settings() == self.spec_settings(),
            r@.len() <= self@.len(),
            r@ == self@.take(r@.len() as int),
            self@.len() - r@.len() < self@.len() ==> predicate.p(rfold_of::<T, D, S, NoSimplification>(self@, false, self@.len() - r@.len() + 1)),
            self@.len() - r@.len() > 0 ==> !predicate.p(rfold_of::<T, D, S, NoSimplification>(self@, false, self@.len() - r@.len())),
            monotone_pred_rev::<T, D, S, NoSimplification, Pr>(predicate) ==> forall|i: int|
                self@.len() - r@.len() < i <= self@.len() ==> predicate.p(#[trigger] rfold_of::<T, D, S, NoSimplification>(self@, false, i)),
    {
        let ghost e = self@;
        let sl = self.as_imm();
        let r = sl.view_drop_right_until(predicate);
        proof {
            if monotone_pred_rev::<T, D, S, NoSimplification, Pr>(predicate) {
                assert forall|i: int| self@.len() - r@.len() < i <= e.len() implies predicate.p(
                    #[trigger] rfold_of::<T, D, S, NoSimplification>(e, false, i),
                ) by {
                    assert(predicate.p(sl.rfold(i)));
                }
            }
        }
        r
    }

    /// A view of the longest prefix whose cumulative fold does not satisfy the predicate.
    pub fn mut_view_take_left_until<Pr: FoldPredicate<T, D, S, NoSimplification>>(&mut self, predicate: Pr) -> (r: MutFoldListSliceStruct<'_, T, D, S, NoSimplification>)
        requires
            old(self).wf(),
        ensures
            r.wf(),
            !r.is_reversed(),
            r.spec_settings() == old(self).spec_settings(),
            r@.len() <= old(self)@.len(),
            r@ == old(self)@.take(r@.len() as int),
            r@.len() < old(self)@.len() ==> predicate.p(lfold_of::<T, D, S, NoSimplification>(old(self)@, false, r@.len() as int + 1)),
            r@.len() > 0 ==> !predicate.p(lfold_of::<T, D, S, NoSimplification>(old(self)@, false, r@.len() as int)),
            monotone_pred::<T, D, S, NoSimplification, Pr>(predicate) ==> forall|i: int|
                r@.len() < i <= old(self)@.len() ==> predicate.p(#[trigger] lfold_of::<T, D, S, NoSimplification>(old(self)@, false, i)),
    {
        let ghost e = old(self)@;
        let sl = self.as_mut();
        let r = sl.mut_view_take_left_until(predicate);
        proof {
            if monotone_pred::<T, D, S, NoSimplification, Pr>(predicate) {
                assert forall|i: int| r@.len() < i <= e.len() implies predicate.p(
                    #[trigger] lfold_of::<T, D, S, NoSimplification>(e, false, i),
                ) by {
                    assert(predicate.p(sl.lfold(i)));
                }
            }
        }
        r
    }

    /// A view of the complement of the longest prefix whose cumulative fold does not satisfy the predicate.
    pub fn mut_view_drop_left_until<Pr: FoldPredicate<T, D, S, NoSimplification>>(&mut self, predicate: Pr) -> (r: MutFoldListSliceStruct<'_, T, D, S, NoSimplification>)
        requires
            old(self).wf(),
        ensures
            r.wf(),
            !r.is_reversed(),
            r.spec_settings() == old(self).spec_settings(),
            r@.len() <= old(self)@.len(),
            r@ == old(self)@.skip(old(self)@.len() - r@.len()),
            old(self)@.len() - r@.len() < old(self)@.len() ==> predicate.p(lfold_of::<T, D, S, NoSimplification>(old(self)@, false, old(self)@.len() - r@.len() + 1)),
            old(self)@.len() - r@.len() > 0 ==> !predicate.p(lfold_of::<T, D, S, NoSimplification>(old(self)@, false, old(self)@.len() - r@.len())),
            monotone_pred::<T, D, S, NoSimplification, Pr>(predicate) ==> forall|i: int|
                old(self)@.len() - r@.len() < i <= old(self)@.len() ==> predicate.p(#[trigger] lfold_of::<T, D, S, NoSimplification>(old(self)@, false, i)),
    {
        let ghost e = old(self)@;
        let sl = self.as_mut();
        let r = sl.mut_view_drop_left_until(predicate);
        proof {
            if monotone_pred::<T, D, S, NoSimplification, Pr>(predicate) {
                assert forall|i: int| old(self)@.len() - r@.len() < i <= e.len() implies predicate.p(
                    #[trigger] lfold_of::<T, D, S, NoSimplification>(e, false, i),
                ) by {
                    assert(predicate.p(sl.lfold(i)));
                }
            }
        }
        r
    }

    /// A view of the longest suffix whose cumulative fold, taken from the right end, does not satisfy the predicate.
    pub fn mut_view_take_right_until<Pr: FoldPredicate<T, D, S, NoSimplification>>(&mut self, predicate: Pr) -> (r: MutFoldListSliceStruct<'_, T, D, S, NoSimplification>)
        requires
            old(self).wf(),
        ensures
            r.wf(),
            !r.is_reversed(),
            r.spec_settings() == old(self).spec_settings(),
            r@.len() <= old(self)@.len(),
            r@ == old(self)@.skip(old(self)@.len() - r@.len()),
            r@.len() < old(self)@.len() ==> predicate.p(rfold_of::<T, D, S, NoSimplification>(old(self)@, false, r@.len() as int + 1)),
            r@.len() > 0 ==> !predicate.p(rfold_of::<T, D, S, NoSimplification>(old(self)@, false, r@.len() as int)),
            monotone_pred_rev::<T, D, S, NoSimplification, Pr>(predicate) ==> forall|i: int|
                r@.len() < i <= old(self)@.len() ==> predicate.p(#[trigger] rfold_of::<T, D, S, NoSimplification>(old(self)@, false, i)),
    {
        let ghost e = old(self)@;
        let sl = self.as_mut();
        let r = sl.mut_view_take_right_until(predicate);
        proof {
            if monotone_pred_rev::<T, D, S, NoSimplification, Pr>(predicate) {
                assert forall|i: int| r@.len() < i <= e.len() implies predicate.p(
                    #[trigger] rfold_of::<T, D, S, NoSimplification>(e, false, i),
                ) by {
                    assert(predicate.p(sl.rfold(i)));
                }
            }
        }
        r
    }

    /// A view of the complement of the longest suffix whose cumulative fold, taken from the right end, does not satisfy the predicate.
    pub fn mut_view_drop_right_until<Pr: FoldPredicate<T, D, S, NoSimplification>>(&mut self, predicate: Pr) -> (r: MutFoldListSliceStruct<'_, T, D, S, NoSimplification>)
        requires
            old(self).wf(),
        ensures
            r.wf(),
            !r.is_reversed(),
            r.spec_settings() == old(self).spec_settings(),
            r@.len() <= old(self)@.len(),
            r@ == old(self)@.take(r@.len() as int),
            old(self)@.len() - r@.len() < old(self)@.len() ==> predicate.p(rfold_of::<T, D, S, NoSimplification>(old(self)@, false, old(self)@.len() - r@.len() + 1)),
            old(self)@.len() - r@.len() > 0 ==> !predicate.p(rfold_of::<T, D, S, NoSimplification>(old(self)@, false, old(self)@.len() - r@.len())),
            monotone_pred_rev::<T, D, S, NoSimplification, Pr>(predicate) ==> forall|i: int|
                old(self)@.len() - r@.len() < i <= old(self)@.len() ==> predicate.p(#[trigger] rfold_of::<T, D, S, NoSimplification>(old(self)@, false, i)),
    {
        let ghost e = old(self)@;
        let sl = self.as_mut();
        let r = sl.mut_view_drop_right_until(predicate);
        proof {
            if monotone_pred_rev::<T, D, S, NoSimplification, Pr>(predicate) {
                assert forall|i: int| old(self)@.len() - r@.len() < i <= e.len() implies predicate.p(
                    #[trigger] rfold_of::<T, D, S, NoSimplification>(e, false, i),
                ) by {
                    assert(predicate.p(sl.rfold(i)));
                }
            }
        }
        r
    }
}

} // verus!

verus! {

/// A simplification over the size-counting fold that keeps the element count
/// beside the (further simplified) fold, so that search predicates can see
/// how many elements a cumulative fold covers.
#[derive(Clone, Copy)]
pub struct KeepSizeAnd<Si>(pub Si);

impl<T, D, S: FoldSettings<T, D>, Si: FoldSimplification<T, D, S>> FoldSimplification<
    T,
    (usize, D),
    SettingsWithSize<S>,
> for KeepSizeAnd<Si> {
    type D2 = (usize, Si::D2);

    type M2 = (usize, Si::M2);

    open spec fn md2(d: (usize, Si::D2)) -> (usize, Si::M2) {
        (d.0, Si::md2(d.1))
    }

    open spec fn smap(m: (usize, S::M)) -> (usize, Si::M2) {
        (m.0, Si::smap(m.1))
    }

    open spec fn sop2(a: (usize, Si::M2), b: (usize, Si::M2)) -> (usize, Si::M2) {
        (crate::fold_settings::sat_add(a.0, b.0), Si::sop2(a.1, b.1))
    }

    proof fn lemma_hom(a: (usize, S::M), b: (usize, S::M)) {
        Si::lemma_hom(a.1, b.1);
    }

    fn simplify(&self, s: &SettingsWithSize<S>, d: &(usize, D)) -> (r: (usize, Si::D2)) {
        (d.0, self.0.simplify(&s.0, &d.1))
    }

    fn op2(&self, s: &SettingsWithSize<S>, a: (usize, Si::D2), b: (usize, Si::D2)) -> (r: (
        usize,
        Si::D2,
    )) {
        (crate::fold_settings::exec_sat_add(a.0, b.0), self.0.op2(&s.0, a.1, b.1))
    }

    fn empty2(&self, s: &SettingsWithSize<S>) -> (r: (usize, Si::D2)) {
        (0, self.0.empty2(&s.0))
    }

    fn delta2(&self, s: &SettingsWithSize<S>, t: &T) -> (r: (usize, Si::D2)) {
        (1, self.0.delta2(&s.0, t))
    }

    fn clone_d2(&self, s: &SettingsWithSize<S>, d: &(usize, Si::D2)) -> (r: (usize, Si::D2)) {
        (d.0, self.0.clone_d2(&s.0, &d.1))
    }
}

/// The predicate "the cumulative fold covers more than this many elements",
/// over count-carrying folds; it behaves well under binary search from
/// either side, whatever the fold beside the count does.
#[derive(Clone, Copy)]
pub struct CountAbove(pub usize);

impl<T, D, S: FoldSettings<T, D>, Si: FoldSimplification<T, D, S>> FoldPredicate<
    T,
    (usize, D),
    SettingsWithSize<S>,
    KeepSizeAnd<Si>,
> for CountAbove {
    open spec fn p(&self, m: (usize, Si::M2)) -> bool {
        m.0 > self.0
    }

    fn test(&self, d: &(usize, Si::D2)) -> (r: bool) {
        d.0 > self.0
    }
}

/// [`CountAbove`] behaves well under binary search from either side.
pub proof fn lemma_count_above_monotone<
    T,
    D,
    S: FoldSettings<T, D>,
    Si: FoldSimplification<T, D, S>,
>(pr: CountAbove)
    ensures
        monotone_pred::<T, (usize, D), SettingsWithSize<S>, KeepSizeAnd<Si>, CountAbove>(pr),
        monotone_pred_rev::<T, (usize, D), SettingsWithSize<S>, KeepSizeAnd<Si>, CountAbove>(pr),
{
}

} // verus!

verus! {

impl<'a, T, D, S: FoldSettings<T, D>, Si: FoldSimplification<T, D, S>> FoldListSliceFrom<'a, T, D, S, Si> {

    /// Like the plain form, but the predicate also sees how many elements each cumulative fold covers.
    pub fn view_take_left_until_with_size<Pr: FoldPredicate<T, (usize, D), SettingsWithSize<S>, KeepSizeAnd<Si>>>(
        self,
        predicate: Pr,
    ) -> (r: Self)
        requires
            self.wf(),
        ensures
            r.wf(),
            r.is_reversed() == self.is_reversed(),
            r.spec_simplification() == self.spec_simplification(),
            r.spec_settings() == self.spec_settings(),
            r@.len() <= self@.len(),
            r@ == self@.take(r@.len() as int),
            r@.len() < self@.len() ==> predicate.p(lfold_of::<T, (usize, D), SettingsWithSize<S>, KeepSizeAnd<Si>>(self.base_elems(), self.is_reversed(), r@.len() as int + 1)),
            r@.len() > 0 ==> !predicate.p(lfold_of::<T, (usize, D), SettingsWithSize<S>, KeepSizeAnd<Si>>(self.base_elems(), self.is_reversed(), r@.len() as int)),
            well_behaved_for::<T, (usize, D), SettingsWithSize<S>, KeepSizeAnd<Si>, Pr>(
                predicate,
                true,
                self.is_reversed(),
            ) ==> forall|i: int|
                r@.len() < i <= self@.len() ==> predicate.p(#[trigger] lfold_of::<
                    T,
                    (usize, D),
                    SettingsWithSize<S>,
                    KeepSizeAnd<Si>,
                >(self.base_elems(), self.is_reversed(), i)),
    {
        let ghost e = self.base_elems();
        let ghost n = self.end - self.start;
        let k = boundary_left_in(
            &*self.base,
            self.start,
            self.end,
            self.reversed,
            &KeepSizeAnd(self.simplification),
            &predicate,
        );
        let (new_start, new_end) = if self.reversed {
            (self.end - k, self.end)
        } else {
            (self.start, self.start + k)
        };
        proof {
            lemma_take_left_part(
                (*self.base)@,
                self.start as int,
                self.end as int,
                self.reversed,
                k as int,
            );
        }
        FoldListSliceFrom {
            base: self.base,
            start: new_start,
            end: new_end,
            reversed: self.reversed,
            simplification: self.simplification,
        }
    }

    /// Like the plain form, but the predicate also sees how many elements each cumulative fold covers.
    pub fn view_drop_left_until_with_size<Pr: FoldPredicate<T, (usize, D), SettingsWithSize<S>, KeepSizeAnd<Si>>>(
        self,
        predicate: Pr,
    ) -> (r: Self)
        requires
            self.wf(),
        ensures
            r.wf(),
            r.is_reversed() == self.is_reversed(),
            r.spec_simplification() == self.spec_simplification(),
            r.spec_settings() == self.spec_settings(),
            r@.len() <= self@.len(),
            r@ == self@.skip(self@.len() - r@.len()),
            self@.len() - r@.len() < self@.len() ==> predicate.p(lfold_of::<T, (usize, D), SettingsWithSize<S>, KeepSizeAnd<Si>>(self.base_elems(), self.is_reversed(), self@.len() - r@.len() + 1)),
            self@.len() - r@.len() > 0 ==> !predicate.p(lfold_of::<T, (usize, D), SettingsWithSize<S>, KeepSizeAnd<Si>>(self.base_elems(), self.is_reversed(), self@.len() - r@.len())),
            well_behaved_for::<T, (usize, D), SettingsWithSize<S>, KeepSizeAnd<Si>, Pr>(
                predicate,
                true,
                self.is_reversed(),
            ) ==> forall|i: int|
                self@.len() - r@.len() < i <= self@.len() ==> predicate.p(#[trigger] lfold_of::<
                    T,
                    (usize, D),
                    SettingsWithSize<S>,
                    KeepSizeAnd<Si>,
                >(self.base_elems(), self.is_reversed(), i)),
    {
        let ghost e = self.base_elems();
        let ghost n = self.end - self.start;
        let k = boundary_left_in(
            &*self.base,
            self.start,
            self.end,
            self.reversed,
            &KeepSizeAnd(self.simplification),
            &predicate,
        );
        let (new_start, new_end) = if self.reversed {
            (self.start, self.end - k)
        } else {
            (self.start + k, self.end)
        };
        proof {
            lemma_drop_left_part(
                (*self.base)@,
                self.start as int,
                self.end as int,
                self.reversed,
                k as int,
            );
        }
        FoldListSliceFrom {
            base: self.base,
            start: new_start,
            end: new_end,
            reversed: self.reversed,
            simplification: self.simplification,
        }
    }

    /// Like the plain form, but the predicate also sees how many elements each cumulative fold covers.
    pub fn view_take_right_until_with_size<Pr: FoldPredicate<T, (usize, D), SettingsWithSize<S>, KeepSizeAnd<Si>>>(
        self,
        predicate: Pr,
    ) -> (r: Self)
        requires
            self.wf(),
        ensures
            r.wf(),
            r.is_reversed() == self.is_reversed(),
            r.spec_simplification() == self.spec_simplification(),
            r.spec_settings() == self.spec_settings(),
            r@.len() <= self@.len(),
            r@ == self@.skip(self@.len() - r@.len()),
            r@.len() < self@.len() ==> predicate.p(rfold_of::<T, (usize, D), SettingsWithSize<S>, KeepSizeAnd<Si>>(self.base_elems(), self.is_reversed(), r@.len() as int + 1)),
            r@.len() > 0 ==> !predicate.p(rfold_of::<T, (usize, D), SettingsWithSize<S>, KeepSizeAnd<Si>>(self.base_elems(), self.is_reversed(), r@.len() as int)),
            well_behaved_for::<T, (usize, D), SettingsWithSize<S>, KeepSizeAnd<Si>, Pr>(
                predicate,
                false,
                self.is_reversed(),
            ) ==> forall|i: int|
                r@.len() < i <= self@.len() ==> predicate.p(#[trigger] rfold_of::<
                    T,
                    (usize, D),
                    SettingsWithSize<S>,
                    KeepSizeAnd<Si>,
                >(self.base_elems(), self.is_reversed(), i)),
    {
        let ghost e = self.base_elems();
        let ghost n = self.end - self.start;
        let k = boundary_right_in(
            &*self.base,
            self.start,
            self.end,
            self.reversed,
            &KeepSizeAnd(self.simplification),
            &predicate,
        );
        let (new_start, new_end) = if self.reversed {
            (self.start, self.start + k)
        } else {
            (self.end - k, self.end)
        };
        proof {
            lemma_take_right_part(
                (*self.base)@,
                self.start as int,
                self.end as int,
                self.reversed,
                k as int,
            );
        }
        FoldListSliceFrom {
            base: self.base,
            start: new_start,
            end: new_end,
            reversed: self.reversed,
            simplification: self.simplification,
        }
    }

    /// Like the plain form, but the predicate also sees how many elements each cumulative fold covers.
    pub fn view_drop_right_until_with_size<Pr: FoldPredicate<T, (usize, D), SettingsWithSize<S>, KeepSizeAnd<Si>>>(
        self,
        predicate: Pr,
    ) -> (r: Self)
        requires
            self.wf(),
        ensures
            r.wf(),
            r.is_reversed() == self.is_reversed(),
            r.spec_simplification() == self.spec_simplification(),
            r.spec_settings() == self.spec_settings(),
            r@.len() <= self@.len(),
            r@ == self@.take(r@.len() as int),
            self@.len() - r@.len() < self@.len() ==> predicate.p(rfold_of::<T, (usize, D), SettingsWithSize<S>, KeepSizeAnd<Si>>(self.base_elems(), self.is_reversed(), self@.len() - r@.len() + 1)),
            self@.len() - r@.len() > 0 ==> !predicate.p(rfold_of::<T, (usize, D), SettingsWithSize<S>, KeepSizeAnd<Si>>(self.base_elems(), self.is_reversed(), self@.len() - r@.len())),
            well_behaved_for::<T, (usize, D), SettingsWithSize<S>, KeepSizeAnd<Si>, Pr>(
                predicate,
                false,
                self.is_reversed(),
            ) ==> forall|i: int|
                self@.len() - r@.len() < i <= self@.len() ==> predicate.p(#[trigger] rfold_of::<
                    T,
                    (usize, D),
                    SettingsWithSize<S>,
                    KeepSizeAnd<Si>,
                >(self.base_elems(), self.is_reversed(), i)),
    {
        let ghost e = self.base_elems();
        let ghost n = self.end - self.start;
        let k = boundary_right_in(
            &*self.base,
            self.start,
            self.end,
            self.reversed,
            &KeepSizeAnd(self.simplification),
            &predicate,
        );
        let (new_start, new_end) = if self.reversed {
            (self.start + k, self.end)
        } else {
            (self.start, self.end - k)
        };
        proof {
            lemma_drop_right_part(
                (*self.base)@,
                self.start as int,
                self.end as int,
                self.reversed,
                k as int,
            );
        }
        FoldListSliceFrom {
            base: self.base,
            start: new_start,
            end: new_end,
            reversed: self.reversed,
            simplification: self.simplification,
        }
    }
}

impl<'a, T, D, S: FoldSettings<T, D>, Si: FoldSimplification<T, D, S>> MutFoldListSliceStruct<'a, T, D, S, Si> {

    /// Like the plain form, but the predicate also sees how many elements each cumulative fold covers.
    pub fn mut_view_take_left_until_with_size<Pr: FoldPredicate<T, (usize, D), SettingsWithSize<S>, KeepSizeAnd<Si>>>(
        self,
        predicate: Pr,
    ) -> (r: Self)
        requires
            self.wf(),
        ensures
            r.wf(),
            r.is_reversed() == self.is_reversed(),
            r.spec_simplification() == self.spec_simplification(),
            r.spec_settings() == self.spec_settings(),
            r@.len() <= self@.len(),
            r@ == self@.take(r@.len() as int),
            r@.len() < self@.len() ==> predicate.p(lfold_of::<T, (usize, D), SettingsWithSize<S>, KeepSizeAnd<Si>>(self.base_elems(), self.is_reversed(), r@.len() as int + 1)),
            r@.len() > 0 ==> !predicate.p(lfold_of::<T, (usize, D), SettingsWithSize<S>, KeepSizeAnd<Si>>(self.base_elems(), self.is_reversed(), r@.len() as int)),
            well_behaved_for::<T, (usize, D), SettingsWithSize<S>, KeepSizeAnd<Si>, Pr>(
                predicate,
                true,
                self.is_reversed(),
            ) ==> forall|i: int|
                r@.len() < i <= self@.len() ==> predicate.p(#[trigger] lfold_of::<
                    T,
                    (usize, D),
                    SettingsWithSize<S>,
                    KeepSizeAnd<Si>,
                >(self.base_elems(), self.is_reversed(), i)),
    {
        let ghost e = self.base_elems();
        let ghost n = self.end - self.start;
        let k = boundary_left_in(
            &*self.base,
            self.start,
            self.end,
            self.reversed,
            &KeepSizeAnd(self.simplification),
            &predicate,
        );
        let (new_start, new_end) = if self.reversed {
            (self.end - k, self.end)
        } else {
            (self.start, self.start + k)
        };
        proof {
            lemma_take_left_part(
                (*self.base)@,
                self.start as int,
                self.end as int,
                self.reversed,
                k as int,
            );
        }
        MutFoldListSliceStruct {
            base: self.base,
            start: new_start,
            end: new_end,
            reversed: self.reversed,
            simplification: self.simplification,
        }
    }

    /// Like the plain form, but the predicate also sees how many elements each cumulative fold covers.
    pub fn mut_view_drop_left_until_with_size<Pr: FoldPredicate<T, (usize, D), SettingsWithSize<S>, KeepSizeAnd<Si>>>(
        self,
        predicate: Pr,
    ) -> (r: Self)
        requires
            self.wf(),
        ensures
            r.wf(),
            r.is_reversed() == self.is_reversed(),
            r.spec_simplification() == self.spec_simplification(),
            r.spec_settings() == self.spec_settings(),
            r@.len() <= self@.len(),
            r@ == self@.skip(self@.len() - r@.len()),
            self@.len() - r@.len() < self@.len() ==> predicate.p(lfold_of::<T, (usize, D), SettingsWithSize<S>, KeepSizeAnd<Si>>(self.base_elems(), self.is_reversed(), self@.len() - r@.len() + 1)),
            self@.len() - r@.len() > 0 ==> !predicate.p(lfold_of::<T, (usize, D), SettingsWithSize<S>, KeepSizeAnd<Si>>(self.base_elems(), self.is_reversed(), self@.len() - r@.len())),
            well_behaved_for::<T, (usize, D), SettingsWithSize<S>, KeepSizeAnd<Si>, Pr>(
                predicate,
                true,
                self.is_reversed(),
            ) ==> forall|i: int|
                self@.len() - r@.len() < i <= self@.len() ==> predicate.p(#[trigger] lfold_of::<
                    T,
                    (usize, D),
                    SettingsWithSize<S>,
                    KeepSizeAnd<Si>,
                >(self.base_elems(), self.is_reversed(), i)),
    {
        let ghost e = self.base_elems();
        let ghost n = self.end - self.start;
        let k = boundary_left_in(
            &*self.base,
            self.start,
            self.end,
            self.reversed,
            &KeepSizeAnd(self.simplification),
            &predicate,
        );
        let (new_start, new_end) = if self.reversed {
            (self.start, self.end - k)
        } else {
            (self.start + k, self.end)
        };
        proof {
            lemma_drop_left_part(
                (*self.base)@,
                self.start as int,
                self.end as int,
                self.reversed,
                k as int,
            );
        }
        MutFoldListSliceStruct {
            base: self.base,
            start: new_start,
            end: new_end,
            reversed: self.reversed,
            simplification: self.simplification,
        }
    }

    /// Like the plain form, but the predicate also sees how many elements each cumulative fold covers.
    pub fn mut_view_take_right_until_with_size<Pr: FoldPredicate<T, (usize, D), SettingsWithSize<S>, KeepSizeAnd<Si>>>(
        self,
        predicate: Pr,
    ) -> (r: Self)
        requires
            self.wf(),
        ensures
            r.wf(),
            r.is_reversed() == self.is_reversed(),
            r.spec_simplification() == self.spec_simplification(),
            r.spec_settings() == self.spec_settings(),
            r@.len() <= self@.len(),
            r@ == self@.skip(self@.len() - r@.len()),
            r@.len() < self@.len() ==> predicate.p(rfold_of::<T, (usize, D), SettingsWithSize<S>, KeepSizeAnd<Si>>(self.base_elems(), self.is_reversed(), r@.len() as int + 1)),
            r@.len() > 0 ==> !predicate.p(rfold_of::<T, (usize, D), SettingsWithSize<S>, KeepSizeAnd<Si>>(self.base_elems(), self.is_reversed(), r@.len() as int)),
            well_behaved_for::<T, (usize, D), SettingsWithSize<S>, KeepSizeAnd<Si>, Pr>(
                predicate,
                false,
                self.is_reversed(),
            ) ==> forall|i: int|
                r@.len() < i <= self@.len() ==> predicate.p(#[trigger] rfold_of::<
                    T,
                    (usize, D),
                    SettingsWithSize<S>,
                    KeepSizeAnd<Si>,
                >(self.base_elems(), self.is_reversed(), i)),
    {
        let ghost e = self.base_elems();
        let ghost n = self.end - self.start;
        let k = boundary_right_in(
            &*self.base,
            self.start,
            self.end,
            self.reversed,
            &KeepSizeAnd(self.simplification),
            &predicate,
        );
        let (new_start, new_end) = if self.reversed {
            (self.start, self.start + k)
        } else {
            (self.end - k, self.end)
        };
        proof {
            lemma_take_right_part(
                (*self.base)@,
                self.start as int,
                self.end as int,
                self.reversed,
                k as int,
            );
        }
        MutFoldListSliceStruct {
            base: self.base,
            start: new_start,
            end: new_end,
            reversed: self.reversed,
            simplification: self.simplification,
        }
    }

    /// Like the plain form, but the predicate also sees how many elements each cumulative fold covers.
    pub fn mut_view_drop_right_until_with_size<Pr: FoldPredicate<T, (usize, D), SettingsWithSize<S>, KeepSizeAnd<Si>>>(
        self,
        predicate: Pr,
    ) -> (r: Self)
        requires
            self.wf(),
        ensures
            r.wf(),
            r.is_reversed() == self.is_reversed(),
            r.spec_simplification() == self.spec_simplification(),
            r.spec_settings() == self.spec_settings(),
            r@.len() <= self@.len(),
            r@ == self@.take(r@.len() as int),
            self@.len() - r@.len() < self@.len() ==> predicate.p(rfold_of::<T, (usize, D), SettingsWithSize<S>, KeepSizeAnd<Si>>(self.base_elems(), self.is_reversed(), self@.len() - r@.len() + 1)),
            self@.len() - r@.len() > 0 ==> !predicate.p(rfold_of::<T, (usize, D), SettingsWithSize<S>, KeepSizeAnd<Si>>(self.base_elems(), self.is_reversed(), self@.len() - r@.len())),
            well_behaved_for::<T, (usize, D), SettingsWithSize<S>, KeepSizeAnd<Si>, Pr>(
                predicate,
                false,
                self.is_reversed(),
            ) ==> forall|i: int|
                self@.len() - r@.len() < i <= self@.len() ==> predicate.p(#[trigger] rfold_of::<
                    T,
                    (usize, D),
                    SettingsWithSize<S>,
                    KeepSizeAnd<Si>,
                >(self.base_elems(), self.is_reversed(), i)),
    {
        let ghost e = self.base_elems();
        let ghost n = self.end - self.start;
        let k = boundary_right_in(
            &*self.base,
            self.start,
            self.end,
            self.reversed,
            &KeepSizeAnd(self.simplification),
            &predicate,
        );
        let (new_start, new_end) = if self.reversed {
            (self.start + k, self.end)
        } else {
            (self.start, self.end - k)
        };
        proof {
            lemma_drop_right_part(
                (*self.base)@,
                self.start as int,
                self.end as int,
                self.reversed,
                k as int,
            );
        }
        MutFoldListSliceStruct {
            base: self.base,
            start: new_start,
            end: new_end,
            reversed: self.reversed,
            simplification: self.simplification,
        }
    }
}

} // verus!

verus! {

impl<T, D, S: FoldSettings<T, D>> FoldList<T, D, S> {

    /// Like the plain form, but the predicate also sees how many elements each cumulative fold covers.
    pub fn view_take_left_until_with_size<Pr: FoldPredicate<
        T,
        (usize, D),
        SettingsWithSize<S>,
        KeepSizeAnd<NoSimplification>,
    >>(&self, predicate: Pr) -> (r: FoldListSliceFrom<'_, T, D, S, NoSimplification>)
        requires
            self.wf(),
        ensures
            r.wf(),
            !r.is_reversed(),
            r.spec_settings() == self.spec_settings(),
            r@.len() <= self@.len(),
            r@ == self@.take(r@.len() as int),
            r@.len() < self@.len() ==> predicate.p(lfold_of::<T, (usize, D), SettingsWithSize<S>, KeepSizeAnd<NoSimplification>>(self@, false, r@.len() as int + 1)),
            r@.len() > 0 ==> !predicate.p(lfold_of::<T, (usize, D), SettingsWithSize<S>, KeepSizeAnd<NoSimplification>>(self@, false, r@.len() as int)),
            well_behaved_for::<T, (usize, D), SettingsWithSize<S>, KeepSizeAnd<NoSimplification>, Pr>(
                predicate,
                true,
                false,
            ) ==> forall|i: int|
                r@.len() < i <= self@.len() ==> predicate.p(#[trigger] lfold_of::<
                    T,
                    (usize, D),
                    SettingsWithSize<S>,
                    KeepSizeAnd<NoSimplification>,
                >(self@, false, i)),
    {
        let ghost e = self@;
        let sl = self.as_imm();
        let r = sl.view_take_left_until_with_size(predicate);
        proof {
            if well_behaved_for::<T, (usize, D), SettingsWithSize<S>, KeepSizeAnd<NoSimplification>, Pr>(
                predicate,
                true,
                false,
            ) {
                assert forall|i: int| r@.len() < i <= e.len() implies predicate.p(
                    #[trigger] lfold_of::<
                        T,
                        (usize, D),
                        SettingsWithSize<S>,
                        KeepSizeAnd<NoSimplification>,
                    >(e, false, i),
                ) by {
                    assert(predicate.p(lfold_of::<
                        T,
                        (usize, D),
                        SettingsWithSize<S>,
                        KeepSizeAnd<NoSimplification>,
                    >(sl.base_elems(), sl.is_reversed(), i)));
                }
            }
        }
        r
    }

    /// Like the plain form, but the predicate also sees how many elements each cumulative fold covers.
    pub fn view_drop_left_until_with_size<Pr: FoldPredicate<
        T,
        (usize, D),
        SettingsWithSize<S>,
        KeepSizeAnd<NoSimplification>,
    >>(&self, predicate: Pr) -> (r: FoldListSliceFrom<'_, T, D, S, NoSimplification>)
        requires
            self.wf(),
        ensures
            r.wf(),
            !r.is_reversed(),
            r.spec_settings() == self.spec_settings(),
            r@.len() <= self@.len(),
            r@ == self@.skip(self@.len() - r@.len()),
            self@.len() - r@.len() < self@.len() ==> predicate.p(lfold_of::<T, (usize, D), SettingsWithSize<S>, KeepSizeAnd<NoSimplification>>(self@, false, self@.len() - r@.len() + 1)),
            self@.len() - r@.len() > 0 ==> !predicate.p(lfold_of::<T, (usize, D), SettingsWithSize<S>, KeepSizeAnd<NoSimplification>>(self@, false, self@.len() - r@.len())),
            well_behaved_for::<T, (usize, D), SettingsWithSize<S>, KeepSizeAnd<NoSimplification>, Pr>(
                predicate,
                true,
                false,
            ) ==> forall|i: int|
                self@.len() - r@.len() < i <= self@.len() ==> predicate.p(#[trigger] lfold_of::<
                    T,
                    (usize, D),
                    SettingsWithSize<S>,
                    KeepSizeAnd<NoSimplification>,
                >(self@, false, i)),
    {
        let ghost e = self@;
        let sl = self.as_imm();
        let r = sl.view_drop_left_until_with_size(predicate);
        proof {
            if well_behaved_for::<T, (usize, D), SettingsWithSize<S>, KeepSizeAnd<NoSimplification>, Pr>(
                predicate,
                true,
                false,
            ) {
                assert forall|i: int| self@.len() - r@.len() < i <= e.len() implies predicate.p(
                    #[trigger] lfold_of::<
                        T,
                        (usize, D),
                        SettingsWithSize<S>,
                        KeepSizeAnd<NoSimplification>,
                    >(e, false, i),
                ) by {
                    assert(predicate.p(lfold_of::<
                        T,
                        (usize, D),
                        SettingsWithSize<S>,
                        KeepSizeAnd<NoSimplification>,
                    >(sl.base_elems(), sl.is_reversed(), i)));
                }
            }
        }
        r
    }

    /// Like the plain form, but the predicate also sees how many elements each cumulative fold covers.
    pub fn view_take_right_until_with_size<Pr: FoldPredicate<
        T,
        (usize, D),
        SettingsWithSize<S>,
        KeepSizeAnd<NoSimplification>,
    >>(&self, predicate: Pr) -> (r: FoldListSliceFrom<'_, T, D, S, NoSimplification>)
        requires
            self.wf(),
        ensures
            r.wf(),
            !r.is_reversed(),
            r.spec_settings() == self.spec_settings(),
            r@.len() <= self@.len(),
            r@ == self@.skip(self@.len() - r@.len()),
            r@.len() < self@.len() ==> predicate.p(rfold_of::<T, (usize, D), SettingsWithSize<S>, KeepSizeAnd<NoSimplification>>(self@, false, r@.len() as int + 1)),
            r@.len() > 0 ==> !predicate.p(rfold_of::<T, (usize, D), SettingsWithSize<S>, KeepSizeAnd<NoSimplification>>(self@, false, r@.len() as int)),
            well_behaved_for::<T, (usize, D), SettingsWithSize<S>, KeepSizeAnd<NoSimplification>, Pr>(
                predicate,
                false,
                false,
            ) ==> forall|i: int|
                r@.len() < i <= self@.len() ==> predicate.p(#[trigger] rfold_of::<
                    T,
                    (usize, D),
                    SettingsWithSize<S>,
                    KeepSizeAnd<NoSimplification>,
                >(self@, false, i)),
    {
        let ghost e = self@;
        let sl = self.as_imm();
        let r = sl.view_take_right_until_with_size(predicate);
        proof {
            if well_behaved_for::<T, (usize, D), SettingsWithSize<S>, KeepSizeAnd<NoSimplification>, Pr>(
                predicate,
                false,
                false,
            ) {
                assert forall|i: int| r@.len() < i <= e.len() implies predicate.p(
                    #[trigger] rfold_of::<
                        T,
                        (usize, D),
                        SettingsWithSize<S>,
                        KeepSizeAnd<NoSimplification>,
                    >(e, false, i),
                ) by {
                    assert(predicate.p(rfold_of::<
                        T,
                        (usize, D),
                        SettingsWithSize<S>,
                        KeepSizeAnd<NoSimplification>,
                    >(sl.base_elems(), sl.is_reversed(), i)));
                }
            }
        }
        r
    }

    /// Like the plain form, but the predicate also sees how many elements each cumulative fold covers.
    pub fn view_drop_right_until_with_size<Pr: FoldPredicate<
        T,
        (usize, D),
        SettingsWithSize<S>,
        KeepSizeAnd<NoSimplification>,
    >>(&self, predicate: Pr) -> (r: FoldListSliceFrom<'_, T, D, S, NoSimplification>)
        requires
            self.wf(),
        ensures
            r.wf(),
            !r.is_reversed(),
            r.spec_settings() == self.spec_settings(),
            r@.len() <= self@.len(),
            r@ == self@.take(r@.len() as int),
            self@.len() - r@.len() < self@.len() ==> predicate.p(rfold_of::<T, (usize, D), SettingsWithSize<S>, KeepSizeAnd<NoSimplification>>(self@, false, self@.len() - r@.len() + 1)),
            self@.len() - r@.len() > 0 ==> !predicate.p(rfold_of::<T, (usize, D), SettingsWithSize<S>, KeepSizeAnd<NoSimplification>>(self@, false, self@.len() - r@.len())),
            well_behaved_for::<T, (usize, D), SettingsWithSize<S>, KeepSizeAnd<NoSimplification>, Pr>(
                predicate,
                false,
                false,
            ) ==> forall|i: int|
                self@.len() - r@.len() < i <= self@.len() ==> predicate.p(#[trigger] rfold_of::<
                    T,
                    (usize, D),
                    SettingsWithSize<S>,
                    KeepSizeAnd<NoSimplification>,
                >(self@, false, i)),
    {
        let ghost e = self@;
        let sl = self.as_imm();
        let r = sl.view_drop_right_until_with_size(predicate);
        proof {
            if well_behaved_for::<T, (usize, D), SettingsWithSize<S>, KeepSizeAnd<NoSimplification>, Pr>(
                predicate,
                false,
                false,
            ) {
                assert forall|i: int| self@.len() - r@.len() < i <= e.len() implies predicate.p(
                    #[trigger] rfold_of::<
                        T,
                        (usize, D),
                        SettingsWithSize<S>,
                        KeepSizeAnd<NoSimplification>,
                    >(e, false, i),
                ) by {
                    assert(predicate.p(rfold_of::<
                        T,
                        (usize, D),
                        SettingsWithSize<S>,
                        KeepSizeAnd<NoSimplification>,
                    >(sl.base_elems(), sl.is_reversed(), i)));
                }
            }
        }
        r
    }

    /// Like the plain form, but the predicate also sees how many elements each cumulative fold covers.
    pub fn mut_view_take_left_until_with_size<Pr: FoldPredicate<
        T,
        (usize, D),
        SettingsWithSize<S>,
        KeepSizeAnd<NoSimplification>,
    >>(&mut self, predicate: Pr) -> (r: MutFoldListSliceStruct<'_, T, D, S, NoSimplification>)
        requires
            old(self).wf(),
        ensures
            r.wf(),
            !r.is_reversed(),
            r.spec_settings() == old(self).spec_settings(),
            r@.len() <= old(self)@.len(),
            r@ == old(self)@.take(r@.len() as int),
            r@.len() < old(self)@.len() ==> predicate.p(lfold_of::<T, (usize, D), SettingsWithSize<S>, KeepSizeAnd<NoSimplification>>(old(self)@, false, r@.len() as int + 1)),
            r@.len() > 0 ==> !predicate.p(lfold_of::<T, (usize, D), SettingsWithSize<S>, KeepSizeAnd<NoSimplification>>(old(self)@, false, r@.len() as int)),
            well_behaved_for::<T, (usize, D), SettingsWithSize<S>, KeepSizeAnd<NoSimplification>, Pr>(
                predicate,
                true,
                false,
            ) ==> forall|i: int|
                r@.len() < i <= old(self)@.len() ==> predicate.p(#[trigger] lfold_of::<
                    T,
                    (usize, D),
                    SettingsWithSize<S>,
                    KeepSizeAnd<NoSimplification>,
                >(old(self)@, false, i)),
    {
        let ghost e = old(self)@;
        let sl = self.as_mut();
        let r = sl.mut_view_take_left_until_with_size(predicate);
        proof {
            if well_behaved_for::<T, (usize, D), SettingsWithSize<S>, KeepSizeAnd<NoSimplification>, Pr>(
                predicate,
                true,
                false,
            ) {
                assert forall|i: int| r@.len() < i <= e.len() implies predicate.p(
                    #[trigger] lfold_of::<
                        T,
                        (usize, D),
                        SettingsWithSize<S>,
                        KeepSizeAnd<NoSimplification>,
                    >(e, false, i),
                ) by {
                    assert(predicate.p(lfold_of::<
                        T,
                        (usize, D),
                        SettingsWithSize<S>,
                        KeepSizeAnd<NoSimplification>,
                    >(sl.base_elems(), sl.is_reversed(), i)));
                }
            }
        }
        r
    }

    /// Like the plain form, but the predicate also sees how many elements each cumulative fold covers.
    pub fn mut_view_drop_left_until_with_size<Pr: FoldPredicate<
        T,
        (usize, D),
        SettingsWithSize<S>,
        KeepSizeAnd<NoSimplification>,
    >>(&mut self, predicate: Pr) -> (r: MutFoldListSliceStruct<'_, T, D, S, NoSimplification>)
        requires
            old(self).wf(),
        ensures
            r.wf(),
            !r.is_reversed(),
            r.spec_settings() == old(self).spec_settings(),
            r@.len() <= old(self)@.len(),
            r@ == old(self)@.skip(old(self)@.len() - r@.len()),
            old(self)@.len() - r@.len() < old(self)@.len() ==> predicate.p(lfold_of::<T, (usize, D), SettingsWithSize<S>, KeepSizeAnd<NoSimplification>>(old(self)@, false, old(self)@.len() - r@.len() + 1)),
            old(self)@.len() - r@.len() > 0 ==> !predicate.p(lfold_of::<T, (usize, D), SettingsWithSize<S>, KeepSizeAnd<NoSimplification>>(old(self)@, false, old(self)@.len() - r@.len())),
            well_behaved_for::<T, (usize, D), SettingsWithSize<S>, KeepSizeAnd<NoSimplification>, Pr>(
                predicate,
                true,
                false,
            ) ==> forall|i: int|
                old(self)@.len() - r@.len() < i <= old(self)@.len() ==> predicate.p(#[trigger] lfold_of::<
                    T,
                    (usize, D),
                    SettingsWithSize<S>,
                    KeepSizeAnd<NoSimplification>,
                >(old(self)@, false, i)),
    {
        let ghost e = old(self)@;
        let sl = self.as_mut();
        let r = sl.mut_view_drop_left_until_with_size(predicate);
        proof {
            if well_behaved_for::<T, (usize, D), SettingsWithSize<S>, KeepSizeAnd<NoSimplification>, Pr>(
                predicate,
                true,
                false,
            ) {
                assert forall|i: int| old(self)@.len() - r@.len() < i <= e.len() implies predicate.p(
                    #[trigger] lfold_of::<
                        T,
                        (usize, D),
                        SettingsWithSize<S>,
                        KeepSizeAnd<NoSimplification>,
                    >(e, false, i),
                ) by {
                    assert(predicate.p(lfold_of::<
                        T,
                        (usize, D),
                        SettingsWithSize<S>,
                        KeepSizeAnd<NoSimplification>,
                    >(sl.base_elems(), sl.is_reversed(), i)));
                }
            }
        }
        r
    }

    /// Like the plain form, but the predicate also sees how many elements each cumulative fold covers.
    pub fn mut_view_take_right_until_with_size<Pr: FoldPredicate<
        T,
        (usize, D),
        SettingsWithSize<S>,
        KeepSizeAnd<NoSimplification>,
    >>(&mut self, predicate: Pr) -> (r: MutFoldListSliceStruct<'_, T, D, S, NoSimplification>)
        requires
            old(self).wf(),
        ensures
            r.wf(),
            !r.is_reversed(),
            r.spec_settings() == old(self).spec_settings(),
            r@.len() <= old(self)@.len(),
            r@ == old(self)@.skip(old(self)@.len() - r@.len()),
            r@.len() < old(self)@.len() ==> predicate.p(rfold_of::<T, (usize, D), SettingsWithSize<S>, KeepSizeAnd<NoSimplification>>(old(self)@, false, r@.len() as int + 1)),
            r@.len() > 0 ==> !predicate.p(rfold_of::<T, (usize, D), SettingsWithSize<S>, KeepSizeAnd<NoSimplification>>(old(self)@, false, r@.len() as int)),
            well_behaved_for::<T, (usize, D), SettingsWithSize<S>, KeepSizeAnd<NoSimplification>, Pr>(
                predicate,
                false,
                false,
            ) ==> forall|i: int|
                r@.len() < i <= old(self)@.len() ==> predicate.p(#[trigger] rfold_of::<
                    T,
                    (usize, D),
                    SettingsWithSize<S>,
                    KeepSizeAnd<NoSimplification>,
                >(old(self)@, false, i)),
    {
        let ghost e = old(self)@;
        let sl = self.as_mut();
        let r = sl.mut_view_take_right_until_with_size(predicate);
        proof {
            if well_behaved_for::<T, (usize, D), SettingsWithSize<S>, KeepSizeAnd<NoSimplification>, Pr>(
                predicate,
                false,
                false,
            ) {
                assert forall|i: int| r@.len() < i <= e.len() implies predicate.p(
                    #[trigger] rfold_of::<
                        T,
                        (usize, D),
                        SettingsWithSize<S>,
                        KeepSizeAnd<NoSimplification>,
                    >(e, false, i),
                ) by {
                    assert(predicate.p(rfold_of::<
                        T,
                        (usize, D),
                        SettingsWithSize<S>,
                        KeepSizeAnd<NoSimplification>,
                    >(sl.base_elems(), sl.is_reversed(), i)));
                }
            }
        }
        r
    }

    /// Like the plain form, but the predicate also sees how many elements each cumulative fold covers.
    pub fn mut_view_drop_right_until_with_size<Pr: FoldPredicate<
        T,
        (usize, D),
        SettingsWithSize<S>,
        KeepSizeAnd<NoSimplification>,
    >>(&mut self, predicate: Pr) -> (r: MutFoldListSliceStruct<'_, T, D, S, NoSimplification>)
        requires
            old(self).wf(),
        ensures
            r.wf(),
            !r.is_reversed(),
            r.spec_settings() == old(self).spec_settings(),
            r@.len() <= old(self)@.len(),
            r@ == old(self)@.take(r@.len() as int),
            old(self)@.len() - r@.len() < old(self)@.len() ==> predicate.p(rfold_of::<T, (usize, D), SettingsWithSize<S>, KeepSizeAnd<NoSimplification>>(old(self)@, false, old(self)@.len() - r@.len() + 1)),
            old(self)@.len() - r@.len() > 0 ==> !predicate.p(rfold_of::<T, (usize, D), SettingsWithSize<S>, KeepSizeAnd<NoSimplification>>(old(self)@, false, old(self)@.len() - r@.len())),
            well_behaved_for::<T, (usize, D), SettingsWithSize<S>, KeepSizeAnd<NoSimplification>, Pr>(
                predicate,
                false,
                false,
            ) ==> forall|i: int|
                old(self)@.len() - r@.len() < i <= old(self)@.len() ==> predicate.p(#[trigger] rfold_of::<
                    T,
                    (usize, D),
                    SettingsWithSize<S>,
                    KeepSizeAnd<NoSimplification>,
                >(old(self)@, false, i)),
    {
        let ghost e = old(self)@;
        let sl = self.as_mut();
        let r = sl.mut_view_drop_right_until_with_size(predicate);
        proof {
            if well_behaved_for::<T, (usize, D), SettingsWithSize<S>, KeepSizeAnd<NoSimplification>, Pr>(
                predicate,
                false,
                false,
            ) {
                assert forall|i: int| old(self)@.len() - r@.len() < i <= e.len() implies predicate.p(
                    #[trigger] rfold_of::<
                        T,
                        (usize, D),
                        SettingsWithSize<S>,
                        KeepSizeAnd<NoSimplification>,
                    >(e, false, i),
                ) by {
                    assert(predicate.p(rfold_of::<
                        T,
                        (usize, D),
                        SettingsWithSize<S>,
                        KeepSizeAnd<NoSimplification>,
                    >(sl.base_elems(), sl.is_reversed(), i)));
                }
            }
        }
        r
    }
}

} // verus!

verus! {

/// Reversing a view of a list twice gives a view indistinguishable from the
/// original by every public observation: same oriented elements, same
/// underlying range, same orientation, and therefore the same folds and
/// search boundaries.
pub proof fn lemma_list_reverse_involution<'a, T, D, S: FoldSettings<T, D>, Si: FoldSimplification<T, D, S>>(
    a: FoldListSliceFrom<'a, T, D, S, Si>,
    b: FoldListSliceFrom<'a, T, D, S, Si>,
    c: FoldListSliceFrom<'a, T, D, S, Si>,
)
    requires
        b.base_elems() == a.base_elems(),
        b.is_reversed() == !a.is_reversed(),
        b@ == a@.reverse(),
        c.base_elems() == b.base_elems(),
        c.is_reversed() == !b.is_reversed(),
        c@ == b@.reverse(),
    ensures
        c@ == a@,
        c.base_elems() == a.base_elems(),
        c.is_reversed() == a.is_reversed(),
        forall|j: int| #[trigger] c.lfold(j) == a.lfold(j),
        forall|j: int| #[trigger] c.rfold(j) == a.rfold(j),
{
    assert(a@.reverse().reverse() =~= a@);
}

} // verus!
