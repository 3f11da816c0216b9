//! [`FoldChain`]: the fold-maintaining container, and views into it.

use vstd::prelude::*;
use vstd::arithmetic::power2::pow2;
use crate::fold_settings::FoldSettings;
use crate::fold_settings::fold_m;
use crate::fold_settings::lemma_fold_m_concat;
use crate::fold_simplification::FoldSimplification;
use crate::fold_simplification::NoSimplification;
use crate::fold_simplification::FoldPredicate;
use crate::fold_simplification::fold2_m;
use crate::fold_simplification::monotone_pred;
use crate::fold_simplification::monotone_pred_rev;
use crate::fold_simplification::lemma_monotone_prefix_extends;
use crate::fold_simplification::lemma_monotone_suffix_extends;
use crate::node::Node;

verus! {

/// An ordered sequence of elements of type `T`, stored as a balanced tree
/// that maintains the fold described by a
/// [`FoldSettings`](crate::fold_settings::FoldSettings) value over every
/// subtree, so that folds of contiguous ranges, and binary searches over
/// cumulative folds, take logarithmic time.
///
/// A `FoldChain` does not keep track of element counts; a
/// [`FoldList`](crate::fold_list::FoldList) does.
pub struct FoldChain<T, D, S: FoldSettings<T, D>> {
    pub(crate) root: Option<Box<Node<T, D, S>>>,
    pub(crate) settings: S,
}

impl<T, D, S: FoldSettings<T, D>> View for FoldChain<T, D, S> {
    type V = Seq<T>;

    closed spec fn view(&self) -> Seq<T> {
        Node::<T, D, S>::opt_elems(self.root)
    }
}

impl<T, D, S: FoldSettings<T, D>> FoldChain<T, D, S> {
    /// Well-formedness: the backing tree satisfies the weak-AVL rank rules
    /// and every cached subtree fold and count describes its subtree.
    pub closed spec fn wf(self) -> bool {
        Node::<T, D, S>::opt_wf(self.root)
    }

    /// The settings value this chain folds with.
    pub closed spec fn spec_settings(self) -> S {
        self.settings
    }

    /// The weak-AVL rank of the backing tree's root: an abstract measure of
    /// the tree's height, `-1` for an empty chain.
    pub closed spec fn spec_rank(self) -> int {
        Node::<T, D, S>::opt_rank(self.root)
    }

    /// The rank rules keep the tree shallow: a chain whose rank is `r` holds
    /// at least `2^(r / 2)` elements, so ranks, and with them paths from the
    /// root, stay logarithmic in the element count.
    pub proof fn lemma_rank_logarithmic(self)
        requires
            self.wf(),
        ensures
            self@.len() == 0 <==> self.spec_rank() == -1,
            self.spec_rank() >= 0 ==> pow2((self.spec_rank() / 2) as nat) <= self@.len(),
    {
        match self.root {
            Some(n) => {
                n.lemma_rank_log_bound();
                assert(n.elems().len() > 0);
            },
            None => {},
        }
    }

    /// A well-formed chain has at most `usize::MAX` elements.
    pub proof fn lemma_len_bound(self)
        requires
            self.wf(),
        ensures
            self@.len() <= usize::MAX,
    {
        match self.root {
            Some(n) => {
                assert(n.size as int == n.elems().len());
            },
            None => {},
        }
    }

    /// An empty chain that folds as `settings` directs.
    pub fn from_settings(settings: S) -> (r: Self)
        ensures
            r.wf(),
            r@ == Seq::<T>::empty(),
            r.spec_settings() == settings,
    {
        FoldChain { root: None, settings }
    }

    /// An empty chain that folds as `settings` directs.
    pub fn new(settings: S) -> (r: Self)
        ensures
            r.wf(),
            r@ == Seq::<T>::empty(),
            r.spec_settings() == settings,
    {
        Self::from_settings(settings)
    }

    /// A chain holding the given elements in order, bulk-built as a
    /// balanced tree in one pass.
    pub fn from_iter(settings: S, items: Vec<T>) -> (r: Self)
        ensures
            r.wf(),
            r@ == items@,
            r.spec_settings() == settings,
    {
        let mut items = items;
        let item_count = items.len();
        let root = Node::<T, D, S>::build_balanced(&settings, &mut items, item_count);
        proof {
            assert(items@.skip(0) =~= items@);
        }
        FoldChain { root, settings }
    }

    /// The settings value this chain folds with.
    pub fn get_settings(&self) -> (r: S)
        ensures
            r == self.spec_settings(),
    {
        self.settings
    }

    /// The simplification currently applied to this chain, which is none.
    pub fn get_current_simplification(&self) -> (r: NoSimplification)
    {
        NoSimplification
    }

    /// The fold of all elements, combined left to right.
    pub fn fold(&self) -> (r: D)
        requires
            self.wf(),
        ensures
            S::md(r) == fold_m::<T, D, S>(self@),
    {
        match &self.root {
            None => self.settings.empty(),
            Some(n) => self.settings.clone_delta(&n.delta_whole),
        }
    }

    /// Whether the chain holds no elements.
    pub fn is_empty(&self) -> (r: bool)
        requires
            self.wf(),
        ensures
            r == (self@.len() == 0),
    {
        match &self.root {
            None => true,
            Some(n) => {
                proof {
                    assert(n.elems().len() > 0);
                }
                false
            },
        }
    }

    /// The leftmost element, if any.
    pub fn left(&self) -> (r: Option<&T>)
        requires
            self.wf(),
        ensures
            self@.len() == 0 ==> r is None,
            self@.len() > 0 ==> r is Some && *r.unwrap() == self@[0],
    {
        match &self.root {
            None => None,
            Some(n) => {
                proof {
                    assert(n.elems().len() > 0);
                }
                Some(Node::<T, D, S>::get_at(&self.root, 0))
            },
        }
    }

    /// The rightmost element, if any.
    pub fn right(&self) -> (r: Option<&T>)
        requires
            self.wf(),
        ensures
            self@.len() == 0 ==> r is None,
            self@.len() > 0 ==> r is Some && *r.unwrap() == self@[self@.len() - 1],
    {
        match &self.root {
            None => None,
            Some(n) => {
                let sz = n.size;
                proof {
                    assert(n.elems().len() > 0);
                }
                Some(Node::<T, D, S>::get_at(&self.root, sz - 1))
            },
        }
    }

    /// Adds an element at the left end.
    pub fn append_left(&mut self, value: T)
        requires
            old(self).wf(),
            old(self)@.len() < usize::MAX,
        ensures
            final(self).wf(),
            final(self)@ == seq![value] + old(self)@,
            final(self).spec_settings() == old(self).spec_settings(),
    {
        let root = self.root.take();
        let t = Node::<T, D, S>::join3(&self.settings, None, value, root);
        proof {
            assert(t.elems() =~= seq![value] + old(self)@);
        }
        self.root = Some(t);
    }

    /// Adds an element at the right end.
    pub fn append_right(&mut self, value: T)
        requires
            old(self).wf(),
            old(self)@.len() < usize::MAX,
        ensures
            final(self).wf(),
            final(self)@ == old(self)@ + seq![value],
            final(self).spec_settings() == old(self).spec_settings(),
    {
        let root = self.root.take();
        let t = Node::<T, D, S>::join3(&self.settings, root, value, None);
        proof {
            assert(t.elems() =~= old(self)@ + seq![value]);
        }
        self.root = Some(t);
    }

    /// Removes and returns the leftmost element, or `None` on an empty chain.
    pub fn pop_left(&mut self) -> (r: Option<T>)
        requires
            old(self).wf(),
        ensures
            final(self).wf(),
            final(self).spec_settings() == old(self).spec_settings(),
            old(self)@.len() == 0 ==> r is None && final(self)@ == old(self)@,
            old(self)@.len() > 0 ==> r == Some(old(self)@[0]) && final(self)@ == old(self)@.skip(
                1,
            ),
    {
        match self.root.take() {
            None => None,
            Some(b) => {
                let (v, rest) = Node::<T, D, S>::pop_front(&self.settings, b);
                proof {
                    assert(Node::<T, D, S>::opt_elems(rest) =~= old(self)@.skip(1));
                }
                self.root = rest;
                Some(v)
            },
        }
    }

    /// Removes and returns the rightmost element, or `None` on an empty chain.
    pub fn pop_right(&mut self) -> (r: Option<T>)
        requires
            old(self).wf(),
        ensures
            final(self).wf(),
            final(self).spec_settings() == old(self).spec_settings(),
            old(self)@.len() == 0 ==> r is None && final(self)@ == old(self)@,
            old(self)@.len() > 0 ==> r == Some(old(self)@.last()) && final(self)@ == old(
                self,
            )@.drop_last(),
    {
        match self.root.take() {
            None => None,
            Some(b) => {
                let (v, rest) = Node::<T, D, S>::pop_back(&self.settings, b);
                proof {
                    assert(Node::<T, D, S>::opt_elems(rest) =~= old(self)@.drop_last());
                }
                self.root = rest;
                Some(v)
            },
        }
    }

    /// Replaces the leftmost element, returning the old one; an empty chain
    /// gives the value back as the error.
    pub fn set_left_or_err(&mut self, value: T) -> (r: Result<T, T>)
        requires
            old(self).wf(),
        ensures
            final(self).wf(),
            final(self).spec_settings() == old(self).spec_settings(),
            old(self)@.len() == 0 ==> r == Err::<T, T>(value) && final(self)@ == old(self)@,
            old(self)@.len() > 0 ==> r == Ok::<T, T>(old(self)@[0]) && final(self)@ == old(
                self,
            )@.update(0, value),
    {
        match self.root.take() {
            None => Err(value),
            Some(b) => {
                let (v, rest) = Node::<T, D, S>::pop_front(&self.settings, b);
                let t = Node::<T, D, S>::join3(&self.settings, None, value, rest);
                proof {
                    assert(t.elems() =~= old(self)@.update(0, value));
                }
                self.root = Some(t);
                Ok(v)
            },
        }
    }

    /// Replaces the rightmost element, returning the old one; an empty chain
    /// gives the value back as the error.
    pub fn set_right_or_err(&mut self, value: T) -> (r: Result<T, T>)
        requires
            old(self).wf(),
        ensures
            final(self).wf(),
            final(self).spec_settings() == old(self).spec_settings(),
            old(self)@.len() == 0 ==> r == Err::<T, T>(value) && final(self)@ == old(self)@,
            old(self)@.len() > 0 ==> r == Ok::<T, T>(old(self)@.last()) && final(self)@ == old(
                self,
            )@.update(old(self)@.len() - 1, value),
    {
        match self.root.take() {
            None => Err(value),
            Some(b) => {
                let (v, rest) = Node::<T, D, S>::pop_back(&self.settings, b);
                let t = Node::<T, D, S>::join3(&self.settings, rest, value, None);
                proof {
                    assert(t.elems() =~= old(self)@.update(old(self)@.len() - 1, value));
                }
                self.root = Some(t);
                Ok(v)
            },
        }
    }

    /// Replaces the leftmost element, returning the old one. The chain must
    /// not be empty.
    pub fn set_left(&mut self, value: T) -> (r: T)
        requires
            old(self).wf(),
            old(self)@.len() > 0,
        ensures
            final(self).wf(),
            final(self).spec_settings() == old(self).spec_settings(),
            r == old(self)@[0],
            final(self)@ == old(self)@.update(0, value),
    {
        match self.set_left_or_err(value) {
            Ok(v) => v,
            Err(_) => {
                proof {
                    assert(false);
                }
                vstd::pervasive::unreached()
            },
        }
    }

    /// Replaces the rightmost element, returning the old one. The chain must
    /// not be empty.
    pub fn set_right(&mut self, value: T) -> (r: T)
        requires
            old(self).wf(),
            old(self)@.len() > 0,
        ensures
            final(self).wf(),
            final(self).spec_settings() == old(self).spec_settings(),
            r == old(self)@.last(),
            final(self)@ == old(self)@.update(old(self)@.len() - 1, value),
    {
        match self.set_right_or_err(value) {
            Ok(v) => v,
            Err(_) => {
                proof {
                    assert(false);
                }
                vstd::pervasive::unreached()
            },
        }
    }

    /// Removes all elements into a new chain, leaving this one empty.
    pub fn take_all(&mut self) -> (r: Self)
        requires
            old(self).wf(),
        ensures
            final(self).wf(),
            final(self)@ == Seq::<T>::empty(),
            final(self).spec_settings() == old(self).spec_settings(),
            r.wf(),
            r@ == old(self)@,
            r.spec_settings() == old(self).spec_settings(),
    {
        let root = self.root.take();
        FoldChain { root, settings: self.settings }
    }

    /// Appends every element of another chain after this one's elements.
    pub fn append_all_right(&mut self, chain: Self)
        requires
            old(self).wf(),
            chain.wf(),
            old(self)@.len() + chain@.len() <= usize::MAX,
        ensures
            final(self).wf(),
            final(self)@ == old(self)@ + chain@,
            final(self).spec_settings() == old(self).spec_settings(),
    {
        let root = self.root.take();
        self.root = Node::<T, D, S>::join2(&self.settings, root, chain.root);
    }

    /// Prepends every element of another chain, in its order, before this
    /// one's elements.
    pub fn append_all_left(&mut self, chain: Self)
        requires
            old(self).wf(),
            chain.wf(),
            old(self)@.len() + chain@.len() <= usize::MAX,
        ensures
            final(self).wf(),
            final(self)@ == chain@ + old(self)@,
            final(self).spec_settings() == old(self).spec_settings(),
    {
        let root = self.root.take();
        self.root = Node::<T, D, S>::join2(&self.settings, chain.root, root);
    }

    /// Appends the elements of a vector, in order, at the right end.
    pub fn append_right_from_iter(&mut self, items: Vec<T>)
        requires
            old(self).wf(),
            old(self)@.len() + items@.len() <= usize::MAX,
        ensures
            final(self).wf(),
            final(self)@ == old(self)@ + items@,
            final(self).spec_settings() == old(self).spec_settings(),
    {
        let mut items = items;
        let ghost all = items@;
        let mut tail = FoldChain::from_settings(self.settings);
        proof {
            assert(all.skip(all.len() as int) =~= Seq::<T>::empty());
        }
        while items.len() > 0
            invariant
                tail.wf(),
                tail.spec_settings() == old(self).spec_settings(),
                items@ == all.take(items@.len() as int),
                items@.len() <= all.len(),
                tail@ == all.skip(items@.len() as int),
                old(self)@.len() + all.len() <= usize::MAX,
                *self == *old(self),
            decreases items@.len(),
        {
            let ghost before = items@;
            let v = items.pop().unwrap();
            tail.append_left(v);
            proof {
                assert(items@ =~= all.take(items@.len() as int));
                assert(seq![v] + all.skip(before.len() as int) =~= all.skip(items@.len() as int));
            }
        }
        proof {
            assert(tail@ =~= all);
        }
        self.append_all_right(tail);
    }

    /// Appends each element of a vector, in order, at the left end, so that
    /// the vector's elements end up before the old contents in reverse order.
    #[verifier::rlimit(100)]
    pub fn append_left_from_iter(&mut self, items: Vec<T>)
        requires
            old(self).wf(),
            old(self)@.len() + items@.len() <= usize::MAX,
        ensures
            final(self).wf(),
            final(self)@ == items@.reverse() + old(self)@,
            final(self).spec_settings() == old(self).spec_settings(),
    {
        let mut items = items;
        let ghost all = items@;
        let mut head = FoldChain::from_settings(self.settings);
        proof {
            assert(all.skip(all.len() as int).reverse() =~= Seq::<T>::empty());
        }
        while items.len() > 0
            invariant
                head.wf(),
                head.spec_settings() == old(self).spec_settings(),
                items@ == all.take(items@.len() as int),
                items@.len() <= all.len(),
                head@ == all.skip(items@.len() as int).reverse(),
                old(self)@.len() + all.len() <= usize::MAX,
                *self == *old(self),
            decreases items@.len(),
        {
            let ghost before = items@;
            let v = items.pop().unwrap();
            head.append_right(v);
            proof {
                assert(items@ =~= all.take(items@.len() as int));
                assert(all.skip(before.len() as int).reverse() + seq![v] =~= all.skip(
                    items@.len() as int,
                ).reverse());
            }
        }
        proof {
            assert(head@ =~= all.reverse());
        }
        self.append_all_left(head);
    }

    /// The element at a given position.
    pub(crate) fn get_index(&self, i: usize) -> (r: &T)
        requires
            self.wf(),
            i < self@.len(),
        ensures
            *r == self@[i as int],
    {
        Node::<T, D, S>::get_at(&self.root, i)
    }

    /// Inserts an element so that it ends up at a given position.
    pub(crate) fn insert_at_index(&mut self, i: usize, value: T)
        requires
            old(self).wf(),
            i <= old(self)@.len(),
            old(self)@.len() < usize::MAX,
        ensures
            final(self).wf(),
            final(self)@ == old(self)@.insert(i as int, value),
            final(self).spec_settings() == old(self).spec_settings(),
    {
        let root = self.root.take();
        let (l, r) = Node::<T, D, S>::split_at(&self.settings, root, i);
        let t = Node::<T, D, S>::join3(&self.settings, l, value, r);
        proof {
            assert(t.elems() =~= old(self)@.insert(i as int, value));
        }
        self.root = Some(t);
    }

    /// Removes and returns the element at a given position.
    pub(crate) fn remove_at_index(&mut self, i: usize) -> (r: T)
        requires
            old(self).wf(),
            i < old(self)@.len(),
        ensures
            final(self).wf(),
            final(self)@ == old(self)@.remove(i as int),
            final(self).spec_settings() == old(self).spec_settings(),
            r == old(self)@[i as int],
    {
        let root = self.root.take();
        let (l, r) = Node::<T, D, S>::split_at(&self.settings, root, i);
        let rb = r.unwrap();
        let ghost rb_snapshot = *rb;
        let (v, rest) = Node::<T, D, S>::pop_front(&self.settings, rb);
        self.root = Node::<T, D, S>::join2(&self.settings, l, rest);
        proof {
            assert(rb_snapshot.elems() == old(self)@.skip(i as int));
            assert(v == old(self)@.skip(i as int)[0]);
            assert(Node::<T, D, S>::opt_elems(rest) =~= old(self)@.skip(i as int).skip(1));
            assert(old(self)@.skip(i as int).skip(1) =~= old(self)@.skip(i + 1));
            assert(Node::<T, D, S>::opt_elems(self.root) =~= old(self)@.remove(i as int));
        }
        v
    }

    /// Replaces the element at a given position, returning the old one.
    #[verifier::rlimit(100)]
    pub(crate) fn set_at_index(&mut self, i: usize, value: T) -> (r: T)
        requires
            old(self).wf(),
            i < old(self)@.len(),
        ensures
            final(self).wf(),
            final(self)@ == old(self)@.update(i as int, value),
            final(self).spec_settings() == old(self).spec_settings(),
            r == old(self)@[i as int],
    {
        let root = self.root.take();
        let (l, r) = Node::<T, D, S>::split_at(&self.settings, root, i);
        let rb = r.unwrap();
        let ghost rb_snapshot = *rb;
        let (v, rest) = Node::<T, D, S>::pop_front(&self.settings, rb);
        let t = Node::<T, D, S>::join3(&self.settings, l, value, rest);
        proof {
            assert(rb_snapshot.elems() == old(self)@.skip(i as int));
            assert(v == old(self)@.skip(i as int)[0]);
            assert(Node::<T, D, S>::opt_elems(rest) =~= old(self)@.skip(i as int).skip(1));
            assert(old(self)@.skip(i as int).skip(1) =~= old(self)@.skip(i + 1));
            assert(t.elems() =~= old(self)@.update(i as int, value));
        }
        self.root = Some(t);
        v
    }

    /// Detaches the elements at positions `lo .. hi` into a new chain.
    #[verifier::rlimit(100)]
    pub(crate) fn take_range(&mut self, lo: usize, hi: usize) -> (r: Self)
        requires
            old(self).wf(),
            lo <= hi <= old(self)@.len(),
        ensures
            final(self).wf(),
            final(self)@ == old(self)@.subrange(0, lo as int) + old(self)@.subrange(
                hi as int,
                old(self)@.len() as int,
            ),
            final(self).spec_settings() == old(self).spec_settings(),
            r.wf(),
            r@ == old(self)@.subrange(lo as int, hi as int),
            r.spec_settings() == old(self).spec_settings(),
    {
        let root = self.root.take();
        let (l, rest) = Node::<T, D, S>::split_at(&self.settings, root, lo);
        let (mid, r) = Node::<T, D, S>::split_at(&self.settings, rest, hi - lo);
        self.root = Node::<T, D, S>::join2(&self.settings, l, r);
        proof {
            assert(Node::<T, D, S>::opt_elems(l) =~= old(self)@.subrange(0, lo as int));
            assert(Node::<T, D, S>::opt_elems(mid) =~= old(self)@.subrange(lo as int, hi as int));
            assert(Node::<T, D, S>::opt_elems(r) =~= old(self)@.subrange(
                hi as int,
                old(self)@.len() as int,
            ));
            assert(Node::<T, D, S>::opt_elems(self.root) =~= old(self)@.subrange(0, lo as int)
                + old(self)@.subrange(hi as int, old(self)@.len() as int));
        }
        FoldChain { root: mid, settings: self.settings }
    }

    /// Splices every element of another chain in at a given position.
    pub(crate) fn insert_all_at_index(&mut self, i: usize, chain: Self)
        requires
            old(self).wf(),
            chain.wf(),
            i <= old(self)@.len(),
            old(self)@.len() + chain@.len() <= usize::MAX,
        ensures
            final(self).wf(),
            final(self)@ == old(self)@.subrange(0, i as int) + chain@ + old(self)@.subrange(
                i as int,
                old(self)@.len() as int,
            ),
            final(self).spec_settings() == old(self).spec_settings(),
    {
        let root = self.root.take();
        let (l, r) = Node::<T, D, S>::split_at(&self.settings, root, i);
        let lm = Node::<T, D, S>::join2(&self.settings, l, chain.root);
        self.root = Node::<T, D, S>::join2(&self.settings, lm, r);
        proof {
            assert(Node::<T, D, S>::opt_elems(self.root) =~= old(self)@.subrange(0, i as int)
                + chain@ + old(self)@.subrange(i as int, old(self)@.len() as int));
        }
    }

    /// The simplified fold of the elements at positions `lo .. hi`.
    pub(crate) fn fold_range_in<Si: FoldSimplification<T, D, S>>(
        &self,
        si: &Si,
        lo: usize,
        hi: usize,
    ) -> (r: Si::D2)
        requires
            self.wf(),
            lo <= hi <= self@.len(),
        ensures
            Si::md2(r) == fold2_m::<T, D, S, Si>(self@.subrange(lo as int, hi as int)),
    {
        Node::<T, D, S>::fold_range(si, &self.settings, &self.root, lo, hi)
    }

    /// The number of elements.
    pub(crate) fn len_internal(&self) -> (r: usize)
        requires
            self.wf(),
        ensures
            r == self@.len(),
    {
        match &self.root {
            None => 0,
            Some(n) => n.size,
        }
    }
}

/// The cumulative simplified fold of the first `j` elements of a range, as a
/// view that may be reversed sees them: for a reversed view the elements come
/// from the right end of `e`, but they are still combined in their order
/// within `e`.
pub open spec fn lfold_of<T, D, S: FoldSettings<T, D>, Si: FoldSimplification<T, D, S>>(
    e: Seq<T>,
    reversed: bool,
    j: int,
) -> Si::M2 {
    if reversed {
        fold2_m::<T, D, S, Si>(e.subrange(e.len() - j, e.len() as int))
    } else {
        fold2_m::<T, D, S, Si>(e.subrange(0, j))
    }
}

/// The mirror of [`lfold_of`]: the cumulative simplified fold of the last `j`
/// elements of a possibly reversed range.
pub open spec fn rfold_of<T, D, S: FoldSettings<T, D>, Si: FoldSimplification<T, D, S>>(
    e: Seq<T>,
    reversed: bool,
    j: int,
) -> Si::M2 {
    if reversed {
        fold2_m::<T, D, S, Si>(e.subrange(0, j))
    } else {
        fold2_m::<T, D, S, Si>(e.subrange(e.len() - j, e.len() as int))
    }
}

/// Whether a predicate behaves well under binary search from the given end of
/// a view with the given orientation: the search walks left to right in base
/// order exactly when `from_left != reversed`.
pub open spec fn well_behaved_for<
    T,
    D,
    S: FoldSettings<T, D>,
    Si: FoldSimplification<T, D, S>,
    Pr: FoldPredicate<T, D, S, Si>,
>(pr: Pr, from_left: bool, reversed: bool) -> bool {
    if from_left != reversed {
        monotone_pred::<T, D, S, Si, Pr>(pr)
    } else {
        monotone_pred_rev::<T, D, S, Si, Pr>(pr)
    }
}

/// Finds the boundary for a predicate over cumulative folds taken from the
/// left end of the (possibly reversed) range `start .. end` of a chain.
#[verifier::rlimit(100)]
pub(crate) fn boundary_left_in<
    T,
    D,
    S: FoldSettings<T, D>,
    Si: FoldSimplification<T, D, S>,
    Pr: FoldPredicate<T, D, S, Si>,
>(
    base: &FoldChain<T, D, S>,
    start: usize,
    end: usize,
    reversed: bool,
    si: &Si,
    pr: &Pr,
) -> (k: usize)
    requires
        base.wf(),
        start <= end <= base@.len(),
    ensures
        k <= end - start,
        k < end - start ==> pr.p(lfold_of::<T, D, S, Si>(
            base@.subrange(start as int, end as int),
            reversed,
            k + 1,
        )),
        k > 0 ==> !pr.p(lfold_of::<T, D, S, Si>(
            base@.subrange(start as int, end as int),
            reversed,
            k as int,
        )),
        well_behaved_for::<T, D, S, Si, Pr>(*pr, true, reversed) ==> forall|i: int|
            k < i <= end - start ==> pr.p(#[trigger] lfold_of::<T, D, S, Si>(
                base@.subrange(start as int, end as int),
                reversed,
                i,
            )),
{
    let ghost e = base@.subrange(start as int, end as int);
    let ghost n = end - start;
    let s = base.settings;
    let acc0 = si.empty2(&s);
    let k: usize;
    if !reversed {
        let (k0, _a) = Node::<T, D, S>::search_left(
            si,
            &s,
            pr,
            &base.root,
            start,
            end,
            acc0,
            Ghost(Seq::empty()),
        );
        k = k0;
        proof {
            if k < end - start {
                assert(Seq::<T>::empty() + base@.subrange(start as int, start + k + 1)
                    =~= e.subrange(0, k + 1));
            }
            if k > 0 {
                assert(Seq::<T>::empty() + base@.subrange(start as int, start + k as int)
                    =~= e.subrange(0, k as int));
            }
        }
    } else {
        let (k0, _a) = Node::<T, D, S>::search_right(
            si,
            &s,
            pr,
            &base.root,
            start,
            end,
            acc0,
            Ghost(Seq::empty()),
        );
        k = k0;
        proof {
            if k < end - start {
                assert(base@.subrange(end - (k + 1), end as int) + Seq::<T>::empty()
                    =~= e.subrange(n - (k + 1), n as int));
            }
            if k > 0 {
                assert(base@.subrange(end - k as int, end as int) + Seq::<T>::empty()
                    =~= e.subrange(n - k as int, n as int));
            }
        }
    }
    proof {
        if well_behaved_for::<T, D, S, Si, Pr>(*pr, true, reversed) {
            assert forall|i: int| k < i <= n implies pr.p(#[trigger] lfold_of::<T, D, S, Si>(
                e,
                reversed,
                i,
            )) by {
                if !reversed {
                    lemma_monotone_prefix_extends::<T, D, S, Si, Pr>(*pr, e, k + 1, i);
                } else {
                    assert(pr.p(fold2_m::<T, D, S, Si>(e.subrange(n - (k + 1), n as int))));
                    lemma_monotone_suffix_extends::<T, D, S, Si, Pr>(*pr, e, n - (k + 1), n - i);
                }
            }
        }
    }
    k
}

/// Finds the boundary for a predicate over cumulative folds taken from the
/// right end of the (possibly reversed) range `start .. end` of a chain.
#[verifier::rlimit(100)]
pub(crate) fn boundary_right_in<
    T,
    D,
    S: FoldSettings<T, D>,
    Si: FoldSimplification<T, D, S>,
    Pr: FoldPredicate<T, D, S, Si>,
>(
    base: &FoldChain<T, D, S>,
    start: usize,
    end: usize,
    reversed: bool,
    si: &Si,
    pr: &Pr,
) -> (k: usize)
    requires
        base.wf(),
        start <= end <= base@.len(),
    ensures
        k <= end - start,
        k < end - start ==> pr.p(rfold_of::<T, D, S, Si>(
            base@.subrange(start as int, end as int),
            reversed,
            k + 1,
        )),
        k > 0 ==> !pr.p(rfold_of::<T, D, S, Si>(
            base@.subrange(start as int, end as int),
            reversed,
            k as int,
        )),
        well_behaved_for::<T, D, S, Si, Pr>(*pr, false, reversed) ==> forall|i: int|
            k < i <= end - start ==> pr.p(#[trigger] rfold_of::<T, D, S, Si>(
                base@.subrange(start as int, end as int),
                reversed,
                i,
            )),
{
    let ghost e = base@.subrange(start as int, end as int);
    let ghost n = end - start;
    let s = base.settings;
    let acc0 = si.empty2(&s);
    let k: usize;
    if !reversed {
        let (k0, _a) = Node::<T, D, S>::search_right(
            si,
            &s,
            pr,
            &base.root,
            start,
            end,
            acc0,
            Ghost(Seq::empty()),
        );
        k = k0;
        proof {
            if k < end - start {
                assert(base@.subrange(end - (k + 1), end as int) + Seq::<T>::empty()
                    =~= e.subrange(n - (k + 1), n as int));
            }
            if k > 0 {
                assert(base@.subrange(end - k as int, end as int) + Seq::<T>::empty()
                    =~= e.subrange(n - k as int, n as int));
            }
        }
    } else {
        let (k0, _a) = Node::<T, D, S>::search_left(
            si,
            &s,
            pr,
            &base.root,
            start,
            end,
            acc0,
            Ghost(Seq::empty()),
        );
        k = k0;
        proof {
            if k < end - start {
                assert(Seq::<T>::empty() + base@.subrange(start as int, start + k + 1)
                    =~= e.subrange(0, k + 1));
            }
            if k > 0 {
                assert(Seq::<T>::empty() + base@.subrange(start as int, start + k as int)
                    =~= e.subrange(0, k as int));
            }
        }
    }
    proof {
        if well_behaved_for::<T, D, S, Si, Pr>(*pr, false, reversed) {
            assert forall|i: int| k < i <= n implies pr.p(#[trigger] rfold_of::<T, D, S, Si>(
                e,
                reversed,
                i,
            )) by {
                if !reversed {
                    assert(pr.p(fold2_m::<T, D, S, Si>(e.subrange(n - (k + 1), n as int))));
                    lemma_monotone_suffix_extends::<T, D, S, Si, Pr>(*pr, e, n - (k + 1), n - i);
                } else {
                    lemma_monotone_prefix_extends::<T, D, S, Si, Pr>(*pr, e, k + 1, i);
                }
            }
        }
    }
    k
}

/// An immutable view of a contiguous range of a [`FoldChain`], with an
/// orientation and a simplification. View operations narrow the range; they
/// never change the underlying chain.
pub struct ImmFoldChainSliceStruct<
    'a,
    T,
    D,
    S: FoldSettings<T, D>,
    Si: FoldSimplification<T, D, S>,
> {
    pub(crate) base: &'a FoldChain<T, D, S>,
    pub(crate) start: usize,
    pub(crate) end: usize,
    pub(crate) reversed: bool,
    pub(crate) simplification: Si,
}

impl<'a, T, D, S: FoldSettings<T, D>, Si: FoldSimplification<T, D, S>> View for ImmFoldChainSliceStruct<'a, T, D, S, Si> {
    type V = Seq<T>;

    closed spec fn view(&self) -> Seq<T> {
        if self.reversed {
            self.base@.subrange(self.start as int, self.end as int).reverse()
        } else {
            self.base@.subrange(self.start as int, self.end as int)
        }
    }
}

impl<'a, T, D, S: FoldSettings<T, D>, Si: FoldSimplification<T, D, S>> ImmFoldChainSliceStruct<'a, T, D, S, Si> {
    /// Well-formedness: the underlying chain is well-formed and the range
    /// lies within it.
    pub closed spec fn wf(self) -> bool {
        self.base.wf() && self.start <= self.end <= self.base@.len()
    }

    /// The elements of the range in the order of the underlying chain,
    /// whatever the orientation of the view.
    pub closed spec fn base_elems(self) -> Seq<T> {
        self.base@.subrange(self.start as int, self.end as int)
    }

    /// Whether this view traverses its range right to left.
    pub closed spec fn is_reversed(self) -> bool {
        self.reversed
    }

    /// The simplification this view consults for folds and searches.
    pub closed spec fn spec_simplification(self) -> Si {
        self.simplification
    }

    /// The settings of the underlying chain.
    pub closed spec fn spec_settings(self) -> S {
        self.base.spec_settings()
    }

    /// The cumulative simplified fold of the first `j` elements of the view
    /// in its orientation, combined in the order of the underlying chain.
    pub open spec fn lfold(self, j: int) -> Si::M2 {
        lfold_of::<T, D, S, Si>(self.base_elems(), self.is_reversed(), j)
    }

    /// The cumulative simplified fold of the last `j` elements of the view
    /// in its orientation, combined in the order of the underlying chain.
    pub open spec fn rfold(self, j: int) -> Si::M2 {
        rfold_of::<T, D, S, Si>(self.base_elems(), self.is_reversed(), j)
    }

    /// The view's elements in its own orientation equal `base_elems`,
    /// reversed when the view is.
    pub proof fn lemma_view_oriented(self)
        ensures
            self@ == if self.is_reversed() {
                self.base_elems().reverse()
            } else {
                self.base_elems()
            },
            self@.len() == self.base_elems().len(),
    {
    }

    /// A copy of this view.
    pub fn borrow(&self) -> (r: ImmFoldChainSliceStruct<'_, T, D, S, Si>)
        ensures
            r == *self,
    {
        ImmFoldChainSliceStruct {
            base: self.base,
            start: self.start,
            end: self.end,
            reversed: self.reversed,
            simplification: self.simplification,
        }
    }

    /// This view itself; immutable views are already immutable.
    pub fn as_imm(self) -> (r: Self)
        ensures
            r == self,
    {
        self
    }

    /// The settings of the underlying chain.
    pub fn get_settings(&self) -> (r: S)
        ensures
            r == self.spec_settings(),
    {
        self.base.get_settings()
    }

    /// The simplification currently applied to this view.
    pub fn get_current_simplification(&self) -> (r: Si)
        ensures
            r == self.spec_simplification(),
    {
        self.simplification
    }

    /// The simplified fold of the view's elements, combined in the order of
    /// the underlying chain (reversing a view does not change its fold).
    pub fn fold(&self) -> (r: Si::D2)
        requires
            self.wf(),
        ensures
            Si::md2(r) == fold2_m::<T, D, S, Si>(self.base_elems()),
    {
        Node::<T, D, S>::fold_range(
            &self.simplification,
            &self.base.settings,
            &self.base.root,
            self.start,
            self.end,
        )
    }

    /// Whether the view holds no elements.
    pub fn is_empty(&self) -> (r: bool)
        requires
            self.wf(),
        ensures
            r == (self@.len() == 0),
    {
        self.start == self.end
    }

    /// The first element of the view in its orientation, if any.
    pub fn left(&self) -> (r: Option<&T>)
        requires
            self.wf(),
        ensures
            self@.len() == 0 ==> r is None,
            self@.len() > 0 ==> r is Some && *r.unwrap() == self@[0],
    {
        if self.start == self.end {
            None
        } else if self.reversed {
            Some(self.base.get_index(self.end - 1))
        } else {
            Some(self.base.get_index(self.start))
        }
    }

    /// The last element of the view in its orientation, if any.
    pub fn right(&self) -> (r: Option<&T>)
        requires
            self.wf(),
        ensures
            self@.len() == 0 ==> r is None,
            self@.len() > 0 ==> r is Some && *r.unwrap() == self@[self@.len() - 1],
    {
        if self.start == self.end {
            None
        } else if self.reversed {
            Some(self.base.get_index(self.start))
        } else {
            Some(self.base.get_index(self.end - 1))
        }
    }

    /// A view of the same range that traverses it in the opposite direction.
    pub fn view_reversed(self) -> (r: Self)
        requires
            self.wf(),
        ensures
            r.wf(),
            r.base_elems() == self.base_elems(),
            r.is_reversed() == !self.is_reversed(),
            r.spec_simplification() == self.spec_simplification(),
            r.spec_settings() == self.spec_settings(),
            r@ == self@.reverse(),
    {
        let r = ImmFoldChainSliceStruct {
            base: self.base,
            start: self.start,
            end: self.end,
            reversed: !self.reversed,
            simplification: self.simplification,
        };
        proof {
            assert(self.base_elems().reverse().reverse() =~= self.base_elems());
        }
        r
    }

    /// Narrows the view to its longest leading part, in its orientation,
    /// whose cumulative fold does not satisfy the predicate.
    pub fn view_take_left_until<Pr: FoldPredicate<T, D, S, Si>>(self, predicate: Pr) -> (r: Self)
        requires
            self.wf(),
        ensures
            r.wf(),
            r.is_reversed() == self.is_reversed(),
            r.spec_simplification() == self.spec_simplification(),
            r.spec_settings() == self.spec_settings(),
            r@.len() <= self@.len(),
            r@ == self@.take(r@.len() as int),
            r@.len() < self@.len() ==> predicate.p(self.lfold(r@.len() as int + 1)),
            r@.len() > 0 ==> !predicate.p(self.lfold(r@.len() as int)),
            well_behaved_for::<T, D, S, Si, Pr>(predicate, true, self.is_reversed()) ==> forall|i: int|
                r@.len() < i <= self@.len() ==> predicate.p(#[trigger] self.lfold(i)),
    {
        let k = boundary_left_in(
            self.base,
            self.start,
            self.end,
            self.reversed,
            &self.simplification,
            &predicate,
        );
        let r = if self.reversed {
            ImmFoldChainSliceStruct {
                base: self.base,
                start: self.end - k,
                end: self.end,
                reversed: true,
                simplification: self.simplification,
            }
        } else {
            ImmFoldChainSliceStruct {
                base: self.base,
                start: self.start,
                end: self.start + k,
                reversed: false,
                simplification: self.simplification,
            }
        };
        proof {
            lemma_take_left_part(self.base@, self.start as int, self.end as int, self.reversed, k as int);
        }
        r
    }

    /// Narrows the view to the complement of
    /// [`view_take_left_until`](Self::view_take_left_until): everything from
    /// the boundary onward, in its orientation.
    pub fn view_drop_left_until<Pr: FoldPredicate<T, D, S, Si>>(self, predicate: Pr) -> (r: Self)
        requires
            self.wf(),
        ensures
            r.wf(),
            r.is_reversed() == self.is_reversed(),
            r.spec_simplification() == self.spec_simplification(),
            r.spec_settings() == self.spec_settings(),
            r@.len() <= self@.len(),
            r@ == self@.skip(self@.len() - r@.len()),
            self@.len() - r@.len() < self@.len() ==> predicate.p(self.lfold(self@.len() - r@.len() + 1)),
            self@.len() - r@.len() > 0 ==> !predicate.p(self.lfold(self@.len() - r@.len())),
            well_behaved_for::<T, D, S, Si, Pr>(predicate, true, self.is_reversed()) ==> forall|i: int|
                self@.len() - r@.len() < i <= self@.len() ==> predicate.p(#[trigger] self.lfold(i)),
    {
        let k = boundary_left_in(
            self.base,
            self.start,
            self.end,
            self.reversed,
            &self.simplification,
            &predicate,
        );
        let r = if self.reversed {
            ImmFoldChainSliceStruct {
                base: self.base,
                start: self.start,
                end: self.end - k,
                reversed: true,
                simplification: self.simplification,
            }
        } else {
            ImmFoldChainSliceStruct {
                base: self.base,
                start: self.start + k,
                end: self.end,
                reversed: false,
                simplification: self.simplification,
            }
        };
        proof {
            lemma_drop_left_part(self.base@, self.start as int, self.end as int, self.reversed, k as int);
        }
        r
    }

    /// Narrows the view to its longest trailing part, in its orientation,
    /// whose cumulative fold (accumulated from the right end) does not
    /// satisfy the predicate.
    pub fn view_take_right_until<Pr: FoldPredicate<T, D, S, Si>>(self, predicate: Pr) -> (r: Self)
        requires
            self.wf(),
        ensures
            r.wf(),
            r.is_reversed() == self.is_reversed(),
            r.spec_simplification() == self.spec_simplification(),
            r.spec_settings() == self.spec_settings(),
            r@.len() <= self@.len(),
            r@ == self@.skip(self@.len() - r@.len()),
            r@.len() < self@.len() ==> predicate.p(self.rfold(r@.len() as int + 1)),
            r@.len() > 0 ==> !predicate.p(self.rfold(r@.len() as int)),
            well_behaved_for::<T, D, S, Si, Pr>(predicate, false, self.is_reversed()) ==> forall|i: int|
                r@.len() < i <= self@.len() ==> predicate.p(#[trigger] self.rfold(i)),
    {
        let k = boundary_right_in(
            self.base,
            self.start,
            self.end,
            self.reversed,
            &self.simplification,
            &predicate,
        );
        let r = if self.reversed {
            ImmFoldChainSliceStruct {
                base: self.base,
                start: self.start,
                end: self.start + k,
                reversed: true,
                simplification: self.simplification,
            }
        } else {
            ImmFoldChainSliceStruct {
                base: self.base,
                start: self.end - k,
                end: self.end,
                reversed: false,
                simplification: self.simplification,
            }
        };
        proof {
            lemma_take_right_part(self.base@, self.start as int, self.end as int, self.reversed, k as int);
        }
        r
    }

    /// Narrows the view to the complement of
    /// [`view_take_right_until`](Self::view_take_right_until): everything up
    /// to the boundary, in its orientation.
    pub fn view_drop_right_until<Pr: FoldPredicate<T, D, S, Si>>(self, predicate: Pr) -> (r: Self)
        requires
            self.wf(),
        ensures
            r.wf(),
            r.is_reversed() == self.is_reversed(),
            r.spec_simplification() == self.spec_simplification(),
            r.spec_settings() == self.spec_settings(),
            r@.len() <= self@.len(),
            r@ == self@.take(r@.len() as int),
            self@.len() - r@.len() < self@.len() ==> predicate.p(self.rfold(self@.len() - r@.len() + 1)),
            self@.len() - r@.len() > 0 ==> !predicate.p(self.rfold(self@.len() - r@.len())),
            well_behaved_for::<T, D, S, Si, Pr>(predicate, false, self.is_reversed()) ==> forall|i: int|
                self@.len() - r@.len() < i <= self@.len() ==> predicate.p(#[trigger] self.rfold(i)),
    {
        let k = boundary_right_in(
            self.base,
            self.start,
            self.end,
            self.reversed,
            &self.simplification,
            &predicate,
        );
        let r = if self.reversed {
            ImmFoldChainSliceStruct {
                base: self.base,
                start: self.start + k,
                end: self.end,
                reversed: true,
                simplification: self.simplification,
            }
        } else {
            ImmFoldChainSliceStruct {
                base: self.base,
                start: self.start,
                end: self.end - k,
                reversed: false,
                simplification: self.simplification,
            }
        };
        proof {
            lemma_drop_right_part(self.base@, self.start as int, self.end as int, self.reversed, k as int);
        }
        r
    }

    /// The same view consulting a different simplification.
    pub fn view_with_simplification<NewSi: FoldSimplification<T, D, S>>(self, new_simplification: NewSi) -> (r: ImmFoldChainSliceStruct<'a, T, D, S, NewSi>)
        requires
            self.wf(),
        ensures
            r.wf(),
            r.base_elems() == self.base_elems(),
            r.is_reversed() == self.is_reversed(),
            r.spec_settings() == self.spec_settings(),
            r.spec_simplification() == new_simplification,
            r@ == self@,
    {
        ImmFoldChainSliceStruct {
            base: self.base,
            start: self.start,
            end: self.end,
            reversed: self.reversed,
            simplification: new_simplification,
        }
    }

    /// The same view consulting the given simplification; folds and searches
    /// then work in the simplified delta type.
    pub fn view_simplify<NewSi: FoldSimplification<T, D, S>>(self, simplification: NewSi) -> (r: ImmFoldChainSliceStruct<'a, T, D, S, NewSi>)
        requires
            self.wf(),
        ensures
            r.wf(),
            r.base_elems() == self.base_elems(),
            r.is_reversed() == self.is_reversed(),
            r.spec_settings() == self.spec_settings(),
            r.spec_simplification() == simplification,
            r@ == self@,
    {
        self.view_with_simplification(simplification)
    }

    /// The same view with no simplification applied.
    pub fn view_unsimplify(self) -> (r: ImmFoldChainSliceStruct<'a, T, D, S, NoSimplification>)
        requires
            self.wf(),
        ensures
            r.wf(),
            r.base_elems() == self.base_elems(),
            r.is_reversed() == self.is_reversed(),
            r.spec_settings() == self.spec_settings(),
            r@ == self@,
    {
        self.view_with_simplification(NoSimplification)
    }
}

/// How narrowing to a leading part reads on the oriented view.
pub(crate) proof fn lemma_take_left_part<T>(b: Seq<T>, start: int, end: int, reversed: bool, k: int)
    requires
        0 <= start <= end <= b.len(),
        0 <= k <= end - start,
    ensures
        !reversed ==> b.subrange(start, start + k) == b.subrange(start, end).take(k),
        reversed ==> b.subrange(end - k, end).reverse() == b.subrange(start, end).reverse().take(
            k,
        ),
{
    assert(b.subrange(start, start + k) =~= b.subrange(start, end).take(k));
    assert(b.subrange(end - k, end).reverse() =~= b.subrange(start, end).reverse().take(k));
}

/// How narrowing to a trailing part (measured by the boundary from the left)
/// reads on the oriented view.
pub(crate) proof fn lemma_drop_left_part<T>(b: Seq<T>, start: int, end: int, reversed: bool, k: int)
    requires
        0 <= start <= end <= b.len(),
        0 <= k <= end - start,
    ensures
        !reversed ==> b.subrange(start + k, end) == b.subrange(start, end).skip(k),
        reversed ==> b.subrange(start, end - k).reverse() == b.subrange(start, end).reverse().skip(
            k,
        ),
{
    assert(b.subrange(start + k, end) =~= b.subrange(start, end).skip(k));
    assert(b.subrange(start, end - k).reverse() =~= b.subrange(start, end).reverse().skip(k));
}

/// How narrowing to a trailing part in orientation (a boundary from the
/// right) reads on the oriented view.
pub(crate) proof fn lemma_take_right_part<T>(b: Seq<T>, start: int, end: int, reversed: bool, k: int)
    requires
        0 <= start <= end <= b.len(),
        0 <= k <= end - start,
    ensures
        !reversed ==> b.subrange(end - k, end) == b.subrange(start, end).skip(end - start - k),
        reversed ==> b.subrange(start, start + k).reverse() == b.subrange(
            start,
            end,
        ).reverse().skip(end - start - k),
{
    assert(b.subrange(end - k, end) =~= b.subrange(start, end).skip(end - start - k));
    assert(b.subrange(start, start + k).reverse() =~= b.subrange(start, end).reverse().skip(
        end - start - k,
    ));
}

/// The complement of [`lemma_take_right_part`] on the oriented view.
pub(crate) proof fn lemma_drop_right_part<T>(b: Seq<T>, start: int, end: int, reversed: bool, k: int)
    requires
        0 <= start <= end <= b.len(),
        0 <= k <= end - start,
    ensures
        !reversed ==> b.subrange(start, end - k) == b.subrange(start, end).take(end - start - k),
        reversed ==> b.subrange(start + k, end).reverse() == b.subrange(
            start,
            end,
        ).reverse().take(end - start - k),
{
    assert(b.subrange(start, end - k) =~= b.subrange(start, end).take(end - start - k));
    assert(b.subrange(start + k, end).reverse() =~= b.subrange(start, end).reverse().take(
        end - start - k,
    ));
}

} // verus!

verus! {

impl<T, D0, G: crate::fold_settings::FoldSemigroup<T, D0>> FoldChain<
    T,
    Option<D0>,
    crate::fold_settings::OptSettings<G>,
> {
    /// An empty chain over a fold with no identity of its own: the deltas
    /// are lifted into `Option`, with `None` as the empty delta.
    pub fn new_with_opt(semigroup: G) -> (r: Self)
        ensures
            r.wf(),
            r@ == Seq::<T>::empty(),
            r.spec_settings() == (crate::fold_settings::OptSettings(semigroup)),
    {
        FoldChain::from_settings(crate::fold_settings::OptSettings(semigroup))
    }

    /// A chain over a fold with no identity of its own, holding the given
    /// elements in order.
    pub fn new_with_opt_from_iter(semigroup: G, items: Vec<T>) -> (r: Self)
        ensures
            r.wf(),
            r@ == items@,
            r.spec_settings() == (crate::fold_settings::OptSettings(semigroup)),
    {
        FoldChain::from_iter(crate::fold_settings::OptSettings(semigroup), items)
    }
}

impl<T, D, S: FoldSettings<T, D>> FoldChain<T, D, S> {
    /// An immutable view of the whole chain.
    pub fn as_imm(&self) -> (r: ImmFoldChainSliceStruct<'_, T, D, S, NoSimplification>)
        requires
            self.wf(),
        ensures
            r.wf(),
            r.base_elems() == self@,
            !r.is_reversed(),
            r.spec_settings() == self.spec_settings(),
            r@ == self@,
    {
        proof {
            self.lemma_len_bound();
            assert(self@.subrange(0, self@.len() as int) =~= self@);
        }
        ImmFoldChainSliceStruct {
            base: self,
            start: 0,
            end: self.len_internal(),
            reversed: false,
            simplification: NoSimplification,
        }
    }

    /// An immutable view of the whole chain.
    pub fn borrow(&self) -> (r: ImmFoldChainSliceStruct<'_, T, D, S, NoSimplification>)
        requires
            self.wf(),
        ensures
            r.wf(),
            r.base_elems() == self@,
            !r.is_reversed(),
            r.spec_settings() == self.spec_settings(),
            r@ == self@,
    {
        self.as_imm()
    }

    /// An immutable view of the whole chain, traversed right to left.
    pub fn view_reversed(&self) -> (r: ImmFoldChainSliceStruct<'_, T, D, S, NoSimplification>)
        requires
            self.wf(),
        ensures
            r.wf(),
            r.base_elems() == self@,
            r.is_reversed(),
            r.spec_settings() == self.spec_settings(),
            r@ == self@.reverse(),
    {
        self.as_imm().view_reversed()
    }

    /// An immutable view of the longest prefix whose cumulative fold does
    /// not satisfy the predicate; see
    /// [`ImmFoldChainSliceStruct::view_take_left_until`].
    pub fn view_take_left_until<Pr: FoldPredicate<T, D, S, NoSimplification>>(&self, predicate: Pr) -> (r: ImmFoldChainSliceStruct<'_, T, D, S, NoSimplification>)
        requires
            self.wf(),
        ensures
            r.wf(),
            !r.is_reversed(),
            r.spec_settings() == self.spec_settings(),
            r@.len() <= self@.len(),
            r@ == self@.take(r@.len() as int),
            r@.len() < self@.len() ==> predicate.p(lfold_of::<T, D, S, NoSimplification>(self@, false, r@.len() as int + 1)),
            r@.len() > 0 ==> !predicate.p(lfold_of::<T, D, S, NoSimplification>(self@, false, r@.len() as int)),
            monotone_pred::<T, D, S, NoSimplification, Pr>(predicate) ==> forall|i: int|
                r@.len() < i <= self@.len() ==> predicate.p(#[trigger] lfold_of::<T, D, S, NoSimplification>(self@, false, i)),
    {
        let sl = self.as_imm();
        let r = sl.view_take_left_until(predicate);
        proof {
            if monotone_pred::<T, D, S, NoSimplification, Pr>(predicate) {
                assert forall|i: int| r@.len() < i <= self@.len() implies predicate.p(
                    #[trigger] lfold_of::<T, D, S, NoSimplification>(self@, false, i),
                ) by {
                    assert(predicate.p(sl.lfold(i)));
                }
            }
        }
        r
    }

    /// An immutable view of the complement of
    /// [`view_take_left_until`](Self::view_take_left_until).
    pub fn view_drop_left_until<Pr: FoldPredicate<T, D, S, NoSimplification>>(&self, predicate: Pr) -> (r: ImmFoldChainSliceStruct<'_, T, D, S, NoSimplification>)
        requires
            self.wf(),
        ensures
            r.wf(),
            !r.is_reversed(),
            r.spec_settings() == self.spec_settings(),
            r@.len() <= self@.len(),
            r@ == self@.skip(self@.len() - r@.len()),
            self@.len() - r@.len() < self@.len() ==> predicate.p(lfold_of::<T, D, S, NoSimplification>(self@, false, self@.len() - r@.len() + 1)),
            self@.len() - r@.len() > 0 ==> !predicate.p(lfold_of::<T, D, S, NoSimplification>(self@, false, self@.len() - r@.len())),
            monotone_pred::<T, D, S, NoSimplification, Pr>(predicate) ==> forall|i: int|
                self@.len() - r@.len() < i <= self@.len() ==> predicate.p(#[trigger] lfold_of::<T, D, S, NoSimplification>(self@, false, i)),
    {
        let sl = self.as_imm();
        let r = sl.view_drop_left_until(predicate);
        proof {
            if monotone_pred::<T, D, S, NoSimplification, Pr>(predicate) {
                assert forall|i: int| self@.len() - r@.len() < i <= self@.len() implies predicate.p(
                    #[trigger] lfold_of::<T, D, S, NoSimplification>(self@, false, i),
                ) by {
                    assert(predicate.p(sl.lfold(i)));
                }
            }
        }
        r
    }

    /// An immutable view of the longest suffix whose cumulative fold, taken
    /// from the right end, does not satisfy the predicate; see
    /// [`ImmFoldChainSliceStruct::view_take_right_until`].
    pub fn view_take_right_until<Pr: FoldPredicate<T, D, S, NoSimplification>>(&self, predicate: Pr) -> (r: ImmFoldChainSliceStruct<'_, T, D, S, NoSimplification>)
        requires
            self.wf(),
        ensures
            r.wf(),
            !r.is_reversed(),
            r.spec_settings() == self.spec_settings(),
            r@.len() <= self@.len(),
            r@ == self@.skip(self@.len() - r@.len()),
            r@.len() < self@.len() ==> predicate.p(rfold_of::<T, D, S, NoSimplification>(self@, false, r@.len() as int + 1)),
            r@.len() > 0 ==> !predicate.p(rfold_of::<T, D, S, NoSimplification>(self@, false, r@.len() as int)),
            monotone_pred_rev::<T, D, S, NoSimplification, Pr>(predicate) ==> forall|i: int|
                r@.len() < i <= self@.len() ==> predicate.p(#[trigger] rfold_of::<T, D, S, NoSimplification>(self@, false, i)),
    {
        let sl = self.as_imm();
        let r = sl.view_take_right_until(predicate);
        proof {
            if monotone_pred_rev::<T, D, S, NoSimplification, Pr>(predicate) {
                assert forall|i: int| r@.len() < i <= self@.len() implies predicate.p(
                    #[trigger] rfold_of::<T, D, S, NoSimplification>(self@, false, i),
                ) by {
                    assert(predicate.p(sl.rfold(i)));
                }
            }
        }
        r
    }

    /// An immutable view of the complement of
    /// [`view_take_right_until`](Self::view_take_right_until).
    pub fn view_drop_right_until<Pr: FoldPredicate<T, D, S, NoSimplification>>(&self, predicate: Pr) -> (r: ImmFoldChainSliceStruct<'_, T, D, S, NoSimplification>)
        requires
            self.wf(),
        ensures
            r.wf(),
            !r.is_reversed(),
            r.spec_settings() == self.spec_settings(),
            r@.len() <= self@.len(),
            r@ == self@.take(r@.len() as int),
            self@.len() - r@.len() < self@.len() ==> predicate.p(rfold_of::<T, D, S, NoSimplification>(self@, false, self@.len() - r@.len() + 1)),
            self@.len() - r@.len() > 0 ==> !predicate.p(rfold_of::<T, D, S, NoSimplification>(self@, false, self@.len() - r@.len())),
            monotone_pred_rev::<T, D, S, NoSimplification, Pr>(predicate) ==> forall|i: int|
                self@.len() - r@.len() < i <= self@.len() ==> predicate.p(#[trigger] rfold_of::<T, D, S, NoSimplification>(self@, false, i)),
    {
        let sl = self.as_imm();
        let r = sl.view_drop_right_until(predicate);
        proof {
            if monotone_pred_rev::<T, D, S, NoSimplification, Pr>(predicate) {
                assert forall|i: int| self@.len() - r@.len() < i <= self@.len() implies predicate.p(
                    #[trigger] rfold_of::<T, D, S, NoSimplification>(self@, false, i),
                ) by {
                    assert(predicate.p(sl.rfold(i)));
                }
            }
        }
        r
    }

    /// An immutable view of the whole chain consulting the given
    /// simplification.
    pub fn view_with_simplification<NewSi: FoldSimplification<T, D, S>>(&self, new_simplification: NewSi) -> (r: ImmFoldChainSliceStruct<'_, T, D, S, NewSi>)
        requires
            self.wf(),
        ensures
            r.wf(),
            r.base_elems() == self@,
            !r.is_reversed(),
            r.spec_settings() == self.spec_settings(),
            r.spec_simplification() == new_simplification,
            r@ == self@,
    {
        self.as_imm().view_with_simplification(new_simplification)
    }

    /// An immutable view of the whole chain consulting the given
    /// simplification.
    pub fn view_simplify<NewSi: FoldSimplification<T, D, S>>(&self, simplification: NewSi) -> (r: ImmFoldChainSliceStruct<'_, T, D, S, NewSi>)
        requires
            self.wf(),
        ensures
            r.wf(),
            r.base_elems() == self@,
            !r.is_reversed(),
            r.spec_settings() == self.spec_settings(),
            r.spec_simplification() == simplification,
            r@ == self@,
    {
        self.as_imm().view_with_simplification(simplification)
    }

    /// Like [`view_simplify`](Self::view_simplify), for a simplification
    /// whose empty and per-element shortcuts do their work directly.
    pub fn view_simplify_with_shortcut<NewSi: FoldSimplification<T, D, S>>(&self, simplification: NewSi) -> (r: ImmFoldChainSliceStruct<'_, T, D, S, NewSi>)
        requires
            self.wf(),
        ensures
            r.wf(),
            r.base_elems() == self@,
            !r.is_reversed(),
            r.spec_settings() == self.spec_settings(),
            r.spec_simplification() == simplification,
            r@ == self@,
    {
        self.as_imm().view_with_simplification(simplification)
    }

    /// An immutable view of the whole chain with no simplification.
    pub fn view_unsimplify(&self) -> (r: ImmFoldChainSliceStruct<'_, T, D, S, NoSimplification>)
        requires
            self.wf(),
        ensures
            r.wf(),
            r.base_elems() == self@,
            !r.is_reversed(),
            r.spec_settings() == self.spec_settings(),
            r@ == self@,
    {
        self.as_imm()
    }
}

} // verus!

verus! {

/// A mutable view of a contiguous range of a [`FoldChain`], with an
/// orientation and a simplification. View operations narrow the range;
/// mutating operations change the underlying chain through the view. All of
/// them consume the view and those that keep it alive return the narrowed or
/// updated view.
pub struct MutFoldChainSliceStruct<
    'a,
    T,
    D,
    S: FoldSettings<T, D>,
    Si: FoldSimplification<T, D, S>,
> {
    pub(crate) base: &'a mut FoldChain<T, D, S>,
    pub(crate) start: usize,
    pub(crate) end: usize,
    pub(crate) reversed: bool,
    pub(crate) simplification: Si,
}

impl<'a, T, D, S: FoldSettings<T, D>, Si: FoldSimplification<T, D, S>> View for MutFoldChainSliceStruct<'a, T, D, S, Si> {
    type V = Seq<T>;

    closed spec fn view(&self) -> Seq<T> {
        if self.reversed {
            (*self.base)@.subrange(self.start as int, self.end as int).reverse()
        } else {
            (*self.base)@.subrange(self.start as int, self.end as int)
        }
    }
}

impl<'a, T, D, S: FoldSettings<T, D>, Si: FoldSimplification<T, D, S>> MutFoldChainSliceStruct<'a, T, D, S, Si> {
    /// Well-formedness: the underlying chain is well-formed and the range
    /// lies within it.
    pub closed spec fn wf(self) -> bool {
        (*self.base).wf() && self.start <= self.end <= (*self.base)@.len()
    }

    /// The elements of the range in the order of the underlying chain,
    /// whatever the orientation of the view.
    pub closed spec fn base_elems(self) -> Seq<T> {
        (*self.base)@.subrange(self.start as int, self.end as int)
    }

    /// The elements of the underlying chain before the range.
    pub closed spec fn base_prefix(self) -> Seq<T> {
        (*self.base)@.subrange(0, self.start as int)
    }

    /// The elements of the underlying chain after the range.
    pub closed spec fn base_suffix(self) -> Seq<T> {
        (*self.base)@.subrange(self.end as int, (*self.base)@.len() as int)
    }

    /// The whole underlying chain's elements.
    pub closed spec fn base_all(self) -> Seq<T> {
        (*self.base)@
    }

    /// Whether this view traverses its range right to left.
    pub closed spec fn is_reversed(self) -> bool {
        self.reversed
    }

    /// The simplification this view consults for folds and searches.
    pub closed spec fn spec_simplification(self) -> Si {
        self.simplification
    }

    /// The settings of the underlying chain.
    pub closed spec fn spec_settings(self) -> S {
        (*self.base).spec_settings()
    }

    /// The cumulative simplified fold of the first `j` elements of the view
    /// in its orientation, combined in the order of the underlying chain.
    pub open spec fn lfold(self, j: int) -> Si::M2 {
        lfold_of::<T, D, S, Si>(self.base_elems(), self.is_reversed(), j)
    }

    /// The cumulative simplified fold of the last `j` elements of the view
    /// in its orientation, combined in the order of the underlying chain.
    pub open spec fn rfold(self, j: int) -> Si::M2 {
        rfold_of::<T, D, S, Si>(self.base_elems(), self.is_reversed(), j)
    }

    /// The decomposition of the underlying chain around the view.
    pub proof fn lemma_base_decomposition(self)
        requires
            self.wf(),
        ensures
            self.base_all() == self.base_prefix() + self.base_elems() + self.base_suffix(),
    {
        assert(self.base_all() =~= self.base_prefix() + self.base_elems() + self.base_suffix());
    }

    /// An immutable copy of this view's range.
    pub fn borrow(&self) -> (r: ImmFoldChainSliceStruct<'_, T, D, S, Si>)
        requires
            self.wf(),
        ensures
            r.wf(),
            r.base_elems() == self.base_elems(),
            r.is_reversed() == self.is_reversed(),
            r.spec_simplification() == self.spec_simplification(),
            r.spec_settings() == self.spec_settings(),
            r@ == self@,
    {
        ImmFoldChainSliceStruct {
            base: &*self.base,
            start: self.start,
            end: self.end,
            reversed: self.reversed,
            simplification: self.simplification,
        }
    }

    /// This view, immutable from here on: the underlying chain keeps its
    /// current contents for the rest of the borrow.
    pub fn as_imm(self) -> (r: ImmFoldChainSliceStruct<'a, T, D, S, Si>)
        requires
            self.wf(),
        ensures
            r.wf(),
            r.base_elems() == self.base_elems(),
            r.is_reversed() == self.is_reversed(),
            r.spec_simplification() == self.spec_simplification(),
            r.spec_settings() == self.spec_settings(),
            r@ == self@,
    {
        ImmFoldChainSliceStruct {
            base: self.base,
            start: self.start,
            end: self.end,
            reversed: self.reversed,
            simplification: self.simplification,
        }
    }

    /// The settings of the underlying chain.
    pub fn get_settings(&self) -> (r: S)
        ensures
            r == self.spec_settings(),
    {
        (*self.base).get_settings()
    }

    /// The simplification currently applied to this view.
    pub fn get_current_simplification(&self) -> (r: Si)
        ensures
            r == self.spec_simplification(),
    {
        self.simplification
    }

    /// The simplified fold of the view's elements, combined in the order of
    /// the underlying chain (reversing a view does not change its fold).
    pub fn fold(&self) -> (r: Si::D2)
        requires
            self.wf(),
        ensures
            Si::md2(r) == fold2_m::<T, D, S, Si>(self.base_elems()),
    {
        Node::<T, D, S>::fold_range(
            &self.simplification,
            &self.base.settings,
            &self.base.root,
            self.start,
            self.end,
        )
    }

    /// Whether the view holds no elements.
    pub fn is_empty(&self) -> (r: bool)
        requires
            self.wf(),
        ensures
            r == (self@.len() == 0),
    {
        self.start == self.end
    }

    /// The first element of the view in its orientation, if any.
    pub fn left(&self) -> (r: Option<&T>)
        requires
            self.wf(),
        ensures
            self@.len() == 0 ==> r is None,
            self@.len() > 0 ==> r is Some && *r.unwrap() == self@[0],
    {
        if self.start == self.end {
            None
        } else if self.reversed {
            Some(self.base.get_index(self.end - 1))
        } else {
            Some(self.base.get_index(self.start))
        }
    }

    /// The last element of the view in its orientation, if any.
    pub fn right(&self) -> (r: Option<&T>)
        requires
            self.wf(),
        ensures
            self@.len() == 0 ==> r is None,
            self@.len() > 0 ==> r is Some && *r.unwrap() == self@[self@.len() - 1],
    {
        if self.start == self.end {
            None
        } else if self.reversed {
            Some(self.base.get_index(self.start))
        } else {
            Some(self.base.get_index(self.end - 1))
        }
    }

    /// A mutable view of the same range that traverses it in the opposite
    /// direction.
    pub fn mut_view_reversed(self) -> (r: Self)
        requires
            self.wf(),
        ensures
            r.wf(),
            r.base_elems() == self.base_elems(),
            r.base_all() == self.base_all(),
            r.is_reversed() == !self.is_reversed(),
            r.spec_simplification() == self.spec_simplification(),
            r.spec_settings() == self.spec_settings(),
            r@ == self@.reverse(),
    {
        let ghost be = self.base_elems();
        proof {
            assert(be.reverse().reverse() =~= be);
        }
        MutFoldChainSliceStruct {
            base: self.base,
            start: self.start,
            end: self.end,
            reversed: !self.reversed,
            simplification: self.simplification,
        }
    }

    /// Narrows the view to its longest leading part, in its orientation,
    /// whose cumulative fold does not satisfy the predicate; see
    /// [`ImmFoldChainSliceStruct::view_take_left_until`].
    pub fn mut_view_take_left_until<Pr: FoldPredicate<T, D, S, Si>>(self, predicate: Pr) -> (r: Self)
        requires
            self.wf(),
        ensures
            r.wf(),
            r.base_all() == self.base_all(),
            r.is_reversed() == self.is_reversed(),
            r.spec_simplification() == self.spec_simplification(),
            r.spec_settings() == self.spec_settings(),
            r@.len() <= self@.len(),
            r@ == self@.take(r@.len() as int),
            r@.len() < self@.len() ==> predicate.p(self.lfold(r@.len() as int + 1)),
            r@.len() > 0 ==> !predicate.p(self.lfold(r@.len() as int)),
            well_behaved_for::<T, D, S, Si, Pr>(predicate, true, self.is_reversed()) ==> forall|i: int|
                r@.len() < i <= self@.len() ==> predicate.p(#[trigger] self.lfold(i)),
    {
        let k = boundary_left_in(
            &*self.base,
            self.start,
            self.end,
            self.reversed,
            &self.simplification,
            &predicate,
        );
        let (new_start, new_end) = if self.reversed {
            (self.end - k, self.end)
        } else {
            (self.start, self.start + k)
        };
        proof {
            lemma_take_left_part(
                (*self.base)@,
                self.start as int,
                self.end as int,
                self.reversed,
                k as int,
            );
        }
        MutFoldChainSliceStruct {
            base: self.base,
            start: new_start,
            end: new_end,
            reversed: self.reversed,
            simplification: self.simplification,
        }
    }

    /// Narrows the view to the complement of
    /// [`mut_view_take_left_until`](Self::mut_view_take_left_until).
    pub fn mut_view_drop_left_until<Pr: FoldPredicate<T, D, S, Si>>(self, predicate: Pr) -> (r: Self)
        requires
            self.wf(),
        ensures
            r.wf(),
            r.base_all() == self.base_all(),
            r.is_reversed() == self.is_reversed(),
            r.spec_simplification() == self.spec_simplification(),
            r.spec_settings() == self.spec_settings(),
            r@.len() <= self@.len(),
            r@ == self@.skip(self@.len() - r@.len()),
            self@.len() - r@.len() < self@.len() ==> predicate.p(self.lfold(self@.len() - r@.len() + 1)),
            self@.len() - r@.len() > 0 ==> !predicate.p(self.lfold(self@.len() - r@.len())),
            well_behaved_for::<T, D, S, Si, Pr>(predicate, true, self.is_reversed()) ==> forall|i: int|
                self@.len() - r@.len() < i <= self@.len() ==> predicate.p(#[trigger] self.lfold(i)),
    {
        let k = boundary_left_in(
            &*self.base,
            self.start,
            self.end,
            self.reversed,
            &self.simplification,
            &predicate,
        );
        let (new_start, new_end) = if self.reversed {
            (self.start, self.end - k)
        } else {
            (self.start + k, self.end)
        };
        proof {
            lemma_drop_left_part(
                (*self.base)@,
                self.start as int,
                self.end as int,
                self.reversed,
                k as int,
            );
        }
        MutFoldChainSliceStruct {
            base: self.base,
            start: new_start,
            end: new_end,
            reversed: self.reversed,
            simplification: self.simplification,
        }
    }

    /// Narrows the view to its longest trailing part, in its orientation,
    /// whose cumulative fold taken from the right end does not satisfy the
    /// predicate; see [`ImmFoldChainSliceStruct::view_take_right_until`].
    pub fn mut_view_take_right_until<Pr: FoldPredicate<T, D, S, Si>>(self, predicate: Pr) -> (r: Self)
        requires
            self.wf(),
        ensures
            r.wf(),
            r.base_all() == self.base_all(),
            r.is_reversed() == self.is_reversed(),
            r.spec_simplification() == self.spec_simplification(),
            r.spec_settings() == self.spec_settings(),
            r@.len() <= self@.len(),
            r@ == self@.skip(self@.len() - r@.len()),
            r@.len() < self@.len() ==> predicate.p(self.rfold(r@.len() as int + 1)),
            r@.len() > 0 ==> !predicate.p(self.rfold(r@.len() as int)),
            well_behaved_for::<T, D, S, Si, Pr>(predicate, false, self.is_reversed()) ==> forall|i: int|
                r@.len() < i <= self@.len() ==> predicate.p(#[trigger] self.rfold(i)),
    {
        let k = boundary_right_in(
            &*self.base,
            self.start,
            self.end,
            self.reversed,
            &self.simplification,
            &predicate,
        );
        let (new_start, new_end) = if self.reversed {
            (self.start, self.start + k)
        } else {
            (self.end - k, self.end)
        };
        proof {
            lemma_take_right_part(
                (*self.base)@,
                self.start as int,
                self.end as int,
                self.reversed,
                k as int,
            );
        }
        MutFoldChainSliceStruct {
            base: self.base,
            start: new_start,
            end: new_end,
            reversed: self.reversed,
            simplification: self.simplification,
        }
    }

    /// Narrows the view to the complement of
    /// [`mut_view_take_right_until`](Self::mut_view_take_right_until).
    pub fn mut_view_drop_right_until<Pr: FoldPredicate<T, D, S, Si>>(self, predicate: Pr) -> (r: Self)
        requires
            self.wf(),
        ensures
            r.wf(),
            r.base_all() == self.base_all(),
            r.is_reversed() == self.is_reversed(),
            r.spec_simplification() == self.spec_simplification(),
            r.spec_settings() == self.spec_settings(),
            r@.len() <= self@.len(),
            r@ == self@.take(r@.len() as int),
            self@.len() - r@.len() < self@.len() ==> predicate.p(self.rfold(self@.len() - r@.len() + 1)),
            self@.len() - r@.len() > 0 ==> !predicate.p(self.rfold(self@.len() - r@.len())),
            well_behaved_for::<T, D, S, Si, Pr>(predicate, false, self.is_reversed()) ==> forall|i: int|
                self@.len() - r@.len() < i <= self@.len() ==> predicate.p(#[trigger] self.rfold(i)),
    {
        let k = boundary_right_in(
            &*self.base,
            self.start,
            self.end,
            self.reversed,
            &self.simplification,
            &predicate,
        );
        let (new_start, new_end) = if self.reversed {
            (self.start + k, self.end)
        } else {
            (self.start, self.end - k)
        };
        proof {
            lemma_drop_right_part(
                (*self.base)@,
                self.start as int,
                self.end as int,
                self.reversed,
                k as int,
            );
        }
        MutFoldChainSliceStruct {
            base: self.base,
            start: new_start,
            end: new_end,
            reversed: self.reversed,
            simplification: self.simplification,
        }
    }

    /// The same mutable view consulting a different simplification.
    pub fn mut_view_with_simplification<NewSi: FoldSimplification<T, D, S>>(self, new_simplification: NewSi) -> (r: MutFoldChainSliceStruct<'a, T, D, S, NewSi>)
        requires
            self.wf(),
        ensures
            r.wf(),
            r.base_elems() == self.base_elems(),
            r.base_all() == self.base_all(),
            r.is_reversed() == self.is_reversed(),
            r.spec_settings() == self.spec_settings(),
            r.spec_simplification() == new_simplification,
            r@ == self@,
    {
        MutFoldChainSliceStruct {
            base: self.base,
            start: self.start,
            end: self.end,
            reversed: self.reversed,
            simplification: new_simplification,
        }
    }

    /// The same mutable view consulting the given simplification.
    pub fn mut_view_simplify<NewSi: FoldSimplification<T, D, S>>(self, simplification: NewSi) -> (r: MutFoldChainSliceStruct<'a, T, D, S, NewSi>)
        requires
            self.wf(),
        ensures
            r.wf(),
            r.base_elems() == self.base_elems(),
            r.base_all() == self.base_all(),
            r.is_reversed() == self.is_reversed(),
            r.spec_settings() == self.spec_settings(),
            r.spec_simplification() == simplification,
            r@ == self@,
    {
        self.mut_view_with_simplification(simplification)
    }

    /// Like [`mut_view_simplify`](Self::mut_view_simplify), for a
    /// simplification whose empty and per-element shortcuts do their work
    /// directly.
    pub fn mut_view_simplify_with_shortcut<NewSi: FoldSimplification<T, D, S>>(self, simplification: NewSi) -> (r: MutFoldChainSliceStruct<'a, T, D, S, NewSi>)
        requires
            self.wf(),
        ensures
            r.wf(),
            r.base_elems() == self.base_elems(),
            r.base_all() == self.base_all(),
            r.is_reversed() == self.is_reversed(),
            r.spec_settings() == self.spec_settings(),
            r.spec_simplification() == simplification,
            r@ == self@,
    {
        self.mut_view_with_simplification(simplification)
    }

    /// The same mutable view with no simplification applied.
    pub fn mut_view_unsimplify(self) -> (r: MutFoldChainSliceStruct<'a, T, D, S, NoSimplification>)
        requires
            self.wf(),
        ensures
            r.wf(),
            r.base_elems() == self.base_elems(),
            r.base_all() == self.base_all(),
            r.is_reversed() == self.is_reversed(),
            r.spec_settings() == self.spec_settings(),
            r@ == self@,
    {
        self.mut_view_with_simplification(NoSimplification)
    }
}

} // verus!

verus! {

impl<'a, T, D, S: FoldSettings<T, D>, Si: FoldSimplification<T, D, S>> MutFoldChainSliceStruct<'a, T, D, S, Si> {
    /// Removes and returns the first element of the view in its orientation,
    /// or `None` when the view is empty. The element leaves the underlying
    /// chain; everything outside the view is untouched.
    pub fn pop_left(self) -> (res: (Option<T>, Self))
        requires
            self.wf(),
        ensures
            res.1.wf(),
            res.1.is_reversed() == self.is_reversed(),
            res.1.spec_simplification() == self.spec_simplification(),
            res.1.spec_settings() == self.spec_settings(),
            res.1.base_prefix() == self.base_prefix(),
            res.1.base_suffix() == self.base_suffix(),
            self@.len() == 0 ==> res.0 is None && res.1@ == self@ && res.1.base_all()
                == self.base_all(),
            self@.len() > 0 ==> res.0 == Some(self@[0]) && res.1@ == self@.skip(1),
    {
        if self.start == self.end {
            (None, self)
        } else {
            let MutFoldChainSliceStruct { base, start, end, reversed, simplification } = self;
            let idx = if reversed {
                end - 1
            } else {
                start
            };
            let v = base.remove_at_index(idx);
            let r = MutFoldChainSliceStruct {
                base,
                start,
                end: end - 1,
                reversed,
                simplification,
            };
            proof {
                lemma_remove_in_range((*old(self.base))@, start as int, end as int, idx as int);
            }
            (Some(v), r)
        }
    }

    /// Removes and returns the last element of the view in its orientation,
    /// or `None` when the view is empty.
    pub fn pop_right(self) -> (res: (Option<T>, Self))
        requires
            self.wf(),
        ensures
            res.1.wf(),
            res.1.is_reversed() == self.is_reversed(),
            res.1.spec_simplification() == self.spec_simplification(),
            res.1.spec_settings() == self.spec_settings(),
            res.1.base_prefix() == self.base_prefix(),
            res.1.base_suffix() == self.base_suffix(),
            self@.len() == 0 ==> res.0 is None && res.1@ == self@ && res.1.base_all()
                == self.base_all(),
            self@.len() > 0 ==> res.0 == Some(self@.last()) && res.1@ == self@.drop_last(),
    {
        if self.start == self.end {
            (None, self)
        } else {
            let MutFoldChainSliceStruct { base, start, end, reversed, simplification } = self;
            let idx = if reversed {
                start
            } else {
                end - 1
            };
            let v = base.remove_at_index(idx);
            let r = MutFoldChainSliceStruct {
                base,
                start,
                end: end - 1,
                reversed,
                simplification,
            };
            proof {
                lemma_remove_in_range((*old(self.base))@, start as int, end as int, idx as int);
            }
            (Some(v), r)
        }
    }

    /// Adds an element before the first element of the view in its
    /// orientation.
    pub fn append_left(self, value: T) -> (r: Self)
        requires
            self.wf(),
            self.base_all().len() < usize::MAX,
        ensures
            r.wf(),
            r.is_reversed() == self.is_reversed(),
            r.spec_simplification() == self.spec_simplification(),
            r.spec_settings() == self.spec_settings(),
            r.base_prefix() == self.base_prefix(),
            r.base_suffix() == self.base_suffix(),
            r@ == seq![value] + self@,
    {
        let MutFoldChainSliceStruct { base, start, end, reversed, simplification } = self;
        let idx = if reversed {
            end
        } else {
            start
        };
        base.insert_at_index(idx, value);
        let r = MutFoldChainSliceStruct {
            base,
            start,
            end: end + 1,
            reversed,
            simplification,
        };
        proof {
            lemma_insert_in_range((*old(self.base))@, start as int, end as int, idx as int, value);
        }
        r
    }

    /// Adds an element after the last element of the view in its
    /// orientation.
    pub fn append_right(self, value: T) -> (r: Self)
        requires
            self.wf(),
            self.base_all().len() < usize::MAX,
        ensures
            r.wf(),
            r.is_reversed() == self.is_reversed(),
            r.spec_simplification() == self.spec_simplification(),
            r.spec_settings() == self.spec_settings(),
            r.base_prefix() == self.base_prefix(),
            r.base_suffix() == self.base_suffix(),
            r@ == self@ + seq![value],
    {
        let MutFoldChainSliceStruct { base, start, end, reversed, simplification } = self;
        let idx = if reversed {
            start
        } else {
            end
        };
        base.insert_at_index(idx, value);
        let r = MutFoldChainSliceStruct {
            base,
            start,
            end: end + 1,
            reversed,
            simplification,
        };
        proof {
            lemma_insert_in_range((*old(self.base))@, start as int, end as int, idx as int, value);
        }
        r
    }

    /// Replaces the first element of the view in its orientation, returning
    /// the old one; an empty view gives the value back as the error.
    pub fn set_left_or_err(self, value: T) -> (res: (Result<T, T>, Self))
        requires
            self.wf(),
        ensures
            res.1.wf(),
            res.1.is_reversed() == self.is_reversed(),
            res.1.spec_simplification() == self.spec_simplification(),
            res.1.spec_settings() == self.spec_settings(),
            res.1.base_prefix() == self.base_prefix(),
            res.1.base_suffix() == self.base_suffix(),
            self@.len() == 0 ==> res.0 == Err::<T, T>(value) && res.1@ == self@ && res.1.base_all()
                == self.base_all(),
            self@.len() > 0 ==> res.0 == Ok::<T, T>(self@[0]) && res.1@ == self@.update(0, value),
    {
        if self.start == self.end {
            (Err(value), self)
        } else {
            let MutFoldChainSliceStruct { base, start, end, reversed, simplification } = self;
            let idx = if reversed {
                end - 1
            } else {
                start
            };
            let v = base.set_at_index(idx, value);
            let r = MutFoldChainSliceStruct { base, start, end, reversed, simplification };
            proof {
                lemma_update_in_range(
                    (*old(self.base))@,
                    start as int,
                    end as int,
                    idx as int,
                    value,
                );
            }
            (Ok(v), r)
        }
    }

    /// Replaces the last element of the view in its orientation, returning
    /// the old one; an empty view gives the value back as the error.
    pub fn set_right_or_err(self, value: T) -> (res: (Result<T, T>, Self))
        requires
            self.wf(),
        ensures
            res.1.wf(),
            res.1.is_reversed() == self.is_reversed(),
            res.1.spec_simplification() == self.spec_simplification(),
            res.1.spec_settings() == self.spec_settings(),
            res.1.base_prefix() == self.base_prefix(),
            res.1.base_suffix() == self.base_suffix(),
            self@.len() == 0 ==> res.0 == Err::<T, T>(value) && res.1@ == self@ && res.1.base_all()
                == self.base_all(),
            self@.len() > 0 ==> res.0 == Ok::<T, T>(self@.last()) && res.1@ == self@.update(
                self@.len() - 1,
                value,
            ),
    {
        if self.start == self.end {
            (Err(value), self)
        } else {
            let MutFoldChainSliceStruct { base, start, end, reversed, simplification } = self;
            let idx = if reversed {
                start
            } else {
                end - 1
            };
            let v = base.set_at_index(idx, value);
            let r = MutFoldChainSliceStruct { base, start, end, reversed, simplification };
            proof {
                lemma_update_in_range(
                    (*old(self.base))@,
                    start as int,
                    end as int,
                    idx as int,
                    value,
                );
            }
            (Ok(v), r)
        }
    }

    /// Removes every element of the view into a new chain, in the order of
    /// the underlying chain, leaving the view empty.
    pub fn take_all(self) -> (res: (FoldChain<T, D, S>, Self))
        requires
            self.wf(),
        ensures
            res.0.wf(),
            res.0@ == self.base_elems(),
            res.0.spec_settings() == self.spec_settings(),
            res.1.wf(),
            res.1.is_reversed() == self.is_reversed(),
            res.1.spec_simplification() == self.spec_simplification(),
            res.1.spec_settings() == self.spec_settings(),
            res.1@ == Seq::<T>::empty(),
            res.1.base_all() == self.base_prefix() + self.base_suffix(),
    {
        let MutFoldChainSliceStruct { base, start, end, reversed, simplification } = self;
        let c = base.take_range(start, end);
        let r = MutFoldChainSliceStruct {
            base,
            start,
            end: start,
            reversed,
            simplification,
        };
        proof {
            assert(r.base_all() =~= self.base_prefix() + self.base_suffix());
            assert(r.base_elems() =~= Seq::<T>::empty());
        }
        (c, r)
    }

    /// Splices every element of another chain in after the last element of
    /// the view in its orientation. From the underlying chain's point of
    /// view the spliced elements keep their order.
    pub fn append_all_right(self, chain: FoldChain<T, D, S>) -> (r: Self)
        requires
            self.wf(),
            chain.wf(),
            self.base_all().len() + chain@.len() <= usize::MAX,
        ensures
            r.wf(),
            r.is_reversed() == self.is_reversed(),
            r.spec_simplification() == self.spec_simplification(),
            r.spec_settings() == self.spec_settings(),
            r.base_prefix() == self.base_prefix(),
            r.base_suffix() == self.base_suffix(),
            r@ == self@ + (if self.is_reversed() {
                chain@.reverse()
            } else {
                chain@
            }),
    {
        let MutFoldChainSliceStruct { base, start, end, reversed, simplification } = self;
        let idx = if reversed {
            start
        } else {
            end
        };
        let ghost chain_elems = chain@;
        let chain_len = chain.len_internal();
        base.insert_all_at_index(idx, chain);
        let r = MutFoldChainSliceStruct {
            base,
            start,
            end: end + chain_len,
            reversed,
            simplification,
        };
        proof {
            lemma_splice_in_range(
                (*old(self.base))@,
                start as int,
                end as int,
                idx as int,
                chain_elems,
            );
        }
        r
    }

    /// Splices every element of another chain in before the first element of
    /// the view in its orientation. From the underlying chain's point of
    /// view the spliced elements keep their order.
    pub fn append_all_left(self, chain: FoldChain<T, D, S>) -> (r: Self)
        requires
            self.wf(),
            chain.wf(),
            self.base_all().len() + chain@.len() <= usize::MAX,
        ensures
            r.wf(),
            r.is_reversed() == self.is_reversed(),
            r.spec_simplification() == self.spec_simplification(),
            r.spec_settings() == self.spec_settings(),
            r.base_prefix() == self.base_prefix(),
            r.base_suffix() == self.base_suffix(),
            r@ == (if self.is_reversed() {
                chain@.reverse()
            } else {
                chain@
            }) + self@,
    {
        let MutFoldChainSliceStruct { base, start, end, reversed, simplification } = self;
        let idx = if reversed {
            end
        } else {
            start
        };
        let ghost chain_elems = chain@;
        let chain_len = chain.len_internal();
        base.insert_all_at_index(idx, chain);
        let r = MutFoldChainSliceStruct {
            base,
            start,
            end: end + chain_len,
            reversed,
            simplification,
        };
        proof {
            lemma_splice_in_range(
                (*old(self.base))@,
                start as int,
                end as int,
                idx as int,
                chain_elems,
            );
        }
        r
    }
}

/// How removing the first or last element of a view's range reads on the
/// oriented view and on the rest of the chain.
pub(crate) proof fn lemma_remove_in_range<T>(b: Seq<T>, start: int, end: int, idx: int)
    requires
        0 <= start <= idx < end <= b.len(),
        idx == start || idx == end - 1,
    ensures
        b.remove(idx).subrange(0, start) == b.subrange(0, start),
        b.remove(idx).subrange(end - 1, b.len() as int - 1) == b.subrange(end, b.len() as int),
        idx == start ==> b.remove(idx).subrange(start, end - 1) == b.subrange(start, end).skip(1),
        idx == end - 1 ==> b.remove(idx).subrange(start, end - 1) == b.subrange(
            start,
            end,
        ).drop_last(),
        idx == start ==> b.remove(idx).subrange(start, end - 1).reverse() == b.subrange(
            start,
            end,
        ).reverse().drop_last(),
        idx == end - 1 ==> b.remove(idx).subrange(start, end - 1).reverse() == b.subrange(
            start,
            end,
        ).reverse().skip(1),
        b[start] == b.subrange(start, end)[0],
        b[end - 1] == b.subrange(start, end).reverse()[0],
        b[start] == b.subrange(start, end).reverse().last(),
        b[end - 1] == b.subrange(start, end).last(),
{
    assert(b.remove(idx).subrange(0, start) =~= b.subrange(0, start));
    assert(b.remove(idx).subrange(end - 1, b.len() as int - 1) =~= b.subrange(end, b.len() as int));
    if idx == start {
        assert(b.remove(idx).subrange(start, end - 1) =~= b.subrange(start, end).skip(1));
        assert(b.remove(idx).subrange(start, end - 1).reverse() =~= b.subrange(
            start,
            end,
        ).reverse().drop_last());
    }
    if idx == end - 1 {
        assert(b.remove(idx).subrange(start, end - 1) =~= b.subrange(start, end).drop_last());
        assert(b.remove(idx).subrange(start, end - 1).reverse() =~= b.subrange(
            start,
            end,
        ).reverse().skip(1));
    }
}

/// How inserting at either edge of a view's range reads on the oriented view
/// and on the rest of the chain.
pub(crate) proof fn lemma_insert_in_range<T>(b: Seq<T>, start: int, end: int, idx: int, v: T)
    requires
        0 <= start <= end <= b.len(),
        idx == start || idx == end,
    ensures
        b.insert(idx, v).subrange(0, start) == b.subrange(0, start),
        b.insert(idx, v).subrange(end + 1, b.len() as int + 1) == b.subrange(end, b.len() as int),
        idx == start ==> b.insert(idx, v).subrange(start, end + 1) == seq![v] + b.subrange(
            start,
            end,
        ),
        idx == end ==> b.insert(idx, v).subrange(start, end + 1) == b.subrange(start, end)
            + seq![v],
        idx == end ==> b.insert(idx, v).subrange(start, end + 1).reverse() == seq![v]
            + b.subrange(start, end).reverse(),
        idx == start ==> b.insert(idx, v).subrange(start, end + 1).reverse() == b.subrange(
            start,
            end,
        ).reverse() + seq![v],
{
    assert(b.insert(idx, v).subrange(0, start) =~= b.subrange(0, start));
    assert(b.insert(idx, v).subrange(end + 1, b.len() as int + 1) =~= b.subrange(end, b.len() as int));
    if idx == start {
        assert(b.insert(idx, v).subrange(start, end + 1) =~= seq![v] + b.subrange(start, end));
        assert(b.insert(idx, v).subrange(start, end + 1).reverse() =~= b.subrange(
            start,
            end,
        ).reverse() + seq![v]);
    }
    if idx == end {
        assert(b.insert(idx, v).subrange(start, end + 1) =~= b.subrange(start, end) + seq![v]);
        assert(b.insert(idx, v).subrange(start, end + 1).reverse() =~= seq![v] + b.subrange(
            start,
            end,
        ).reverse());
    }
}

/// How replacing the first or last element of a view's range reads on the
/// oriented view and on the rest of the chain.
pub(crate) proof fn lemma_update_in_range<T>(b: Seq<T>, start: int, end: int, idx: int, v: T)
    requires
        0 <= start <= idx < end <= b.len(),
        idx == start || idx == end - 1,
    ensures
        b.update(idx, v).subrange(0, start) == b.subrange(0, start),
        b.update(idx, v).subrange(end, b.len() as int) == b.subrange(end, b.len() as int),
        idx == start ==> b.update(idx, v).subrange(start, end) == b.subrange(start, end).update(
            0,
            v,
        ),
        idx == end - 1 ==> b.update(idx, v).subrange(start, end) == b.subrange(start, end).update(
            end - start - 1,
            v,
        ),
        idx == end - 1 ==> b.update(idx, v).subrange(start, end).reverse() == b.subrange(
            start,
            end,
        ).reverse().update(0, v),
        idx == start ==> b.update(idx, v).subrange(start, end).reverse() == b.subrange(
            start,
            end,
        ).reverse().update(end - start - 1, v),
        b[start] == b.subrange(start, end)[0],
        b[end - 1] == b.subrange(start, end).reverse()[0],
        b[start] == b.subrange(start, end).reverse().last(),
        b[end - 1] == b.subrange(start, end).last(),
{
    assert(b.update(idx, v).subrange(0, start) =~= b.subrange(0, start));
    assert(b.update(idx, v).subrange(end, b.len() as int) =~= b.subrange(end, b.len() as int));
    if idx == start {
        assert(b.update(idx, v).subrange(start, end) =~= b.subrange(start, end).update(0, v));
        assert(b.update(idx, v).subrange(start, end).reverse() =~= b.subrange(
            start,
            end,
        ).reverse().update(end - start - 1, v));
    }
    if idx == end - 1 {
        assert(b.update(idx, v).subrange(start, end) =~= b.subrange(start, end).update(
            end - start - 1,
            v,
        ));
        assert(b.update(idx, v).subrange(start, end).reverse() =~= b.subrange(
            start,
            end,
        ).reverse().update(0, v));
    }
}

/// How splicing a whole chain in at either edge of a view's range reads on
/// the oriented view and on the rest of the chain.
pub(crate) proof fn lemma_splice_in_range<T>(b: Seq<T>, start: int, end: int, idx: int, c: Seq<T>)
    requires
        0 <= start <= end <= b.len(),
        idx == start || idx == end,
    ensures
        (b.subrange(0, idx) + c + b.subrange(idx, b.len() as int)).subrange(0, start)
            == b.subrange(0, start),
        (b.subrange(0, idx) + c + b.subrange(idx, b.len() as int)).subrange(
            end + c.len(),
            b.len() as int + c.len(),
        ) == b.subrange(end, b.len() as int),
        idx == start ==> (b.subrange(0, idx) + c + b.subrange(idx, b.len() as int)).subrange(
            start,
            end + c.len(),
        ) == c + b.subrange(start, end),
        idx == end ==> (b.subrange(0, idx) + c + b.subrange(idx, b.len() as int)).subrange(
            start,
            end + c.len(),
        ) == b.subrange(start, end) + c,
        idx == end ==> (b.subrange(0, idx) + c + b.subrange(idx, b.len() as int)).subrange(
            start,
            end + c.len(),
        ).reverse() == c.reverse() + b.subrange(start, end).reverse(),
        idx == start ==> (b.subrange(0, idx) + c + b.subrange(idx, b.len() as int)).subrange(
            start,
            end + c.len(),
        ).reverse() == b.subrange(start, end).reverse() + c.reverse(),
{
    let spliced = b.subrange(0, idx) + c + b.subrange(idx, b.len() as int);
    assert(spliced.subrange(0, start) =~= b.subrange(0, start));
    assert(spliced.subrange(end + c.len(), b.len() as int + c.len()) =~= b.subrange(end, b.len() as int));
    if idx == start {
        assert(spliced.subrange(start, end + c.len()) =~= c + b.subrange(start, end));
        assert(spliced.subrange(start, end + c.len()).reverse() =~= b.subrange(
            start,
            end,
        ).reverse() + c.reverse());
    }
    if idx == end {
        assert(spliced.subrange(start, end + c.len()) =~= b.subrange(start, end) + c);
        assert(spliced.subrange(start, end + c.len()).reverse() =~= c.reverse() + b.subrange(
            start,
            end,
        ).reverse());
    }
}

} // verus!

verus! {

impl<T, D, S: FoldSettings<T, D>> FoldChain<T, D, S> {
    /// A mutable view of the whole chain.
    pub fn as_mut(&mut self) -> (r: MutFoldChainSliceStruct<'_, T, D, S, NoSimplification>)
        requires
            old(self).wf(),
        ensures
            r.wf(),
            r.base_all() == old(self)@,
            r.base_elems() == old(self)@,
            !r.is_reversed(),
            r.spec_settings() == old(self).spec_settings(),
            r@ == old(self)@,
    {
        proof {
            old(self).lemma_len_bound();
        }
        let end = self.len_internal();
        proof {
            assert(old(self)@.subrange(0, old(self)@.len() as int) =~= old(self)@);
        }
        MutFoldChainSliceStruct {
            base: self,
            start: 0,
            end,
            reversed: false,
            simplification: NoSimplification,
        }
    }

    /// A mutable view of the whole chain.
    pub fn borrow_mut(&mut self) -> (r: MutFoldChainSliceStruct<'_, T, D, S, NoSimplification>)
        requires
            old(self).wf(),
        ensures
            r.wf(),
            r.base_all() == old(self)@,
            r.base_elems() == old(self)@,
            !r.is_reversed(),
            r.spec_settings() == old(self).spec_settings(),
            r@ == old(self)@,
    {
        self.as_mut()
    }

    /// A mutable view of the whole chain, traversed right to left.
    pub fn mut_view_reversed(&mut self) -> (r: MutFoldChainSliceStruct<'_, T, D, S, NoSimplification>)
        requires
            old(self).wf(),
        ensures
            r.wf(),
            r.base_all() == old(self)@,
            r.base_elems() == old(self)@,
            r.is_reversed(),
            r.spec_settings() == old(self).spec_settings(),
            r@ == old(self)@.reverse(),
    {
        self.as_mut().mut_view_reversed()
    }

    /// A mutable view of the longest prefix whose cumulative fold does not
    /// satisfy the predicate; see
    /// [`ImmFoldChainSliceStruct::view_take_left_until`].
    pub fn mut_view_take_left_until<Pr: FoldPredicate<T, D, S, NoSimplification>>(&mut self, predicate: Pr) -> (r: MutFoldChainSliceStruct<'_, T, D, S, NoSimplification>)
        requires
            old(self).wf(),
        ensures
            r.wf(),
            !r.is_reversed(),
            r.base_all() == old(self)@,
            r.spec_settings() == old(self).spec_settings(),
            r@.len() <= old(self)@.len(),
            r@ == old(self)@.take(r@.len() as int),
            r@.len() < old(self)@.len() ==> predicate.p(lfold_of::<T, D, S, NoSimplification>(old(self)@, false, r@.len() as int + 1)),
            r@.len() > 0 ==> !predicate.p(lfold_of::<T, D, S, NoSimplification>(old(self)@, false, r@.len() as int)),
            monotone_pred::<T, D, S, NoSimplification, Pr>(predicate) ==> forall|i: int|
                r@.len() < i <= old(self)@.len() ==> predicate.p(#[trigger] lfold_of::<T, D, S, NoSimplification>(old(self)@, false, i)),
    {
        let ghost e = old(self)@;
        let sl = self.as_mut();
        let r = sl.mut_view_take_left_until(predicate);
        proof {
            if monotone_pred::<T, D, S, NoSimplification, Pr>(predicate) {
                assert forall|i: int| r@.len() < i <= e.len() implies predicate.p(
                    #[trigger] lfold_of::<T, D, S, NoSimplification>(e, false, i),
                ) by {
                    assert(predicate.p(sl.lfold(i)));
                }
            }
        }
        r
    }

    /// A mutable view of the complement of
    /// [`mut_view_take_left_until`](Self::mut_view_take_left_until).
    pub fn mut_view_drop_left_until<Pr: FoldPredicate<T, D, S, NoSimplification>>(&mut self, predicate: Pr) -> (r: MutFoldChainSliceStruct<'_, T, D, S, NoSimplification>)
        requires
            old(self).wf(),
        ensures
            r.wf(),
            !r.is_reversed(),
            r.base_all() == old(self)@,
            r.spec_settings() == old(self).spec_settings(),
            r@.len() <= old(self)@.len(),
            r@ == old(self)@.skip(old(self)@.len() - r@.len()),
            old(self)@.len() - r@.len() < old(self)@.len() ==> predicate.p(lfold_of::<T, D, S, NoSimplification>(old(self)@, false, old(self)@.len() - r@.len() + 1)),
            old(self)@.len() - r@.len() > 0 ==> !predicate.p(lfold_of::<T, D, S, NoSimplification>(old(self)@, false, old(self)@.len() - r@.len())),
            monotone_pred::<T, D, S, NoSimplification, Pr>(predicate) ==> forall|i: int|
                old(self)@.len() - r@.len() < i <= old(self)@.len() ==> predicate.p(#[trigger] lfold_of::<T, D, S, NoSimplification>(old(self)@, false, i)),
    {
        let ghost e = old(self)@;
        let sl = self.as_mut();
        let r = sl.mut_view_drop_left_until(predicate);
        proof {
            if monotone_pred::<T, D, S, NoSimplification, Pr>(predicate) {
                assert forall|i: int| e.len() - r@.len() < i <= e.len() implies predicate.p(
                    #[trigger] lfold_of::<T, D, S, NoSimplification>(e, false, i),
                ) by {
                    assert(predicate.p(sl.lfold(i)));
                }
            }
        }
        r
    }

    /// A mutable view of the longest suffix whose cumulative fold, taken
    /// from the right end, does not satisfy the predicate; see
    /// [`ImmFoldChainSliceStruct::view_take_right_until`].
    pub fn mut_view_take_right_until<Pr: FoldPredicate<T, D, S, NoSimplification>>(&mut self, predicate: Pr) -> (r: MutFoldChainSliceStruct<'_, T, D, S, NoSimplification>)
        requires
            old(self).wf(),
        ensures
            r.wf(),
            !r.is_reversed(),
            r.base_all() == old(self)@,
            r.spec_settings() == old(self).spec_settings(),
            r@.len() <= old(self)@.len(),
            r@ == old(self)@.skip(old(self)@.len() - r@.len()),
            r@.len() < old(self)@.len() ==> predicate.p(rfold_of::<T, D, S, NoSimplification>(old(self)@, false, r@.len() as int + 1)),
            r@.len() > 0 ==> !predicate.p(rfold_of::<T, D, S, NoSimplification>(old(self)@, false, r@.len() as int)),
            monotone_pred_rev::<T, D, S, NoSimplification, Pr>(predicate) ==> forall|i: int|
                r@.len() < i <= old(self)@.len() ==> predicate.p(#[trigger] rfold_of::<T, D, S, NoSimplification>(old(self)@, false, i)),
    {
        let ghost e = old(self)@;
        let sl = self.as_mut();
        let r = sl.mut_view_take_right_until(predicate);
        proof {
            if monotone_pred_rev::<T, D, S, NoSimplification, Pr>(predicate) {
                assert forall|i: int| r@.len() < i <= e.len() implies predicate.p(
                    #[trigger] rfold_of::<T, D, S, NoSimplification>(e, false, i),
                ) by {
                    assert(predicate.p(sl.rfold(i)));
                }
            }
        }
        r
    }

    /// A mutable view of the complement of
    /// [`mut_view_take_right_until`](Self::mut_view_take_right_until).
    pub fn mut_view_drop_right_until<Pr: FoldPredicate<T, D, S, NoSimplification>>(&mut self, predicate: Pr) -> (r: MutFoldChainSliceStruct<'_, T, D, S, NoSimplification>)
        requires
            old(self).wf(),
        ensures
            r.wf(),
            !r.is_reversed(),
            r.base_all() == old(self)@,
            r.spec_settings() == old(self).spec_settings(),
            r@.len() <= old(self)@.len(),
            r@ == old(self)@.take(r@.len() as int),
            old(self)@.len() - r@.len() < old(self)@.len() ==> predicate.p(rfold_of::<T, D, S, NoSimplification>(old(self)@, false, old(self)@.len() - r@.len() + 1)),
            old(self)@.len() - r@.len() > 0 ==> !predicate.p(rfold_of::<T, D, S, NoSimplification>(old(self)@, false, old(self)@.len() - r@.len())),
            monotone_pred_rev::<T, D, S, NoSimplification, Pr>(predicate) ==> forall|i: int|
                old(self)@.len() - r@.len() < i <= old(self)@.len() ==> predicate.p(#[trigger] rfold_of::<T, D, S, NoSimplification>(old(self)@, false, i)),
    {
        let ghost e = old(self)@;
        let sl = self.as_mut();
        let r = sl.mut_view_drop_right_until(predicate);
        proof {
            if monotone_pred_rev::<T, D, S, NoSimplification, Pr>(predicate) {
                assert forall|i: int| e.len() - r@.len() < i <= e.len() implies predicate.p(
                    #[trigger] rfold_of::<T, D, S, NoSimplification>(e, false, i),
                ) by {
                    assert(predicate.p(sl.rfold(i)));
                }
            }
        }
        r
    }

    /// A mutable view of the whole chain consulting the given
    /// simplification.
    pub fn mut_view_with_simplification<NewSi: FoldSimplification<T, D, S>>(&mut self, new_simplification: NewSi) -> (r: MutFoldChainSliceStruct<'_, T, D, S, NewSi>)
        requires
            old(self).wf(),
        ensures
            r.wf(),
            r.base_all() == old(self)@,
            r.base_elems() == old(self)@,
            !r.is_reversed(),
            r.spec_settings() == old(self).spec_settings(),
            r.spec_simplification() == new_simplification,
            r@ == old(self)@,
    {
        self.as_mut().mut_view_with_simplification(new_simplification)
    }

    /// A mutable view of the whole chain consulting the given
    /// simplification.
    pub fn mut_view_simplify<NewSi: FoldSimplification<T, D, S>>(&mut self, simplification: NewSi) -> (r: MutFoldChainSliceStruct<'_, T, D, S, NewSi>)
        requires
            old(self).wf(),
        ensures
            r.wf(),
            r.base_all() == old(self)@,
            r.base_elems() == old(self)@,
            !r.is_reversed(),
            r.spec_settings() == old(self).spec_settings(),
            r.spec_simplification() == simplification,
            r@ == old(self)@,
    {
        self.as_mut().mut_view_with_simplification(simplification)
    }

    /// Like [`mut_view_simplify`](Self::mut_view_simplify), for a
    /// simplification whose empty and per-element shortcuts do their work
    /// directly.
    pub fn mut_view_simplify_with_shortcut<NewSi: FoldSimplification<T, D, S>>(&mut self, simplification: NewSi) -> (r: MutFoldChainSliceStruct<'_, T, D, S, NewSi>)
        requires
            old(self).wf(),
        ensures
            r.wf(),
            r.base_all() == old(self)@,
            r.base_elems() == old(self)@,
            !r.is_reversed(),
            r.spec_settings() == old(self).spec_settings(),
            r.spec_simplification() == simplification,
            r@ == old(self)@,
    {
        self.as_mut().mut_view_with_simplification(simplification)
    }

    /// A mutable view of the whole chain with no simplification.
    pub fn mut_view_unsimplify(&mut self) -> (r: MutFoldChainSliceStruct<'_, T, D, S, NoSimplification>)
        requires
            old(self).wf(),
        ensures
            r.wf(),
            r.base_all() == old(self)@,
            r.base_elems() == old(self)@,
            !r.is_reversed(),
            r.spec_settings() == old(self).spec_settings(),
            r@ == old(self)@,
    {
        self.as_mut()
    }
}

} // verus!

verus! {

/// Reversing a view twice gives a view indistinguishable from the original
/// by every public observation: same oriented elements, same underlying
/// range, same orientation, and therefore the same folds and search
/// boundaries.
pub proof fn lemma_reverse_involution<'a, T, D, S: FoldSettings<T, D>, Si: FoldSimplification<T, D, S>>(
    a: ImmFoldChainSliceStruct<'a, T, D, S, Si>,
    b: ImmFoldChainSliceStruct<'a, T, D, S, Si>,
    c: ImmFoldChainSliceStruct<'a, T, D, S, Si>,
)
    requires
        b.base_elems() == a.base_elems(),
        b.is_reversed() == !a.is_reversed(),
        b@ == a@.reverse(),
        c.base_elems() == b.base_elems(),
        c.is_reversed() == !b.is_reversed(),
        c@ == b@.reverse(),
    ensures
        c@ == a@,
        c.base_elems() == a.base_elems(),
        c.is_reversed() == a.is_reversed(),
        forall|j: int| #[trigger] c.lfold(j) == a.lfold(j),
        forall|j: int| #[trigger] c.rfold(j) == a.rfold(j),
{
    assert(a@.reverse().reverse() =~= a@);
}

impl<T, D, S: FoldSettings<T, D>> FoldChain<T, D, S> {
    /// Applies a function to the leftmost element, replacing it with the
    /// result; an empty chain is left unchanged and the function unused.
    pub fn update_left<F: FnOnce(T) -> T>(&mut self, f: F) -> (updated: bool)
        requires
            old(self).wf(),
            old(self)@.len() > 0 ==> f.requires((old(self)@[0],)),
        ensures
            final(self).wf(),
            final(self).spec_settings() == old(self).spec_settings(),
            updated == (old(self)@.len() > 0),
            old(self)@.len() == 0 ==> final(self)@ == old(self)@,
            old(self)@.len() > 0 ==> final(self)@ == old(self)@.update(0, final(self)@[0])
                && f.ensures((old(self)@[0],), final(self)@[0]),
    {
        match self.pop_left() {
            None => false,
            Some(v) => {
                let v2 = f(v);
                self.append_left(v2);
                proof {
                    assert(seq![v2] + old(self)@.skip(1) =~= old(self)@.update(0, v2));
                }
                true
            },
        }
    }

    /// Applies a function to the rightmost element, replacing it with the
    /// result; an empty chain is left unchanged and the function unused.
    pub fn update_right<F: FnOnce(T) -> T>(&mut self, f: F) -> (updated: bool)
        requires
            old(self).wf(),
            old(self)@.len() > 0 ==> f.requires((old(self)@.last(),)),
        ensures
            final(self).wf(),
            final(self).spec_settings() == old(self).spec_settings(),
            updated == (old(self)@.len() > 0),
            old(self)@.len() == 0 ==> final(self)@ == old(self)@,
            old(self)@.len() > 0 ==> final(self)@ == old(self)@.update(
                old(self)@.len() - 1,
                final(self)@.last(),
            ) && f.ensures((old(self)@.last(),), final(self)@.last()),
    {
        match self.pop_right() {
            None => false,
            Some(v) => {
                let v2 = f(v);
                self.append_right(v2);
                proof {
                    assert(old(self)@.drop_last() + seq![v2] =~= old(self)@.update(
                        old(self)@.len() - 1,
                        v2,
                    ));
                }
                true
            },
        }
    }
}

} // verus!
