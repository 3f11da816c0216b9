//! The trait that tells a [`FoldChain`](crate::fold_chain::FoldChain) or
//! [`FoldList`](crate::fold_list::FoldList) how to perform its fold, and
//! settings types that are ready to use.

use vstd::prelude::*;
use vstd::string::StringExecFns;
use vstd::string::StrSliceExecFns;

verus! {

/// Describes a monoidal fold over elements of type `T` with deltas of type `D`.
///
/// A fold is given by three executable operations: an associative combiner
/// [`op`](FoldSettings::op), a projection [`delta_of`](FoldSettings::delta_of)
/// from an element to its delta, and a two-sided identity
/// [`empty`](FoldSettings::empty). Because a delta value may not admit
/// structural spec-level equality (a `String`, say), each delta is abstracted
/// by a mathematical model of type [`M`](FoldSettings::M) through
/// [`md`](FoldSettings::md), and all contracts and laws are stated over models.
///
/// An implementation must prove that its combiner is associative
/// ([`lemma_assoc`](FoldSettings::lemma_assoc)) and that the empty delta is an
/// identity on both sides ([`lemma_identity`](FoldSettings::lemma_identity)).
pub trait FoldSettings<T, D>: Sized + Copy {
    /// The mathematical model of a delta value.
    type M;

    /// The model of a delta value.
    spec fn md(d: D) -> Self::M;

    /// The model-level combining operation.
    spec fn sop(a: Self::M, b: Self::M) -> Self::M;

    /// The model-level delta of an element.
    spec fn sdelta(t: T) -> Self::M;

    /// The model of the empty delta.
    spec fn sempty() -> Self::M;

    /// The combining operation is associative.
    proof fn lemma_assoc(a: Self::M, b: Self::M, c: Self::M)
        ensures
            Self::sop(Self::sop(a, b), c) == Self::sop(a, Self::sop(b, c)),
    ;

    /// The empty delta is a two-sided identity for the combining operation.
    proof fn lemma_identity(a: Self::M)
        ensures
            Self::sop(Self::sempty(), a) == a,
            Self::sop(a, Self::sempty()) == a,
    ;

    /// Performs the fold operation.
    fn op(&self, a: D, b: D) -> (r: D)
        ensures
            Self::md(r) == Self::sop(Self::md(a), Self::md(b)),
    ;

    /// Gets the delta of an element.
    fn delta_of(&self, t: &T) -> (r: D)
        ensures
            Self::md(r) == Self::sdelta(*t),
    ;

    /// Creates a new empty delta.
    fn empty(&self) -> (r: D)
        ensures
            Self::md(r) == Self::sempty(),
    ;

    /// Duplicates a delta value, preserving its model.
    fn clone_delta(&self, d: &D) -> (r: D)
        ensures
            Self::md(r) == Self::md(*d),
    ;
}

/// The model-level fold of a sequence of elements: the deltas of the elements
/// are combined left to right with [`FoldSettings::sop`], starting from
/// [`FoldSettings::sempty`].
pub open spec fn fold_m<T, D, S: FoldSettings<T, D>>(s: Seq<T>) -> S::M
    decreases s.len(),
{
    if s.len() == 0 {
        S::sempty()
    } else {
        S::sop(fold_m::<T, D, S>(s.drop_last()), S::sdelta(s.last()))
    }
}

/// The fold of a one-element sequence is the delta of that element.
pub proof fn lemma_fold_m_singleton<T, D, S: FoldSettings<T, D>>(t: T)
    ensures
        fold_m::<T, D, S>(seq![t]) == S::sdelta(t),
{
    assert(seq![t].drop_last() =~= Seq::<T>::empty());
    assert(seq![t].last() == t);
    assert(fold_m::<T, D, S>(Seq::<T>::empty()) == S::sempty());
    S::lemma_identity(S::sdelta(t));
}

/// The fold of a concatenation is the combination of the folds of the parts.
pub proof fn lemma_fold_m_concat<T, D, S: FoldSettings<T, D>>(a: Seq<T>, b: Seq<T>)
    ensures
        fold_m::<T, D, S>(a + b) == S::sop(fold_m::<T, D, S>(a), fold_m::<T, D, S>(b)),
    decreases b.len(),
{
    if b.len() == 0 {
        assert(a + b =~= a);
        S::lemma_identity(fold_m::<T, D, S>(a));
    } else {
        assert((a + b).drop_last() =~= a + b.drop_last());
        assert((a + b).last() == b.last());
        lemma_fold_m_concat::<T, D, S>(a, b.drop_last());
        S::lemma_assoc(fold_m::<T, D, S>(a), fold_m::<T, D, S>(b.drop_last()), S::sdelta(b.last()));
    }
}

/// The fold of `left ++ [v] ++ right`, grouped as a tree node computes it.
pub proof fn lemma_fold_m_node<T, D, S: FoldSettings<T, D>>(ls: Seq<T>, v: T, rs: Seq<T>)
    ensures
        fold_m::<T, D, S>(ls + seq![v] + rs) == S::sop(
            S::sop(fold_m::<T, D, S>(ls), S::sdelta(v)),
            fold_m::<T, D, S>(rs),
        ),
{
    lemma_fold_m_concat::<T, D, S>(ls + seq![v], rs);
    lemma_fold_m_concat::<T, D, S>(ls, seq![v]);
    lemma_fold_m_singleton::<T, D, S>(v);
}

/// Addition of two `usize` values that stays at `usize::MAX` instead of
/// overflowing. Associative, with `0` as a two-sided identity.
pub open spec fn sat_add(a: usize, b: usize) -> usize {
    if a + b > usize::MAX {
        usize::MAX
    } else {
        (a + b) as usize
    }
}

/// Saturating addition is associative.
pub proof fn lemma_sat_add_assoc(a: usize, b: usize, c: usize)
    ensures
        sat_add(sat_add(a, b), c) == sat_add(a, sat_add(b, c)),
{
}

/// Saturating addition never shrinks either argument.
pub proof fn lemma_sat_add_monotone(a: usize, b: usize)
    ensures
        sat_add(a, b) >= a,
        sat_add(a, b) >= b,
{
}

/// Executable saturating addition of `usize` values.
pub fn exec_sat_add(a: usize, b: usize) -> (r: usize)
    ensures
        r == sat_add(a, b),
{
    if a > usize::MAX - b {
        usize::MAX
    } else {
        a + b
    }
}

/// Settings that fold `String` elements to the sum of their lengths:
/// `op` is saturating addition, `delta_of` is the length, `empty` is `0`.
#[derive(Clone, Copy)]
pub struct LenSumSettings;

impl FoldSettings<String, usize> for LenSumSettings {
    type M = usize;

    open spec fn md(d: usize) -> usize {
        d
    }

    open spec fn sop(a: usize, b: usize) -> usize {
        sat_add(a, b)
    }

    open spec fn sdelta(t: String) -> usize {
        t@.len() as usize
    }

    open spec fn sempty() -> usize {
        0
    }

    proof fn lemma_assoc(a: usize, b: usize, c: usize) {
        lemma_sat_add_assoc(a, b, c);
    }

    proof fn lemma_identity(a: usize) {
    }

    fn op(&self, a: usize, b: usize) -> (r: usize) {
        exec_sat_add(a, b)
    }

    fn delta_of(&self, t: &String) -> (r: usize) {
        t.as_str().unicode_len()
    }

    fn empty(&self) -> (r: usize) {
        0
    }

    fn clone_delta(&self, d: &usize) -> (r: usize) {
        *d
    }
}

/// Settings that fold `String` elements by concatenation:
/// `op` concatenates, `delta_of` clones the element, `empty` is `""`.
#[derive(Clone, Copy)]
pub struct ConcatSettings;

impl FoldSettings<String, String> for ConcatSettings {
    type M = Seq<char>;

    open spec fn md(d: String) -> Seq<char> {
        d@
    }

    open spec fn sop(a: Seq<char>, b: Seq<char>) -> Seq<char> {
        a + b
    }

    open spec fn sdelta(t: String) -> Seq<char> {
        t@
    }

    open spec fn sempty() -> Seq<char> {
        Seq::empty()
    }

    proof fn lemma_assoc(a: Seq<char>, b: Seq<char>, c: Seq<char>) {
        assert((a + b) + c =~= a + (b + c));
    }

    proof fn lemma_identity(a: Seq<char>) {
        assert(Seq::<char>::empty() + a =~= a);
        assert(a + Seq::<char>::empty() =~= a);
    }

    fn op(&self, a: String, b: String) -> (r: String) {
        a.concat(b.as_str())
    }

    fn delta_of(&self, t: &String) -> (r: String) {
        t.clone()
    }

    fn empty(&self) -> (r: String) {
        String::new()
    }

    fn clone_delta(&self, d: &String) -> (r: String) {
        d.clone()
    }
}

} // verus!

verus! {

/// Settings that fold `usize` elements by saturating addition, with the
/// element itself as its delta and `0` as the empty delta.
#[derive(Clone, Copy)]
pub struct AddUsizeSettings;

impl FoldSettings<usize, usize> for AddUsizeSettings {
    type M = usize;

    open spec fn md(d: usize) -> usize {
        d
    }

    open spec fn sop(a: usize, b: usize) -> usize {
        sat_add(a, b)
    }

    open spec fn sdelta(t: usize) -> usize {
        t
    }

    open spec fn sempty() -> usize {
        0
    }

    proof fn lemma_assoc(a: usize, b: usize, c: usize) {
        lemma_sat_add_assoc(a, b, c);
    }

    proof fn lemma_identity(a: usize) {
    }

    fn op(&self, a: usize, b: usize) -> (r: usize) {
        exec_sat_add(a, b)
    }

    fn delta_of(&self, t: &usize) -> (r: usize) {
        *t
    }

    fn empty(&self) -> (r: usize) {
        0
    }

    fn clone_delta(&self, d: &usize) -> (r: usize) {
        *d
    }
}

/// Settings that fold `i64` elements by taking the maximum, with the element
/// itself as its delta and `i64::MIN` as the empty delta.
#[derive(Clone, Copy)]
pub struct MaxI64Settings;

/// The larger of two `i64` values.
pub open spec fn i64_max_of(a: i64, b: i64) -> i64 {
    if a >= b {
        a
    } else {
        b
    }
}

impl FoldSettings<i64, i64> for MaxI64Settings {
    type M = i64;

    open spec fn md(d: i64) -> i64 {
        d
    }

    open spec fn sop(a: i64, b: i64) -> i64 {
        i64_max_of(a, b)
    }

    open spec fn sdelta(t: i64) -> i64 {
        t
    }

    open spec fn sempty() -> i64 {
        i64::MIN
    }

    proof fn lemma_assoc(a: i64, b: i64, c: i64) {
    }

    proof fn lemma_identity(a: i64) {
    }

    fn op(&self, a: i64, b: i64) -> (r: i64) {
        if a >= b {
            a
        } else {
            b
        }
    }

    fn delta_of(&self, t: &i64) -> (r: i64) {
        *t
    }

    fn empty(&self) -> (r: i64) {
        i64::MIN
    }

    fn clone_delta(&self, d: &i64) -> (r: i64) {
        *d
    }
}

/// Wraps a settings value so that the fold also counts elements: the delta
/// type becomes `(usize, D)`, where the count part adds saturatingly, each
/// element counts as one, and the empty delta counts zero.
#[derive(Clone, Copy)]
pub struct SettingsWithSize<S>(pub S);

impl<T, D, S: FoldSettings<T, D>> FoldSettings<T, (usize, D)> for SettingsWithSize<S> {
    type M = (usize, S::M);

    open spec fn md(d: (usize, D)) -> (usize, S::M) {
        (d.0, S::md(d.1))
    }

    open spec fn sop(a: (usize, S::M), b: (usize, S::M)) -> (usize, S::M) {
        (sat_add(a.0, b.0), S::sop(a.1, b.1))
    }

    open spec fn sdelta(t: T) -> (usize, S::M) {
        (1, S::sdelta(t))
    }

    open spec fn sempty() -> (usize, S::M) {
        (0, S::sempty())
    }

    proof fn lemma_assoc(a: (usize, S::M), b: (usize, S::M), c: (usize, S::M)) {
        lemma_sat_add_assoc(a.0, b.0, c.0);
        S::lemma_assoc(a.1, b.1, c.1);
    }

    proof fn lemma_identity(a: (usize, S::M)) {
        S::lemma_identity(a.1);
    }

    fn op(&self, a: (usize, D), b: (usize, D)) -> (r: (usize, D)) {
        (exec_sat_add(a.0, b.0), self.0.op(a.1, b.1))
    }

    fn delta_of(&self, t: &T) -> (r: (usize, D)) {
        (1, self.0.delta_of(t))
    }

    fn empty(&self) -> (r: (usize, D)) {
        (0, self.0.empty())
    }

    fn clone_delta(&self, d: &(usize, D)) -> (r: (usize, D)) {
        (d.0, self.0.clone_delta(&d.1))
    }
}

/// The fold of a sequence under size-counting settings carries the plain
/// fold in its second component.
pub proof fn lemma_sized_fold_snd<T, D, S: FoldSettings<T, D>>(s: Seq<T>)
    ensures
        fold_m::<T, (usize, D), SettingsWithSize<S>>(s).1 == fold_m::<T, D, S>(s),
    decreases s.len(),
{
    if s.len() > 0 {
        lemma_sized_fold_snd::<T, D, S>(s.drop_last());
    }
}

/// The fold of a sequence under size-counting settings carries the element
/// count, saturated at `usize::MAX`, in its first component.
pub proof fn lemma_sized_fold_count<T, D, S: FoldSettings<T, D>>(s: Seq<T>)
    ensures
        s.len() <= usize::MAX ==> fold_m::<T, (usize, D), SettingsWithSize<S>>(s).0 == s.len(),
        s.len() > usize::MAX ==> fold_m::<T, (usize, D), SettingsWithSize<S>>(s).0 == usize::MAX,
    decreases s.len(),
{
    if s.len() > 0 {
        lemma_sized_fold_count::<T, D, S>(s.drop_last());
    }
}

} // verus!

verus! {

/// Describes a fold whose delta type has no two-sided identity: only an
/// associative combiner and a per-element projection. Such a fold can still
/// drive a container by lifting the deltas into `Option`, where `None`
/// serves as the missing identity; see [`OptSettings`].
pub trait FoldSemigroup<T, D>: Sized + Copy {
    /// The mathematical model of a delta value.
    type M;

    /// The model of a delta value.
    spec fn md(d: D) -> Self::M;

    /// The model-level combining operation.
    spec fn sop(a: Self::M, b: Self::M) -> Self::M;

    /// The model-level delta of an element.
    spec fn sdelta(t: T) -> Self::M;

    /// The combining operation is associative.
    proof fn lemma_assoc(a: Self::M, b: Self::M, c: Self::M)
        ensures
            Self::sop(Self::sop(a, b), c) == Self::sop(a, Self::sop(b, c)),
    ;

    /// Performs the fold operation.
    fn op(&self, a: D, b: D) -> (r: D)
        ensures
            Self::md(r) == Self::sop(Self::md(a), Self::md(b)),
    ;

    /// Gets the delta of an element.
    fn delta_of(&self, t: &T) -> (r: D)
        ensures
            Self::md(r) == Self::sdelta(*t),
    ;

    /// Duplicates a delta value, preserving its model.
    fn clone_delta(&self, d: &D) -> (r: D)
        ensures
            Self::md(r) == Self::md(*d),
    ;
}

/// Lifts a semigroup fold into full settings over `Option` deltas: `None`
/// is the empty delta and a two-sided identity for the lifted combiner.
#[derive(Clone, Copy)]
pub struct OptSettings<G>(pub G);

impl<T, D, G: FoldSemigroup<T, D>> FoldSettings<T, Option<D>> for OptSettings<G> {
    type M = Option<G::M>;

    open spec fn md(d: Option<D>) -> Option<G::M> {
        match d {
            None => None,
            Some(x) => Some(G::md(x)),
        }
    }

    open spec fn sop(a: Option<G::M>, b: Option<G::M>) -> Option<G::M> {
        match (a, b) {
            (None, x) => x,
            (Some(x), None) => Some(x),
            (Some(x), Some(y)) => Some(G::sop(x, y)),
        }
    }

    open spec fn sdelta(t: T) -> Option<G::M> {
        Some(G::sdelta(t))
    }

    open spec fn sempty() -> Option<G::M> {
        None
    }

    proof fn lemma_assoc(a: Option<G::M>, b: Option<G::M>, c: Option<G::M>) {
        if a is Some && b is Some && c is Some {
            G::lemma_assoc(a.unwrap(), b.unwrap(), c.unwrap());
        }
    }

    proof fn lemma_identity(a: Option<G::M>) {
    }

    fn op(&self, a: Option<D>, b: Option<D>) -> (r: Option<D>) {
        match (a, b) {
            (None, x) => x,
            (Some(x), None) => Some(x),
            (Some(x), Some(y)) => Some(self.0.op(x, y)),
        }
    }

    fn delta_of(&self, t: &T) -> (r: Option<D>) {
        Some(self.0.delta_of(t))
    }

    fn empty(&self) -> (r: Option<D>) {
        None
    }

    fn clone_delta(&self, d: &Option<D>) -> (r: Option<D>) {
        match d {
            None => None,
            Some(x) => Some(self.0.clone_delta(x)),
        }
    }
}

/// A semigroup that folds `String` elements by concatenation, with no
/// identity of its own.
#[derive(Clone, Copy)]
pub struct ConcatSemigroup;

impl FoldSemigroup<String, String> for ConcatSemigroup {
    type M = Seq<char>;

    open spec fn md(d: String) -> Seq<char> {
        d@
    }

    open spec fn sop(a: Seq<char>, b: Seq<char>) -> Seq<char> {
        a + b
    }

    open spec fn sdelta(t: String) -> Seq<char> {
        t@
    }

    proof fn lemma_assoc(a: Seq<char>, b: Seq<char>, c: Seq<char>) {
        assert((a + b) + c =~= a + (b + c));
    }

    fn op(&self, a: String, b: String) -> (r: String) {
        a.concat(b.as_str())
    }

    fn delta_of(&self, t: &String) -> (r: String) {
        t.clone()
    }

    fn clone_delta(&self, d: &String) -> (r: String) {
        d.clone()
    }
}

} // verus!
