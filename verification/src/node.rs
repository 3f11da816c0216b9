//! The balanced tree that backs [`FoldChain`](crate::fold_chain::FoldChain):
//! a weak-AVL tree whose every node caches the fold and the element count of
//! its subtree. Each parent-child rank difference is 1 or 2, with a missing
//! child counted as rank -1, so paths stay logarithmic in the element count.

use vstd::prelude::*;
use vstd::math::max;
use vstd::arithmetic::power2::pow2;
use crate::fold_settings::FoldSettings;
use crate::fold_settings::fold_m;
use crate::fold_settings::lemma_fold_m_node;
use crate::fold_settings::lemma_fold_m_singleton;
use crate::fold_simplification::FoldSimplification;
use crate::fold_simplification::FoldPredicate;
use crate::fold_simplification::fold2_m;
use crate::fold_simplification::lemma_fold2_m_concat;

verus! {

/// How `take` and `skip` act on a three-part concatenation when the cut lies
/// in the first part.
pub(crate) proof fn lemma_cut_in_first<A>(l: Seq<A>, m: Seq<A>, r: Seq<A>, k: int)
    requires
        0 <= k <= l.len(),
    ensures
        (l + m + r).take(k) == l.take(k),
        (l + m + r).skip(k) == l.skip(k) + m + r,
{
    assert((l + m + r).take(k) =~= l.take(k));
    assert((l + m + r).skip(k) =~= l.skip(k) + m + r);
}

/// How `take` and `skip` act on a three-part concatenation when the cut lies
/// at or beyond the end of the second part.
pub(crate) proof fn lemma_cut_in_last<A>(l: Seq<A>, m: Seq<A>, r: Seq<A>, k: int)
    requires
        l.len() + m.len() <= k <= l.len() + m.len() + r.len(),
    ensures
        (l + m + r).take(k) == l + m + r.take(k - l.len() - m.len()),
        (l + m + r).skip(k) == r.skip(k - l.len() - m.len()),
{
    assert((l + m + r).take(k) =~= l + m + r.take(k - l.len() - m.len()));
    assert((l + m + r).skip(k) =~= r.skip(k - l.len() - m.len()));
}

/// The rank of a balanced tree built from `n` elements by splitting each
/// block at its middle, as [`Node::build_balanced`] does.
pub(crate) open spec fn rank_of_count(n: int) -> int
    decreases n,
{
    if n <= 0 {
        -1
    } else {
        1 + max(rank_of_count((n - 1) / 2), rank_of_count(n - 1 - (n - 1) / 2))
    }
}

/// The rank of a balanced build never falls below that of an empty tree.
pub(crate) proof fn lemma_rank_of_count_nonneg(n: int)
    ensures
        rank_of_count(n) >= -1,
        n > 0 ==> rank_of_count(n) >= 0,
    decreases n,
{
    if n > 0 {
        lemma_rank_of_count_nonneg((n - 1) / 2);
        lemma_rank_of_count_nonneg(n - 1 - (n - 1) / 2);
    }
}

/// The rank of a balanced build grows with the element count.
pub(crate) proof fn lemma_rank_of_count_monotone(a: int, b: int)
    requires
        a <= b,
    ensures
        rank_of_count(a) <= rank_of_count(b),
    decreases b,
{
    if a < b && b > 0 {
        if a <= 0 {
            lemma_rank_of_count_nonneg(b);
        } else {
            lemma_rank_of_count_monotone((a - 1) / 2, (b - 1) / 2);
            lemma_rank_of_count_monotone(a - 1 - (a - 1) / 2, b - 1 - (b - 1) / 2);
        }
    }
}

/// One more element raises the rank of a balanced build by at most one.
pub(crate) proof fn lemma_rank_of_count_step(a: int)
    requires
        a >= 0,
    ensures
        rank_of_count(a + 1) <= rank_of_count(a) + 1,
    decreases a,
{
    if a == 0 {
    } else {
        let rc_new = a / 2;
        let lc_new = a - a / 2;
        let rc_old = (a - 1) / 2;
        let lc_old = a - 1 - (a - 1) / 2;
        if rc_new == rc_old + 1 {
            lemma_rank_of_count_step(rc_old);
        } else {
            lemma_rank_of_count_monotone(rc_new, rc_old);
        }
        if lc_new == lc_old + 1 {
            lemma_rank_of_count_step(lc_old);
        } else {
            lemma_rank_of_count_monotone(lc_new, lc_old);
        }
    }
}

/// Two blocks whose sizes differ by at most one build trees whose ranks
/// differ by at most one.
pub(crate) proof fn lemma_rank_of_count_balanced(rc: int, lc: int)
    requires
        0 <= rc,
        rc <= lc <= rc + 1,
    ensures
        -1 <= rank_of_count(lc) - rank_of_count(rc) <= 1,
{
    lemma_rank_of_count_monotone(rc, lc);
    if lc == rc + 1 {
        lemma_rank_of_count_step(rc);
    }
}

/// One node of the tree: an element, the cached fold and element count of the
/// whole subtree rooted here, the weak-AVL rank, and the two child subtrees.
pub(crate) struct Node<T, D, S: FoldSettings<T, D>> {
    pub value: T,
    pub delta_whole: D,
    pub rank: usize,
    pub size: usize,
    pub left: Option<Box<Node<T, D, S>>>,
    pub right: Option<Box<Node<T, D, S>>>,
    pub settings_marker: core::marker::PhantomData<S>,
}

impl<T, D, S: FoldSettings<T, D>> Node<T, D, S> {
    /// The elements of an optional subtree, in order.
    pub(crate) open spec fn opt_elems(o: Option<Box<Node<T, D, S>>>) -> Seq<T>
        decreases o,
    {
        match o {
            None => Seq::empty(),
            Some(n) => n.elems(),
        }
    }

    /// The elements of the subtree rooted here, in order.
    pub(crate) open spec fn elems(self) -> Seq<T>
        decreases self,
    {
        Self::opt_elems(self.left) + seq![self.value] + Self::opt_elems(self.right)
    }

    /// The rank of an optional subtree; a missing subtree has rank -1.
    pub(crate) open spec fn opt_rank(o: Option<Box<Node<T, D, S>>>) -> int {
        match o {
            None => -1,
            Some(n) => n.rank as int,
        }
    }

    /// Well-formedness of the subtree rooted here: children are well-formed,
    /// the rank exceeds each child rank by 1 or 2 and exceeds the larger one
    /// by exactly 1, and the cached size and fold describe the elements.
    pub(crate) open spec fn wf(self) -> bool
        decreases self,
    {
        &&& (match self.left {
            Some(l) => l.wf(),
            None => true,
        })
        &&& (match self.right {
            Some(r) => r.wf(),
            None => true,
        })
        &&& self.rank as int == 1 + max(Self::opt_rank(self.left), Self::opt_rank(self.right))
        &&& self.rank as int - Self::opt_rank(self.left) <= 2
        &&& self.rank as int - Self::opt_rank(self.right) <= 2
        &&& self.size as int == self.elems().len()
        &&& S::md(self.delta_whole) == fold_m::<T, D, S>(self.elems())
    }

    /// Well-formedness of an optional subtree.
    pub(crate) open spec fn opt_wf(o: Option<Box<Node<T, D, S>>>) -> bool {
        match o {
            None => true,
            Some(n) => n.wf(),
        }
    }

    /// A well-formed subtree has more elements than its rank.
    pub(crate) proof fn lemma_rank_lt_size(self)
        requires
            self.wf(),
        ensures
            self.rank < self.elems().len(),
        decreases self,
    {
        match self.left {
            Some(l) => l.lemma_rank_lt_size(),
            None => {},
        }
        match self.right {
            Some(r) => r.lemma_rank_lt_size(),
            None => {},
        }
    }

    /// The rank of an optional subtree, shifted up by one so that it fits
    /// in a `usize` (a missing subtree gives 0).
    fn rank_p1(o: &Option<Box<Node<T, D, S>>>) -> (r: usize)
        requires
            Self::opt_wf(*o),
        ensures
            r as int == Self::opt_rank(*o) + 1,
    {
        match o {
            None => 0,
            Some(n) => {
                proof {
                    n.lemma_rank_lt_size();
                }
                n.rank + 1
            },
        }
    }

    /// The number of elements of an optional subtree.
    fn opt_size_exec(o: &Option<Box<Node<T, D, S>>>) -> (r: usize)
        requires
            Self::opt_wf(*o),
        ensures
            r as int == Self::opt_elems(*o).len(),
    {
        match o {
            None => 0,
            Some(n) => n.size,
        }
    }

    /// The fold of an optional subtree, as a fresh delta value.
    fn opt_fold_clone(s: &S, o: &Option<Box<Node<T, D, S>>>) -> (r: D)
        requires
            Self::opt_wf(*o),
        ensures
            S::md(r) == fold_m::<T, D, S>(Self::opt_elems(*o)),
    {
        match o {
            None => s.empty(),
            Some(n) => s.clone_delta(&n.delta_whole),
        }
    }

    /// Builds a node over two subtrees whose ranks differ by at most one,
    /// computing its rank, size and cached fold.
    fn mk_node(s: &S, value: T, left: Option<Box<Node<T, D, S>>>, right: Option<Box<Node<T, D, S>>>) -> (r: Box<Node<T, D, S>>)
        requires
            Self::opt_wf(left),
            Self::opt_wf(right),
            -1 <= Self::opt_rank(left) - Self::opt_rank(right) <= 1,
            Self::opt_elems(left).len() + 1 + Self::opt_elems(right).len() <= usize::MAX,
        ensures
            r.wf(),
            r.elems() == Self::opt_elems(left) + seq![value] + Self::opt_elems(right),
            r.rank as int == 1 + max(Self::opt_rank(left), Self::opt_rank(right)),
    {
        let dl = Self::opt_fold_clone(s, &left);
        let dr = Self::opt_fold_clone(s, &right);
        let dv = s.delta_of(&value);
        let d = s.op(s.op(dl, dv), dr);
        let a = Self::rank_p1(&left);
        let b = Self::rank_p1(&right);
        let rank = if a > b {
            a
        } else {
            b
        };
        let size = Self::opt_size_exec(&left) + 1 + Self::opt_size_exec(&right);
        proof {
            lemma_fold_m_node::<T, D, S>(Self::opt_elems(left), value, Self::opt_elems(right));
        }
        Box::new(Node { value, delta_whole: d, rank, size, left, right, settings_marker: core::marker::PhantomData })
    }

    /// Builds a node over `a`, `v` and `c` where `c` may outrank `a` by up to
    /// two, rotating once or twice when the difference is exactly two, as the
    /// weak-AVL rules direct.
    #[verifier::rlimit(60)]
    fn balance_right_heavy(s: &S, a: Option<Box<Node<T, D, S>>>, v: T, c: Box<Node<T, D, S>>) -> (r: Box<Node<T, D, S>>)
        requires
            Self::opt_wf(a),
            c.wf(),
            -1 <= c.rank - Self::opt_rank(a) <= 2,
            Self::opt_elems(a).len() + 1 + c.elems().len() <= usize::MAX,
        ensures
            r.wf(),
            r.elems() == Self::opt_elems(a) + seq![v] + c.elems(),
            c.rank - Self::opt_rank(a) <= 1 ==> r.rank as int == 1 + max(Self::opt_rank(a), c.rank as int),
            c.rank - Self::opt_rank(a) == 2 ==> c.rank <= r.rank <= c.rank + 1,
    {
        let ra1 = Self::rank_p1(&a);
        proof {
            c.lemma_rank_lt_size();
        }
        if c.rank <= ra1 {
            Self::mk_node(s, v, a, Some(c))
        } else {
            let ghost c_snapshot = *c;
            let cn = *c;
            let crr1 = Self::rank_p1(&cn.right);
            if crr1 == cn.rank {
                let inner = Self::mk_node(s, v, a, cn.left);
                let r = Self::mk_node(s, cn.value, Some(inner), cn.right);
                proof {
                    assert(r.elems() =~= Self::opt_elems(a) + seq![v] + c_snapshot.elems());
                }
                r
            } else {
                proof {
                    assert(Self::opt_rank(cn.right) == cn.rank - 2);
                    assert(Self::opt_rank(cn.left) == cn.rank - 1);
                }
                let clb = cn.left.unwrap();
                let cln = *clb;
                proof {
                    assert(cln.wf());
                    assert(cln.rank as int == cn.rank - 1);
                    assert(cn.rank - 3 <= Self::opt_rank(cln.left) <= cn.rank - 2);
                    assert(cn.rank - 3 <= Self::opt_rank(cln.right) <= cn.rank - 2);
                    assert(c_snapshot.elems() == Self::opt_elems(cn.left) + seq![cn.value]
                        + Self::opt_elems(cn.right));
                    assert(cln.elems() == Self::opt_elems(cln.left) + seq![cln.value]
                        + Self::opt_elems(cln.right));
                }
                let inner1 = Self::mk_node(s, v, a, cln.left);
                let inner2 = Self::mk_node(s, cn.value, cln.right, cn.right);
                let r = Self::mk_node(s, cln.value, Some(inner1), Some(inner2));
                proof {
                    assert(r.elems() =~= Self::opt_elems(a) + seq![v] + c_snapshot.elems());
                }
                r
            }
        }
    }

    /// The mirror image of [`Node::balance_right_heavy`]: `a` may outrank `c`
    /// by up to two.
    #[verifier::rlimit(60)]
    fn balance_left_heavy(s: &S, a: Box<Node<T, D, S>>, v: T, c: Option<Box<Node<T, D, S>>>) -> (r: Box<Node<T, D, S>>)
        requires
            a.wf(),
            Self::opt_wf(c),
            -1 <= a.rank - Self::opt_rank(c) <= 2,
            a.elems().len() + 1 + Self::opt_elems(c).len() <= usize::MAX,
        ensures
            r.wf(),
            r.elems() == a.elems() + seq![v] + Self::opt_elems(c),
            a.rank - Self::opt_rank(c) <= 1 ==> r.rank as int == 1 + max(a.rank as int, Self::opt_rank(c)),
            a.rank - Self::opt_rank(c) == 2 ==> a.rank <= r.rank <= a.rank + 1,
    {
        let rc1 = Self::rank_p1(&c);
        proof {
            a.lemma_rank_lt_size();
        }
        if a.rank <= rc1 {
            Self::mk_node(s, v, Some(a), c)
        } else {
            let ghost a_snapshot = *a;
            let an = *a;
            let all1 = Self::rank_p1(&an.left);
            if all1 == an.rank {
                let inner = Self::mk_node(s, v, an.right, c);
                let r = Self::mk_node(s, an.value, an.left, Some(inner));
                proof {
                    assert(r.elems() =~= a_snapshot.elems() + seq![v] + Self::opt_elems(c));
                }
                r
            } else {
                proof {
                    assert(Self::opt_rank(an.left) == an.rank - 2);
                    assert(Self::opt_rank(an.right) == an.rank - 1);
                }
                let arb = an.right.unwrap();
                let arn = *arb;
                proof {
                    assert(arn.wf());
                    assert(arn.rank as int == an.rank - 1);
                    assert(an.rank - 3 <= Self::opt_rank(arn.left) <= an.rank - 2);
                    assert(an.rank - 3 <= Self::opt_rank(arn.right) <= an.rank - 2);
                    assert(a_snapshot.elems() == Self::opt_elems(an.left) + seq![an.value]
                        + Self::opt_elems(an.right));
                    assert(arn.elems() == Self::opt_elems(arn.left) + seq![arn.value]
                        + Self::opt_elems(arn.right));
                }
                let inner1 = Self::mk_node(s, an.value, an.left, arn.left);
                let inner2 = Self::mk_node(s, v, arn.right, c);
                let r = Self::mk_node(s, arn.value, Some(inner1), Some(inner2));
                proof {
                    assert(r.elems() =~= a_snapshot.elems() + seq![v] + Self::opt_elems(c));
                }
                r
            }
        }
    }

    /// [`Node::balance_right_heavy`] with an optional right subtree.
    fn balance_right_heavy_opt(s: &S, a: Option<Box<Node<T, D, S>>>, v: T, c: Option<Box<Node<T, D, S>>>) -> (r: Box<Node<T, D, S>>)
        requires
            Self::opt_wf(a),
            Self::opt_wf(c),
            -1 <= Self::opt_rank(c) - Self::opt_rank(a) <= 2,
            Self::opt_elems(a).len() + 1 + Self::opt_elems(c).len() <= usize::MAX,
        ensures
            r.wf(),
            r.elems() == Self::opt_elems(a) + seq![v] + Self::opt_elems(c),
            Self::opt_rank(c) - Self::opt_rank(a) <= 1 ==> r.rank as int == 1 + max(
                Self::opt_rank(a),
                Self::opt_rank(c),
            ),
            Self::opt_rank(c) - Self::opt_rank(a) == 2 ==> Self::opt_rank(c) <= r.rank as int
                <= Self::opt_rank(c) + 1,
    {
        match c {
            None => Self::mk_node(s, v, a, None),
            Some(cb) => Self::balance_right_heavy(s, a, v, cb),
        }
    }

    /// [`Node::balance_left_heavy`] with an optional left subtree.
    fn balance_left_heavy_opt(s: &S, a: Option<Box<Node<T, D, S>>>, v: T, c: Option<Box<Node<T, D, S>>>) -> (r: Box<Node<T, D, S>>)
        requires
            Self::opt_wf(a),
            Self::opt_wf(c),
            -1 <= Self::opt_rank(a) - Self::opt_rank(c) <= 2,
            Self::opt_elems(a).len() + 1 + Self::opt_elems(c).len() <= usize::MAX,
        ensures
            r.wf(),
            r.elems() == Self::opt_elems(a) + seq![v] + Self::opt_elems(c),
            Self::opt_rank(a) - Self::opt_rank(c) <= 1 ==> r.rank as int == 1 + max(
                Self::opt_rank(a),
                Self::opt_rank(c),
            ),
            Self::opt_rank(a) - Self::opt_rank(c) == 2 ==> Self::opt_rank(a) <= r.rank as int
                <= Self::opt_rank(a) + 1,
    {
        match a {
            None => Self::mk_node(s, v, None, c),
            Some(ab) => Self::balance_left_heavy(s, ab, v, c),
        }
    }

    /// Joins two trees around a middle element, whatever their ranks: the
    /// shorter tree is attached along the facing spine of the taller one and
    /// repairs run on the way back up.
    #[verifier::rlimit(60)]
    pub(crate) fn join3(s: &S, l: Option<Box<Node<T, D, S>>>, v: T, r: Option<Box<Node<T, D, S>>>) -> (t: Box<Node<T, D, S>>)
        requires
            Self::opt_wf(l),
            Self::opt_wf(r),
            Self::opt_elems(l).len() + 1 + Self::opt_elems(r).len() <= usize::MAX,
        ensures
            t.wf(),
            t.elems() == Self::opt_elems(l) + seq![v] + Self::opt_elems(r),
            max(Self::opt_rank(l), Self::opt_rank(r)) <= t.rank as int <= max(Self::opt_rank(l), Self::opt_rank(r)) + 1,
        decreases Self::opt_elems(l).len() + Self::opt_elems(r).len(),
    {
        let rl1 = Self::rank_p1(&l);
        let rr1 = Self::rank_p1(&r);
        if rl1 >= 2 && rl1 - 2 >= rr1 {
            let lb = l.unwrap();
            let ghost l_snapshot = *lb;
            let ln = *lb;
            let t2 = Self::join3(s, ln.right, v, r);
            let t = Self::balance_right_heavy(s, ln.left, ln.value, t2);
            proof {
                assert(t.elems() =~= l_snapshot.elems() + seq![v] + Self::opt_elems(r));
            }
            t
        } else if rr1 >= 2 && rr1 - 2 >= rl1 {
            let rb = r.unwrap();
            let ghost r_snapshot = *rb;
            let rn = *rb;
            let t2 = Self::join3(s, l, v, rn.left);
            let t = Self::balance_left_heavy(s, t2, rn.value, rn.right);
            proof {
                assert(t.elems() =~= Self::opt_elems(l) + seq![v] + r_snapshot.elems());
            }
            t
        } else {
            Self::mk_node(s, v, l, r)
        }
    }

    /// Removes the leftmost element of a tree, repairing on the way back up.
    /// The rank drops by at most one.
    #[verifier::rlimit(60)]
    pub(crate) fn pop_front(s: &S, t: Box<Node<T, D, S>>) -> (res: (T, Option<Box<Node<T, D, S>>>))
        requires
            t.wf(),
        ensures
            Self::opt_wf(res.1),
            t.elems() == seq![res.0] + Self::opt_elems(res.1),
            t.rank - 1 <= Self::opt_rank(res.1) <= t.rank,
        decreases t,
    {
        let ghost t_snapshot = *t;
        let n = *t;
        match n.left {
            None => {
                proof {
                    assert(t_snapshot.elems() =~= seq![n.value] + Self::opt_elems(n.right));
                }
                (n.value, n.right)
            },
            Some(lb) => {
                let ghost l_snapshot = *lb;
                let (v, rest) = Self::pop_front(s, lb);
                let t2 = Self::balance_right_heavy_opt(s, rest, n.value, n.right);
                proof {
                    assert(t_snapshot.elems() =~= seq![v] + t2.elems());
                }
                (v, Some(t2))
            },
        }
    }

    /// Removes the rightmost element of a tree, repairing on the way back up.
    /// The rank drops by at most one.
    #[verifier::rlimit(60)]
    pub(crate) fn pop_back(s: &S, t: Box<Node<T, D, S>>) -> (res: (T, Option<Box<Node<T, D, S>>>))
        requires
            t.wf(),
        ensures
            Self::opt_wf(res.1),
            t.elems() == Self::opt_elems(res.1) + seq![res.0],
            t.rank - 1 <= Self::opt_rank(res.1) <= t.rank,
        decreases t,
    {
        let ghost t_snapshot = *t;
        let n = *t;
        match n.right {
            None => {
                proof {
                    assert(t_snapshot.elems() =~= Self::opt_elems(n.left) + seq![n.value]);
                }
                (n.value, n.left)
            },
            Some(rb) => {
                let (v, rest) = Self::pop_back(s, rb);
                let t2 = Self::balance_left_heavy_opt(s, n.left, n.value, rest);
                proof {
                    assert(t_snapshot.elems() =~= t2.elems() + seq![v]);
                }
                (v, Some(t2))
            },
        }
    }

    /// Joins two trees in order into one.
    pub(crate) fn join2(s: &S, a: Option<Box<Node<T, D, S>>>, b: Option<Box<Node<T, D, S>>>) -> (t: Option<Box<Node<T, D, S>>>)
        requires
            Self::opt_wf(a),
            Self::opt_wf(b),
            Self::opt_elems(a).len() + Self::opt_elems(b).len() <= usize::MAX,
        ensures
            Self::opt_wf(t),
            Self::opt_elems(t) == Self::opt_elems(a) + Self::opt_elems(b),
    {
        match b {
            None => {
                proof {
                    assert(Self::opt_elems(a) + Self::opt_elems(None::<Box<Node<T, D, S>>>)
                        =~= Self::opt_elems(a));
                }
                a
            },
            Some(bb) => {
                let ghost b_snapshot = *bb;
                let (v, rest) = Self::pop_front(s, bb);
                let t = Self::join3(s, a, v, rest);
                proof {
                    assert(t.elems() =~= Self::opt_elems(a) + b_snapshot.elems());
                }
                Some(t)
            },
        }
    }

    /// Splits a tree into the first `k` elements and the rest.
    #[verifier::rlimit(100)]
    pub(crate) fn split_at(s: &S, t: Option<Box<Node<T, D, S>>>, k: usize) -> (res: (
        Option<Box<Node<T, D, S>>>,
        Option<Box<Node<T, D, S>>>,
    ))
        requires
            Self::opt_wf(t),
            k <= Self::opt_elems(t).len(),
        ensures
            Self::opt_wf(res.0),
            Self::opt_wf(res.1),
            Self::opt_elems(res.0) == Self::opt_elems(t).take(k as int),
            Self::opt_elems(res.1) == Self::opt_elems(t).skip(k as int),
        decreases t,
    {
        match t {
            None => {
                proof {
                    assert(Seq::<T>::empty().take(k as int) =~= Seq::<T>::empty());
                    assert(Seq::<T>::empty().skip(k as int) =~= Seq::<T>::empty());
                }
                (None, None)
            },
            Some(b) => {
                let ghost t_snapshot = *b;
                let n = *b;
                let lsize = Self::opt_size_exec(&n.left);
                if k <= lsize {
                    let (x, y) = Self::split_at(s, n.left, k);
                    let j = Self::join3(s, y, n.value, n.right);
                    proof {
                        lemma_cut_in_first(
                            Self::opt_elems(t_snapshot.left),
                            seq![t_snapshot.value],
                            Self::opt_elems(t_snapshot.right),
                            k as int,
                        );
                    }
                    (x, Some(j))
                } else {
                    let (x, y) = Self::split_at(s, n.right, k - lsize - 1);
                    let j = Self::join3(s, n.left, n.value, x);
                    proof {
                        lemma_cut_in_last(
                            Self::opt_elems(t_snapshot.left),
                            seq![t_snapshot.value],
                            Self::opt_elems(t_snapshot.right),
                            k as int,
                        );
                        assert(j.elems() =~= t_snapshot.elems().take(k as int));
                    }
                    (Some(j), y)
                }
            },
        }
    }

    /// The simplified fold of the elements at positions `lo .. hi`, combined
    /// left to right. Whole subtrees inside the range contribute their cached
    /// fold, simplified, without being descended.
    #[verifier::rlimit(60)]
    pub(crate) fn fold_range<Si: FoldSimplification<T, D, S>>(
        si: &Si,
        s: &S,
        t: &Option<Box<Node<T, D, S>>>,
        lo: usize,
        hi: usize,
    ) -> (r: Si::D2)
        requires
            Self::opt_wf(*t),
            lo <= hi,
            hi <= Self::opt_elems(*t).len(),
        ensures
            Si::md2(r) == fold2_m::<T, D, S, Si>(
                Self::opt_elems(*t).subrange(lo as int, hi as int),
            ),
        decreases *t,
    {
        match t {
            None => {
                let r = si.empty2(s);
                proof {
                    assert(Seq::<T>::empty().subrange(lo as int, hi as int) =~= Seq::<T>::empty());
                }
                r
            },
            Some(n) => {
                if lo == hi {
                    let r = si.empty2(s);
                    proof {
                        assert(n.elems().subrange(lo as int, hi as int) =~= Seq::<T>::empty());
                    }
                    r
                } else if lo == 0 && hi == n.size {
                    let r = si.simplify(s, &n.delta_whole);
                    proof {
                        assert(n.elems().subrange(0, n.size as int) =~= n.elems());
                    }
                    r
                } else {
                    let lsize = Self::opt_size_exec(&n.left);
                    let lo_l = if lo < lsize {
                        lo
                    } else {
                        lsize
                    };
                    let hi_l = if hi < lsize {
                        hi
                    } else {
                        lsize
                    };
                    let fl = Self::fold_range(si, s, &n.left, lo_l, hi_l);
                    let has_mid = lo <= lsize && lsize < hi;
                    let fm = if has_mid {
                        si.delta2(s, &n.value)
                    } else {
                        si.empty2(s)
                    };
                    let lo_r = if lo > lsize + 1 {
                        lo - lsize - 1
                    } else {
                        0
                    };
                    let hi_r = if hi > lsize + 1 {
                        hi - lsize - 1
                    } else {
                        0
                    };
                    let fr = Self::fold_range(si, s, &n.right, lo_r, hi_r);
                    let r = si.op2(s, si.op2(s, fl, fm), fr);
                    proof {
                        let ls = Self::opt_elems(n.left);
                        let rs = Self::opt_elems(n.right);
                        let sub_l = ls.subrange(lo_l as int, hi_l as int);
                        let sub_m = if has_mid {
                            seq![n.value]
                        } else {
                            Seq::<T>::empty()
                        };
                        let sub_r = rs.subrange(lo_r as int, hi_r as int);
                        assert(n.elems().subrange(lo as int, hi as int) =~= sub_l + sub_m
                            + sub_r);
                        if has_mid {
                            lemma_fold_m_singleton::<T, D, S>(n.value);
                        }
                        lemma_fold2_m_concat::<T, D, S, Si>(sub_l, sub_m);
                        lemma_fold2_m_concat::<T, D, S, Si>(sub_l + sub_m, sub_r);
                    }
                    r
                }
            },
        }
    }

    /// Finds, by binary search over cumulative folds, the boundary position
    /// inside `lo .. hi` for a predicate tested from the left.
    ///
    /// `acc` is the running simplified fold of `prefix`, the elements that lie
    /// before the range. The result `(j, a)` gives the number `j` of range
    /// elements before the boundary, with `a` the running fold extended by
    /// them. The boundary is such that the fold including one more element
    /// satisfies the predicate, while the fold up to the boundary does not;
    /// when the predicate is monotone this pins down the longest prefix whose
    /// fold does not satisfy it.
    #[verifier::rlimit(100)]
    pub(crate) fn search_left<Si: FoldSimplification<T, D, S>, Pr: FoldPredicate<T, D, S, Si>>(
        si: &Si,
        s: &S,
        pr: &Pr,
        t: &Option<Box<Node<T, D, S>>>,
        lo: usize,
        hi: usize,
        acc: Si::D2,
        Ghost(prefix): Ghost<Seq<T>>,
    ) -> (res: (usize, Si::D2))
        requires
            Self::opt_wf(*t),
            lo <= hi,
            hi <= Self::opt_elems(*t).len(),
            Si::md2(acc) == fold2_m::<T, D, S, Si>(prefix),
        ensures
            res.0 <= hi - lo,
            Si::md2(res.1) == fold2_m::<T, D, S, Si>(
                prefix + Self::opt_elems(*t).subrange(lo as int, lo + res.0),
            ),
            res.0 < hi - lo ==> pr.p(fold2_m::<T, D, S, Si>(
                prefix + Self::opt_elems(*t).subrange(lo as int, lo + res.0 + 1),
            )),
            res.0 > 0 ==> !pr.p(fold2_m::<T, D, S, Si>(
                prefix + Self::opt_elems(*t).subrange(lo as int, lo + res.0),
            )),
        decreases *t,
    {
        match t {
            None => {
                proof {
                    assert(prefix + Seq::<T>::empty().subrange(lo as int, lo as int) =~= prefix);
                }
                (0, acc)
            },
            Some(n) => {
                let ghost e = n.elems();
                if lo == hi {
                    proof {
                        assert(prefix + e.subrange(lo as int, lo as int) =~= prefix);
                    }
                    return (0, acc);
                }
                if lo == 0 && hi == n.size {
                    let acc_keep = si.clone_d2(s, &acc);
                    let whole = si.simplify(s, &n.delta_whole);
                    let acc2 = si.op2(s, acc_keep, whole);
                    if !pr.test(&acc2) {
                        proof {
                            assert(e.subrange(0, n.size as int) =~= e);
                            lemma_fold2_m_concat::<T, D, S, Si>(prefix, e);
                        }
                        return (n.size, acc2);
                    }
                }
                let ghost ls = Self::opt_elems(n.left);
                let ghost ms = seq![n.value];
                let ghost rs = Self::opt_elems(n.right);
                let lsize = Self::opt_size_exec(&n.left);
                if hi <= lsize {
                    let (j, a2) = Self::search_left(si, s, pr, &n.left, lo, hi, acc, Ghost(prefix));
                    proof {
                        assert(e.subrange(lo as int, lo + j) =~= ls.subrange(lo as int, lo + j));
                        if j < hi - lo {
                            assert(e.subrange(lo as int, lo + j + 1) =~= ls.subrange(
                                lo as int,
                                lo + j + 1,
                            ));
                        }
                    }
                    return (j, a2);
                }
                if lo >= lsize + 1 {
                    let (j, a2) = Self::search_left(
                        si,
                        s,
                        pr,
                        &n.right,
                        lo - lsize - 1,
                        hi - lsize - 1,
                        acc,
                        Ghost(prefix),
                    );
                    proof {
                        assert(e.subrange(lo as int, lo + j) =~= rs.subrange(
                            lo - lsize - 1,
                            lo - lsize - 1 + j,
                        ));
                        if j < hi - lo {
                            assert(e.subrange(lo as int, lo + j + 1) =~= rs.subrange(
                                lo - lsize - 1,
                                lo - lsize - 1 + j + 1,
                            ));
                        }
                    }
                    return (j, a2);
                }
                // the range spans the middle element
                let (jl, acc1) = if lo < lsize {
                    let (jl, acc1) = Self::search_left(
                        si,
                        s,
                        pr,
                        &n.left,
                        lo,
                        lsize,
                        acc,
                        Ghost(prefix),
                    );
                    if lo + jl < lsize {
                        proof {
                            assert(e.subrange(lo as int, lo + jl) =~= ls.subrange(
                                lo as int,
                                lo + jl,
                            ));
                            assert(e.subrange(lo as int, lo + jl + 1) =~= ls.subrange(
                                lo as int,
                                lo + jl + 1,
                            ));
                        }
                        return (jl, acc1);
                    }
                    (jl, acc1)
                } else {
                    proof {
                        assert(prefix + ls.subrange(lo as int, lsize as int) =~= prefix);
                    }
                    (0, acc)
                };
                let ghost prefix1 = prefix + ls.subrange(lo as int, lsize as int);
                let acc1b = si.clone_d2(s, &acc1);
                let dm = si.delta2(s, &n.value);
                let acc2 = si.op2(s, acc1, dm);
                proof {
                    lemma_fold_m_singleton::<T, D, S>(n.value);
                    lemma_fold2_m_concat::<T, D, S, Si>(prefix1, ms);
                    assert(e.subrange(lo as int, lsize as int) =~= ls.subrange(
                        lo as int,
                        lsize as int,
                    ));
                    assert(prefix + e.subrange(lo as int, lsize + 1) =~= prefix1 + ms);
                }
                if pr.test(&acc2) {
                    return (lsize - lo, acc1b);
                }
                let ghost prefix2 = prefix1 + ms;
                if lsize + 1 < hi {
                    let (jr, acc3) = Self::search_left(
                        si,
                        s,
                        pr,
                        &n.right,
                        0,
                        hi - lsize - 1,
                        acc2,
                        Ghost(prefix2),
                    );
                    proof {
                        assert(prefix + e.subrange(lo as int, lsize + 1 + jr) =~= prefix2
                            + rs.subrange(0, jr as int));
                        if jr < hi - lsize - 1 {
                            assert(prefix + e.subrange(lo as int, lsize + 1 + jr + 1) =~= prefix2
                                + rs.subrange(0, jr + 1));
                        }
                    }
                    return (lsize - lo + 1 + jr, acc3);
                } else {
                    return (lsize - lo + 1, acc2);
                }
            },
        }
    }

    /// The mirror image of [`Node::search_left`]: finds the boundary position
    /// inside `lo .. hi` for a predicate tested over cumulative folds that
    /// start from the right end. `acc` is the running simplified fold of
    /// `suffix`, the elements after the range, and the result counts range
    /// elements from the right end inward. Folds are still combined in
    /// element order: a new element is prepended on the left.
    #[verifier::rlimit(100)]
    pub(crate) fn search_right<Si: FoldSimplification<T, D, S>, Pr: FoldPredicate<T, D, S, Si>>(
        si: &Si,
        s: &S,
        pr: &Pr,
        t: &Option<Box<Node<T, D, S>>>,
        lo: usize,
        hi: usize,
        acc: Si::D2,
        Ghost(suffix): Ghost<Seq<T>>,
    ) -> (res: (usize, Si::D2))
        requires
            Self::opt_wf(*t),
            lo <= hi,
            hi <= Self::opt_elems(*t).len(),
            Si::md2(acc) == fold2_m::<T, D, S, Si>(suffix),
        ensures
            res.0 <= hi - lo,
            Si::md2(res.1) == fold2_m::<T, D, S, Si>(
                Self::opt_elems(*t).subrange(hi - res.0, hi as int) + suffix,
            ),
            res.0 < hi - lo ==> pr.p(fold2_m::<T, D, S, Si>(
                Self::opt_elems(*t).subrange(hi - res.0 - 1, hi as int) + suffix,
            )),
            res.0 > 0 ==> !pr.p(fold2_m::<T, D, S, Si>(
                Self::opt_elems(*t).subrange(hi - res.0, hi as int) + suffix,
            )),
        decreases *t,
    {
        match t {
            None => {
                proof {
                    assert(Seq::<T>::empty().subrange(hi as int, hi as int) + suffix =~= suffix);
                }
                (0, acc)
            },
            Some(n) => {
                let ghost e = n.elems();
                if lo == hi {
                    proof {
                        assert(e.subrange(hi as int, hi as int) + suffix =~= suffix);
                    }
                    return (0, acc);
                }
                if lo == 0 && hi == n.size {
                    let acc_keep = si.clone_d2(s, &acc);
                    let whole = si.simplify(s, &n.delta_whole);
                    let acc2 = si.op2(s, whole, acc_keep);
                    if !pr.test(&acc2) {
                        proof {
                            assert(e.subrange(0, n.size as int) =~= e);
                            lemma_fold2_m_concat::<T, D, S, Si>(e, suffix);
                        }
                        return (n.size, acc2);
                    }
                }
                let ghost ls = Self::opt_elems(n.left);
                let ghost ms = seq![n.value];
                let ghost rs = Self::opt_elems(n.right);
                let lsize = Self::opt_size_exec(&n.left);
                if lo >= lsize + 1 {
                    let (j, a2) = Self::search_right(
                        si,
                        s,
                        pr,
                        &n.right,
                        lo - lsize - 1,
                        hi - lsize - 1,
                        acc,
                        Ghost(suffix),
                    );
                    proof {
                        assert(e.subrange(hi - j, hi as int) =~= rs.subrange(
                            hi - lsize - 1 - j,
                            hi - lsize - 1,
                        ));
                        if j < hi - lo {
                            assert(e.subrange(hi - j - 1, hi as int) =~= rs.subrange(
                                hi - lsize - 1 - j - 1,
                                hi - lsize - 1,
                            ));
                        }
                    }
                    return (j, a2);
                }
                if hi <= lsize {
                    let (j, a2) = Self::search_right(si, s, pr, &n.left, lo, hi, acc, Ghost(suffix));
                    proof {
                        assert(e.subrange(hi - j, hi as int) =~= ls.subrange(hi - j, hi as int));
                        if j < hi - lo {
                            assert(e.subrange(hi - j - 1, hi as int) =~= ls.subrange(
                                hi - j - 1,
                                hi as int,
                            ));
                        }
                    }
                    return (j, a2);
                }
                // the range spans the middle element
                let (jr, acc1) = if lsize + 1 < hi {
                    let (jr, acc1) = Self::search_right(
                        si,
                        s,
                        pr,
                        &n.right,
                        0,
                        hi - lsize - 1,
                        acc,
                        Ghost(suffix),
                    );
                    if jr < hi - lsize - 1 {
                        proof {
                            assert(e.subrange(hi - jr, hi as int) =~= rs.subrange(
                                hi - lsize - 1 - jr,
                                hi - lsize - 1,
                            ));
                            assert(e.subrange(hi - jr - 1, hi as int) =~= rs.subrange(
                                hi - lsize - 1 - jr - 1,
                                hi - lsize - 1,
                            ));
                        }
                        return (jr, acc1);
                    }
                    (jr, acc1)
                } else {
                    proof {
                        assert(rs.subrange(0, hi - lsize - 1) + suffix =~= suffix);
                    }
                    (0, acc)
                };
                let ghost suffix1 = rs.subrange(0, hi - lsize - 1) + suffix;
                let acc1b = si.clone_d2(s, &acc1);
                let dm = si.delta2(s, &n.value);
                let acc2 = si.op2(s, dm, acc1);
                proof {
                    lemma_fold_m_singleton::<T, D, S>(n.value);
                    lemma_fold2_m_concat::<T, D, S, Si>(ms, suffix1);
                    assert(e.subrange(lsize + 1, hi as int) =~= rs.subrange(0, hi - lsize - 1));
                    assert(e.subrange(lsize + 1, hi as int) + suffix =~= suffix1);
                    assert(e.subrange(lsize as int, hi as int) + suffix =~= ms + suffix1);
                }
                if pr.test(&acc2) {
                    return (hi - lsize - 1, acc1b);
                }
                let ghost suffix2 = ms + suffix1;
                if lo < lsize {
                    let (jleft, acc3) = Self::search_right(
                        si,
                        s,
                        pr,
                        &n.left,
                        lo,
                        lsize,
                        acc2,
                        Ghost(suffix2),
                    );
                    proof {
                        assert(e.subrange(lsize - jleft, hi as int) + suffix =~= ls.subrange(
                            lsize - jleft,
                            lsize as int,
                        ) + suffix2);
                        if jleft < lsize - lo {
                            assert(e.subrange(lsize - jleft - 1, hi as int) + suffix
                                =~= ls.subrange(lsize - jleft - 1, lsize as int) + suffix2);
                        }
                    }
                    return (hi - lsize + jleft, acc3);
                } else {
                    return (hi - lsize, acc2);
                }
            },
        }
    }

    /// Removes the last `k` elements of the vector and builds a balanced
    /// tree of them, splitting each block at its middle. The rank of the
    /// result is a function of the element count alone, so sibling subtrees
    /// built from blocks whose sizes differ by at most one satisfy the
    /// weak-AVL rank rules directly, and no repair is ever needed.
    pub(crate) fn build_balanced(s: &S, items: &mut Vec<T>, k: usize) -> (t: Option<
        Box<Node<T, D, S>>,
    >)
        requires
            k <= old(items)@.len(),
        ensures
            final(items)@ == old(items)@.take(old(items)@.len() - k),
            Self::opt_wf(t),
            Self::opt_elems(t) == old(items)@.skip(old(items)@.len() - k),
            Self::opt_rank(t) == rank_of_count(k as int),
        decreases k,
    {
        if k == 0 {
            proof {
                assert(old(items)@.take(old(items)@.len() as int) =~= old(items)@);
                assert(old(items)@.skip(old(items)@.len() as int) =~= Seq::<T>::empty());
            }
            None
        } else {
            let ghost whole = items@;
            let rc = (k - 1) / 2;
            let lc = k - 1 - rc;
            let right = Self::build_balanced(s, items, rc);
            let v = items.pop().unwrap();
            let left = Self::build_balanced(s, items, lc);
            proof {
                lemma_rank_of_count_balanced(rc as int, lc as int);
                assert(Self::opt_elems(left) =~= whole.subrange(
                    whole.len() - k,
                    whole.len() - rc - 1,
                ));
                assert(Self::opt_elems(right) =~= whole.subrange(whole.len() - rc, whole.len() as int));
            }
            let node = Self::mk_node(s, v, left, right);
            proof {
                assert(node.elems() =~= whole.skip(whole.len() - k));
                assert(items@ =~= whole.take(whole.len() - k));
            }
            Some(node)
        }
    }

    /// The element at a given in-order position.
    pub(crate) fn get_at(t: &Option<Box<Node<T, D, S>>>, i: usize) -> (r: &T)
        requires
            Self::opt_wf(*t),
            i < Self::opt_elems(*t).len(),
        ensures
            *r == Self::opt_elems(*t)[i as int],
        decreases *t,
    {
        match t {
            None => {
                proof {
                    assert(false);
                }
                Self::get_at(t, i)
            },
            Some(n) => {
                let lsize = Self::opt_size_exec(&n.left);
                if i < lsize {
                    Self::get_at(&n.left, i)
                } else if i == lsize {
                    &n.value
                } else {
                    let r = Self::get_at(&n.right, i - lsize - 1);
                    proof {
                        assert(n.elems()[i as int]
                            == Self::opt_elems(n.right)[i - lsize - 1]);
                    }
                    r
                }
            },
        }
    }
}

} // verus!

verus! {

impl<T, D, S: FoldSettings<T, D>> Node<T, D, S> {
    /// The weak-AVL rank rules bound the rank logarithmically in the element
    /// count: a subtree of rank `r` holds at least `2^(r / 2)` elements.
    pub(crate) proof fn lemma_rank_log_bound(self)
        requires
            self.wf(),
        ensures
            pow2((self.rank / 2) as nat) <= self.elems().len(),
        decreases self,
    {
        if self.rank >= 2 {
            let lb = self.left.unwrap();
            let rb = self.right.unwrap();
            lb.lemma_rank_log_bound();
            rb.lemma_rank_log_bound();
            let half = ((self.rank - 2) / 2) as nat;
            vstd::arithmetic::power2::lemma_pow2_unfold((half + 1) as nat);
            assert(pow2((lb.rank / 2) as nat) >= pow2(half)) by {
                if half < (lb.rank / 2) as nat {
                    vstd::arithmetic::power2::lemma_pow2_strictly_increases(
                        half,
                        (lb.rank / 2) as nat,
                    );
                }
            }
            assert(pow2((rb.rank / 2) as nat) >= pow2(half)) by {
                if half < (rb.rank / 2) as nat {
                    vstd::arithmetic::power2::lemma_pow2_strictly_increases(
                        half,
                        (rb.rank / 2) as nat,
                    );
                }
            }
            assert(pow2((self.rank / 2) as nat) <= pow2((half + 1) as nat)) by {
                if ((self.rank / 2) as nat) < half + 1 {
                    vstd::arithmetic::power2::lemma_pow2_strictly_increases(
                        (self.rank / 2) as nat,
                        (half + 1) as nat,
                    );
                }
            }
        } else {
            vstd::arithmetic::power2::lemma2_to64();
        }
    }
}

} // verus!
