//! The tree's nodes and their mathematical reading.

use crate::intervals::{
    covered, is_maximal, lemma_covered_concat, lemma_covered_empty, lemma_covered_one,
    lemma_maximal_concat,
};
use vstd::prelude::*;
use vstd::set_lib::{lemma_int_range, set_int_range};

verus! {

/// One closed interval `[lower, upper]` of members, with the intervals below it
/// on the left and those above it on the right.
pub struct Node {
    pub lower: isize,
    pub upper: isize,
    pub left: Option<Box<Node>>,
    pub right: Option<Box<Node>>,
}

/// The integers from `lo` to `hi`, both included.
pub open spec fn span(lo: int, hi: int) -> Set<int> {
    set_int_range(lo, hi + 1)
}

/// The integers that a subtree holds.
pub open spec fn values(t: Option<Box<Node>>) -> Set<int>
    decreases t,
{
    match t {
        None => Set::empty(),
        Some(n) => values(n.left).union(span(n.lower as int, n.upper as int)).union(
            values(n.right),
        ),
    }
}

/// The subtree's intervals, from the lowest to the highest.
pub open spec fn runs(t: Option<Box<Node>>) -> Seq<(int, int)>
    decreases t,
{
    match t {
        None => Seq::empty(),
        Some(n) => runs(n.left).push((n.lower as int, n.upper as int)) + runs(n.right),
    }
}

/// Every member of `t`, and the integer after it, lies below `bound`.
pub open spec fn clear_below(t: Option<Box<Node>>, bound: int) -> bool {
    forall|v: int| #[trigger] values(t).contains(v) ==> v + 1 < bound
}

/// Every member of `t`, and the integer before it, lies above `bound`.
pub open spec fn clear_above(t: Option<Box<Node>>, bound: int) -> bool {
    forall|v: int| #[trigger] values(t).contains(v) ==> bound + 1 < v
}

/// The search-tree order together with maximality: no interval is empty, and
/// at every node a gap of at least one absent integer parts the node's
/// interval from everything in either subtree.
pub open spec fn ordered(t: Option<Box<Node>>) -> bool
    decreases t,
{
    match t {
        None => true,
        Some(n) => {
            &&& n.lower <= n.upper
            &&& ordered(n.left)
            &&& ordered(n.right)
            &&& clear_below(n.left, n.lower as int)
            &&& clear_above(n.right, n.upper as int)
        },
    }
}

impl Node {
    /// A node with the given interval and subtrees.
    pub fn new(
        lower: isize,
        upper: isize,
        left: Option<Box<Node>>,
        right: Option<Box<Node>>,
    ) -> (node: Self)
        ensures
            node.lower == lower,
            node.upper == upper,
            node.left == left,
            node.right == right,
    {
        Self { lower, upper, left, right }
    }
}

/// A member of a subtree lies in the root's interval or in one of the two
/// subtrees below the root.
pub proof fn lemma_parts(n: Box<Node>)
    ensures
        forall|v: int| #[trigger]
            values(Some(n)).contains(v) <==> values(n.left).contains(v) || n.lower <= v <= n.upper
                || values(n.right).contains(v),
{
}

/// The empty subtree holds nothing.
pub proof fn lemma_none()
    ensures
        values(None) == Set::<int>::empty(),
        runs(None) == Seq::<(int, int)>::empty(),
        ordered(None),
{
}

/// A subtree holds finitely many integers, each of them a machine integer.
pub proof fn lemma_values_finite(t: Option<Box<Node>>)
    ensures
        values(t).finite(),
        forall|v: int| #[trigger] values(t).contains(v) ==> isize::MIN <= v <= isize::MAX,
    decreases t,
{
    match t {
        None => {},
        Some(n) => {
            lemma_values_finite(n.left);
            lemma_values_finite(n.right);
            if n.lower <= n.upper {
                lemma_int_range(n.lower as int, n.upper + 1);
            } else {
                assert(span(n.lower as int, n.upper as int) =~= Set::empty());
            }
            lemma_parts(n);
        },
    }
}

/// The intervals of an ordered subtree are maximal, and cover the integers
/// that the subtree holds.
pub proof fn lemma_runs(t: Option<Box<Node>>)
    requires
        ordered(t),
    ensures
        is_maximal(runs(t)),
        covered(runs(t)) == values(t),
    decreases t,
{
    match t {
        None => {
            lemma_covered_empty();
        },
        Some(n) => {
            lemma_runs(n.left);
            lemma_runs(n.right);
            let low = runs(n.left);
            let mid = seq![(n.lower as int, n.upper as int)];
            let high = runs(n.right);
            assert(runs(t) =~= (low + mid) + high);
            lemma_covered_one(n.lower as int, n.upper as int);
            lemma_covered_concat(low, mid);
            lemma_covered_concat(low + mid, high);
            assert(covered(mid) =~= span(n.lower as int, n.upper as int));
            assert forall|u: int, w: int|
                #[trigger] covered(low).contains(u) && #[trigger] covered(mid).contains(
                    w,
                ) implies u + 1 < w by {
                assert(values(n.left).contains(u));
            }
            lemma_maximal_concat(low, mid);
            assert forall|u: int, w: int|
                #[trigger] covered(low + mid).contains(u) && #[trigger] covered(high).contains(
                    w,
                ) implies u + 1 < w by {
                assert(values(n.right).contains(w));
                if covered(low).contains(u) {
                    assert(values(n.left).contains(u));
                }
            }
            lemma_maximal_concat(low + mid, high);
        },
    }
}

} // verus!
