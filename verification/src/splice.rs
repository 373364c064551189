//! Taking an end interval out of a subtree, and joining what touches.

use crate::diet::Diet;
use crate::node::{
    clear_above, clear_below, lemma_none, lemma_parts, ordered, runs, span, values, Node,
};
use vstd::prelude::*;

verus! {

impl Diet {
    /// The greatest member of a subtree.
    pub(crate) fn peek_max(node: &Box<Node>) -> (top: isize)
        requires
            ordered(Some(*node)),
        ensures
            values(Some(*node)).contains(top as int),
            forall|v: int| #[trigger] values(Some(*node)).contains(v) ==> v <= top,
        decreases *node,
    {
        proof {
            lemma_parts(*node);
            lemma_none();
        }
        match &node.right {
            None => node.upper,
            Some(right) => {
                let top = Self::peek_max(right);
                assert(values(node.right).contains(top as int));
                top
            },
        }
    }

    /// The least member of a subtree.
    pub(crate) fn peek_min(node: &Box<Node>) -> (bottom: isize)
        requires
            ordered(Some(*node)),
        ensures
            values(Some(*node)).contains(bottom as int),
            forall|v: int| #[trigger] values(Some(*node)).contains(v) ==> bottom <= v,
        decreases *node,
    {
        proof {
            lemma_parts(*node);
            lemma_none();
        }
        match &node.left {
            None => node.lower,
            Some(left) => {
                let bottom = Self::peek_min(left);
                assert(values(node.left).contains(bottom as int));
                bottom
            },
        }
    }

    /// Takes the highest interval out of a subtree: its bounds, and the
    /// subtree without it.
    pub(crate) fn split_max(node: Box<Node>) -> (out: (isize, isize, Option<Box<Node>>))
        requires
            ordered(Some(node)),
        ensures
            out.0 <= out.1,
            ordered(out.2),
            clear_below(out.2, out.0 as int),
            values(Some(node)) == values(out.2).union(span(out.0 as int, out.1 as int)),
            runs(Some(node)) == runs(out.2).push((out.0 as int, out.1 as int)),
        decreases node,
    {
        let mut cur = node;
        proof {
            lemma_parts(node);
            lemma_none();
        }
        match cur.right.take() {
            None => {
                let left = cur.left.take();
                proof {
                    let top = (node.lower as int, node.upper as int);
                    assert(values(Some(node)) =~= values(left).union(span(top.0, top.1)));
                    assert(runs(Some(node)) =~= runs(left).push(top));
                }
                (cur.lower, cur.upper, left)
            },
            Some(right) => {
                let (x, y, new_right) = Self::split_max(right);
                cur.right = new_right;
                proof {
                    let top = (x as int, y as int);
                    lemma_parts(cur);
                    assert(values(node.right).contains(top.0));
                    assert forall|v: int| #[trigger]
                        values(new_right).contains(v) implies values(node.right).contains(v) by {}
                    assert(values(Some(node)) =~= values(Some(cur)).union(span(top.0, top.1)));
                    assert(runs(Some(node)) =~= runs(Some(cur)).push(top));
                }
                (x, y, Some(cur))
            },
        }
    }

    /// Takes the lowest interval out of a subtree: its bounds, and the subtree
    /// without it.
    pub(crate) fn split_min(node: Box<Node>) -> (out: (isize, isize, Option<Box<Node>>))
        requires
            ordered(Some(node)),
        ensures
            out.0 <= out.1,
            ordered(out.2),
            clear_above(out.2, out.1 as int),
            values(Some(node)) == values(out.2).union(span(out.0 as int, out.1 as int)),
            runs(Some(node)) == seq![(out.0 as int, out.1 as int)] + runs(out.2),
        decreases node,
    {
        let mut cur = node;
        proof {
            lemma_parts(node);
            lemma_none();
        }
        match cur.left.take() {
            None => {
                let right = cur.right.take();
                proof {
                    let bottom = (node.lower as int, node.upper as int);
                    assert(values(Some(node)) =~= values(right).union(span(bottom.0, bottom.1)));
                    assert(runs(Some(node)) =~= seq![bottom] + runs(right));
                }
                (cur.lower, cur.upper, right)
            },
            Some(left) => {
                let (x, y, new_left) = Self::split_min(left);
                cur.left = new_left;
                proof {
                    let bottom = (x as int, y as int);
                    lemma_parts(cur);
                    assert(values(node.left).contains(bottom.1));
                    assert forall|v: int| #[trigger]
                        values(new_left).contains(v) implies values(node.left).contains(v) by {}
                    assert(values(Some(node)) =~= values(Some(cur)).union(
                        span(bottom.0, bottom.1),
                    ));
                    assert(runs(Some(node)) =~= seq![bottom] + runs(Some(cur)));
                }
                (x, y, Some(cur))
            },
        }
    }

    /// Fuses a node with the highest interval of its left subtree where the
    /// two touch; otherwise hands the node back as it came. The node's
    /// interval may reach down to the members of its left subtree, but not
    /// into them.
    pub(crate) fn join_left(node: Box<Node>) -> (joined: Box<Node>)
        requires
            node.lower <= node.upper,
            ordered(node.left),
            ordered(node.right),
            forall|v: int| #[trigger] values(node.left).contains(v) ==> v < node.lower,
            clear_above(node.right, node.upper as int),
        ensures
            ordered(Some(joined)),
            values(Some(joined)) == values(Some(node)),
            ordered(Some(node)) ==> joined == node,
            joined.upper == node.upper,
            joined.right == node.right,
    {
        let mut cur = node;
        proof {
            lemma_none();
        }
        match cur.left.take() {
            None => cur,
            Some(left) => {
                let top = Self::peek_max(&left);
                if top + 1 == cur.lower {
                    let (x, y, new_left) = Self::split_max(left);
                    let right = cur.right.take();
                    let joined = Box::new(Node::new(x, cur.upper, new_left, right));
                    proof {
                        assert(values(node.left).contains(y as int));
                        assert(span(x as int, y as int).contains(top as int));
                        assert(values(Some(joined)) =~= values(Some(node)));
                    }
                    joined
                } else {
                    cur.left = Some(left);
                    assert(clear_below(node.left, node.lower as int)) by {
                        assert forall|v: int| #[trigger]
                            values(node.left).contains(v) implies v <= top by {}
                    }
                    cur
                }
            },
        }
    }

    /// Fuses a node with the lowest interval of its right subtree where the
    /// two touch; otherwise hands the node back as it came. The node's
    /// interval may reach up to the members of its right subtree, but not
    /// into them.
    pub(crate) fn join_right(node: Box<Node>) -> (joined: Box<Node>)
        requires
            node.lower <= node.upper,
            ordered(node.left),
            ordered(node.right),
            clear_below(node.left, node.lower as int),
            forall|v: int| #[trigger] values(node.right).contains(v) ==> node.upper < v,
        ensures
            ordered(Some(joined)),
            values(Some(joined)) == values(Some(node)),
            ordered(Some(node)) ==> joined == node,
            joined.lower == node.lower,
            joined.left == node.left,
    {
        let mut cur = node;
        proof {
            lemma_none();
        }
        match cur.right.take() {
            None => cur,
            Some(right) => {
                let bottom = Self::peek_min(&right);
                if bottom - 1 == cur.upper {
                    let (x, y, new_right) = Self::split_min(right);
                    let left = cur.left.take();
                    let joined = Box::new(Node::new(cur.lower, y, left, new_right));
                    proof {
                        assert(values(node.right).contains(x as int));
                        assert(span(x as int, y as int).contains(bottom as int));
                        assert(values(Some(joined)) =~= values(Some(node)));
                    }
                    joined
                } else {
                    cur.right = Some(right);
                    assert(clear_above(node.right, node.upper as int)) by {
                        assert forall|v: int| #[trigger]
                            values(node.right).contains(v) implies bottom <= v by {}
                    }
                    cur
                }
            },
        }
    }

    /// Joins two subtrees, of which the first lies wholly below the second
    /// and does not touch it, under one root: the highest interval of the
    /// first, where there is one.
    pub(crate) fn merge(left: Option<Box<Node>>, right: Option<Box<Node>>) -> (merged: Option<
        Box<Node>,
    >)
        requires
            ordered(left),
            ordered(right),
            forall|a: int, b: int|
                #[trigger] values(left).contains(a) && #[trigger] values(right).contains(b)
                    ==> a + 1 < b,
        ensures
            ordered(merged),
            values(merged) == values(left).union(values(right)),
            runs(merged) == runs(left) + runs(right),
            right.is_none() ==> merged == left,
            left.is_none() ==> merged == right,
    {
        proof {
            lemma_none();
        }
        match (left, right) {
            (left, None) => {
                assert(values(left) =~= values(left).union(values(None)));
                assert(runs(left) =~= runs(left) + runs(None));
                left
            },
            (None, right) => {
                assert(values(right) =~= values(None).union(values(right)));
                assert(runs(right) =~= runs(None) + runs(right));
                right
            },
            (Some(left), Some(right)) => {
                let (x, y, rest) = Self::split_max(left);
                let merged = Some(Box::new(Node::new(x, y, rest, Some(right))));
                proof {
                    assert(values(Some(left)).contains(y as int));
                    assert(values(merged) =~= values(Some(left)).union(values(Some(right))));
                    assert(runs(merged) =~= runs(Some(left)) + runs(Some(right)));
                }
                merged
            },
        }
    }
}

} // verus!
