//! The set itself: membership, insertion, removal and size.

use crate::intervals::{covered, is_maximal};
use crate::node::{
    lemma_none, lemma_parts, lemma_runs, lemma_values_finite, ordered, runs, values, Node,
};
use vstd::prelude::*;

verus! {

/// A set of integers, stored as a search tree of maximal intervals.
pub struct Diet {
    head: Option<Box<Node>>,
    len: usize,
}

impl View for Diet {
    type V = Set<int>;

    /// The integers that the set holds.
    closed spec fn view(&self) -> Set<int> {
        values(self.head)
    }
}

impl Diet {
    /// The tree is ordered and maximal, and the counter is the number of
    /// members.
    #[verifier::type_invariant]
    pub closed spec fn wf(self) -> bool {
        &&& ordered(self.head)
        &&& self.len == values(self.head).len()
    }

    /// The stored intervals, from the lowest to the highest.
    pub closed spec fn intervals(self) -> Seq<(int, int)> {
        runs(self.head)
    }

    /// In every state that the operations reach, the stored intervals are
    /// maximal: they ascend, and none overlaps or touches another. They cover
    /// the members and nothing else, and the members are finitely many
    /// machine integers.
    pub proof fn lemma_intervals(self)
        requires
            self.wf(),
        ensures
            is_maximal(self.intervals()),
            covered(self.intervals()) == self@,
            self@.finite(),
            forall|v: int| #[trigger] self@.contains(v) ==> isize::MIN <= v <= isize::MAX,
    {
        lemma_runs(self.head);
        lemma_values_finite(self.head);
    }

    /// The empty set.
    pub fn new() -> (set: Self)
        ensures
            set@ == Set::<int>::empty(),
            set.intervals() == Seq::<(int, int)>::empty(),
    {
        Diet { head: None, len: 0 }
    }

    /// Whether `num` is a member.
    pub fn contains(&self, num: isize) -> (found: bool)
        ensures
            found == self@.contains(num as int),
    {
        proof {
            use_type_invariant(self);
        }
        self.recur_contains(num, &self.head)
    }

    /// The number of members.
    pub fn len(&self) -> (count: usize)
        ensures
            self@.finite(),
            count == self@.len(),
    {
        proof {
            use_type_invariant(self);
            lemma_values_finite(self.head);
        }
        self.len
    }

    /// Adds `num`. Returns `true` where it was not a member before; where it
    /// was, the set stays as it is.
    pub fn insert(&mut self, num: isize) -> (added: bool)
        requires
            old(self)@.contains(num as int) || old(self)@.len() < usize::MAX,
        ensures
            added == !old(self)@.contains(num as int),
            final(self)@ == old(self)@.insert(num as int),
            final(self)@.len() == old(self)@.len() + if added { 1int } else { 0int },
            !added ==> *final(self) == *old(self),
            is_maximal(final(self).intervals()),
            covered(final(self).intervals()) == final(self)@,
    {
        proof {
            use_type_invariant(&*self);
            lemma_values_finite(self.head);
        }
        let mut taken = Diet::new();
        std::mem::swap(self, &mut taken);
        let Diet { head, len } = taken;
        let mut head = head;
        let added = Self::recur_insert(num, &mut head);
        proof {
            lemma_runs(head);
        }
        let len = if added { len + 1 } else { len };
        *self = Diet { head, len };
        added
    }

    /// Removes `num`. Returns `true` where it was a member; where it was
    /// not, the set stays as it is.
    pub fn remove(&mut self, num: isize) -> (removed: bool)
        ensures
            removed == old(self)@.contains(num as int),
            final(self)@ == old(self)@.remove(num as int),
            final(self)@.len() == old(self)@.len() - if removed { 1int } else { 0int },
            !removed ==> *final(self) == *old(self),
            is_maximal(final(self).intervals()),
            covered(final(self).intervals()) == final(self)@,
    {
        proof {
            use_type_invariant(&*self);
            lemma_values_finite(self.head);
        }
        let mut taken = Diet::new();
        std::mem::swap(self, &mut taken);
        let Diet { head, len } = taken;
        let mut head = head;
        let removed = Self::recur_remove(num, &mut head);
        proof {
            lemma_runs(head);
        }
        let len = if removed { len - 1 } else { len };
        *self = Diet { head, len };
        removed
    }

    /// Whether a subtree holds `num`.
    fn recur_contains(&self, num: isize, node: &Option<Box<Node>>) -> (found: bool)
        requires
            ordered(*node),
        ensures
            found == values(*node).contains(num as int),
        decreases *node,
    {
        match node {
            None => false,
            Some(inner) => {
                proof {
                    lemma_parts(*inner);
                }
                if inner.lower <= num && num <= inner.upper {
                    true
                } else if num < inner.lower {
                    self.recur_contains(num, &inner.left)
                } else {
                    self.recur_contains(num, &inner.right)
                }
            },
        }
    }

    /// Adds `num` to a subtree. Says whether it was new; a subtree that held
    /// it already stays as it is.
    fn recur_insert(num: isize, node: &mut Option<Box<Node>>) -> (added: bool)
        requires
            ordered(*old(node)),
        ensures
            ordered(*final(node)),
            added == !values(*old(node)).contains(num as int),
            values(*final(node)) == values(*old(node)).insert(num as int),
            !added ==> *final(node) == *old(node),
        decreases *old(node),
    {
        proof {
            lemma_none();
        }
        match node.take() {
            None => {
                *node = Some(Box::new(Node::new(num, num, None, None)));
                assert(values(*node) =~= values(None).insert(num as int));
                true
            },
            Some(mut inner) => {
                let ghost before = inner;
                proof {
                    lemma_parts(before);
                }
                if num < inner.lower {
                    if num + 1 == inner.lower {
                        let left = inner.left.take();
                        let right = inner.right.take();
                        let widened = Box::new(Node::new(num, inner.upper, left, right));
                        assert(values(Some(widened)) =~= values(Some(before)).insert(num as int));
                        *node = Some(Self::join_left(widened));
                        true
                    } else {
                        let added = Self::recur_insert(num, &mut inner.left);
                        assert(values(Some(inner)) =~= values(Some(before)).insert(num as int));
                        *node = Some(inner);
                        added
                    }
                } else if num > inner.upper {
                    if num - 1 == inner.upper {
                        let left = inner.left.take();
                        let right = inner.right.take();
                        let widened = Box::new(Node::new(inner.lower, num, left, right));
                        assert(values(Some(widened)) =~= values(Some(before)).insert(num as int));
                        *node = Some(Self::join_right(widened));
                        true
                    } else {
                        let added = Self::recur_insert(num, &mut inner.right);
                        assert(values(Some(inner)) =~= values(Some(before)).insert(num as int));
                        *node = Some(inner);
                        added
                    }
                } else {
                    assert(values(Some(inner)) =~= values(Some(inner)).insert(num as int));
                    *node = Some(inner);
                    false
                }
            },
        }
    }

    /// Takes `num` out of a subtree. Says whether it was there; a subtree
    /// that did not hold it stays as it is.
    fn recur_remove(num: isize, node: &mut Option<Box<Node>>) -> (removed: bool)
        requires
            ordered(*old(node)),
        ensures
            ordered(*final(node)),
            removed == values(*old(node)).contains(num as int),
            values(*final(node)) == values(*old(node)).remove(num as int),
            !removed ==> *final(node) == *old(node),
        decreases *old(node),
    {
        proof {
            lemma_none();
        }
        match node.take() {
            None => {
                assert(values(None) =~= values(None).remove(num as int));
                false
            },
            Some(mut inner) => {
                let ghost before = inner;
                proof {
                    lemma_parts(before);
                }
                if num < inner.lower {
                    let removed = Self::recur_remove(num, &mut inner.left);
                    assert(!values(before.right).contains(num as int));
                    assert(values(Some(inner)) =~= values(Some(before)).remove(num as int));
                    *node = Some(inner);
                    removed
                } else if num > inner.upper {
                    let removed = Self::recur_remove(num, &mut inner.right);
                    assert(!values(before.left).contains(num as int));
                    assert(values(Some(inner)) =~= values(Some(before)).remove(num as int));
                    *node = Some(inner);
                    removed
                } else {
                    assert(!values(before.left).contains(num as int));
                    assert(!values(before.right).contains(num as int));
                    if num == inner.lower {
                        if inner.lower == inner.upper {
                            let left = inner.left.take();
                            let right = inner.right.take();
                            *node = Self::merge(left, right);
                            assert(values(*node) =~= values(Some(before)).remove(num as int));
                        } else {
                            inner.lower += 1;
                            assert(values(Some(inner)) =~= values(Some(before)).remove(num as int));
                            *node = Some(inner);
                        }
                    } else if num == inner.upper {
                        inner.upper -= 1;
                        assert(values(Some(inner)) =~= values(Some(before)).remove(num as int));
                        *node = Some(inner);
                    } else {
                        let left = inner.left.take();
                        let right = inner.right.take();
                        let above = Box::new(Node::new(num + 1, inner.upper, None, right));
                        let below = Box::new(Node::new(inner.lower, num - 1, left, Some(above)));
                        proof {
                            lemma_parts(above);
                            lemma_parts(below);
                            assert(ordered(Some(above)));
                            assert(values(Some(below)) =~= values(Some(before)).remove(num as int));
                        }
                        *node = Some(below);
                    }
                    true
                }
            },
        }
    }
}

} // verus!
