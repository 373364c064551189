//! What insertion and removal do to the stored intervals, and what a
//! history of insertions and removals leaves in the set.

use crate::diet::Diet;
use crate::intervals::{
    lemma_alone, lemma_between, lemma_covered_at, lemma_drop, lemma_extend, lemma_fuse,
    lemma_maximal_unique, lemma_shrink, lemma_split,
};
use vstd::prelude::*;

verus! {

/// Two sets with the same members store the same intervals.
pub proof fn lemma_same_members(a: Diet, b: Diet)
    requires
        a.wf(),
        b.wf(),
        a@ == b@,
    ensures
        a.intervals() == b.intervals(),
{
    a.lemma_intervals();
    b.lemma_intervals();
    lemma_maximal_unique(a.intervals(), b.intervals());
}

/// Inserting the one integer that parts two stored intervals fuses them: the
/// interval at `i` and the next become one, the others stay, and the set is
/// larger by one member and smaller by one interval.
pub proof fn lemma_insert_fuses(before: Diet, after: Diet, num: int, i: int)
    requires
        before.wf(),
        after.wf(),
        after@ == before@.insert(num),
        0 <= i,
        i + 1 < before.intervals().len(),
        before.intervals()[i].1 + 1 == num,
        num + 1 == before.intervals()[i + 1].0,
    ensures
        after.intervals() == before.intervals().take(i).push(
            (before.intervals()[i].0, before.intervals()[i + 1].1),
        ) + before.intervals().skip(i + 2),
        after.intervals().len() == before.intervals().len() - 1,
        after@.len() == before@.len() + 1,
{
    before.lemma_intervals();
    after.lemma_intervals();
    let s = before.intervals();
    lemma_fuse(s, after.intervals(), i, num);
    lemma_between(s, i, num);
}

/// Inserting an integer that touches one stored interval, and no other,
/// lengthens that interval by it; the others stay, and so does their number.
pub proof fn lemma_insert_extends(before: Diet, after: Diet, num: int, i: int)
    requires
        before.wf(),
        after.wf(),
        after@ == before@.insert(num),
        0 <= i < before.intervals().len(),
        num + 1 == before.intervals()[i].0 || before.intervals()[i].1 + 1 == num,
        num + 1 == before.intervals()[i].0 ==> i == 0 || before.intervals()[i - 1].1 + 1 < num,
        before.intervals()[i].1 + 1 == num ==> i + 1 == before.intervals().len() || num + 1
            < before.intervals()[i + 1].0,
    ensures
        num + 1 == before.intervals()[i].0 ==> after.intervals() == before.intervals().update(
            i,
            (num, before.intervals()[i].1),
        ),
        before.intervals()[i].1 + 1 == num ==> after.intervals() == before.intervals().update(
            i,
            (before.intervals()[i].0, num),
        ),
        after.intervals().len() == before.intervals().len(),
{
    before.lemma_intervals();
    after.lemma_intervals();
    lemma_extend(before.intervals(), after.intervals(), i, num);
}

/// Inserting an integer that touches no stored interval adds the interval
/// that holds it alone, after the `i` intervals that lie below it; the
/// others stay.
pub proof fn lemma_insert_alone(before: Diet, after: Diet, num: int, i: int)
    requires
        before.wf(),
        after.wf(),
        after@ == before@.insert(num),
        0 <= i <= before.intervals().len(),
        i == 0 || before.intervals()[i - 1].1 + 1 < num,
        i == before.intervals().len() || num + 1 < before.intervals()[i].0,
    ensures
        after.intervals() == before.intervals().take(i).push((num, num))
            + before.intervals().skip(i),
        after.intervals().len() == before.intervals().len() + 1,
{
    before.lemma_intervals();
    after.lemma_intervals();
    lemma_alone(before.intervals(), after.intervals(), i, num);
}

/// Removing an integer from the inside of a stored interval splits it: the
/// interval at `i` becomes two, one on either side of the integer, the
/// others stay, and the set is smaller by one member and larger by one
/// interval.
pub proof fn lemma_remove_splits(before: Diet, after: Diet, num: int, i: int)
    requires
        before.wf(),
        after.wf(),
        after@ == before@.remove(num),
        0 <= i < before.intervals().len(),
        before.intervals()[i].0 < num < before.intervals()[i].1,
    ensures
        after.intervals() == before.intervals().take(i).push(
            (before.intervals()[i].0, num - 1),
        ).push((num + 1, before.intervals()[i].1)) + before.intervals().skip(i + 1),
        after.intervals().len() == before.intervals().len() + 1,
        !after@.contains(num),
        after@.len() == before@.len() - 1,
{
    before.lemma_intervals();
    after.lemma_intervals();
    lemma_split(before.intervals(), after.intervals(), i, num);
    lemma_covered_at(before.intervals(), i, num);
}

/// Removing one end of a stored interval that holds more than one integer
/// shortens it by that end and does not split it; the others stay, and so
/// does their number.
pub proof fn lemma_remove_shrinks(before: Diet, after: Diet, num: int, i: int)
    requires
        before.wf(),
        after.wf(),
        after@ == before@.remove(num),
        0 <= i < before.intervals().len(),
        before.intervals()[i].0 < before.intervals()[i].1,
        num == before.intervals()[i].0 || num == before.intervals()[i].1,
    ensures
        num == before.intervals()[i].0 ==> after.intervals() == before.intervals().update(
            i,
            (num + 1, before.intervals()[i].1),
        ),
        num == before.intervals()[i].1 ==> after.intervals() == before.intervals().update(
            i,
            (before.intervals()[i].0, num - 1),
        ),
        after.intervals().len() == before.intervals().len(),
        after@.len() == before@.len() - 1,
{
    before.lemma_intervals();
    after.lemma_intervals();
    lemma_shrink(before.intervals(), after.intervals(), i, num);
    lemma_covered_at(before.intervals(), i, num);
}

/// Removing the one integer of a stored interval removes the interval; the
/// others stay.
pub proof fn lemma_remove_drops(before: Diet, after: Diet, num: int, i: int)
    requires
        before.wf(),
        after.wf(),
        after@ == before@.remove(num),
        0 <= i < before.intervals().len(),
        before.intervals()[i] == (num, num),
    ensures
        after.intervals() == before.intervals().remove(i),
        after.intervals().len() == before.intervals().len() - 1,
{
    before.lemma_intervals();
    after.lemma_intervals();
    lemma_drop(before.intervals(), after.intervals(), i, num);
}

/// One change to a set of integers.
pub enum Edit {
    Insert(int),
    Remove(int),
}

/// The members after one change: what `Diet::insert` and `Diet::remove` leave
/// of the members they found.
pub open spec fn apply(members: Set<int>, edit: Edit) -> Set<int> {
    match edit {
        Edit::Insert(num) => members.insert(num),
        Edit::Remove(num) => members.remove(num),
    }
}

/// The members after a history of changes to the empty set.
pub open spec fn replay(edits: Seq<Edit>) -> Set<int>
    decreases edits.len(),
{
    if edits.len() == 0 {
        Set::empty()
    } else {
        apply(replay(edits.drop_last()), edits.last())
    }
}

/// The change at `i` inserts `v`, and no later change removes it.
pub open spec fn inserted_for_good(edits: Seq<Edit>, i: int, v: int) -> bool {
    &&& 0 <= i < edits.len()
    &&& edits[i] == Edit::Insert(v)
    &&& forall|j: int| i < j < edits.len() ==> #[trigger] edits[j] != Edit::Remove(v)
}

/// After any history of insertions and removals, an integer is a member if
/// and only if it was inserted and not removed afterwards.
pub proof fn lemma_replay(edits: Seq<Edit>, v: int)
    ensures
        replay(edits).contains(v) <==> exists|i: int| inserted_for_good(edits, i, v),
    decreases edits.len(),
{
    if edits.len() > 0 {
        let prior = edits.drop_last();
        let last = edits.len() - 1;
        lemma_replay(prior, v);
        if replay(edits).contains(v) {
            if edits[last] == Edit::Insert(v) {
                assert(inserted_for_good(edits, last, v));
            } else {
                assert(replay(prior).contains(v));
                let i = choose|i: int| inserted_for_good(prior, i, v);
                assert forall|j: int| i < j < edits.len() implies #[trigger] edits[j]
                    != Edit::Remove(v) by {
                    if j < last {
                        assert(prior[j] == edits[j]);
                    }
                }
                assert(inserted_for_good(edits, i, v));
            }
        }
        if exists|i: int| inserted_for_good(edits, i, v) {
            let i = choose|i: int| inserted_for_good(edits, i, v);
            if i < last {
                assert forall|j: int| i < j < prior.len() implies #[trigger] prior[j]
                    != Edit::Remove(v) by {
                    assert(prior[j] == edits[j]);
                }
                assert(inserted_for_good(prior, i, v));
                assert(edits[last] != Edit::Remove(v));
            }
        }
    }
}

/// A run of sets that starts empty, each of which differs from the one
/// before by one change, ends with the members that replaying the changes
/// gives.
pub proof fn lemma_history(states: Seq<Diet>, edits: Seq<Edit>)
    requires
        states.len() == edits.len() + 1,
        states[0]@ == Set::<int>::empty(),
        forall|k: int|
            0 <= k < edits.len() ==> (#[trigger] states[k + 1])@ == apply(states[k]@, edits[k]),
    ensures
        states.last()@ == replay(edits),
    decreases edits.len(),
{
    if edits.len() > 0 {
        let last = edits.len() - 1;
        let fewer = states.drop_last();
        assert forall|k: int| 0 <= k < last implies (#[trigger] fewer[k + 1])@ == apply(
            fewer[k]@,
            edits.drop_last()[k],
        ) by {
            assert(fewer[k + 1] == states[k + 1]);
        }
        lemma_history(fewer, edits.drop_last());
        assert(states[last + 1]@ == apply(states[last]@, edits[last]));
    }
}

} // verus!
