//! Sequences of closed intervals and the sets they cover.

use vstd::prelude::*;

verus! {

/// The integers that lie in at least one interval of `s`.
pub open spec fn covered(s: Seq<(int, int)>) -> Set<int> {
    Set::new(|v: int| exists|i: int| 0 <= i < s.len() && (#[trigger] s[i]).0 <= v <= s[i].1)
}

/// No interval of `s` is empty, the intervals ascend, and between any two of
/// them at least one integer is missing: none overlaps or touches another.
pub open spec fn is_maximal(s: Seq<(int, int)>) -> bool {
    &&& forall|i: int| 0 <= i < s.len() ==> (#[trigger] s[i]).0 <= s[i].1
    &&& forall|i: int, j: int|
        0 <= i < j < s.len() ==> (#[trigger] s[i]).1 + 1 < (#[trigger] s[j]).0
}

/// `v` lies in the interval of `s` at index `i`.
pub open spec fn holds_at(s: Seq<(int, int)>, i: int, v: int) -> bool {
    0 <= i < s.len() && s[i].0 <= v <= s[i].1
}

/// An index whose interval holds `v` shows that `v` is covered.
pub proof fn lemma_covered_at(s: Seq<(int, int)>, i: int, v: int)
    requires
        holds_at(s, i, v),
    ensures
        covered(s).contains(v),
{
    assert(s[i].0 <= v <= s[i].1);
}

/// A covered integer lies in the interval at some index.
pub proof fn lemma_covered_index(s: Seq<(int, int)>, v: int) -> (i: int)
    requires
        covered(s).contains(v),
    ensures
        holds_at(s, i, v),
{
    choose|i: int| 0 <= i < s.len() && (#[trigger] s[i]).0 <= v <= s[i].1
}

/// Two sequences put end to end cover what either covers.
pub proof fn lemma_covered_concat(a: Seq<(int, int)>, b: Seq<(int, int)>)
    ensures
        covered(a + b) == covered(a).union(covered(b)),
{
    let c = a + b;
    assert forall|v: int| covered(c).contains(v) <==> covered(a).union(covered(b)).contains(
        v,
    ) by {
        if covered(c).contains(v) {
            let i = lemma_covered_index(c, v);
            if i < a.len() {
                lemma_covered_at(a, i, v);
            } else {
                lemma_covered_at(b, i - a.len(), v);
            }
        }
        if covered(a).contains(v) {
            let i = lemma_covered_index(a, v);
            lemma_covered_at(c, i, v);
        }
        if covered(b).contains(v) {
            let i = lemma_covered_index(b, v);
            lemma_covered_at(c, a.len() + i, v);
        }
    }
    assert(covered(c) =~= covered(a).union(covered(b)));
}

/// A single interval covers the integers between its bounds.
pub proof fn lemma_covered_one(lo: int, hi: int)
    ensures
        forall|v: int| covered(seq![(lo, hi)]).contains(v) <==> lo <= v <= hi,
{
    let s = seq![(lo, hi)];
    assert forall|v: int| covered(s).contains(v) <==> lo <= v <= hi by {
        if covered(s).contains(v) {
            let i = lemma_covered_index(s, v);
        }
        if lo <= v <= hi {
            lemma_covered_at(s, 0, v);
        }
    }
}

/// The empty sequence covers nothing.
pub proof fn lemma_covered_empty()
    ensures
        covered(Seq::<(int, int)>::empty()) == Set::<int>::empty(),
{
    let s = Seq::<(int, int)>::empty();
    assert forall|v: int| !covered(s).contains(v) by {
        if covered(s).contains(v) {
            let i = lemma_covered_index(s, v);
        }
    }
    assert(covered(s) =~= Set::<int>::empty());
}

/// Two maximal sequences, the first of which covers only integers that lie
/// below, and do not touch, those that the second covers, make a maximal
/// sequence when put end to end.
pub proof fn lemma_maximal_concat(a: Seq<(int, int)>, b: Seq<(int, int)>)
    requires
        is_maximal(a),
        is_maximal(b),
        forall|u: int, w: int|
            #[trigger] covered(a).contains(u) && #[trigger] covered(b).contains(w) ==> u + 1 < w,
    ensures
        is_maximal(a + b),
{
    let c = a + b;
    assert forall|i: int| 0 <= i < c.len() implies (#[trigger] c[i]).0 <= c[i].1 by {
        if i < a.len() {
            assert(c[i] == a[i]);
        } else {
            assert(c[i] == b[i - a.len()]);
        }
    }
    assert forall|i: int, j: int| 0 <= i < j < c.len() implies (#[trigger] c[i]).1 + 1 < (
    #[trigger] c[j]).0 by {
        if j < a.len() {
            assert(c[i] == a[i] && c[j] == a[j]);
        } else if i >= a.len() {
            assert(c[i] == b[i - a.len()] && c[j] == b[j - a.len()]);
        } else {
            assert(c[i] == a[i] && c[j] == b[j - a.len()]);
            lemma_covered_at(a, i, a[i].1);
            lemma_covered_at(b, j - a.len(), b[j - a.len()].0);
        }
    }
}

/// Without its first interval a maximal sequence is maximal still, and covers
/// what it covered above that interval.
pub proof fn lemma_maximal_tail(s: Seq<(int, int)>)
    requires
        is_maximal(s),
        s.len() > 0,
    ensures
        is_maximal(s.skip(1)),
        forall|v: int| covered(s.skip(1)).contains(v) <==> covered(s).contains(v) && s[0].1 < v,
{
    let t = s.skip(1);
    assert forall|i: int| 0 <= i < t.len() implies (#[trigger] t[i]).0 <= t[i].1 by {
        assert(t[i] == s[i + 1]);
    }
    assert forall|i: int, j: int| 0 <= i < j < t.len() implies (#[trigger] t[i]).1 + 1 < (
    #[trigger] t[j]).0 by {
        assert(t[i] == s[i + 1] && t[j] == s[j + 1]);
    }
    assert forall|v: int| covered(t).contains(v) <==> covered(s).contains(v) && s[0].1 < v by {
        if covered(t).contains(v) {
            let i = lemma_covered_index(t, v);
            assert(t[i] == s[i + 1]);
            lemma_covered_at(s, i + 1, v);
        }
        if covered(s).contains(v) && s[0].1 < v {
            let i = lemma_covered_index(s, v);
            assert(t[i - 1] == s[i]);
            lemma_covered_at(t, i - 1, v);
        }
    }
}

/// The least covered integer is the lower bound of the first interval.
proof fn lemma_first_is_least(s: Seq<(int, int)>, v: int)
    requires
        is_maximal(s),
        covered(s).contains(v),
    ensures
        s.len() > 0,
        s[0].0 <= v,
{
    let i = lemma_covered_index(s, v);
    if i > 0 {
        assert(s[0].1 + 1 < s[i].0);
    }
}

/// The first interval ends where the covered integers first break off.
proof fn lemma_first_ends(s: Seq<(int, int)>, v: int)
    requires
        is_maximal(s),
        s.len() > 0,
        s[0].0 <= v,
        forall|u: int| s[0].0 <= u <= v ==> #[trigger] covered(s).contains(u),
    ensures
        v <= s[0].1,
{
    if s[0].1 < v {
        let u = s[0].1 + 1;
        assert(covered(s).contains(u));
        let i = lemma_covered_index(s, u);
        if i > 0 {
            assert(s[0].1 + 1 < s[i].0);
        }
    }
}

/// A set of integers has one maximal sequence of intervals at most: two
/// maximal sequences that cover the same integers are the same sequence.
pub proof fn lemma_maximal_unique(s: Seq<(int, int)>, t: Seq<(int, int)>)
    requires
        is_maximal(s),
        is_maximal(t),
        covered(s) == covered(t),
    ensures
        s == t,
    decreases s.len(),
{
    if s.len() == 0 {
        if t.len() > 0 {
            lemma_covered_at(t, 0, t[0].0);
            let i = lemma_covered_index(s, t[0].0);
        }
        assert(s =~= t);
    } else {
        lemma_covered_at(s, 0, s[0].0);
        lemma_first_is_least(t, s[0].0);
        lemma_covered_at(t, 0, t[0].0);
        lemma_first_is_least(s, t[0].0);
        assert forall|u: int| t[0].0 <= u <= s[0].1 implies #[trigger] covered(t).contains(u) by {
            lemma_covered_at(s, 0, u);
        }
        lemma_first_ends(t, s[0].1);
        assert forall|u: int| s[0].0 <= u <= t[0].1 implies #[trigger] covered(s).contains(u) by {
            lemma_covered_at(t, 0, u);
        }
        lemma_first_ends(s, t[0].1);
        assert(s[0] == t[0]);
        lemma_maximal_tail(s);
        lemma_maximal_tail(t);
        assert forall|v: int| covered(s.skip(1)).contains(v) == covered(t.skip(1)).contains(v) by {
            assert(covered(s.skip(1)).contains(v) == (covered(s).contains(v) && s[0].1 < v));
            assert(covered(t.skip(1)).contains(v) == (covered(t).contains(v) && t[0].1 < v));
        }
        assert(covered(s.skip(1)) =~= covered(t.skip(1)));
        lemma_maximal_unique(s.skip(1), t.skip(1));
        assert forall|i: int| 0 <= i < s.len() implies s[i] == t[i] by {
            if i > 0 {
                assert(s.skip(1)[i - 1] == s[i]);
                assert(t.skip(1)[i - 1] == t[i]);
            }
        }
        assert(s.len() == s.skip(1).len() + 1);
        assert(t.len() == t.skip(1).len() + 1);
        assert(s =~= t);
    }
}

/// An integer that lies between two neighbouring intervals of a maximal
/// sequence is not covered.
pub proof fn lemma_between(s: Seq<(int, int)>, i: int, num: int)
    requires
        is_maximal(s),
        0 <= i,
        i + 1 < s.len(),
        s[i].1 < num < s[i + 1].0,
    ensures
        !covered(s).contains(num),
{
    if covered(s).contains(num) {
        let k = lemma_covered_index(s, num);
        if k < i {
            assert(s[k].1 + 1 < s[i].0);
        } else if k > i + 1 {
            assert(s[i + 1].1 + 1 < s[k].0);
        }
    }
}

/// Where `num` is all that parts the interval at `i` from the next one, the
/// maximal sequence for the same integers with `num` added has the two fused
/// into one interval, and every other interval as it was.
pub proof fn lemma_fuse(s: Seq<(int, int)>, t: Seq<(int, int)>, i: int, num: int)
    requires
        is_maximal(s),
        is_maximal(t),
        covered(t) == covered(s).insert(num),
        0 <= i,
        i + 1 < s.len(),
        s[i].1 + 1 == num,
        num + 1 == s[i + 1].0,
    ensures
        t == s.take(i).push((s[i].0, s[i + 1].1)) + s.skip(i + 2),
        t.len() == s.len() - 1,
{
    let c = s.take(i).push((s[i].0, s[i + 1].1)) + s.skip(i + 2);
    assert(c.len() == s.len() - 1);
    assert forall|k: int| 0 <= k < c.len() implies #[trigger] c[k] == (if k < i {
        s[k]
    } else if k == i {
        (s[i].0, s[i + 1].1)
    } else {
        s[k + 1]
    }) by {}
    assert(is_maximal(c));
    assert forall|v: int| covered(c).contains(v) <==> covered(s).insert(num).contains(v) by {
        if covered(c).contains(v) {
            let k = lemma_covered_index(c, v);
            if k < i {
                lemma_covered_at(s, k, v);
            } else if k > i {
                lemma_covered_at(s, k + 1, v);
            } else if v <= s[i].1 {
                lemma_covered_at(s, i, v);
            } else if v >= s[i + 1].0 {
                lemma_covered_at(s, i + 1, v);
            }
        }
        if v == num {
            lemma_covered_at(c, i, v);
        }
        if covered(s).contains(v) {
            let k = lemma_covered_index(s, v);
            if k < i {
                lemma_covered_at(c, k, v);
            } else if k > i + 1 {
                lemma_covered_at(c, k - 1, v);
            } else {
                lemma_covered_at(c, i, v);
            }
        }
    }
    assert(covered(c) =~= covered(t));
    lemma_maximal_unique(t, c);
}

/// Where `num` lies strictly inside the interval at `i`, the maximal sequence
/// for the same integers without `num` has that interval in two parts, one
/// below `num` and one above, and every other interval as it was.
pub proof fn lemma_split(s: Seq<(int, int)>, t: Seq<(int, int)>, i: int, num: int)
    requires
        is_maximal(s),
        is_maximal(t),
        covered(t) == covered(s).remove(num),
        0 <= i < s.len(),
        s[i].0 < num < s[i].1,
    ensures
        t == s.take(i).push((s[i].0, num - 1)).push((num + 1, s[i].1)) + s.skip(i + 1),
        t.len() == s.len() + 1,
{
    let c = s.take(i).push((s[i].0, num - 1)).push((num + 1, s[i].1)) + s.skip(i + 1);
    assert(c.len() == s.len() + 1);
    assert forall|k: int| 0 <= k < c.len() implies #[trigger] c[k] == (if k < i {
        s[k]
    } else if k == i {
        (s[i].0, num - 1)
    } else if k == i + 1 {
        (num + 1, s[i].1)
    } else {
        s[k - 1]
    }) by {}
    assert(is_maximal(c)) by {
        assert forall|k: int, l: int| 0 <= k < l < c.len() implies (#[trigger] c[k]).1 + 1 < (
        #[trigger] c[l]).0 by {
            let sk = if k <= i { k } else { k - 1 };
            let sl = if l <= i { l } else { l - 1 };
            assert(s[sk].0 <= s[sk].1 && s[sl].0 <= s[sl].1);
            if sk < sl {
                assert(s[sk].1 + 1 < s[sl].0);
            }
        }
    }
    assert forall|v: int| covered(c).contains(v) <==> covered(s).remove(num).contains(v) by {
        if covered(c).contains(v) {
            let k = lemma_covered_index(c, v);
            if k < i {
                lemma_covered_at(s, k, v);
                assert(s[k].1 + 1 < s[i].0);
            } else if k > i + 1 {
                lemma_covered_at(s, k - 1, v);
                assert(s[i].1 + 1 < s[k - 1].0);
            } else {
                lemma_covered_at(s, i, v);
            }
        }
        if v != num && covered(s).contains(v) {
            let k = lemma_covered_index(s, v);
            if k < i {
                lemma_covered_at(c, k, v);
            } else if k > i {
                lemma_covered_at(c, k + 1, v);
            } else if v < num {
                lemma_covered_at(c, i, v);
            } else {
                lemma_covered_at(c, i + 1, v);
            }
        }
    }
    assert(covered(c) =~= covered(t));
    lemma_maximal_unique(t, c);
}

/// Where `num` is one bound of the interval at `i` and not the other, the
/// maximal sequence for the same integers without `num` has that interval
/// shorter by `num`, and every other interval as it was.
pub proof fn lemma_shrink(s: Seq<(int, int)>, t: Seq<(int, int)>, i: int, num: int)
    requires
        is_maximal(s),
        is_maximal(t),
        covered(t) == covered(s).remove(num),
        0 <= i < s.len(),
        s[i].0 < s[i].1,
        num == s[i].0 || num == s[i].1,
    ensures
        num == s[i].0 ==> t == s.update(i, (num + 1, s[i].1)),
        num == s[i].1 ==> t == s.update(i, (s[i].0, num - 1)),
        t.len() == s.len(),
{
    let c = if num == s[i].0 {
        s.update(i, (num + 1, s[i].1))
    } else {
        s.update(i, (s[i].0, num - 1))
    };
    assert(is_maximal(c)) by {
        assert forall|k: int, l: int| 0 <= k < l < c.len() implies (#[trigger] c[k]).1 + 1 < (
        #[trigger] c[l]).0 by {
            assert(s[k].1 + 1 < s[l].0);
        }
    }
    assert forall|v: int| covered(c).contains(v) <==> covered(s).remove(num).contains(v) by {
        if covered(c).contains(v) {
            let k = lemma_covered_index(c, v);
            lemma_covered_at(s, k, v);
            if k < i {
                assert(s[k].1 + 1 < s[i].0);
            } else if k > i {
                assert(s[i].1 + 1 < s[k].0);
            }
        }
        if v != num && covered(s).contains(v) {
            let k = lemma_covered_index(s, v);
            lemma_covered_at(c, k, v);
        }
    }
    assert(covered(c) =~= covered(t));
    lemma_maximal_unique(t, c);
}

/// Where `num` touches the interval at `i` on one side and no other interval,
/// the maximal sequence for the same integers with `num` added has that
/// interval longer by `num`, and every other interval as it was.
pub proof fn lemma_extend(s: Seq<(int, int)>, t: Seq<(int, int)>, i: int, num: int)
    requires
        is_maximal(s),
        is_maximal(t),
        covered(t) == covered(s).insert(num),
        0 <= i < s.len(),
        num + 1 == s[i].0 || s[i].1 + 1 == num,
        num + 1 == s[i].0 ==> i == 0 || s[i - 1].1 + 1 < num,
        s[i].1 + 1 == num ==> i + 1 == s.len() || num + 1 < s[i + 1].0,
    ensures
        num + 1 == s[i].0 ==> t == s.update(i, (num, s[i].1)),
        s[i].1 + 1 == num ==> t == s.update(i, (s[i].0, num)),
        t.len() == s.len(),
{
    let c = if num + 1 == s[i].0 {
        s.update(i, (num, s[i].1))
    } else {
        s.update(i, (s[i].0, num))
    };
    assert(is_maximal(c)) by {
        assert forall|k: int, l: int| 0 <= k < l < c.len() implies (#[trigger] c[k]).1 + 1 < (
        #[trigger] c[l]).0 by {
            assert(s[k].1 + 1 < s[l].0);
            assert(s[k].0 <= s[k].1 && s[l].0 <= s[l].1);
            if num + 1 == s[i].0 && l == i && k < i - 1 {
                assert(s[k].1 + 1 < s[i - 1].0);
            }
            if s[i].1 + 1 == num && k == i && l > i + 1 {
                assert(s[i + 1].1 + 1 < s[l].0);
            }
        }
    }
    assert forall|v: int| covered(c).contains(v) <==> covered(s).insert(num).contains(v) by {
        if covered(c).contains(v) {
            let k = lemma_covered_index(c, v);
            if v != num {
                lemma_covered_at(s, k, v);
            }
        }
        if v == num {
            lemma_covered_at(c, i, v);
        }
        if covered(s).contains(v) {
            let k = lemma_covered_index(s, v);
            lemma_covered_at(c, k, v);
        }
    }
    assert(covered(c) =~= covered(t));
    lemma_maximal_unique(t, c);
}

/// Where `num` touches no interval, and `i` intervals lie below it, the
/// maximal sequence for the same integers with `num` added has the interval
/// of `num` alone at `i`, and every other interval as it was.
pub proof fn lemma_alone(s: Seq<(int, int)>, t: Seq<(int, int)>, i: int, num: int)
    requires
        is_maximal(s),
        is_maximal(t),
        covered(t) == covered(s).insert(num),
        0 <= i <= s.len(),
        i == 0 || s[i - 1].1 + 1 < num,
        i == s.len() || num + 1 < s[i].0,
    ensures
        t == s.take(i).push((num, num)) + s.skip(i),
        t.len() == s.len() + 1,
{
    let c = s.take(i).push((num, num)) + s.skip(i);
    assert(c.len() == s.len() + 1);
    assert forall|k: int| 0 <= k < c.len() implies #[trigger] c[k] == (if k < i {
        s[k]
    } else if k == i {
        (num, num)
    } else {
        s[k - 1]
    }) by {}
    assert(is_maximal(c)) by {
        assert forall|k: int, l: int| 0 <= k < l < c.len() implies (#[trigger] c[k]).1 + 1 < (
        #[trigger] c[l]).0 by {
            if l == i {
                assert(s[k].0 <= s[k].1);
                if k < i - 1 {
                    assert(s[k].1 + 1 < s[i - 1].0);
                }
                assert(s[i - 1].0 <= s[i - 1].1);
            } else if k == i {
                assert(s[l - 1].0 <= s[l - 1].1);
                if l - 1 > i {
                    assert(s[i].1 + 1 < s[l - 1].0);
                }
                assert(s[i].0 <= s[i].1);
            } else {
                let sk = if k < i { k } else { k - 1 };
                let sl = if l < i { l } else { l - 1 };
                assert(s[sk].1 + 1 < s[sl].0);
            }
        }
    }
    assert forall|v: int| covered(c).contains(v) <==> covered(s).insert(num).contains(v) by {
        if covered(c).contains(v) {
            let k = lemma_covered_index(c, v);
            if k < i {
                lemma_covered_at(s, k, v);
            } else if k > i {
                lemma_covered_at(s, k - 1, v);
            }
        }
        if v == num {
            lemma_covered_at(c, i, v);
        }
        if covered(s).contains(v) {
            let k = lemma_covered_index(s, v);
            if k < i {
                lemma_covered_at(c, k, v);
            } else {
                lemma_covered_at(c, k + 1, v);
            }
        }
    }
    assert(covered(c) =~= covered(t));
    lemma_maximal_unique(t, c);
}

/// Where `num` is all that the interval at `i` holds, the maximal sequence
/// for the same integers without `num` lacks that interval, and has every
/// other interval as it was.
pub proof fn lemma_drop(s: Seq<(int, int)>, t: Seq<(int, int)>, i: int, num: int)
    requires
        is_maximal(s),
        is_maximal(t),
        covered(t) == covered(s).remove(num),
        0 <= i < s.len(),
        s[i] == (num, num),
    ensures
        t == s.remove(i),
        t.len() == s.len() - 1,
{
    let c = s.remove(i);
    assert forall|k: int| 0 <= k < c.len() implies #[trigger] c[k] == (if k < i {
        s[k]
    } else {
        s[k + 1]
    }) by {}
    assert(is_maximal(c)) by {
        assert forall|k: int, l: int| 0 <= k < l < c.len() implies (#[trigger] c[k]).1 + 1 < (
        #[trigger] c[l]).0 by {
            let sk = if k < i { k } else { k + 1 };
            let sl = if l < i { l } else { l + 1 };
            assert(s[sk].1 + 1 < s[sl].0);
        }
    }
    assert forall|v: int| covered(c).contains(v) <==> covered(s).remove(num).contains(v) by {
        if covered(c).contains(v) {
            let k = lemma_covered_index(c, v);
            if k < i {
                lemma_covered_at(s, k, v);
                assert(s[k].1 + 1 < s[i].0);
            } else {
                lemma_covered_at(s, k + 1, v);
                assert(s[i].1 + 1 < s[k + 1].0);
            }
        }
        if v != num && covered(s).contains(v) {
            let k = lemma_covered_index(s, v);
            if k < i {
                lemma_covered_at(c, k, v);
            } else {
                lemma_covered_at(c, k - 1, v);
            }
        }
    }
    assert(covered(c) =~= covered(t));
    lemma_maximal_unique(t, c);
}

} // verus!
