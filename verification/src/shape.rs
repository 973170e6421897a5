//! Facts about stored trees: how forests join, which elements are the children
//! of which, and where an element's parent stands.

use crate::element::{
    arity_ok, children_from, children_of, enclosing, is_forest, is_fresh, is_tree, is_wired,
    parent_index, same_shape, same_spans_and_kinds, spacing_ok, ElementKind, Entry,
};
use vstd::prelude::*;

verus! {

/// The sequences of `parts`, one after the other.
pub open spec fn joined(parts: Seq<Seq<Entry>>) -> Seq<Entry>
    decreases parts.len(),
{
    if parts.len() == 0 {
        Seq::empty()
    } else {
        joined(parts.drop_last()) + parts.last()
    }
}

/// The sequences up to and including the one at `k`, joined, are those
/// before it, joined, followed by it.
pub proof fn lemma_joined_take(parts: Seq<Seq<Entry>>, k: int)
    requires
        0 <= k < parts.len(),
    ensures
        joined(parts.take(k + 1)) == joined(parts.take(k)) + parts[k],
{
    let upto = parts.take(k + 1);
    assert(upto.drop_last() =~= parts.take(k));
    assert(upto.last() == parts[k]);
}

/// The first `k` sequences, joined, are the beginning of all of them, joined.
pub proof fn lemma_joined_prefix(parts: Seq<Seq<Entry>>, k: int)
    requires
        0 <= k <= parts.len(),
    ensures
        joined(parts.take(k)).len() <= joined(parts).len(),
        joined(parts).take(joined(parts.take(k)).len() as int) == joined(parts.take(k)),
    decreases parts.len() - k,
{
    if k == parts.len() {
        assert(parts.take(k) =~= parts);
        assert(joined(parts).take(joined(parts).len() as int) =~= joined(parts));
    } else {
        lemma_joined_take(parts, k);
        lemma_joined_prefix(parts, k + 1);
        let shorter = joined(parts.take(k));
        let longer = joined(parts.take(k + 1));
        assert(longer.take(shorter.len() as int) =~= shorter);
        assert(joined(parts).take(shorter.len() as int) =~= joined(parts).take(
            longer.len() as int,
        ).take(shorter.len() as int));
    }
}

/// Two forests, one after the other, are a forest.
pub proof fn lemma_forest_append(a: Seq<Entry>, b: Seq<Entry>)
    requires
        is_forest(a),
        is_forest(b),
    ensures
        is_forest(a + b),
{
    let c = a + b;
    assert forall|i: int| 0 <= i < c.len() implies 1 <= (#[trigger] c[i]).span && i + c[i].span
        <= c.len() by {
        if i < a.len() {
            assert(c[i] == a[i]);
        } else {
            assert(c[i] == b[i - a.len()]);
        }
    }
    assert forall|i: int, j: int|
        0 <= i < j < c.len() && j < i + (#[trigger] c[i]).span implies j + (#[trigger] c[j]).span
        <= i + c[i].span by {
        if i < a.len() {
            assert(c[i] == a[i]);
            assert(c[j] == a[j]);
        } else {
            assert(c[i] == b[i - a.len()]);
            assert(c[j] == b[j - a.len()]);
        }
    }
    assert forall|i: int| 0 <= i < c.len() implies #[trigger] arity_ok(c, i) by {
        if i < a.len() {
            assert(c[i] == a[i]);
            assert(arity_ok(a, i));
            if i + 1 < a.len() {
                assert(c[i + 1] == a[i + 1]);
            }
        } else {
            assert(c[i] == b[i - a.len()]);
            assert(arity_ok(b, i - a.len()));
            if i + 1 < c.len() {
                assert(c[i + 1] == b[i + 1 - a.len()]);
            }
        }
    }
}

/// Trees, one after the other, are a forest.
pub proof fn lemma_joined_forest(parts: Seq<Seq<Entry>>)
    requires
        forall|k: int| 0 <= k < parts.len() ==> is_tree(#[trigger] parts[k]),
    ensures
        is_forest(joined(parts)),
    decreases parts.len(),
{
    if parts.len() > 0 {
        lemma_joined_forest(parts.drop_last());
        assert(is_tree(parts[parts.len() - 1]));
        lemma_forest_append(joined(parts.drop_last()), parts.last());
    }
}

/// Fresh sequences, one after the other, are fresh.
pub proof fn lemma_joined_fresh(parts: Seq<Seq<Entry>>)
    requires
        forall|k: int| 0 <= k < parts.len() ==> is_fresh(#[trigger] parts[k]),
    ensures
        is_fresh(joined(parts)),
    decreases parts.len(),
{
    if parts.len() > 0 {
        lemma_joined_fresh(parts.drop_last());
        assert(is_fresh(parts[parts.len() - 1]));
    }
}

/// The number of children that `kind` admits, said of the forest that is to
/// stand under an element of that kind.
pub open spec fn admits(kind: ElementKind, under: Seq<Entry>) -> bool {
    match kind {
        ElementKind::SizedBox { .. } => under.len() == 0,
        ElementKind::View { .. } => under.len() == 0 || is_tree(under),
        ElementKind::Frame { .. } => is_tree(under),
        ElementKind::Stack { .. } => true,
    }
}

/// An element over a forest that its kind admits is a tree.
pub proof fn lemma_tree_over_forest(head: Entry, under: Seq<Entry>)
    requires
        is_forest(under),
        head.span == 1 + under.len(),
        admits(head.kind, under),
    ensures
        is_tree(seq![head] + under),
{
    let t = seq![head] + under;
    assert(t[0] == head);
    assert forall|i: int| 0 <= i < t.len() implies 1 <= (#[trigger] t[i]).span && i + t[i].span
        <= t.len() by {
        if i > 0 {
            assert(t[i] == under[i - 1]);
        }
    }
    assert forall|i: int, j: int|
        0 <= i < j < t.len() && j < i + (#[trigger] t[i]).span implies j + (#[trigger] t[j]).span
        <= i + t[i].span by {
        assert(t[j] == under[j - 1]);
        if i > 0 {
            assert(t[i] == under[i - 1]);
        }
    }
    assert forall|i: int| 0 <= i < t.len() implies #[trigger] arity_ok(t, i) by {
        if i > 0 {
            assert(t[i] == under[i - 1]);
            assert(arity_ok(under, i - 1));
            if i + 1 < t.len() {
                assert(t[i + 1] == under[i]);
            }
        } else if under.len() > 0 {
            assert(t[1] == under[0]);
        }
    }
}

/// The indices of `v`, as mathematical integers.
pub open spec fn as_ints(v: Seq<usize>) -> Seq<int> {
    v.map_values(|c: usize| c as int)
}

/// The children of one element stand one after the other: the first right
/// after the element, each next one right after the subtree of the one
/// before, and the subtree of the last ends where the element's own ends.
/// Said of the children from the child at `j` on.
pub proof fn lemma_children_from(s: Seq<Entry>, i: int, j: int)
    requires
        is_forest(s),
        0 <= i < s.len(),
        i < j <= i + s[i].span,
    ensures
        ({
            let end = i + s[i].span;
            let cs = children_from(s, j, end);
            &&& j == end ==> cs.len() == 0
            &&& j < end ==> cs.len() >= 1 && cs[0] == j
            &&& forall|k: int| 0 <= k < cs.len() ==> j <= #[trigger] cs[k] < end
            &&& forall|k: int|
                0 <= k < cs.len() - 1 ==> #[trigger] cs[k + 1] == cs[k] + s[cs[k]].span
            &&& cs.len() >= 1 ==> cs.last() + s[cs.last()].span == end
        }),
    decreases i + s[i].span - j,
{
    let end = i + s[i].span;
    let cs = children_from(s, j, end);
    if j < end {
        assert(j + s[j].span <= end);
        let next = j + s[j].span;
        let rest = children_from(s, next, end);
        lemma_children_from(s, i, next);
        assert(cs == seq![j] + rest);
        assert forall|k: int| 0 <= k < cs.len() implies j <= #[trigger] cs[k] < end by {
            if k > 0 {
                assert(cs[k] == rest[k - 1]);
            }
        }
        assert forall|k: int| 0 <= k < cs.len() - 1 implies #[trigger] cs[k + 1] == cs[k]
            + s[cs[k]].span by {
            assert(cs[k + 1] == rest[k]);
            if k > 0 {
                assert(cs[k] == rest[k - 1]);
                assert(rest[(k - 1) + 1] == rest[k - 1] + s[rest[k - 1]].span);
            }
        }
        if rest.len() >= 1 {
            assert(cs.last() == rest.last());
        }
    }
}

/// The children of the element at `i`: see [`lemma_children_from`].
pub proof fn lemma_children_of(s: Seq<Entry>, i: int)
    requires
        is_forest(s),
        0 <= i < s.len(),
    ensures
        ({
            let cs = children_of(s, i);
            &&& s[i].span == 1 <==> cs.len() == 0
            &&& cs.len() >= 1 ==> cs[0] == i + 1
            &&& forall|k: int| 0 <= k < cs.len() ==> i < #[trigger] cs[k] < i + s[i].span
            &&& forall|k: int|
                0 <= k < cs.len() - 1 ==> #[trigger] cs[k + 1] == cs[k] + s[cs[k]].span
            &&& cs.len() >= 1 ==> cs.last() + s[cs.last()].span == i + s[i].span
        }),
{
    lemma_children_from(s, i, i + 1);
}

/// The subtree of a child is smaller than that of its parent.
pub proof fn lemma_child_span(s: Seq<Entry>, i: int, k: int)
    requires
        is_forest(s),
        0 <= i < s.len(),
        0 <= k < children_of(s, i).len(),
    ensures
        i < children_of(s, i)[k] < s.len(),
        children_of(s, i)[k] + s[children_of(s, i)[k]].span <= i + s[i].span,
        s[children_of(s, i)[k]].span < s[i].span,
{
    lemma_children_of(s, i);
    let c = children_of(s, i)[k];
    assert(i < c < i + s[i].span);
}

/// Which children an element has depends on the spans alone.
pub proof fn lemma_children_from_spans(a: Seq<Entry>, b: Seq<Entry>, j: int, end: int)
    requires
        a.len() == b.len(),
        forall|i: int| 0 <= i < a.len() ==> (#[trigger] a[i]).span == b[i].span,
    ensures
        children_from(a, j, end) == children_from(b, j, end),
    decreases end - j,
{
    if 0 <= j < end && j < a.len() && 1 <= a[j].span <= end - j {
        assert(a[j].span == b[j].span);
        lemma_children_from_spans(a, b, j + a[j].span, end);
    } else if 0 <= j < a.len() {
        assert(a[j].span == b[j].span);
    }
}

/// Where the parent of an element stands depends on the spans alone.
pub proof fn lemma_enclosing_spans(a: Seq<Entry>, b: Seq<Entry>, j: int, i: int)
    requires
        a.len() == b.len(),
        forall|i: int| 0 <= i < a.len() ==> (#[trigger] a[i]).span == b[i].span,
    ensures
        enclosing(a, j, i) == enclosing(b, j, i),
    decreases i + 1,
{
    if 0 <= i < a.len() {
        assert(a[i].span == b[i].span);
        lemma_enclosing_spans(a, b, j, i - 1);
    }
}

/// Scanning back from `from` for the element that holds `j` finds `i`, when
/// `i` holds `j` and no subtree that starts after `i` reaches `j`.
pub proof fn lemma_enclosing_found(s: Seq<Entry>, j: int, i: int, from: int)
    requires
        0 <= i <= from < s.len(),
        j < i + s[i].span,
        forall|m: int| i < m <= from ==> m + (#[trigger] s[m]).span <= j,
    ensures
        enclosing(s, j, from) == i,
    decreases from - i,
{
    if from > i {
        assert(from + s[from].span <= j);
        lemma_enclosing_found(s, j, i, from - 1);
    }
}

/// What scanning back from `from` for the element that holds `j` finds: the
/// nearest one, or none.
pub proof fn lemma_enclosing_nearest(s: Seq<Entry>, j: int, from: int)
    requires
        -1 <= from < s.len(),
    ensures
        ({
            let p = enclosing(s, j, from);
            &&& -1 <= p <= from
            &&& p >= 0 ==> j < p + s[p].span
            &&& forall|m: int| p < m <= from && 0 <= m ==> m + (#[trigger] s[m]).span <= j
        }),
    decreases from + 1,
{
    if from >= 0 && !(j < from + s[from].span) {
        lemma_enclosing_nearest(s, j, from - 1);
    }
}

/// Every child has the element that lists it as its parent.
pub proof fn lemma_parent_of_child(s: Seq<Entry>, i: int, k: int)
    requires
        is_forest(s),
        0 <= i < s.len(),
        0 <= k < children_of(s, i).len(),
    ensures
        parent_index(s, children_of(s, i)[k]) == i,
{
    let cs = children_of(s, i);
    let c = cs[k];
    lemma_children_of(s, i);
    lemma_closed_before(s, i, k);
    lemma_enclosing_found(s, c, i, c - 1);
}

/// No subtree that starts between an element and one of its children reaches
/// that child.
pub proof fn lemma_closed_before(s: Seq<Entry>, i: int, k: int)
    requires
        is_forest(s),
        0 <= i < s.len(),
        0 <= k < children_of(s, i).len(),
    ensures
        forall|m: int|
            i < m < children_of(s, i)[k] ==> m + (#[trigger] s[m]).span <= children_of(s, i)[k],
    decreases k,
{
    let cs = children_of(s, i);
    lemma_children_of(s, i);
    if k > 0 {
        lemma_closed_before(s, i, k - 1);
        let b = cs[k - 1];
        assert(cs[(k - 1) + 1] == b + s[b].span);
        assert forall|m: int| i < m < cs[k] implies m + (#[trigger] s[m]).span <= cs[k] by {
            if m < b {
            } else if m == b {
            } else {
                assert(b < m < b + s[b].span);
            }
        }
    }
}

/// Every element but the first of a tree is listed as a child by its parent.
pub proof fn lemma_child_of_parent(s: Seq<Entry>, j: int) -> (k: int)
    requires
        is_tree(s),
        1 <= j < s.len(),
    ensures
        0 <= parent_index(s, j) < j,
        0 <= k < children_of(s, parent_index(s, j)).len(),
        children_of(s, parent_index(s, j))[k] == j,
{
    lemma_enclosing_nearest(s, j, j - 1);
    let p = enclosing(s, j, j - 1);
    if p < 0 {
        assert(0 + s[0].span <= j);
    }
    lemma_sibling_reaches(s, p, p + 1, j)
}

/// The first element of a tree has no parent.
pub proof fn lemma_root_parent(s: Seq<Entry>)
    ensures
        parent_index(s, 0) == -1,
{
}

/// Walking the children of `i` from the child at `q` on comes to `j`, when `j`
/// is in the subtree of `i` at or after `q` and no subtree between reaches it.
pub proof fn lemma_sibling_reaches(s: Seq<Entry>, i: int, q: int, j: int) -> (k: int)
    requires
        is_forest(s),
        0 <= i < s.len(),
        i < q <= j < i + s[i].span,
        forall|m: int| i < m < j ==> m + (#[trigger] s[m]).span <= j,
    ensures
        0 <= k < children_from(s, q, i + s[i].span).len(),
        children_from(s, q, i + s[i].span)[k] == j,
        q == i + 1 ==> 0 <= k < children_of(s, i).len() && children_of(s, i)[k] == j,
    decreases j - q,
{
    let end = i + s[i].span;
    assert(q + s[q].span <= end);
    let rest = children_from(s, q + s[q].span, end);
    assert(children_from(s, q, end) == seq![q] + rest);
    if q == j {
        0
    } else {
        assert(q + s[q].span <= j);
        let k = lemma_sibling_reaches(s, i, q + s[q].span, j);
        assert(children_from(s, q, end)[k + 1] == rest[k]);
        k + 1
    }
}

/// The integers from `from` up to, not including, `to`.
pub open spec fn interval(from: int, to: int) -> Seq<int> {
    Seq::new((to - from) as nat, |k: int| from + k)
}

/// The pre-order of the subtree of the element at `i`: the element itself,
/// then the pre-order of the subtree of each of its children, in declared
/// order.
pub open spec fn preorder(s: Seq<Entry>, i: int) -> Seq<int>
    decreases s[i].span, 0int,
{
    if 0 <= i < s.len() && s[i].span >= 1 {
        seq![i] + preorder_from(s, i + 1, i + s[i].span)
    } else {
        Seq::empty()
    }
}

/// The pre-orders of the subtrees of the children from the child at `j` on,
/// of the element whose subtree ends at `end`.
pub open spec fn preorder_from(s: Seq<Entry>, j: int, end: int) -> Seq<int>
    decreases end - j, 1int,
{
    if 0 <= j < end && j < s.len() && 1 <= s[j].span <= end - j {
        preorder(s, j) + preorder_from(s, j + s[j].span, end)
    } else {
        Seq::empty()
    }
}

/// The pre-order of a subtree is the run of indices that the subtree
/// occupies.
pub proof fn lemma_preorder_is_interval(s: Seq<Entry>, i: int)
    requires
        is_forest(s),
        0 <= i < s.len(),
    ensures
        preorder(s, i) == interval(i, i + s[i].span),
    decreases s[i].span, 0int,
{
    lemma_preorder_from_is_interval(s, i, i + 1);
    assert(seq![i] + interval(i + 1, i + s[i].span) =~= interval(i, i + s[i].span));
}

/// The pre-orders of the later children of the element at `i`, from the
/// child at `j` on, are the run of indices from `j` to the end of the
/// subtree of `i`.
pub proof fn lemma_preorder_from_is_interval(s: Seq<Entry>, i: int, j: int)
    requires
        is_forest(s),
        0 <= i < s.len(),
        i < j <= i + s[i].span,
    ensures
        preorder_from(s, j, i + s[i].span) == interval(j, i + s[i].span),
    decreases i + s[i].span - j, 1int,
{
    let end = i + s[i].span;
    if j < end {
        assert(j + s[j].span <= end);
        lemma_preorder_is_interval(s, j);
        lemma_preorder_from_is_interval(s, i, j + s[j].span);
        assert(interval(j, j + s[j].span) + interval(j + s[j].span, end) =~= interval(j, end));
    } else {
        assert(interval(j, end) =~= Seq::<int>::empty());
    }
}

/// A sequence with the kinds and spans of a forest is a forest.
pub proof fn lemma_same_forest(a: Seq<Entry>, b: Seq<Entry>)
    requires
        is_forest(a),
        same_spans_and_kinds(b, a),
    ensures
        is_forest(b),
{
    assert forall|i: int| 0 <= i < b.len() implies 1 <= (#[trigger] b[i]).span && i + b[i].span
        <= b.len() by {
        assert(b[i].span == a[i].span);
    }
    assert forall|i: int, j: int|
        0 <= i < j < b.len() && j < i + (#[trigger] b[i]).span implies j + (#[trigger] b[j]).span
        <= i + b[i].span by {
        assert(b[i].span == a[i].span);
        assert(b[j].span == a[j].span);
    }
    assert forall|i: int| 0 <= i < b.len() implies #[trigger] arity_ok(b, i) by {
        assert(arity_ok(a, i));
        assert(b[i].kind == a[i].kind && b[i].span == a[i].span);
        if i + 1 < b.len() {
            assert(b[i + 1].span == a[i + 1].span);
        }
    }
}

/// A sequence with the kinds and spans of a tree is a tree.
pub proof fn lemma_same_tree(a: Seq<Entry>, b: Seq<Entry>)
    requires
        is_tree(a),
        same_spans_and_kinds(b, a),
    ensures
        is_tree(b),
{
    lemma_same_forest(a, b);
    assert(b[0].span == a[0].span);
}

/// A tree keeps being one, with every stack obeying the spacing rule, while
/// only parents and solver nodes change.
pub proof fn lemma_shape_kept(a: Seq<Entry>, b: Seq<Entry>)
    requires
        is_tree(a),
        same_shape(b, a),
    ensures
        is_tree(b),
        same_spans_and_kinds(b, a),
        spacing_ok(a) ==> spacing_ok(b),
{
    assert(same_spans_and_kinds(b, a)) by {
        assert forall|i: int| 0 <= i < b.len() implies (#[trigger] b[i]).kind == a[i].kind
            && b[i].span == a[i].span by {}
    }
    lemma_same_tree(a, b);
    if spacing_ok(a) {
        assert forall|i: int| 0 <= i < b.len() implies (#[trigger] b[i]).kind.spacing_allowed() by {
            assert(a[i].kind.spacing_allowed());
            assert(b[i].kind == a[i].kind);
        }
    }
}

/// A wired tree stays wired while only the solver nodes change.
pub proof fn lemma_wired_kept(a: Seq<Entry>, b: Seq<Entry>)
    requires
        is_wired(a),
        same_shape(b, a),
    ensures
        is_wired(b),
{
    assert forall|j: int| 0 <= j < b.len() implies (#[trigger] b[j]).records_parent(
        parent_index(b, j),
    ) by {
        assert(a[j].records_parent(parent_index(a, j)));
        assert(b[j].parent == a[j].parent);
        assert forall|i: int| 0 <= i < b.len() implies (#[trigger] b[i]).span == a[i].span by {}
        lemma_enclosing_spans(b, a, j, j - 1);
    }
}

/// The children of an element stand in increasing order.
pub proof fn lemma_children_increase(s: Seq<Entry>, i: int)
    requires
        is_forest(s),
        0 <= i < s.len(),
    ensures
        forall|a: int, b: int|
            0 <= a < b < children_of(s, i).len() ==> #[trigger] children_of(s, i)[a]
                < #[trigger] children_of(s, i)[b],
{
    let cs = children_of(s, i);
    lemma_children_of(s, i);
    assert forall|a: int, b: int| 0 <= a < b < cs.len() implies #[trigger] cs[a]
        < #[trigger] cs[b] by {
        lemma_children_order(s, i, a, b);
    }
}

/// An earlier child stands before a later one.
pub proof fn lemma_children_order(s: Seq<Entry>, i: int, a: int, b: int)
    requires
        is_forest(s),
        0 <= i < s.len(),
        0 <= a < b < children_of(s, i).len(),
    ensures
        children_of(s, i)[a] < children_of(s, i)[b],
    decreases b - a,
{
    let cs = children_of(s, i);
    lemma_children_of(s, i);
    assert(cs[(b - 1) + 1] == cs[b - 1] + s[cs[b - 1]].span);
    assert(i < cs[b - 1] < i + s[i].span);
    if a < b - 1 {
        lemma_children_order(s, i, a, b - 1);
    }
}

} // verus!
