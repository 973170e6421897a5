//! What holds of every tree and every layout pass.

use crate::alignment::MainAlignment;
use crate::content::tree_over;
use crate::element::{
    children_from, children_of, is_forest, is_tree, is_wired, parent_index, ElementKind, Entry,
};
use crate::resolve::{
    ancestors, is_live, is_visible, layout_at, layouts_upto, origin, shift, total_shift, clamped,
};
use crate::shape::{
    interval, joined, lemma_child_of_parent, lemma_children_of, lemma_enclosing_nearest,
    lemma_joined_prefix, lemma_joined_take, lemma_parent_of_child, lemma_preorder_is_interval,
    preorder,
};
use crate::solver::{NodeBox, SolverNode};
use crate::style::{Dimension, FlexDirection};
use crate::submit::{all_submitted, child_nodes, filler_of, kept, submitted};
use stretch::node::Node;
use stretch::Error;
use vstd::prelude::*;

verus! {

/// The elements of a tree, in the order of their indices, are the pre-order
/// of the tree. So a traversal by index visits every element exactly once,
/// the parent of an element before the element, and an element before every
/// element of its subtree.
pub proof fn lemma_index_order_is_preorder(s: Seq<Entry>)
    requires
        is_tree(s),
    ensures
        preorder(s, 0) == interval(0, s.len() as int),
        preorder(s, 0).no_duplicates(),
        forall|i: int| 0 <= i < s.len() ==> preorder(s, 0).contains(i),
        forall|j: int| 1 <= j < s.len() ==> 0 <= #[trigger] parent_index(s, j) < j,
        forall|i: int, j: int| #[trigger]
            ancestors(s, j).contains(i) && 0 <= j < s.len() ==> 0 <= i < j && j < i + s[i].span,
{
    lemma_preorder_is_interval(s, 0);
    let order = preorder(s, 0);
    assert forall|i: int| 0 <= i < s.len() implies order.contains(i) by {
        assert(order[i] == i);
    }
    assert forall|j: int| 1 <= j < s.len() implies 0 <= #[trigger] parent_index(s, j) < j by {
        lemma_child_of_parent(s, j);
    }
    assert forall|i: int, j: int| #[trigger]
        ancestors(s, j).contains(i) && 0 <= j < s.len() implies 0 <= i < j && j < i + s[i].span by {
        lemma_ancestor_holds(s, j, i);
    }
}

/// Every ancestor of an element stands before it and holds it in its
/// subtree.
pub proof fn lemma_ancestor_holds(s: Seq<Entry>, j: int, i: int)
    requires
        is_forest(s),
        0 <= j < s.len(),
        ancestors(s, j).contains(i),
    ensures
        0 <= i < j,
        j < i + s[i].span,
    decreases j,
{
    let p = parent_index(s, j);
    lemma_enclosing_nearest(s, j, j - 1);
    assert(0 <= p < j);
    let path = ancestors(s, j);
    assert(path == seq![p] + ancestors(s, p));
    let at = choose|at: int| 0 <= at < path.len() && path[at] == i;
    if at > 0 {
        assert(ancestors(s, p)[at - 1] == i);
        lemma_ancestor_holds(s, p, i);
    }
}

/// In a wired tree every child records the element that lists it, the root
/// records no parent, and every other element is listed by the parent it
/// records.
pub proof fn lemma_wired_parents(s: Seq<Entry>)
    requires
        is_tree(s),
        is_wired(s),
    ensures
        s[0].parent is None,
        forall|i: int, k: int|
            0 <= i < s.len() && 0 <= k < children_of(s, i).len() ==> s[#[trigger] children_of(
                s,
                i,
            )[k]].parent == Some(i as usize),
        forall|j: int|
            1 <= j < s.len() ==> (#[trigger] s[j]).parent is Some && children_of(
                s,
                s[j].parent->0 as int,
            ).contains(j),
{
    assert(s[0].records_parent(parent_index(s, 0)));
    assert forall|i: int, k: int|
        0 <= i < s.len() && 0 <= k < children_of(s, i).len() implies s[#[trigger] children_of(
        s,
        i,
    )[k]].parent == Some(i as usize) by {
        let c = children_of(s, i)[k];
        lemma_children_of(s, i);
        lemma_parent_of_child(s, i, k);
        assert(i < c < s.len());
        assert(s[c].records_parent(parent_index(s, c)));
    }
    assert forall|j: int| 1 <= j < s.len() implies (#[trigger] s[j]).parent is Some && children_of(
        s,
        s[j].parent->0 as int,
    ).contains(j) by {
        let k = lemma_child_of_parent(s, j);
        assert(s[j].records_parent(parent_index(s, j)));
        assert(children_of(s, parent_index(s, j))[k] == j);
    }
}

/// Where the tree at `k` of `parts` begins once the trees stand under one
/// element: after that element and the trees before it.
pub open spec fn start_of(parts: Seq<Seq<Entry>>, k: int) -> int {
    1 + joined(parts.take(k)).len() as int
}

/// Under one element, the tree at `k` of `parts` stands unchanged where
/// [`start_of`] says.
pub proof fn lemma_part_in_place(kind: ElementKind, parts: Seq<Seq<Entry>>, k: int, m: int)
    requires
        0 <= k < parts.len(),
        0 <= m < parts[k].len(),
    ensures
        start_of(parts, k) + m < start_of(parts, k + 1) <= tree_over(kind, joined(parts)).len(),
        start_of(parts, k + 1) == start_of(parts, k) + parts[k].len(),
        tree_over(kind, joined(parts))[start_of(parts, k) + m] == parts[k][m],
{
    let all = joined(parts);
    let shorter = joined(parts.take(k));
    let longer = joined(parts.take(k + 1));
    lemma_joined_take(parts, k);
    lemma_joined_prefix(parts, k + 1);
    assert(longer[shorter.len() + m] == parts[k][m]);
    assert(all.take(longer.len() as int)[shorter.len() + m] == all[shorter.len() + m]);
    assert(tree_over(kind, all)[1 + shorter.len() + m] == all[shorter.len() + m]);
}

/// The children of the first element of `s` from the tree at `k` of `parts`
/// on, where `s` is an element over `parts`: one child per tree, each where
/// its tree begins.
pub proof fn lemma_children_from_parts(kind: ElementKind, parts: Seq<Seq<Entry>>, k: int)
    requires
        forall|t: int| 0 <= t < parts.len() ==> is_tree(#[trigger] parts[t]),
        0 <= k <= parts.len(),
    ensures
        children_from(
            tree_over(kind, joined(parts)),
            start_of(parts, k),
            start_of(parts, parts.len() as int),
        ) == Seq::new((parts.len() - k) as nat, |t: int| start_of(parts, k + t)),
    decreases parts.len() - k,
{
    let s = tree_over(kind, joined(parts));
    let end = start_of(parts, parts.len() as int);
    let expected = Seq::new((parts.len() - k) as nat, |t: int| start_of(parts, k + t));
    assert(parts.take(parts.len() as int) =~= parts);
    if k < parts.len() {
        assert(is_tree(parts[k]));
        lemma_part_in_place(kind, parts, k, 0);
        lemma_joined_prefix(parts, k + 1);
        lemma_children_from_parts(kind, parts, k + 1);
        let rest = Seq::new((parts.len() - k - 1) as nat, |t: int| start_of(parts, k + 1 + t));
        assert(s[start_of(parts, k)].span == parts[k].len());
        assert(children_from(s, start_of(parts, k), end) == seq![start_of(parts, k)] + rest);
        assert(seq![start_of(parts, k)] + rest =~= expected);
    } else {
        assert(children_from(s, start_of(parts, k), end) =~= expected);
    }
}

/// A stack that is built from `n` trees lists `n` children, in the order of
/// the trees: the child at `k` stands where the tree at `k` begins, after the
/// stack itself and the trees before it, and its subtree is that tree. The
/// stored form of a stack is `tree_over` its kind and its trees, joined.
pub proof fn lemma_stack_children(kind: ElementKind, parts: Seq<Seq<Entry>>)
    requires
        forall|t: int| 0 <= t < parts.len() ==> is_tree(#[trigger] parts[t]),
        1 + joined(parts).len() <= usize::MAX,
    ensures
        ({
            let s = tree_over(kind, joined(parts));
            let children = children_of(s, 0);
            &&& children.len() == parts.len()
            &&& forall|k: int|
                0 <= k < parts.len() ==> #[trigger] children[k] == start_of(parts, k)
            &&& forall|k: int|
                0 <= k < parts.len() ==> s.subrange(
                    start_of(parts, k),
                    start_of(parts, k) + (#[trigger] parts[k]).len(),
                ) == parts[k]
        }),
{
    let s = tree_over(kind, joined(parts));
    lemma_children_from_parts(kind, parts, 0);
    assert(parts.take(parts.len() as int) =~= parts);
    assert(parts.take(0) =~= Seq::<Seq<Entry>>::empty());
    assert(start_of(parts, 0) == 1);
    assert(s[0].span == s.len());
    assert forall|k: int| 0 <= k < parts.len() implies s.subrange(
        start_of(parts, k),
        start_of(parts, k) + (#[trigger] parts[k]).len(),
    ) == parts[k] by {
        assert forall|m: int| 0 <= m < parts[k].len() implies s[start_of(parts, k) + m]
            == parts[k][m] by {
            lemma_part_in_place(kind, parts, k, m);
        }
        assert(is_tree(parts[k]));
        lemma_part_in_place(kind, parts, k, 0);
        assert(s.subrange(start_of(parts, k), start_of(parts, k) + parts[k].len()) =~= parts[k]);
    }
}

/// A stack whose alignment is distributive breaks the spacing rule with any
/// spacing at all, and keeps it with none. A stack whose alignment is not
/// distributive keeps it either way.
pub proof fn lemma_spacing_rule(
    direction: FlexDirection,
    alignment: MainAlignment,
    cross: crate::alignment::CrossAlignment,
    v: u16,
)
    ensures
        alignment.distributive() ==> !(ElementKind::Stack {
            direction,
            alignment,
            cross,
            spacing: Some(v),
        }).spacing_allowed(),
        (ElementKind::Stack { direction, alignment, cross, spacing: None }).spacing_allowed(),
        !alignment.distributive() ==> (ElementKind::Stack {
            direction,
            alignment,
            cross,
            spacing: Some(v),
        }).spacing_allowed(),
        alignment.distributive() <==> alignment is Between || alignment is Around || alignment
            is Evenly,
{
}

/// A stack with a spacing of `v`, an alignment that is not distributive and
/// at least one child hands the solver one node less than twice its number
/// of children: its children's nodes in declared order, and between each two
/// of them a filler without children that measures `v` along the stack's
/// direction and zero across it.
pub proof fn lemma_spaced_stack(
    s: Seq<Entry>,
    i: int,
    before: Map<Node, SolverNode>,
    nodes: Map<Node, SolverNode>,
    v: u16,
)
    requires
        is_forest(s),
        0 <= i < s.len(),
        s[i].kind is Stack,
        s[i].kind->spacing == Some(v),
        !s[i].kind->alignment.distributive(),
        children_of(s, i).len() >= 1,
        all_submitted(s, i, i + s[i].span, before, nodes),
    ensures
        ({
            let list = nodes[s[i].node->0].children;
            let children = children_of(s, i);
            &&& list.len() == 2 * children.len() - 1
            &&& list.no_duplicates()
            &&& forall|k: int|
                0 <= k < children.len() ==> s[children[k]].node == Some(#[trigger] list[2 * k])
            &&& forall|k: int|
                0 <= k < children.len() - 1 ==> {
                    let gap = nodes[#[trigger] list[2 * k + 1]];
                    &&& nodes.contains_key(list[2 * k + 1])
                    &&& !before.contains_key(list[2 * k + 1])
                    &&& gap.children.len() == 0
                    &&& gap.style == filler_of(s[i].kind)->0.spec_kind().style()
                    &&& s[i].kind->direction is Column ==> gap.style.size.width
                        == Dimension::Points(0) && gap.style.size.height == Dimension::Points(v)
                    &&& s[i].kind->direction is Row ==> gap.style.size.width == Dimension::Points(
                        v,
                    ) && gap.style.size.height == Dimension::Points(0)
                }
        }),
{
    let list = nodes[s[i].node->0].children;
    let children = children_of(s, i);
    let among = child_nodes(s, i);
    assert(submitted(s, i, before, nodes));
    assert(among.len() == children.len());
    assert(filler_of(s[i].kind) is Some);
    lemma_children_of(s, i);
    assert forall|k: int| 0 <= k < children.len() implies s[children[k]].node == Some(
        #[trigger] list[2 * k],
    ) by {
        assert(list[2 * k] == among[k]);
        assert(submitted(s, children[k], before, nodes));
    }
}

/// The ancestors of an element are its chain of parents: the first is its
/// parent, each next one the parent of the one before, and the last the
/// root.
pub proof fn lemma_ancestors_chain(s: Seq<Entry>, j: int)
    requires
        is_tree(s),
        0 <= j < s.len(),
    ensures
        j == 0 <==> ancestors(s, j).len() == 0,
        j > 0 ==> ancestors(s, j)[0] == parent_index(s, j) && ancestors(s, j).last() == 0,
        forall|m: int|
            0 <= m < ancestors(s, j).len() - 1 ==> #[trigger] ancestors(s, j)[m + 1]
                == parent_index(s, ancestors(s, j)[m]),
    decreases j,
{
    if j > 0 {
        lemma_child_of_parent(s, j);
        let p = parent_index(s, j);
        let path = ancestors(s, j);
        let rest = ancestors(s, p);
        assert(path == seq![p] + rest);
        lemma_ancestors_chain(s, p);
        assert forall|m: int| 0 <= m < path.len() - 1 implies #[trigger] path[m + 1]
            == parent_index(s, path[m]) by {
            assert(path[m + 1] == rest[m]);
            if m > 0 {
                assert(path[m] == rest[m - 1]);
                assert(rest[(m - 1) + 1] == parent_index(s, rest[m - 1]));
            }
        }
        if rest.len() > 0 {
            assert(path.last() == rest.last());
        }
    } else {
        crate::shape::lemma_root_parent(s);
    }
}

/// The shifts of a path, added up, are those of its first elements plus that
/// of its last.
pub proof fn lemma_total_shift_last(
    s: Seq<Entry>,
    nodes: Map<Node, SolverNode>,
    boxes: Map<Node, NodeBox>,
    path: Seq<int>,
    vertical: bool,
)
    requires
        path.len() > 0,
    ensures
        total_shift(s, nodes, boxes, path, vertical) == total_shift(
            s,
            nodes,
            boxes,
            path.drop_last(),
            vertical,
        ) + shift(s, nodes, boxes, path.last(), vertical),
    decreases path.len(),
{
    if path.len() == 1 {
        assert(path.skip(1) =~= path.drop_last());
    } else {
        lemma_total_shift_last(s, nodes, boxes, path.skip(1), vertical);
        assert(path.skip(1).drop_last() =~= path.drop_last().skip(1));
        assert(path.skip(1).last() == path.last());
        assert(path.drop_last()[0] == path[0]);
    }
}

/// The rectangle of a view has the size of the view's own box and stands
/// where that box stands shifted by every ancestor of the view: for a view
/// with `k` ancestors, the position of its own box plus the positions of the
/// boxes of those `k`. Where the box of the root is at the origin, as it is
/// after every pass that succeeded, the root adds nothing, and the sum runs
/// over the ancestors below the root.
pub proof fn lemma_absolute_position(
    s: Seq<Entry>,
    nodes: Map<Node, SolverNode>,
    boxes: Map<Node, NodeBox>,
    j: int,
    vertical: bool,
)
    requires
        is_tree(s),
        0 <= j < s.len(),
    ensures
        ({
            let own = boxes[s[j].node->0];
            let path = ancestors(s, j);
            &&& layout_at(s, nodes, boxes, j).width == own.width
            &&& layout_at(s, nodes, boxes, j).height == own.height
            &&& layout_at(s, nodes, boxes, j).x == clamped(
                own.x + total_shift(s, nodes, boxes, path, false),
            )
            &&& layout_at(s, nodes, boxes, j).y == clamped(
                own.y + total_shift(s, nodes, boxes, path, true),
            )
            &&& j > 0 && shift(s, nodes, boxes, 0, vertical) == 0 ==> total_shift(
                s,
                nodes,
                boxes,
                path,
                vertical,
            ) == total_shift(s, nodes, boxes, path.drop_last(), vertical)
            &&& j == 0 ==> total_shift(s, nodes, boxes, path, vertical) == 0
        }),
{
    lemma_ancestors_chain(s, j);
    if j > 0 {
        lemma_total_shift_last(s, nodes, boxes, ancestors(s, j), vertical);
    }
}

/// The number of failures among `outcomes`.
pub open spec fn failures(outcomes: Seq<Result<Node, Error>>) -> nat
    decreases outcomes.len(),
{
    if outcomes.len() == 0 {
        0
    } else {
        failures(outcomes.drop_last()) + if outcomes.last() is Err {
            1nat
        } else {
            0nat
        }
    }
}

/// What is left of a list of solver children when every one of `outcomes`
/// has been taken into it in turn.
pub open spec fn kept_all(list: Seq<Node>, outcomes: Seq<Result<Node, Error>>) -> Seq<Node>
    decreases outcomes.len(),
{
    if outcomes.len() == 0 {
        list
    } else {
        kept(kept_all(list, outcomes.drop_last()), outcomes.last())
    }
}

/// Every child whose submission fails is left out of the solver children of
/// its parent: the list is shorter than the number of submissions by the
/// number of failures, so by one for one failure.
pub proof fn lemma_failures_are_left_out(outcomes: Seq<Result<Node, Error>>)
    ensures
        kept_all(Seq::empty(), outcomes).len() == outcomes.len() - failures(outcomes),
        failures(outcomes) <= outcomes.len(),
    decreases outcomes.len(),
{
    if outcomes.len() > 0 {
        lemma_failures_are_left_out(outcomes.drop_last());
    }
}

/// An element for which the solver has no box yields no rectangle, and a
/// view for which it has one yields exactly one, after those of the elements
/// before it.
pub proof fn lemma_one_rectangle_per_view(
    s: Seq<Entry>,
    nodes: Map<Node, SolverNode>,
    boxes: Map<Node, NodeBox>,
    j: int,
)
    requires
        0 <= j < s.len(),
    ensures
        !is_live(s, nodes, j) ==> layouts_upto(s, nodes, boxes, j + 1) == layouts_upto(
            s,
            nodes,
            boxes,
            j,
        ),
        !s[j].kind.renderable() ==> layouts_upto(s, nodes, boxes, j + 1) == layouts_upto(
            s,
            nodes,
            boxes,
            j,
        ),
        is_visible(s, nodes, j) ==> layouts_upto(s, nodes, boxes, j + 1) == layouts_upto(
            s,
            nodes,
            boxes,
            j,
        ).push(layout_at(s, nodes, boxes, j)),
{
}

/// The number of views among the first `k` elements.
pub open spec fn views_upto(s: Seq<Entry>, k: int) -> nat
    decreases k,
{
    if k <= 0 {
        0
    } else {
        views_upto(s, k - 1) + if s[k - 1].kind.renderable() {
            1nat
        } else {
            0nat
        }
    }
}

/// Where every element stands in the solver, there are as many rectangles as
/// views.
pub proof fn lemma_rectangle_count(
    s: Seq<Entry>,
    before: Map<Node, SolverNode>,
    nodes: Map<Node, SolverNode>,
    boxes: Map<Node, NodeBox>,
    k: int,
)
    requires
        0 <= k <= s.len(),
        all_submitted(s, 0, s.len() as int, before, nodes),
    ensures
        layouts_upto(s, nodes, boxes, k).len() == views_upto(s, k),
    decreases k,
{
    if k > 0 {
        lemma_rectangle_count(s, before, nodes, boxes, k - 1);
        assert(submitted(s, k - 1, before, nodes));
    }
}

} // verus!
