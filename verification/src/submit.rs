//! Submission: handing a tree to the solver, children before parents.
//!
//! Every element becomes one solver node. A stack that declares a spacing and
//! whose alignment is not distributive also puts a filler, a sized box with
//! the spacing along the stack's direction and zero across it, between each
//! two of its children.

use crate::element::{
    children_of, is_forest, is_tree, same_shape, same_spans_and_kinds, spacing_within, ElementKind,
    Entry,
};
use crate::root::RootView;
use crate::shape::{
    as_ints, lemma_child_span, lemma_children_from_spans, lemma_children_increase,
    lemma_children_of, lemma_closed_before, lemma_same_forest, lemma_same_tree,
    lemma_shape_kept,
};
use crate::sized_box::SizedBox;
use crate::solver::{Solver, SolverNode};
use crate::style::FlexDirection;
use stretch::node::Node;
use stretch::Error;
use vstd::prelude::*;

verus! {

/// Every node of `before` is a node of `after`, with the same style and
/// children.
pub open spec fn extends(before: Map<Node, SolverNode>, after: Map<Node, SolverNode>) -> bool {
    forall|n: Node| #[trigger]
        before.contains_key(n) ==> after.contains_key(n) && after[n] == before[n]
}

/// The filler that a stack of this kind puts between its children, if it
/// puts any: a sized box with the declared spacing along the stack's
/// direction and zero across it.
pub open spec fn filler_of(kind: ElementKind) -> Option<SizedBox> {
    match kind {
        ElementKind::Stack { direction, alignment, spacing: Some(v), .. } => if alignment
            .distributive() {
            None
        } else {
            match direction {
                FlexDirection::Column => Some(SizedBox { width: 0, height: v, node: None }),
                FlexDirection::Row => Some(SizedBox { width: v, height: 0, node: None }),
            }
        },
        _ => None,
    }
}

/// The filler for a stack of `kind`.
pub fn filler_for(kind: &ElementKind) -> (filler: Option<SizedBox>)
    ensures
        filler == filler_of(*kind),
{
    match kind {
        ElementKind::Stack { direction, alignment, spacing, .. } => {
            if alignment.is_special_space() {
                None
            } else if let Some(v) = spacing {
                match direction {
                    FlexDirection::Column => Some(SizedBox::new(0, *v)),
                    FlexDirection::Row => Some(SizedBox::new(*v, 0)),
                }
            } else {
                None
            }
        },
        _ => None,
    }
}

/// What a list of solver children becomes when one more submission has been
/// made: longer by the node if the submission succeeded, and unchanged if it
/// failed.
pub open spec fn kept(list: Seq<Node>, outcome: Result<Node, Error>) -> Seq<Node> {
    match outcome {
        Ok(node) => list.push(node),
        Err(_) => list,
    }
}

/// Takes the outcome of one submission into `list`: a node is added, a
/// failure is left out. Says whether a node was added.
pub fn keep_submitted(list: &mut Vec<Node>, outcome: &Result<Node, Error>) -> (added: bool)
    ensures
        added == outcome is Ok,
        final(list)@ == kept(old(list)@, *outcome),
{
    match outcome {
        Ok(node) => {
            list.push(*node);
            true
        },
        Err(_) => false,
    }
}

/// The solver nodes of the children of the element at `i`, in declared order.
pub open spec fn child_nodes(s: Seq<Entry>, i: int) -> Seq<Node> {
    children_of(s, i).map_values(|c: int| s[c].node->0)
}

/// `list` is the first `k` of `among` with a filler after each of them but
/// the last of all `among`: child, filler, child, and so on. Every filler is
/// a node of the size of `filler` without children, which `before` did not
/// have.
pub open spec fn spaced_upto(
    list: Seq<Node>,
    among: Seq<Node>,
    filler: SizedBox,
    before: Map<Node, SolverNode>,
    nodes: Map<Node, SolverNode>,
    k: int,
) -> bool {
    &&& list.len() == if k < among.len() {
        2 * k
    } else if k == 0 {
        0
    } else {
        2 * k - 1
    }
    &&& forall|m: int| 0 <= m < k ==> #[trigger] list[2 * m] == among[m]
    &&& forall|m: int|
        0 <= m && 2 * m + 1 < list.len() ==> filler.is_node(nodes, #[trigger] list[2 * m + 1])
            && !before.contains_key(list[2 * m + 1])
}

/// `list` is what the element at `i` has collected after the first `k` of its
/// children: their nodes in declared order, with a filler after each where
/// the element spaces its children itself and more children follow.
pub open spec fn listed_upto(
    s: Seq<Entry>,
    i: int,
    list: Seq<Node>,
    before: Map<Node, SolverNode>,
    nodes: Map<Node, SolverNode>,
    k: int,
) -> bool {
    match filler_of(s[i].kind) {
        Some(filler) => spaced_upto(list, child_nodes(s, i), filler, before, nodes, k),
        None => list == child_nodes(s, i).take(k),
    }
}

/// `list` is what the element at `i` hands to the solver as its children: the
/// nodes of its children in declared order, with a filler between each two
/// where the element is a stack that spaces its children itself.
pub open spec fn lists_children(
    s: Seq<Entry>,
    i: int,
    list: Seq<Node>,
    before: Map<Node, SolverNode>,
    nodes: Map<Node, SolverNode>,
) -> bool {
    listed_upto(s, i, list, before, nodes, child_nodes(s, i).len() as int)
}

/// The element at `i` stands in the solver: it has a node there that `before`
/// did not have, with the style of its kind and, as children, the nodes of
/// its children, each once.
pub open spec fn submitted(
    s: Seq<Entry>,
    i: int,
    before: Map<Node, SolverNode>,
    nodes: Map<Node, SolverNode>,
) -> bool {
    &&& s[i].node matches Some(n)
    &&& !before.contains_key(n)
    &&& nodes.contains_key(n)
    &&& nodes[n].style == s[i].kind.style()
    &&& nodes[n].children.no_duplicates()
    &&& lists_children(s, i, nodes[n].children, before, nodes)
}

/// Every element from `from` up to `upto` stands in the solver.
pub open spec fn all_submitted(
    s: Seq<Entry>,
    from: int,
    upto: int,
    before: Map<Node, SolverNode>,
    nodes: Map<Node, SolverNode>,
) -> bool {
    forall|j: int| from <= j < upto ==> #[trigger] submitted(s, j, before, nodes)
}

/// The element at `j` accounts for the solver node `n`: `n` is its own node,
/// or one of the children that its node has in the solver.
pub open spec fn accounts_for(
    s: Seq<Entry>,
    j: int,
    nodes: Map<Node, SolverNode>,
    n: Node,
) -> bool {
    s[j].node matches Some(m) && (m == n || (nodes.contains_key(m)
        && nodes[m].children.contains(n)))
}

/// Every node that `nodes` has and `before` had not is accounted for by `list`
/// or by an element from `from` up to `upto`.
pub open spec fn only_added(
    s: Seq<Entry>,
    from: int,
    upto: int,
    before: Map<Node, SolverNode>,
    nodes: Map<Node, SolverNode>,
    list: Seq<Node>,
) -> bool {
    forall|n: Node| #[trigger]
        nodes.contains_key(n) && !before.contains_key(n) ==> list.contains(n) || exists|j: int|
            from <= j < upto && #[trigger] accounts_for(s, j, nodes, n)
}

/// No two elements from `from` up to `upto` share a solver node.
pub open spec fn distinct_nodes(s: Seq<Entry>, from: int, upto: int) -> bool {
    forall|a: int, b: int|
        from <= a < b < upto ==> (#[trigger] s[a]).node != (#[trigger] s[b]).node
}

/// An element that stands in the solver still does after the solver has
/// grown and other elements have changed.
pub proof fn lemma_submitted_stable(
    s: Seq<Entry>,
    t: Seq<Entry>,
    j: int,
    before: Map<Node, SolverNode>,
    nodes: Map<Node, SolverNode>,
    earlier: Map<Node, SolverNode>,
    grown: Map<Node, SolverNode>,
)
    requires
        is_forest(s),
        same_spans_and_kinds(t, s),
        0 <= j < s.len(),
        forall|m: int| j <= m < j + s[j].span ==> #[trigger] t[m] == s[m],
        extends(earlier, before),
        extends(nodes, grown),
        submitted(s, j, before, nodes),
    ensures
        submitted(t, j, earlier, grown),
{
    lemma_children_from_spans(t, s, j + 1, j + s[j].span);
    lemma_children_of(s, j);
    let cs = children_of(s, j);
    assert(t[j] == s[j]);
    assert(child_nodes(t, j) =~= child_nodes(s, j)) by {
        assert forall|k: int| 0 <= k < cs.len() implies t[cs[k]] == s[cs[k]] by {
            assert(j < cs[k] < j + s[j].span);
        }
    }
    let n = s[j].node->0;
    assert(nodes.contains_key(n));
}

/// Submitting the next child of the element at `i` leaves the elements that
/// stood in the solver before it there, and adds the child's subtree to them.
pub proof fn lemma_child_done(
    s: Seq<Entry>,
    t: Seq<Entry>,
    i: int,
    k: int,
    before: Map<Node, SolverNode>,
    nodes: Map<Node, SolverNode>,
    grown: Map<Node, SolverNode>,
    last: Map<Node, SolverNode>,
)
    requires
        is_forest(s),
        same_spans_and_kinds(t, s),
        0 <= i < s.len(),
        0 <= k < children_of(s, i).len(),
        forall|m: int|
            0 <= m < s.len() && !(children_of(s, i)[k] <= m < children_of(s, i)[k]
                + s[children_of(s, i)[k]].span) ==> #[trigger] t[m] == s[m],
        extends(before, nodes),
        extends(nodes, grown),
        extends(grown, last),
        all_submitted(s, i + 1, children_of(s, i)[k], before, nodes),
        all_submitted(
            t,
            children_of(s, i)[k],
            children_of(s, i)[k] + s[children_of(s, i)[k]].span,
            nodes,
            grown,
        ),
    ensures
        all_submitted(
            t,
            i + 1,
            children_of(s, i)[k] + s[children_of(s, i)[k]].span,
            before,
            last,
        ),
{
    let c = children_of(s, i)[k];
    lemma_child_span(s, i, k);
    lemma_closed_before(s, i, k);
    assert(t[c].span == s[c].span);
    lemma_same_forest(s, t);
    assert forall|j: int| i + 1 <= j < c + s[c].span implies #[trigger] submitted(
        t,
        j,
        before,
        last,
    ) by {
        if j < c {
            assert(submitted(s, j, before, nodes));
            assert(j + s[j].span <= c);
            assert(t[j] == s[j]);
            lemma_submitted_stable(s, t, j, before, nodes, before, last);
        } else {
            assert(submitted(t, j, nodes, grown));
            lemma_submitted_stable(t, t, j, nodes, grown, before, last);
        }
    }
}

/// Submitting the next child of the element at `i` adds nothing to the solver
/// but what the child's subtree and the list account for.
pub proof fn lemma_added_step(
    s: Seq<Entry>,
    t: Seq<Entry>,
    i: int,
    c: int,
    before: Map<Node, SolverNode>,
    nodes: Map<Node, SolverNode>,
    grown: Map<Node, SolverNode>,
    last: Map<Node, SolverNode>,
    list: Seq<Node>,
    longer: Seq<Node>,
)
    requires
        s.len() == t.len(),
        0 <= i < c < s.len(),
        s[c].span == t[c].span,
        forall|m: int| 0 <= m < c ==> #[trigger] t[m] == s[m],
        extends(nodes, grown),
        extends(grown, last),
        only_added(s, i + 1, c, before, nodes, list),
        only_added(t, c, c + s[c].span, nodes, grown, Seq::empty()),
        forall|n: Node| #[trigger]
            last.contains_key(n) && !grown.contains_key(n) ==> longer.contains(n),
        forall|n: Node| #[trigger] list.contains(n) ==> longer.contains(n),
    ensures
        only_added(t, i + 1, c + s[c].span, before, last, longer),
{
    assert forall|n: Node| #[trigger]
        last.contains_key(n) && !before.contains_key(n) implies longer.contains(n) || exists|
        j: int,
    | i + 1 <= j < c + s[c].span && #[trigger] accounts_for(t, j, last, n) by {
        if !grown.contains_key(n) {
        } else if !nodes.contains_key(n) {
            assert(!Seq::<Node>::empty().contains(n));
            let j = choose|j: int|
                c <= j < c + s[c].span && #[trigger] accounts_for(t, j, grown, n);
            assert(accounts_for(t, j, last, n));
        } else if !list.contains(n) {
            let j = choose|j: int| i + 1 <= j < c && #[trigger] accounts_for(s, j, nodes, n);
            assert(t[j] == s[j]);
            assert(accounts_for(t, j, last, n));
        }
    }
}

/// Submitting the next child of the element at `i` gives every element of
/// its subtree a node that no element before it has.
pub proof fn lemma_distinct_step(
    s: Seq<Entry>,
    t: Seq<Entry>,
    i: int,
    c: int,
    before: Map<Node, SolverNode>,
    nodes: Map<Node, SolverNode>,
    grown: Map<Node, SolverNode>,
)
    requires
        s.len() == t.len(),
        0 <= i < c < s.len(),
        s[c].span == t[c].span,
        forall|m: int| 0 <= m < c ==> #[trigger] t[m] == s[m],
        all_submitted(s, i + 1, c, before, nodes),
        all_submitted(t, c, c + s[c].span, nodes, grown),
        distinct_nodes(s, i + 1, c),
        distinct_nodes(t, c, c + s[c].span),
    ensures
        distinct_nodes(t, i + 1, c + s[c].span),
{
    assert forall|a: int, b: int| i + 1 <= a < b < c + s[c].span implies (#[trigger] t[a]).node
        != (#[trigger] t[b]).node by {
        if b < c {
            assert(t[a] == s[a] && t[b] == s[b]);
        } else if a < c {
            assert(t[a] == s[a]);
            assert(submitted(s, a, before, nodes));
            assert(submitted(t, b, nodes, grown));
        }
    }
}

/// Collecting the node of the next child of the element at `i`, and the
/// filler after it where one is due, carries the list one child further.
pub proof fn lemma_list_step(
    s: Seq<Entry>,
    t: Seq<Entry>,
    i: int,
    k: int,
    list: Seq<Node>,
    node: Node,
    gap: Option<Node>,
    before: Map<Node, SolverNode>,
    nodes: Map<Node, SolverNode>,
    last: Map<Node, SolverNode>,
)
    requires
        is_forest(s),
        same_spans_and_kinds(t, s),
        0 <= i < s.len(),
        0 <= k < children_of(s, i).len(),
        forall|m: int| 0 <= m < children_of(s, i)[k] ==> #[trigger] t[m] == s[m],
        t[children_of(s, i)[k]].node == Some(node),
        extends(nodes, last),
        listed_upto(s, i, list, before, nodes, k),
        gap is Some <==> filler_of(s[i].kind) is Some && k + 1 < children_of(s, i).len(),
        gap matches Some(g) ==> filler_of(s[i].kind)->0.is_node(last, g) && !before.contains_key(
            g,
        ),
    ensures
        listed_upto(
            t,
            i,
            match gap {
                Some(g) => list.push(node).push(g),
                None => list.push(node),
            },
            before,
            last,
            k + 1,
        ),
{
    let cs = children_of(s, i);
    lemma_children_of(s, i);
    lemma_children_from_spans(t, s, i + 1, i + s[i].span);
    assert(t[i] == s[i]);
    assert(children_of(t, i) == cs);
    let among = child_nodes(s, i);
    let among2 = child_nodes(t, i);
    assert(among2.len() == among.len() == cs.len());
    lemma_children_increase(s, i);
    assert forall|m: int| 0 <= m < k implies among2[m] == among[m] by {
        assert(cs[m] < cs[k]);
        assert(t[cs[m]] == s[cs[m]]);
    }
    assert(among2[k] == node);
    let after = match gap {
        Some(g) => list.push(node).push(g),
        None => list.push(node),
    };
    match filler_of(s[i].kind) {
        Some(filler) => {
            assert(list.len() == 2 * k);
            assert forall|m: int| 0 <= m < k + 1 implies #[trigger] after[2 * m] == among2[m] by {
                if m < k {
                    assert(list[2 * m] == among[m]);
                    assert(after[2 * m] == list[2 * m]);
                }
            }
            assert forall|m: int| 0 <= m && 2 * m + 1 < after.len() implies filler.is_node(
                last,
                #[trigger] after[2 * m + 1],
            ) && !before.contains_key(after[2 * m + 1]) by {
                if 2 * m + 1 < list.len() {
                    assert(after[2 * m + 1] == list[2 * m + 1]);
                    assert(filler.is_node(nodes, list[2 * m + 1]));
                }
            }
        },
        None => {
            assert(after == list.push(node));
            assert(among2.take(k + 1) =~= among.take(k).push(node));
        },
    }
}

/// A list without duplicates stays so when a node that it lacks is added.
pub proof fn lemma_push_distinct(list: Seq<Node>, node: Node)
    requires
        list.no_duplicates(),
        !list.contains(node),
    ensures
        list.push(node).no_duplicates(),
{
    let longer = list.push(node);
    assert forall|a: int, b: int|
        0 <= a < longer.len() && 0 <= b < longer.len() && a != b implies longer[a]
        != longer[b] by {
        if a < list.len() && b < list.len() {
            assert(list[a] != list[b]);
        } else if a < list.len() {
            assert(list.contains(list[a]));
        } else {
            assert(list.contains(list[b]));
        }
    }
}

impl RootView {
    /// Submits the element at `id` with all that stands below it, children
    /// first, and records the solver node of each.
    ///
    /// It asks that every stack of the subtree obeys the spacing rule, and
    /// that the solver has room for two nodes per element. It always
    /// succeeds. Every element of the subtree gets a new node of its own,
    /// with the style of its kind. The node of an element lists the
    /// nodes of the element's children in declared order, with new fillers
    /// between them where the element spaces its children itself. The solver
    /// gains no other node and keeps the nodes it had; the tree keeps its
    /// shape, and the elements outside the subtree keep their nodes.
    pub fn layout_node(&mut self, id: usize, engine: &mut Solver) -> (submitted: Result<
        Node,
        Error,
    >)
        requires
            is_tree(old(self)@),
            id < old(self)@.len(),
            spacing_within(old(self)@, id as int, id + old(self)@[id as int].span),
            old(engine).wf(),
            old(engine).issued() + 2 * old(self)@[id as int].span <= 0xFFFF_FFFF,
        ensures
            final(engine).wf(),
            final(engine).issued() < old(engine).issued() + 2 * old(self)@[id as int].span,
            same_shape(final(self)@, old(self)@),
            forall|m: int|
                0 <= m < old(self)@.len() && !(id <= m < id + old(self)@[id as int].span)
                    ==> #[trigger] final(self)@[m] == old(self)@[m],
            submitted matches Ok(node) && final(self)@[id as int].node == Some(node),
            extends(old(engine).nodes(), final(engine).nodes()),
            all_submitted(
                final(self)@,
                id as int,
                id + old(self)@[id as int].span,
                old(engine).nodes(),
                final(engine).nodes(),
            ),
            only_added(
                final(self)@,
                id as int,
                id + old(self)@[id as int].span,
                old(engine).nodes(),
                final(engine).nodes(),
                Seq::empty(),
            ),
            distinct_nodes(final(self)@, id as int, id + old(self)@[id as int].span),
        decreases old(self)@[id as int].span, 1int,
    {
        let ghost s0 = self@;
        let ghost nodes0 = engine.nodes();
        let kind = self.entry(id).kind;
        let children = self.children(id);
        let cns = self.submit_children(id, &children, engine);
        let ghost s1 = self@;
        let ghost nodes1 = engine.nodes();
        let ghost list = cns@;
        let style = kind.node_style();
        proof {
            lemma_shape_kept(s0, s1);
            assert(s1[id as int] == s0[id as int]);
        }
        let created = engine.new_node(&style, cns);
        let ghost nodes2 = engine.nodes();
        assert(created is Ok);
        match created {
            Ok(node) => {
                self.set_node(id, node);
                proof {
                    let s2 = self@;
                    let end = id + s0[id as int].span;
                    assert(extends(nodes1, nodes2));
                    assert(extends(nodes0, nodes2));
                    assert forall|j: int| id <= j < end implies #[trigger] submitted(
                        s2,
                        j,
                        nodes0,
                        nodes2,
                    ) by {
                        if j > id {
                            assert(submitted(s1, j, nodes0, nodes1));
                            assert(j + s1[j].span <= end);
                            lemma_submitted_stable(s1, s2, j, nodes0, nodes1, nodes0, nodes2);
                        } else {
                            lemma_children_from_spans(s2, s1, id + 1, end);
                            lemma_children_of(s1, id as int);
                            let cs = children_of(s1, id as int);
                            assert(child_nodes(s2, id as int) =~= child_nodes(s1, id as int)) by {
                                assert forall|k: int| 0 <= k < cs.len() implies s2[cs[k]]
                                    == s1[cs[k]] by {
                                    assert(id < cs[k]);
                                }
                            }
                            assert(nodes2[node].children == list);
                            assert(!nodes1.contains_key(node));
                        }
                    }
                    assert forall|a: int, b: int| id <= a < b < end implies (#[trigger] s2[a]).node
                        != (#[trigger] s2[b]).node by {
                        assert(s2[b] == s1[b]);
                        assert(submitted(s1, b, nodes0, nodes1));
                        if a > id {
                            assert(s2[a] == s1[a]);
                        }
                    }
                    assert forall|n: Node| #[trigger]
                        nodes2.contains_key(n) && !nodes0.contains_key(n) implies Seq::<
                        Node,
                    >::empty().contains(n) || exists|j: int|
                        id <= j < end && #[trigger] accounts_for(s2, j, nodes2, n) by {
                        if n == node || list.contains(n) {
                            assert(accounts_for(s2, id as int, nodes2, n));
                        } else {
                            assert(nodes1.contains_key(n));
                            let j = choose|j: int|
                                id + 1 <= j < end && #[trigger] accounts_for(s1, j, nodes1, n);
                            assert(s2[j] == s1[j]);
                            assert(accounts_for(s2, j, nodes2, n));
                        }
                    }
                }
                Ok(node)
            },
            Err(e) => Err(e),
        }
    }

    /// Submits the children of the element at `id`, in declared order, and
    /// returns what the element is to hand to the solver as its children. A
    /// child whose submission fails is left out, and so is the filler after
    /// it.
    fn submit_children(&mut self, id: usize, children: &Vec<usize>, engine: &mut Solver) -> (cns:
        Vec<Node>)
        requires
            is_tree(old(self)@),
            id < old(self)@.len(),
            spacing_within(old(self)@, id as int, id + old(self)@[id as int].span),
            as_ints(children@) == children_of(old(self)@, id as int),
            old(engine).wf(),
            old(engine).issued() + 2 * (old(self)@[id as int].span - 1) <= 0xFFFF_FFFF,
        ensures
            final(engine).wf(),
            final(engine).issued() <= old(engine).issued() + 2 * (old(self)@[id as int].span
                - 1),
            same_shape(final(self)@, old(self)@),
            forall|m: int|
                0 <= m < old(self)@.len() && !(id < m < id + old(self)@[id as int].span)
                    ==> #[trigger] final(self)@[m] == old(self)@[m],
            extends(old(engine).nodes(), final(engine).nodes()),
            all_submitted(
                final(self)@,
                id + 1,
                id + old(self)@[id as int].span,
                old(engine).nodes(),
                final(engine).nodes(),
            ),
            lists_children(
                final(self)@,
                id as int,
                cns@,
                old(engine).nodes(),
                final(engine).nodes(),
            ),
            cns@.no_duplicates(),
            forall|m: int|
                0 <= m < cns@.len() ==> final(engine).nodes().contains_key(
                    #[trigger] cns@[m],
                ),
            only_added(
                final(self)@,
                id + 1,
                id + old(self)@[id as int].span,
                old(engine).nodes(),
                final(engine).nodes(),
                cns@,
            ),
            distinct_nodes(final(self)@, id + 1, id + old(self)@[id as int].span),
        decreases old(self)@[id as int].span, 0int,
    {
        let ghost s0 = self@;
        let ghost nodes0 = engine.nodes();
        let ghost issued0 = engine.issued();
        let ghost cs = children_of(s0, id as int);
        let kind = self.entry(id).kind;
        let filler = filler_for(&kind);
        let n = children.len();
        let mut cns: Vec<Node> = Vec::new();
        let mut k: usize = 0;
        let ghost mut upto: int = id + 1;
        proof {
            lemma_children_of(s0, id as int);
            assert(child_nodes(s0, id as int).take(0) =~= cns@);
        }
        while k < n
            invariant
                s0 == old(self)@,
                is_tree(s0),
                spacing_within(s0, id as int, id + s0[id as int].span),
                id < s0.len(),
                engine.wf(),
                issued0 + 2 * (s0[id as int].span - 1) <= 0xFFFF_FFFF,
                engine.issued() <= issued0 + 2 * (upto - id - 1),
                n == children@.len(),
                k <= n,
                cs == children_of(s0, id as int),
                as_ints(children@) == cs,
                filler == filler_of(s0[id as int].kind),
                upto == if k < n {
                    cs[k as int]
                } else {
                    id + s0[id as int].span
                },
                same_shape(self@, s0),
                forall|m: int|
                    0 <= m < s0.len() && !(id < m < upto) ==> #[trigger] self@[m] == s0[m],
                extends(nodes0, engine.nodes()),
                all_submitted(self@, id + 1, upto, nodes0, engine.nodes()),
                forall|m: int|
                    0 <= m < cns@.len() ==> engine.nodes().contains_key(#[trigger] cns@[m]),
                listed_upto(self@, id as int, cns@, nodes0, engine.nodes(), k as int),
                cns@.no_duplicates(),
                only_added(self@, id + 1, upto, nodes0, engine.nodes(), cns@),
                distinct_nodes(self@, id + 1, upto),
            decreases n - k,
        {
            let c = children[k];
            let ghost s1 = self@;
            let ghost nodes1 = engine.nodes();
            let ghost list1 = cns@;
            proof {
                assert(cs[k as int] == c);
                lemma_children_of(s0, id as int);
                lemma_child_span(s0, id as int, k as int);
                lemma_shape_kept(s0, s1);
                assert(s1[c as int].span == s0[c as int].span);
                assert(s1[id as int] == s0[id as int]);
                lemma_children_from_spans(s1, s0, id + 1, id + s0[id as int].span);
                assert forall|i: int| c <= i < c + s1[c as int].span implies (
                #[trigger] s1[i]).kind.spacing_allowed() by {
                    assert(s0[i].kind.spacing_allowed());
                }
            }
            let outcome = self.layout_node(c, engine);
            let ghost s2 = self@;
            let ghost nodes2 = engine.nodes();
            let ghost node = s2[c as int].node->0;
            let mut gap: Option<Node> = None;
            if keep_submitted(&mut cns, &outcome) && k + 1 < n {
                if let Some(sized_box) = filler {
                    let mut gap_box = sized_box;
                    let between = gap_box.layout_node(engine);
                    if keep_submitted(&mut cns, &between) {
                        gap = between.ok();
                    }
                }
            }
            proof {
                let nodes3 = engine.nodes();
                assert(submitted(s2, c as int, nodes1, nodes2));
                assert(extends(nodes2, nodes3));
                assert(same_spans_and_kinds(s2, s1));
                assert(!list1.contains(node)) by {
                    if list1.contains(node) {
                        let at = choose|at: int| 0 <= at < list1.len() && list1[at] == node;
                        assert(nodes1.contains_key(list1[at]));
                    }
                }
                lemma_push_distinct(list1, node);
                if let Some(g) = gap {
                    let with_node = list1.push(node);
                    assert(!with_node.contains(g)) by {
                        if with_node.contains(g) {
                            let at = choose|at: int|
                                0 <= at < with_node.len() && with_node[at] == g;
                            if at < list1.len() {
                                assert(nodes1.contains_key(list1[at]));
                            }
                        }
                    }
                    lemma_push_distinct(with_node, g);
                }
                assert forall|m: int| 0 <= m < c implies #[trigger] s2[m] == s1[m] by {}
                assert forall|x: Node| #[trigger] list1.contains(x) implies cns@.contains(x) by {
                    let at = choose|at: int| 0 <= at < list1.len() && list1[at] == x;
                    assert(cns@[at] == x);
                }
                assert forall|x: Node| #[trigger]
                    nodes3.contains_key(x) && !nodes2.contains_key(x) implies cns@.contains(x) by {
                    assert(gap == Some(x));
                    assert(cns@[cns@.len() - 1] == x);
                }
                lemma_added_step(
                    s1,
                    s2,
                    id as int,
                    c as int,
                    nodes0,
                    nodes1,
                    nodes2,
                    nodes3,
                    list1,
                    cns@,
                );
                lemma_distinct_step(s1, s2, id as int, c as int, nodes0, nodes1, nodes2);
                lemma_child_done(s1, s2, id as int, k as int, nodes0, nodes1, nodes2, nodes3);
                lemma_list_step(
                    s1,
                    s2,
                    id as int,
                    k as int,
                    list1,
                    node,
                    gap,
                    nodes0,
                    nodes1,
                    nodes3,
                );
                assert(nodes3.contains_key(node));
                if k + 1 < n {
                    assert(cs[k as int + 1] == cs[k as int] + s0[cs[k as int]].span);
                }
                upto = c + s0[c as int].span;
                assert forall|m: int| 0 <= m < s0.len() && !(id < m < upto) implies #[trigger] s2[m]
                    == s0[m] by {
                    assert(s2[m] == s1[m]);
                }
                assert forall|m: int| 0 <= m < cns@.len() implies nodes3.contains_key(
                    #[trigger] cns@[m],
                ) by {
                    if m < list1.len() {
                        assert(cns@[m] == list1[m]);
                        assert(nodes1.contains_key(list1[m]));
                    }
                }
            }
            k += 1;
        }
        proof {
            let among = child_nodes(self@, id as int);
            assert(self@[id as int] == s0[id as int]);
            lemma_shape_kept(s0, self@);
            lemma_children_from_spans(self@, s0, id + 1, id + s0[id as int].span);
            assert(among.len() == n);
        }
        cns
    }
}

} // verus!
