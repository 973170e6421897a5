//! The root of a layout tree: the stored tree with its parents wired, the
//! traversal of it, and the layout pass.

use crate::element::{
    children_from, children_of, is_tree, is_wired, parent_index, same_spans_and_kinds, Element,
    ElementKind, Entry, NodeType,
};
use crate::shape::{
    as_ints, lemma_child_of_parent, lemma_children_from_spans, lemma_children_of,
    lemma_enclosing_spans, lemma_parent_of_child, lemma_preorder_is_interval, lemma_same_tree,
    preorder,
};
use stretch::node::Node;
use std::collections::VecDeque;
use vstd::prelude::*;

verus! {

/// A layout tree, rooted: its elements in pre-order, each with the index of
/// its parent.
pub struct RootView {
    pub(crate) entries: Vec<Entry>,
}

impl View for RootView {
    type V = Seq<Entry>;

    closed spec fn view(&self) -> Seq<Entry> {
        self.entries@
    }
}

/// The work queue of a pre-order traversal: the elements whose subtrees are
/// still to be visited, the next one in front.
pub struct ContentIterator {
    pub(crate) dequeue: VecDeque<usize>,
}

impl ContentIterator {
    /// The queued indices, front first.
    pub closed spec fn queue(&self) -> Seq<int> {
        as_ints(self.dequeue@)
    }

    /// The queue is that of a traversal of `s`: the subtrees of the queued
    /// elements, in queue order, are exactly the elements of `s` that have
    /// not been visited.
    pub open spec fn follows(&self, s: Seq<Entry>) -> bool {
        let q = self.queue();
        &&& forall|k: int| 0 <= k < q.len() ==> 0 <= #[trigger] q[k] < s.len()
        &&& forall|k: int| 0 <= k < q.len() - 1 ==> #[trigger] q[k + 1] == q[k] + s[q[k]].span
        &&& q.len() > 0 ==> q.last() + s[q.last()].span == s.len()
    }

    /// The number of elements of `s` visited so far, which is the index of
    /// the element that comes next.
    pub open spec fn position(&self, s: Seq<Entry>) -> int {
        if self.queue().len() == 0 {
            s.len() as int
        } else {
            self.queue()[0]
        }
    }

    /// The next element of the traversal of `root`: the front of the queue,
    /// whose children take its place in the queue, the first child in front.
    /// The elements come in pre-order, which is the order of their indices.
    pub fn next(&mut self, root: &RootView) -> (visited: Option<usize>)
        requires
            is_tree(root@),
            old(self).follows(root@),
        ensures
            final(self).follows(root@),
            old(self).position(root@) < root@.len() ==> visited == Some(
                old(self).position(root@) as usize,
            ) && final(self).position(root@) == old(self).position(root@) + 1,
            old(self).position(root@) >= root@.len() ==> visited is None && final(self).position(
                root@,
            ) == root@.len(),
            visited matches Some(id) ==> id == preorder(root@, 0)[old(self).position(root@)],
    {
        let ghost s = root@;
        proof {
            lemma_preorder_is_interval(s, 0);
        }
        let ghost q0 = self.queue();
        if let Some(n) = self.dequeue.pop_front() {
            let children = root.children(n);
            let ghost rest = self.queue();
            let ghost cs = as_ints(children@);
            proof {
                assert(q0[0] == n);
                assert(rest.len() == q0.len() - 1);
                assert forall|k: int| 0 <= k < rest.len() implies rest[k] == q0[k + 1] by {}
                lemma_children_of(s, n as int);
            }
            let mut k = children.len();
            while k > 0
                invariant
                    k <= children@.len(),
                    cs == as_ints(children@),
                    self.queue() == cs.subrange(k as int, cs.len() as int) + rest,
                decreases k,
            {
                k -= 1;
                self.dequeue.push_front(children[k]);
                proof {
                    assert(self.queue() == seq![cs[k as int]] + (cs.subrange(
                        k as int + 1,
                        cs.len() as int,
                    ) + rest));
                    assert(seq![cs[k as int]] + cs.subrange(k as int + 1, cs.len() as int)
                        == cs.subrange(k as int, cs.len() as int));
                }
            }
            proof {
                let q = self.queue();
                assert(cs.subrange(0, cs.len() as int) == cs);
                assert(q == cs + rest);
                assert forall|k: int| 0 <= k < q.len() implies 0 <= #[trigger] q[k] < s.len() by {
                    if k < cs.len() {
                        assert(q[k] == cs[k]);
                    } else {
                        assert(q[k] == q0[k - cs.len() + 1]);
                    }
                }
                assert forall|k: int| 0 <= k < q.len() - 1 implies #[trigger] q[k + 1] == q[k]
                    + s[q[k]].span by {
                    if k + 1 < cs.len() {
                        assert(q[k] == cs[k]);
                        assert(q[k + 1] == cs[k + 1]);
                    } else if k + 1 == cs.len() {
                        assert(q[k] == cs.last());
                        assert(q[k + 1] == q0[1]);
                        assert(q0[0int + 1] == q0[0] + s[q0[0]].span);
                    } else {
                        assert(q[k] == q0[k - cs.len() + 1]);
                        assert(q[k + 1] == q0[(k - cs.len() + 1) + 1]);
                    }
                }
                if q.len() > 0 {
                    if rest.len() > 0 {
                        assert(q.last() == q0.last());
                    } else {
                        assert(q.last() == cs.last());
                    }
                }
                if q.len() > 0 {
                    if cs.len() > 0 {
                        assert(q[0] == cs[0]);
                    } else {
                        assert(q[0] == q0[1]);
                        assert(q0[0int + 1] == q0[0] + s[q0[0]].span);
                    }
                }
            }
            Some(n)
        } else {
            None
        }
    }
}

impl RootView {
    /// A tree with every parent recorded.
    pub open spec fn wf(&self) -> bool {
        is_tree(self@) && is_wired(self@)
    }

    /// Roots `content`: stores the tree and wires every element to its
    /// parent.
    pub fn new(content: Element) -> (root: RootView)
        requires
            content.wf(),
        ensures
            root.wf(),
            same_spans_and_kinds(root@, content@),
            forall|i: int| 0 <= i < root@.len() ==> (#[trigger] root@[i]).node is None,
    {
        let mut root = RootView { entries: content.into_entries() };
        root.init();
        root
    }

    /// The number of elements of the tree.
    pub fn len(&self) -> (n: usize)
        ensures
            n == self@.len(),
    {
        self.entries.len()
    }

    /// The entry of the element at `id`.
    pub fn entry(&self, id: usize) -> (e: Entry)
        requires
            id < self@.len(),
        ensures
            e == self@[id as int],
    {
        self.entries[id]
    }

    /// The identity of the element at `id` towards the solver.
    pub fn content_type(&self, id: usize) -> (identity: NodeType)
        requires
            id < self@.len(),
        ensures
            identity == self@[id as int].node_type(),
    {
        let e = self.entries[id];
        match e.kind {
            ElementKind::View { .. } => NodeType::RenderNode { n: e.node },
            _ => NodeType::LayoutNode { n: e.node },
        }
    }

    /// The children of the element at `id`, in declared order.
    pub fn children(&self, id: usize) -> (children: Vec<usize>)
        requires
            is_tree(self@),
            id < self@.len(),
        ensures
            as_ints(children@) == children_of(self@, id as int),
    {
        let ghost s = self@;
        let end = id + self.entries[id].span;
        let mut out: Vec<usize> = Vec::new();
        let mut j = id + 1;
        while j < end
            invariant
                s == self@,
                is_tree(s),
                id < s.len(),
                end == id + s[id as int].span,
                id < j <= end,
                as_ints(out@) + children_from(s, j as int, end as int)
                    == children_of(s, id as int),
            decreases end - j,
        {
            let ghost before = as_ints(out@);
            proof {
                assert(j + s[j as int].span <= end);
            }
            out.push(j);
            proof {
                let rest = children_from(s, j + s[j as int].span, end as int);
                assert(children_from(s, j as int, end as int) == seq![j as int]
                    + rest);
                assert(as_ints(out@) == before + seq![j as int]);
                assert(as_ints(out@) + rest == before + (seq![j as int] + rest));
            }
            j = j + self.entries[j].span;
        }
        proof {
            assert(children_from(s, j as int, end as int) == Seq::<int>::empty());
            assert(as_ints(out@) + Seq::<int>::empty() == as_ints(out@));
        }
        out
    }

    /// The parent that the element at `id` records. Reading it leaves it in
    /// place. In a wired tree it is the parent of the element: an earlier
    /// element, and none for the root alone.
    pub fn parent(&self, id: usize) -> (parent: Option<usize>)
        requires
            id < self@.len(),
        ensures
            parent == self@[id as int].parent,
            self.wf() ==> {
                &&& self@[id as int].records_parent(parent_index(self@, id as int))
                &&& parent matches Some(p) ==> p < id
                &&& parent is None <==> id == 0
            },
    {
        proof {
            if self.wf() && id > 0 {
                lemma_child_of_parent(self@, id as int);
            }
        }
        self.entries[id].parent
    }

    /// Records `parent` as the parent of the element at `child`, whatever was
    /// recorded before. [`RootView::init`] records the right parent of every
    /// element again.
    pub fn set_parent(&mut self, child: usize, parent: usize)
        requires
            child < old(self)@.len(),
        ensures
            final(self)@ == old(self)@.update(
                child as int,
                Entry { parent: Some(parent), ..old(self)@[child as int] },
            ),
    {
        let e = self.entries[child];
        self.entries.set(child, Entry { parent: Some(parent), ..e });
    }

    /// Records `node` as the solver node of the element at `id`.
    pub(crate) fn set_node(&mut self, id: usize, node: Node)
        requires
            id < old(self)@.len(),
        ensures
            final(self)@ == old(self)@.update(
                id as int,
                Entry { node: Some(node), ..old(self)@[id as int] },
            ),
    {
        let e = self.entries[id];
        self.entries.set(id, Entry { node: Some(node), ..e });
    }

    /// A traversal of the tree in pre-order, at its start.
    pub fn iter(&self) -> (traversal: ContentIterator)
        requires
            is_tree(self@),
        ensures
            traversal.follows(self@),
            traversal.position(self@) == 0,
    {
        let mut dequeue: VecDeque<usize> = VecDeque::new();
        dequeue.push_back(0);
        let traversal = ContentIterator { dequeue };
        proof {
            assert(traversal.queue() == seq![0int]);
        }
        traversal
    }

    /// Wires the tree: visits every element in pre-order and records it as
    /// the parent of each of its children. Running it again changes nothing.
    pub fn init(&mut self)
        requires
            is_tree(old(self)@),
        ensures
            final(self).wf(),
            same_spans_and_kinds(final(self)@, old(self)@),
            forall|i: int|
                0 <= i < old(self)@.len() ==> (#[trigger] final(self)@[i]).node == old(
                    self,
                )@[i].node,
    {
        let ghost s0 = self@;
        let root = self.entries[0];
        self.entries.set(0, Entry { parent: None, ..root });
        proof {
            lemma_same_tree(s0, self@);
        }
        let mut traversal = self.iter();
        let n = self.entries.len();
        let mut visited: usize = 0;
        while visited < n
            invariant
                is_tree(s0),
                is_tree(self@),
                n == s0.len(),
                same_spans_and_kinds(self@, s0),
                forall|i: int| 0 <= i < s0.len() ==> (#[trigger] self@[i]).node == s0[i].node,
                traversal.follows(self@),
                traversal.position(self@) == visited,
                visited <= n,
                self@[0].parent is None,
                forall|j: int|
                    1 <= j < n && 0 <= parent_index(s0, j) < visited ==> (#[trigger] self@[j])
                        .records_parent(parent_index(s0, j)),
            decreases n - visited,
        {
            let e = traversal.next(&*self).unwrap();
            let children = self.children(e);
            let ghost cs = children_of(s0, e as int);
            proof {
                lemma_children_from_spans(self@, s0, e + 1, e + s0[e as int].span);
                assert(as_ints(children@) == cs);
            }
            let mut k: usize = 0;
            while k < children.len()
                invariant
                    is_tree(s0),
                    is_tree(self@),
                    n == s0.len(),
                    e < n,
                    k <= children@.len(),
                    cs == children_of(s0, e as int),
                    as_ints(children@) == cs,
                    same_spans_and_kinds(self@, s0),
                    forall|i: int| 0 <= i < s0.len() ==> (#[trigger] self@[i]).node == s0[i].node,
                    traversal.follows(self@),
                    traversal.position(self@) == e + 1,
                    self@[0].parent is None,
                    forall|j: int|
                        1 <= j < n && 0 <= parent_index(s0, j) < e ==> (#[trigger] self@[j])
                            .records_parent(parent_index(s0, j)),
                    forall|m: int| 0 <= m < k ==> self@[#[trigger] cs[m]].parent == Some(e),
                decreases children@.len() - k,
            {
                let c = children[k];
                let ghost s2 = self@;
                proof {
                    assert(cs[k as int] == c);
                    lemma_children_of(s0, e as int);
                    lemma_parent_of_child(s0, e as int, k as int);
                    assert(e < c < n);
                }
                self.set_parent(c, e);
                proof {
                    lemma_same_tree(s2, self@);
                    assert(traversal.follows(self@)) by {
                        let q = traversal.queue();
                        assert forall|i: int| 0 <= i < q.len() - 1 implies #[trigger] q[i + 1]
                            == q[i] + self@[q[i]].span by {
                            assert(self@[q[i]].span == s2[q[i]].span);
                        }
                        if q.len() > 0 {
                            assert(self@[q.last()].span == s2[q.last()].span);
                        }
                    }
                    assert forall|j: int| 1 <= j < n && 0 <= parent_index(s0, j) < e implies (
                    #[trigger] self@[j]).records_parent(parent_index(s0, j)) by {
                        assert(j != c);
                        assert(self@[j] == s2[j]);
                    }
                    assert forall|m: int| 0 <= m < k + 1 implies self@[#[trigger] cs[m]].parent
                        == Some(e) by {
                        assert(e < cs[m] < n);
                        if m < k && cs[m] != c {
                            assert(s2[cs[m]].parent == Some(e));
                            assert(self@[cs[m]] == s2[cs[m]]);
                        }
                    }
                    assert forall|i: int| 0 <= i < s0.len() implies (#[trigger] self@[i]).node
                        == s0[i].node by {
                        assert(s2[i].node == s0[i].node);
                    }
                }
                k += 1;
            }
            proof {
                assert forall|j: int| 1 <= j < n && 0 <= parent_index(s0, j) < e + 1 implies (
                #[trigger] self@[j]).records_parent(parent_index(s0, j)) by {
                    if parent_index(s0, j) == e {
                        let m = lemma_child_of_parent(s0, j);
                        assert(cs[m] == j);
                    }
                }
            }
            visited = e + 1;
        }
        proof {
            assert forall|j: int| 0 <= j < self@.len() implies (#[trigger] self@[j]).records_parent(
                parent_index(self@, j),
            ) by {
                lemma_enclosing_spans(self@, s0, j, j - 1);
                if j >= 1 {
                    lemma_child_of_parent(s0, j);
                }
            }
        }
    }
}

} // verus!
