//! Resolution: from the solver's boxes, each relative to the box of the
//! parent node, to one absolute rectangle per view.

use crate::element::{parent_index, same_shape, spacing_ok, ElementKind, Entry, NodeType};
use crate::root::RootView;
use crate::shape::{lemma_root_parent, lemma_shape_kept, lemma_wired_kept};
use crate::solver::{NodeBox, Solver, SolverNode, Viewport};
use crate::submit::{all_submitted, distinct_nodes, extends, only_added, submitted};
use stretch::node::Node;
use stretch::Error;
use vstd::prelude::*;

verus! {

/// The absolute rectangle of one view, in whole points.
#[derive(Clone, Copy, Debug, PartialEq, Eq)]
pub struct Layout {
    pub x: i64,
    pub y: i64,
    pub width: i32,
    pub height: i32,
}

/// Why a layout pass failed.
#[derive(Debug)]
pub enum LayoutError {
    /// The solver refused the tree; this is what it said.
    Solver(Error),
}

/// The element at `j` has a solver node, and the solver knows that node.
pub open spec fn is_live(s: Seq<Entry>, nodes: Map<Node, SolverNode>, j: int) -> bool {
    s[j].node matches Some(n) && nodes.contains_key(n)
}

/// What the element at `j` shifts everything below it by, along one axis:
/// the position of its box, or nothing where the solver has no box for it.
pub open spec fn shift(
    s: Seq<Entry>,
    nodes: Map<Node, SolverNode>,
    boxes: Map<Node, NodeBox>,
    j: int,
    vertical: bool,
) -> int {
    if is_live(s, nodes, j) {
        if vertical {
            boxes[s[j].node->0].y as int
        } else {
            boxes[s[j].node->0].x as int
        }
    } else {
        0
    }
}

/// The ancestors of the element at `j`, the parent first and the root last.
pub open spec fn ancestors(s: Seq<Entry>, j: int) -> Seq<int>
    decreases j,
{
    let p = parent_index(s, j);
    if 0 <= p < j {
        seq![p] + ancestors(s, p)
    } else {
        Seq::empty()
    }
}

/// The shifts of the elements of `path`, added up.
pub open spec fn total_shift(
    s: Seq<Entry>,
    nodes: Map<Node, SolverNode>,
    boxes: Map<Node, NodeBox>,
    path: Seq<int>,
    vertical: bool,
) -> int
    decreases path.len(),
{
    if path.len() == 0 {
        0
    } else {
        shift(s, nodes, boxes, path[0], vertical) + total_shift(
            s,
            nodes,
            boxes,
            path.skip(1),
            vertical,
        )
    }
}

/// Where the box of the parent of the element at `j` begins, along one axis:
/// the shifts of all ancestors of `j`, added up.
pub open spec fn origin(
    s: Seq<Entry>,
    nodes: Map<Node, SolverNode>,
    boxes: Map<Node, NodeBox>,
    j: int,
    vertical: bool,
) -> int {
    total_shift(s, nodes, boxes, ancestors(s, j), vertical)
}

/// `v`, or the nearest number that a rectangle can hold.
pub open spec fn clamped(v: int) -> i64 {
    if v > i64::MAX {
        i64::MAX
    } else if v < i64::MIN {
        i64::MIN
    } else {
        v as i64
    }
}

/// The element at `j` yields a rectangle: it is a view, and the solver has a
/// box for it.
pub open spec fn is_visible(s: Seq<Entry>, nodes: Map<Node, SolverNode>, j: int) -> bool {
    s[j].kind.renderable() && is_live(s, nodes, j)
}

/// The rectangle of the element at `j`: the size of its own box, at the
/// position of that box shifted by all its ancestors.
pub open spec fn layout_at(
    s: Seq<Entry>,
    nodes: Map<Node, SolverNode>,
    boxes: Map<Node, NodeBox>,
    j: int,
) -> Layout {
    let own = boxes[s[j].node->0];
    Layout {
        x: clamped(own.x + origin(s, nodes, boxes, j, false)),
        y: clamped(own.y + origin(s, nodes, boxes, j, true)),
        width: own.width,
        height: own.height,
    }
}

/// The rectangles of the visible elements among the first `k`, in pre-order.
pub open spec fn layouts_upto(
    s: Seq<Entry>,
    nodes: Map<Node, SolverNode>,
    boxes: Map<Node, NodeBox>,
    k: int,
) -> Seq<Layout>
    decreases k,
{
    if k <= 0 {
        Seq::empty()
    } else if is_visible(s, nodes, k - 1) {
        layouts_upto(s, nodes, boxes, k - 1).push(layout_at(s, nodes, boxes, k - 1))
    } else {
        layouts_upto(s, nodes, boxes, k - 1)
    }
}

/// The rectangles of all visible elements, in pre-order.
pub open spec fn layouts_of(
    s: Seq<Entry>,
    nodes: Map<Node, SolverNode>,
    boxes: Map<Node, NodeBox>,
) -> Seq<Layout> {
    layouts_upto(s, nodes, boxes, s.len() as int)
}

/// The number nearest to `v` that a rectangle can hold.
fn clamp(v: i128) -> (c: i64)
    ensures
        c == clamped(v as int),
{
    if v > i64::MAX as i128 {
        i64::MAX
    } else if v < i64::MIN as i128 {
        i64::MIN
    } else {
        v as i64
    }
}

impl RootView {
    /// Whether every stack obeys the spacing rule: a stack whose alignment is
    /// distributive declares no spacing.
    pub fn spacing_rule_holds(&self) -> (holds: bool)
        ensures
            holds == spacing_ok(self@),
    {
        let n = self.len();
        let mut i: usize = 0;
        while i < n
            invariant
                n == self@.len(),
                i <= n,
                forall|m: int| 0 <= m < i ==> (#[trigger] self@[m]).kind.spacing_allowed(),
            decreases n - i,
        {
            if let ElementKind::Stack { alignment, spacing, .. } = self.entry(
                i,
            ).kind {
                if alignment.is_special_space() && spacing.is_some() {
                    return false;
                }
            }
            i += 1;
        }
        true
    }

    /// Where the element at `id` stands: the position of `own`, its box,
    /// shifted by every ancestor up to the root. An ancestor for which the
    /// solver has no box shifts nothing. A coordinate beyond what a rectangle
    /// can hold is cut to the nearest that it can.
    pub fn absolute_position(&self, id: usize, own: &NodeBox, engine: &Solver) -> (position: (
        i64,
        i64,
    ))
        requires
            self.wf(),
            id < self@.len(),
        ensures
            position.0 == clamped(
                own.x + origin(
                    self@,
                    engine.nodes(),
                    engine.boxes(),
                    id as int,
                    false,
                ),
            ),
            position.1 == clamped(
                own.y + origin(
                    self@,
                    engine.nodes(),
                    engine.boxes(),
                    id as int,
                    true,
                ),
            ),
    {
        let ghost s = self@;
        let ghost nodes = engine.nodes();
        let ghost boxes = engine.boxes();
        let mut x: i128 = own.x as i128;
        let mut y: i128 = own.y as i128;
        let mut cur = id;
        let ghost mut steps: int = 0;
        while cur > 0
            invariant
                self.wf(),
                s == self@,
                nodes == engine.nodes(),
                boxes == engine.boxes(),
                cur <= id < s.len(),
                0 <= steps <= id - cur,
                x + origin(s, nodes, boxes, cur as int, false) == own.x + origin(
                    s,
                    nodes,
                    boxes,
                    id as int,
                    false,
                ),
                y + origin(s, nodes, boxes, cur as int, true) == own.y + origin(
                    s,
                    nodes,
                    boxes,
                    id as int,
                    true,
                ),
                -(steps + 1) * 0x8000_0000 <= x <= (steps + 1) * 0x8000_0000,
                -(steps + 1) * 0x8000_0000 <= y <= (steps + 1) * 0x8000_0000,
            decreases cur,
        {
            let p = self.parent(cur).unwrap();
            proof {
                let path = ancestors(s, cur as int);
                assert(path == seq![p as int] + ancestors(s, p as int));
                assert(path.skip(1) =~= ancestors(s, p as int));
                assert(path[0] == p);
            }
            if let Some(node) = self.entry(p).node {
                if let Ok(b) = engine.layout(node) {
                    x = x + b.x as i128;
                    y = y + b.y as i128;
                }
            }
            proof {
                steps = steps + 1;
            }
            cur = p;
        }
        proof {
            lemma_root_parent(s);
            assert(ancestors(s, 0) =~= Seq::<int>::empty());
        }
        (clamp(x), clamp(y))
    }

    /// The rectangles of the views, one for every view that the solver has a
    /// box for, in pre-order. A view that was never submitted yields none.
    pub fn resolve(&self, engine: &Solver) -> (layouts: Vec<Layout>)
        requires
            self.wf(),
        ensures
            layouts@ == layouts_of(self@, engine.nodes(), engine.boxes()),
    {
        let ghost s = self@;
        let ghost nodes = engine.nodes();
        let ghost boxes = engine.boxes();
        let n = self.len();
        let mut layouts: Vec<Layout> = Vec::new();
        let mut traversal = self.iter();
        let mut visited: usize = 0;
        while visited < n
            invariant
                self.wf(),
                s == self@,
                nodes == engine.nodes(),
                boxes == engine.boxes(),
                n == s.len(),
                visited <= n,
                traversal.follows(s),
                traversal.position(s) == visited,
                layouts@ == layouts_upto(s, nodes, boxes, visited as int),
            decreases n - visited,
        {
            let id = traversal.next(self).unwrap();
            if let NodeType::RenderNode { n: Some(node) } = self.content_type(id) {
                if let Ok(own) = engine.layout(node) {
                    let position = self.absolute_position(id, &own, engine);
                    layouts.push(
                        Layout {
                            x: position.0,
                            y: position.1,
                            width: own.width,
                            height: own.height,
                        },
                    );
                }
            }
            visited = id + 1;
        }
        layouts
    }

    /// What a layout pass returns once the solver has answered: the
    /// rectangles if it solved the tree, and else its error.
    pub fn collect(&self, engine: &Solver, solved: Result<(), Error>) -> (outcome: Result<
        Vec<Layout>,
        LayoutError,
    >)
        requires
            self.wf(),
        ensures
            match solved {
                Ok(_) => outcome matches Ok(layouts) && layouts@ == layouts_of(
                    self@,
                    engine.nodes(),
                    engine.boxes(),
                ),
                Err(e) => outcome matches Err(LayoutError::Solver(cause)) && cause == e,
            },
    {
        match solved {
            Ok(_) => Ok(self.resolve(engine)),
            Err(e) => Err(LayoutError::Solver(e)),
        }
    }

    /// One layout pass: submits the whole tree to the solver, has the solver
    /// lay it out in `viewport`, and resolves the rectangles of the views.
    ///
    /// It asks that every stack obeys the spacing rule and that the solver
    /// has room for two nodes per element. It always succeeds. Every element
    /// then stands in the solver under a new node of its own, and the solver
    /// has gained no node but those and the fillers of the stacks. The boxes
    /// are the solver's answer for the node of the root and for `viewport`,
    /// given after the submission; the rectangles are resolved from them.
    pub fn compute_layout(&mut self, engine: &mut Solver, viewport: Viewport) -> (outcome: Result<
        Vec<Layout>,
        LayoutError,
    >)
        requires
            old(self).wf(),
            spacing_ok(old(self)@),
            old(engine).wf(),
            old(engine).issued() + 2 * old(self)@.len() <= 0xFFFF_FFFF,
        ensures
            final(self).wf(),
            same_shape(final(self)@, old(self)@),
            final(engine).wf(),
            final(engine).issued() < old(engine).issued() + 2 * old(self)@.len(),
            extends(old(engine).nodes(), final(engine).nodes()),
            all_submitted(
                final(self)@,
                0,
                final(self)@.len() as int,
                old(engine).nodes(),
                final(engine).nodes(),
            ),
            only_added(
                final(self)@,
                0,
                final(self)@.len() as int,
                old(engine).nodes(),
                final(engine).nodes(),
                Seq::empty(),
            ),
            distinct_nodes(final(self)@, 0, final(self)@.len() as int),
            exists|asked: Solver|
                asked.nodes() == final(engine).nodes() && final(engine).boxes()
                    == #[trigger] asked.answer(final(self)@[0].node->0, viewport),
            outcome matches Ok(layouts) && layouts@ == layouts_of(
                final(self)@,
                final(engine).nodes(),
                final(engine).boxes(),
            ),
            shift(final(self)@, final(engine).nodes(), final(engine).boxes(), 0, false) == 0,
            shift(final(self)@, final(engine).nodes(), final(engine).boxes(), 0, true) == 0,
    {
        let ghost s0 = self@;
        let root_node = self.layout_node(0, engine);
        proof {
            lemma_shape_kept(s0, self@);
            lemma_wired_kept(s0, self@);
            assert(submitted(self@, 0, old(engine).nodes(), engine.nodes()));
        }
        let root = match root_node {
            Ok(root) => root,
            Err(e) => {
                return Err(LayoutError::Solver(e));
            },
        };
        let ghost asked = *engine;
        let solved = engine.compute_layout(root, viewport);
        proof {
            assert(engine.boxes() == asked.answer(root, viewport));
        }
        self.collect(engine, solved)
    }
}

} // verus!
