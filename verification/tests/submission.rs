use layout_compiler::alignment::{CrossAlignment, MainAlignment};
use layout_compiler::content::Content;
use layout_compiler::element::{Element, ElementKind, NodeType};
use layout_compiler::frame::Frame;
use layout_compiler::h_stack::HStack;
use layout_compiler::root::RootView;
use layout_compiler::sized_box::SizedBox;
use layout_compiler::solver::{NodeBox, Solver, Viewport};
use layout_compiler::style::FlexDirection;
use layout_compiler::submit::{filler_for, keep_submitted};
use layout_compiler::v_stack::VStack;
use layout_compiler::view::View;
use stretch::geometry::Size;
use stretch::node::Node;
use stretch::style::{AlignContent, Dimension, FlexDirection as SolverDirection, JustifyContent};

fn boxes(n: u16) -> Vec<Element> {
    (0..n).map(|i| SizedBox::new(10 + i, 20 + i).into_element()).collect()
}

fn submit(content: Element) -> (RootView, Solver, Node) {
    let mut root = RootView::new(content);
    let mut engine = Solver::new();
    let node = root.layout_node(0, &mut engine).unwrap();
    (root, engine, node)
}

fn points(width: f32, height: f32) -> Size<Dimension> {
    Size { width: Dimension::Points(width), height: Dimension::Points(height) }
}

#[test]
fn sized_box_becomes_a_leaf_of_its_size() {
    let (root, engine, node) = submit(SizedBox::new(30, 40).into_element());
    assert_eq!(root.entry(0).node, Some(node));
    assert_eq!(root.content_type(0), NodeType::LayoutNode { n: Some(node) });
    assert_eq!(engine.engine().children(node).unwrap(), vec![]);
    let style = engine.engine().style(node).unwrap();
    assert_eq!(style.size, points(30.0, 40.0));
    assert_eq!(style.flex_grow, 0.0);
    assert_eq!(style.min_size, Size { width: Dimension::Auto, height: Dimension::Auto });
    assert_eq!(style.max_size, Size { width: Dimension::Auto, height: Dimension::Auto });
}

#[test]
fn lone_sized_box_submits_itself() {
    let mut engine = Solver::new();
    let mut lone = SizedBox::new(0, 10);
    assert_eq!(lone.content_type().node(), None);
    let node = lone.layout_node(&mut engine).unwrap();
    assert_eq!(engine.engine().style(node).unwrap().size, points(0.0, 10.0));
    assert_eq!(engine.engine().child_count(node).unwrap(), 0);
    assert_eq!(lone.node, Some(node));
    assert_eq!(lone.content_type(), NodeType::LayoutNode { n: Some(node) });
    assert_eq!(lone.content_type().node(), Some(node));
    let other = SizedBox::new(0, 10).layout_node(&mut engine).unwrap();
    assert_ne!(node, other);
    let again = lone.layout_node(&mut engine).unwrap();
    assert_ne!(again, node);
    assert_eq!(lone.content_type().node(), Some(again));
    // a rooted box starts without a node, whatever the block held
    assert_eq!(RootView::new(lone.into_element()).entry(0).node, None);
}

#[test]
fn view_grows_and_lists_its_child() {
    let (_, engine, node) = submit(View::default().into_element());
    assert_eq!(engine.engine().children(node).unwrap(), vec![]);
    assert_eq!(engine.engine().style(node).unwrap().flex_grow, 1.0);
    assert_eq!(
        engine.engine().style(node).unwrap().size,
        Size { width: Dimension::Auto, height: Dimension::Auto }
    );

    let view = View { child: Some(SizedBox::new(1, 2).into_element()), ..View::default() };
    let (root, engine, node) = submit(view.into_element());
    assert_eq!(engine.engine().children(node).unwrap(), vec![root.entry(1).node.unwrap()]);
    assert_eq!(root.content_type(0), NodeType::RenderNode { n: Some(node) });
}

#[test]
fn frame_hands_over_its_constraints_and_its_child() {
    let wrapper = layout_compiler::frame::FrameWrapper {
        frame: Frame::default().width(Some(50)).min_height(Some(5)).max_width(Some(70)),
        content: View::default().into_element(),
    };
    let (root, engine, node) = submit(wrapper.into_element());
    assert_eq!(engine.engine().children(node).unwrap(), vec![root.entry(1).node.unwrap()]);
    let style = engine.engine().style(node).unwrap();
    assert_eq!(style.size, Size { width: Dimension::Points(50.0), height: Dimension::Undefined });
    assert_eq!(
        style.min_size,
        Size { width: Dimension::Undefined, height: Dimension::Points(5.0) }
    );
    assert_eq!(
        style.max_size,
        Size { width: Dimension::Points(70.0), height: Dimension::Undefined }
    );
    assert_eq!(style.flex_grow, 0.0);
}

#[test]
fn spaced_column_puts_a_filler_between_children() {
    let column = VStack::new(MainAlignment::Leading, CrossAlignment::Center, Some(7), boxes(3));
    let (root, engine, node) = submit(column.into_element());
    let children = engine.engine().children(node).unwrap();
    assert_eq!(children.len(), 5);
    for k in 0..3 {
        assert_eq!(children[2 * k], root.entry(1 + k).node.unwrap());
    }
    for k in 0..2 {
        let filler = children[2 * k + 1];
        assert_eq!(engine.engine().style(filler).unwrap().size, points(0.0, 7.0));
        assert_eq!(engine.engine().child_count(filler).unwrap(), 0);
    }
    let style = engine.engine().style(node).unwrap();
    assert_eq!(style.flex_direction, SolverDirection::Column);
    assert_eq!(style.justify_content, JustifyContent::FlexStart);
    assert_eq!(style.align_content, AlignContent::Center);
}

#[test]
fn spaced_row_puts_a_filler_between_children() {
    let row = HStack::new(MainAlignment::Trailing, CrossAlignment::Around, Some(9), boxes(2));
    let (root, engine, node) = submit(row.into_element());
    let children = engine.engine().children(node).unwrap();
    assert_eq!(children.len(), 3);
    assert_eq!(children[0], root.entry(1).node.unwrap());
    assert_eq!(children[2], root.entry(2).node.unwrap());
    assert_eq!(engine.engine().style(children[1]).unwrap().size, points(9.0, 0.0));
    let style = engine.engine().style(node).unwrap();
    assert_eq!(style.flex_direction, SolverDirection::Row);
    assert_eq!(style.justify_content, JustifyContent::FlexEnd);
    assert_eq!(style.align_content, AlignContent::SpaceAround);
}

#[test]
fn spaced_stack_with_one_child_has_no_filler() {
    let column = VStack::new(MainAlignment::Center, CrossAlignment::Center, Some(7), boxes(1));
    let (root, engine, node) = submit(column.into_element());
    assert_eq!(engine.engine().children(node).unwrap(), vec![root.entry(1).node.unwrap()]);
}

#[test]
fn spaced_stack_without_children_has_none() {
    let column = VStack::new(MainAlignment::Center, CrossAlignment::Center, Some(7), boxes(0));
    let (_, engine, node) = submit(column.into_element());
    assert_eq!(engine.engine().child_count(node).unwrap(), 0);
}

#[test]
fn stack_without_spacing_lists_only_its_children() {
    let column = VStack::new(MainAlignment::Leading, CrossAlignment::Stretch, None, boxes(3));
    let (root, engine, node) = submit(column.into_element());
    let expected: Vec<Node> = (1..4).map(|i| root.entry(i).node.unwrap()).collect();
    assert_eq!(engine.engine().children(node).unwrap(), expected);
    assert_eq!(engine.engine().style(node).unwrap().align_content, AlignContent::Stretch);
}

#[test]
fn distributive_stack_leaves_the_gaps_to_the_solver() {
    for (alignment, justify) in [
        (MainAlignment::Between, JustifyContent::SpaceBetween),
        (MainAlignment::Around, JustifyContent::SpaceAround),
        (MainAlignment::Evenly, JustifyContent::SpaceEvenly),
    ] {
        let row = HStack::new(alignment, CrossAlignment::Leading, None, boxes(3));
        let (root, engine, node) = submit(row.into_element());
        let expected: Vec<Node> = (1..4).map(|i| root.entry(i).node.unwrap()).collect();
        assert_eq!(engine.engine().children(node).unwrap(), expected);
        assert_eq!(engine.engine().style(node).unwrap().justify_content, justify);
        assert_eq!(engine.engine().style(node).unwrap().align_content, AlignContent::FlexStart);
    }
}

#[test]
fn submitting_a_subtree_leaves_the_rest_alone() {
    let row = HStack::new(MainAlignment::Leading, CrossAlignment::Leading, Some(3), boxes(2));
    let column = VStack::new(
        MainAlignment::Leading,
        CrossAlignment::Leading,
        None,
        vec![row.into_element(), View::default().into_element()],
    );
    let mut root = RootView::new(column.into_element());
    let mut engine = Solver::new();
    let node = root.layout_node(1, &mut engine).unwrap();
    assert_eq!(root.entry(1).node, Some(node));
    assert!(root.entry(2).node.is_some());
    assert!(root.entry(3).node.is_some());
    assert_eq!(root.entry(0).node, None);
    assert_eq!(root.entry(4).node, None);
    assert_eq!(engine.engine().child_count(node).unwrap(), 3);
}

#[test]
fn every_element_gets_a_node_of_its_own() {
    let row = HStack::new(MainAlignment::Leading, CrossAlignment::Leading, Some(3), boxes(3));
    let (root, _, _) = submit(row.into_element());
    let mut nodes: Vec<Node> = (0..root.len()).map(|i| root.entry(i).node.unwrap()).collect();
    let n = nodes.len();
    nodes.dedup();
    assert_eq!(nodes.len(), n);
    for i in 0..n {
        for j in 0..i {
            assert_ne!(nodes[i], nodes[j]);
        }
    }
}

#[test]
fn a_second_pass_overwrites_the_nodes() {
    let mut root = RootView::new(View::default().absolute_frame(5, 6).into_element());
    let mut engine = Solver::new();
    let first = root.layout_node(0, &mut engine).unwrap();
    let second = root.layout_node(0, &mut engine).unwrap();
    assert_ne!(first, second);
    assert_eq!(root.entry(0).node, Some(second));
}

#[test]
fn filler_follows_direction_and_alignment() {
    let stack = |direction, alignment, spacing| ElementKind::Stack {
        direction,
        alignment,
        cross: CrossAlignment::Center,
        spacing,
    };
    assert_eq!(
        filler_for(&stack(FlexDirection::Column, MainAlignment::Leading, Some(7))),
        Some(SizedBox::new(0, 7))
    );
    assert_eq!(
        filler_for(&stack(FlexDirection::Row, MainAlignment::Center, Some(7))),
        Some(SizedBox::new(7, 0))
    );
    assert_eq!(filler_for(&stack(FlexDirection::Row, MainAlignment::Trailing, None)), None);
    assert_eq!(filler_for(&stack(FlexDirection::Row, MainAlignment::Between, None)), None);
    assert_eq!(filler_for(&stack(FlexDirection::Row, MainAlignment::Evenly, Some(7))), None);
    assert_eq!(filler_for(&ElementKind::SizedBox { width: 1, height: 1 }), None);
}

#[test]
fn failed_submission_is_left_out() {
    let mut engine = Solver::new();
    let a = SizedBox::new(1, 1).layout_node(&mut engine).unwrap();
    let b = SizedBox::new(2, 2).layout_node(&mut engine).unwrap();
    assert_eq!(engine.room(), u32::MAX - 2);
    let mut list = Vec::new();
    assert!(keep_submitted(&mut list, &Ok(a)));
    assert!(!keep_submitted(&mut list, &Err(stretch::Error::InvalidNode(a))));
    assert!(keep_submitted(&mut list, &Ok(b)));
    assert_eq!(list, vec![a, b]);
}

#[test]
fn spacing_rule_is_checked_over_the_whole_tree() {
    let good = VStack::new(MainAlignment::Between, CrossAlignment::Center, None, boxes(2));
    assert!(RootView::new(good.into_element()).spacing_rule_holds());
    let spaced = VStack::new(MainAlignment::Center, CrossAlignment::Center, Some(4), boxes(2));
    assert!(RootView::new(spaced.into_element()).spacing_rule_holds());
    for alignment in [MainAlignment::Between, MainAlignment::Around, MainAlignment::Evenly] {
        for v in [0, 1, 10, u16::MAX] {
            let bad = HStack::new(alignment, CrossAlignment::Center, Some(v), boxes(2));
            let outer = VStack::new(
                MainAlignment::Leading,
                CrossAlignment::Center,
                None,
                vec![View::default().into_element(), bad.into_element()],
            );
            assert!(!RootView::new(outer.into_element()).spacing_rule_holds());
        }
    }
}

#[test]
fn new_solver_is_empty_and_counts_every_node_asked_for() {
    let mut engine = Solver::new();
    assert_eq!(engine.room(), u32::MAX);
    let style = ElementKind::SizedBox { width: 1, height: 2 }.node_style();
    let a = engine.new_node(&style, vec![]).unwrap();
    assert_eq!(engine.room(), u32::MAX - 1);
    assert_eq!(engine.engine().style(a).unwrap().size, points(1.0, 2.0));
    // a child of another instance is not live here: refused, and counted
    let mut other = Solver::new();
    let foreign = other.new_node(&style, vec![]).unwrap();
    assert!(engine.layout(foreign).is_err());
    assert!(engine.new_node(&style, vec![a, foreign]).is_err());
    assert_eq!(engine.room(), u32::MAX - 2);
    assert!(engine.compute_layout(foreign, Viewport { width: None, height: None }).is_err());
    let b = engine.new_node(&style, vec![a]).unwrap();
    assert_ne!(a, b);
    assert_eq!(engine.engine().children(b).unwrap(), vec![a]);
    assert!(engine.compute_layout(b, Viewport { width: Some(9), height: None }).is_ok());
    assert_eq!(engine.layout(a).unwrap(), NodeBox { x: 0, y: 0, width: 1, height: 2 });
    assert_eq!(engine.room(), u32::MAX - 3);
}

#[test]
fn pass_takes_fewer_than_two_nodes_per_element() {
    let row = HStack::new(MainAlignment::Leading, CrossAlignment::Leading, Some(3), boxes(4));
    let mut root = RootView::new(row.into_element());
    let mut engine = Solver::new();
    root.layout_node(0, &mut engine).unwrap();
    // five elements and three fillers
    assert_eq!(engine.room(), u32::MAX - 8);
    assert!(8 < 2 * root.len());
}

#[test]
fn subtree_can_be_submitted_beside_a_stack_that_breaks_the_rule() {
    let bad = HStack::new(MainAlignment::Between, CrossAlignment::Leading, Some(3), boxes(2));
    let column = VStack::new(
        MainAlignment::Leading,
        CrossAlignment::Leading,
        None,
        vec![View::default().into_element(), bad.into_element()],
    );
    let mut root = RootView::new(column.into_element());
    assert!(!root.spacing_rule_holds());
    let mut engine = Solver::new();
    let node = root.layout_node(1, &mut engine).unwrap();
    assert_eq!(root.entry(1).node, Some(node));
    assert_eq!(root.entry(2).node, None);
}
