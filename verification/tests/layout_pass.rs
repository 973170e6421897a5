use layout_compiler::alignment::{CrossAlignment, MainAlignment};
use layout_compiler::content::Content;
use layout_compiler::h_stack::HStack;
use layout_compiler::resolve::{Layout, LayoutError};
use layout_compiler::root::RootView;
use layout_compiler::sized_box::SizedBox;
use layout_compiler::solver::{NodeBox, Solver, Viewport};
use layout_compiler::v_stack::VStack;
use layout_compiler::view::View;

fn viewport(width: u16, height: u16) -> Viewport {
    Viewport { width: Some(width), height: Some(height) }
}

#[test]
fn it_works() {
    let v1 = View::default().absolute_frame(50, 100);
    let v2 = View::default().absolute_frame(100, 100);
    let v3 = View::default().absolute_frame(50, 50);
    let hc = vec![v1.into_element(), v2.into_element()];
    let h_stack = HStack::new(MainAlignment::Center, CrossAlignment::Center, Some(10), hc);
    let vc = vec![h_stack.into_element(), v3.into_element()];
    let v_stack = VStack::new(MainAlignment::Leading, CrossAlignment::Center, None, vc);
    let mut root = RootView::new(v_stack.into_element());

    let mut sttch = Solver::new();
    if let Ok(layouts) = root.compute_layout(&mut sttch, viewport(200, 200)) {
        for l in layouts {
            println!("layout x: {}, y: {}, width: {}, height: {}", l.x, l.y, l.width, l.height);
        }
    }
    if let Some(n) = root.content_type(0).node() {
        let l = sttch.engine().layout(n).unwrap();
        println!(
            "root layout: x: {}, y: {}, width: {}, height: {}",
            l.location.x, l.location.y, l.size.width, l.size.height
        );
    }
}

#[test]
fn single_framed_view_in_a_vertical_stack() {
    let view = View::default().absolute_frame(50, 100);
    let stack = VStack::new(
        MainAlignment::Leading,
        CrossAlignment::Center,
        None,
        vec![view.into_element()],
    );
    let mut root = RootView::new(stack.into_element());
    let mut engine = Solver::new();
    let layouts = root.compute_layout(&mut engine, viewport(200, 200)).unwrap();
    assert_eq!(layouts, vec![Layout { x: 0, y: 0, width: 50, height: 100 }]);
}

#[test]
fn spaced_row_inside_a_column() {
    let v1 = View::default().absolute_frame(50, 100);
    let v2 = View::default().absolute_frame(100, 100);
    let v3 = View::default().absolute_frame(50, 50);
    let row = HStack::new(
        MainAlignment::Center,
        CrossAlignment::Center,
        Some(10),
        vec![v1.into_element(), v2.into_element()],
    );
    let column = VStack::new(
        MainAlignment::Leading,
        CrossAlignment::Center,
        None,
        vec![row.into_element(), v3.into_element()],
    );
    let mut root = RootView::new(column.into_element());
    let mut engine = Solver::new();
    let layouts = root.compute_layout(&mut engine, viewport(200, 200)).unwrap();
    for l in &layouts {
        println!("{:?}", l);
    }
    assert_eq!(layouts.len(), 3);
    assert_eq!((layouts[0].width, layouts[0].height), (50, 100));
    assert_eq!((layouts[1].width, layouts[1].height), (100, 100));
    assert_eq!((layouts[2].width, layouts[2].height), (50, 50));
    assert_eq!(
        layouts,
        vec![
            Layout { x: 0, y: 0, width: 50, height: 100 },
            Layout { x: 60, y: 0, width: 100, height: 100 },
            Layout { x: 0, y: 100, width: 50, height: 50 },
        ]
    );
}

fn exact(width: u16, height: u16) -> layout_compiler::element::Element {
    View::default().absolute_frame(width, height).into_element()
}

#[test]
fn position_adds_up_every_ancestor() {
    // column[ box 20x30, gap 7, row[ box 15x10, gap 4, frame 10x10 [view] ] ]
    let row = HStack::new(
        MainAlignment::Leading,
        CrossAlignment::Leading,
        Some(4),
        vec![SizedBox::new(15, 10).into_element(), exact(10, 10)],
    );
    let column = VStack::new(
        MainAlignment::Leading,
        CrossAlignment::Leading,
        Some(7),
        vec![SizedBox::new(20, 30).into_element(), row.into_element()],
    );
    let mut root = RootView::new(column.into_element());
    let mut engine = Solver::new();
    let layouts = root.compute_layout(&mut engine, viewport(200, 200)).unwrap();
    assert_eq!(layouts, vec![Layout { x: 19, y: 37, width: 10, height: 10 }]);

    // the same sum, by hand, from the solver's own boxes
    let view = root.len() - 1;
    let mut x = 0.0;
    let mut y = 0.0;
    let mut at = Some(view);
    while let Some(id) = at {
        let own = engine.engine().layout(root.entry(id).node.unwrap()).unwrap();
        x += own.location.x;
        y += own.location.y;
        at = root.parent(id);
    }
    assert_eq!((x, y), (19.0, 37.0));
    let root_box = engine.engine().layout(root.entry(0).node.unwrap()).unwrap();
    assert_eq!((root_box.location.x, root_box.location.y), (0.0, 0.0));
}

#[test]
fn position_of_one_element_from_a_given_box() {
    let column = VStack::new(
        MainAlignment::Leading,
        CrossAlignment::Leading,
        Some(7),
        vec![SizedBox::new(20, 30).into_element(), exact(10, 10)],
    );
    let mut root = RootView::new(column.into_element());
    let mut engine = Solver::new();
    root.compute_layout(&mut engine, viewport(200, 200)).unwrap();
    let own = NodeBox { x: 3, y: -4, width: 1, height: 1 };
    // the view at 3 stands in the frame at 2, which the column puts at (0, 37)
    assert_eq!(root.absolute_position(3, &own, &engine), (3, 33));
    assert_eq!(root.absolute_position(2, &own, &engine), (3, -4));
    assert_eq!(root.absolute_position(0, &own, &engine), (3, -4));
}

#[test]
fn one_rectangle_per_view_in_pre_order() {
    let inner = View { child: Some(exact(5, 5)), ..View::default() };
    let column = VStack::new(
        MainAlignment::Leading,
        CrossAlignment::Leading,
        None,
        vec![
            exact(10, 10),
            SizedBox::new(1, 1).into_element(),
            inner.absolute_frame(20, 20).into_element(),
        ],
    );
    let mut root = RootView::new(column.into_element());
    let mut engine = Solver::new();
    let layouts = root.compute_layout(&mut engine, viewport(100, 100)).unwrap();
    assert_eq!(layouts.len(), 3);
    assert_eq!((layouts[0].width, layouts[0].height), (10, 10));
    assert_eq!((layouts[1].width, layouts[1].height), (20, 20));
    assert_eq!((layouts[2].width, layouts[2].height), (5, 5));
    assert_eq!((layouts[0].x, layouts[0].y), (0, 0));
    assert_eq!((layouts[1].x, layouts[1].y), (0, 11));
    assert_eq!((layouts[2].x, layouts[2].y), (0, 11));
}

#[test]
fn tree_without_views_yields_no_rectangle() {
    let mut root = RootView::new(SizedBox::new(5, 5).into_element());
    let mut engine = Solver::new();
    assert_eq!(root.compute_layout(&mut engine, viewport(10, 10)).unwrap(), vec![]);
}

#[test]
fn view_that_was_never_submitted_yields_no_rectangle() {
    let column = VStack::new(
        MainAlignment::Leading,
        CrossAlignment::Leading,
        None,
        vec![exact(10, 10), exact(20, 20)],
    );
    let mut root = RootView::new(column.into_element());
    let engine = Solver::new();
    assert_eq!(root.resolve(&engine), vec![]);

    // only the first child stands in the solver
    let mut engine = Solver::new();
    root.layout_node(1, &mut engine).unwrap();
    let layouts = root.resolve(&engine);
    assert_eq!(layouts.len(), 1);
}

#[test]
fn view_unknown_to_the_solver_yields_no_rectangle() {
    let mut root = RootView::new(exact(10, 10));
    let mut engine = Solver::new();
    root.compute_layout(&mut engine, viewport(50, 50)).unwrap();
    let other = Solver::new();
    assert_eq!(root.resolve(&other), vec![]);
}

#[test]
fn solver_error_ends_the_pass() {
    let mut root = RootView::new(exact(10, 10));
    let mut engine = Solver::new();
    let node = root.layout_node(0, &mut engine).unwrap();
    match root.collect(&engine, Err(stretch::Error::InvalidNode(node))) {
        Err(LayoutError::Solver(stretch::Error::InvalidNode(n))) => assert_eq!(n, node),
        other => panic!("unexpected outcome: {:?}", other),
    }
    engine.compute_layout(node, Viewport { width: None, height: None }).unwrap();
    assert_eq!(
        root.collect(&engine, Ok(())).unwrap(),
        vec![Layout { x: 0, y: 0, width: 10, height: 10 }]
    );
}

#[test]
fn undefined_viewport_sizes_to_content() {
    let column = VStack::new(
        MainAlignment::Leading,
        CrossAlignment::Leading,
        Some(5),
        vec![exact(10, 10), exact(30, 20)],
    );
    let mut root = RootView::new(column.into_element());
    let mut engine = Solver::new();
    let layouts =
        root.compute_layout(&mut engine, Viewport { width: None, height: None }).unwrap();
    assert_eq!(
        layouts,
        vec![
            Layout { x: 0, y: 0, width: 10, height: 10 },
            Layout { x: 0, y: 15, width: 30, height: 20 },
        ]
    );
    let root_box = engine.engine().layout(root.entry(0).node.unwrap()).unwrap();
    assert_eq!((root_box.size.width, root_box.size.height), (30.0, 35.0));
}

#[test]
fn lone_view_has_no_size_of_its_own() {
    let mut root = RootView::new(View::default().into_element());
    let mut engine = Solver::new();
    let layouts = root.compute_layout(&mut engine, viewport(120, 80)).unwrap();
    assert_eq!(layouts, vec![Layout { x: 0, y: 0, width: 0, height: 0 }]);
}

#[test]
fn view_fills_its_frame() {
    let mut root = RootView::new(exact(100, 50));
    let mut engine = Solver::new();
    let layouts = root.compute_layout(&mut engine, viewport(120, 80)).unwrap();
    assert_eq!(layouts, vec![Layout { x: 0, y: 0, width: 100, height: 50 }]);
}

#[test]
fn layout_can_be_computed_again() {
    let mut root = RootView::new(exact(10, 10));
    let mut engine = Solver::new();
    let first = root.compute_layout(&mut engine, viewport(50, 50)).unwrap();
    let node = root.entry(0).node;
    let second = root.compute_layout(&mut engine, viewport(50, 50)).unwrap();
    assert_eq!(first, second);
    assert_ne!(root.entry(0).node, node);
}
