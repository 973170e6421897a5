use layout_compiler::alignment::{CrossAlignment, MainAlignment};
use layout_compiler::content::Content;
use layout_compiler::element::{Color, ElementKind, Entry, NodeType};
use layout_compiler::frame::{convert_options, Frame, FrameWrapper};
use layout_compiler::h_stack::HStack;
use layout_compiler::sized_box::SizedBox;
use layout_compiler::style::{
    AlignContent, Dimension, FlexDirection, JustifyContent, NodeStyle, Size,
};
use layout_compiler::v_stack::VStack;
use layout_compiler::view::View;

fn fresh(kind: ElementKind, span: usize) -> Entry {
    Entry { kind, span, parent: None, node: None }
}

fn white_view() -> ElementKind {
    ElementKind::View { background_color: Color::Write }
}

#[test]
fn distributive_alignments_are_special() {
    assert!(!MainAlignment::Leading.is_special_space());
    assert!(!MainAlignment::Center.is_special_space());
    assert!(!MainAlignment::Trailing.is_special_space());
    assert!(MainAlignment::Between.is_special_space());
    assert!(MainAlignment::Around.is_special_space());
    assert!(MainAlignment::Evenly.is_special_space());
}

#[test]
fn main_alignment_becomes_justification() {
    assert_eq!(MainAlignment::Leading.convert_to_justify_content(), JustifyContent::FlexStart);
    assert_eq!(MainAlignment::Center.convert_to_justify_content(), JustifyContent::Center);
    assert_eq!(MainAlignment::Trailing.convert_to_justify_content(), JustifyContent::FlexEnd);
    assert_eq!(MainAlignment::Between.convert_to_justify_content(), JustifyContent::SpaceBetween);
    assert_eq!(MainAlignment::Around.convert_to_justify_content(), JustifyContent::SpaceAround);
    assert_eq!(MainAlignment::Evenly.convert_to_justify_content(), JustifyContent::SpaceEvenly);
}

#[test]
fn cross_alignment_becomes_line_alignment() {
    assert_eq!(CrossAlignment::Leading.convert_to_align_content(), AlignContent::FlexStart);
    assert_eq!(CrossAlignment::Center.convert_to_align_content(), AlignContent::Center);
    assert_eq!(CrossAlignment::Trailing.convert_to_align_content(), AlignContent::FlexEnd);
    assert_eq!(CrossAlignment::Stretch.convert_to_align_content(), AlignContent::Stretch);
    assert_eq!(CrossAlignment::Between.convert_to_align_content(), AlignContent::SpaceBetween);
    assert_eq!(CrossAlignment::Around.convert_to_align_content(), AlignContent::SpaceAround);
}

#[test]
fn absent_length_is_undefined_not_zero() {
    assert_eq!(convert_options(None), Dimension::Undefined);
    assert_eq!(convert_options(Some(0)), Dimension::Points(0));
    assert_eq!(convert_options(Some(42)), Dimension::Points(42));
}

#[test]
fn default_frame_constrains_nothing() {
    let frame = Frame::default();
    assert_eq!(
        frame,
        Frame {
            width: None,
            min_width: None,
            max_width: None,
            height: None,
            min_height: None,
            max_height: None
        }
    );
    let undefined = Size { width: Dimension::Undefined, height: Dimension::Undefined };
    assert_eq!(frame.size(), undefined);
    assert_eq!(frame.min_size(), undefined);
    assert_eq!(frame.max_size(), undefined);
}

#[test]
fn frame_setters_touch_one_length_each() {
    let frame = Frame::default()
        .width(Some(1))
        .min_width(Some(2))
        .max_width(Some(3))
        .height(Some(4))
        .min_height(Some(5))
        .max_height(Some(6));
    assert_eq!(
        frame,
        Frame {
            width: Some(1),
            min_width: Some(2),
            max_width: Some(3),
            height: Some(4),
            min_height: Some(5),
            max_height: Some(6)
        }
    );
    assert_eq!(frame.size(), Size { width: Dimension::Points(1), height: Dimension::Points(4) });
    assert_eq!(
        frame.min_size(),
        Size { width: Dimension::Points(2), height: Dimension::Points(5) }
    );
    assert_eq!(
        frame.max_size(),
        Size { width: Dimension::Points(3), height: Dimension::Points(6) }
    );
    assert_eq!(frame.width(None).width, None);
}

#[test]
fn wrapper_builders_set_the_frame() {
    let wrapper = FrameWrapper::new(SizedBox::new(1, 2).into_element());
    assert_eq!(wrapper.frame, Frame::default());
    let wrapper = wrapper.width(10);
    assert_eq!(wrapper.frame, Frame::default().width(Some(10)));
    let wrapper = wrapper.height(20);
    assert_eq!(wrapper.frame, Frame::default().width(Some(10)).height(Some(20)));
    let wrapper = FrameWrapper { frame: Frame::default().min_width(Some(5)), ..wrapper };
    let wrapper = wrapper.absolute(30, 40);
    assert_eq!(wrapper.frame, Frame::default().width(Some(30)).height(Some(40)));
    let wrapper = wrapper.option(None, Some(7));
    assert_eq!(wrapper.frame, Frame::default().height(Some(7)));
    assert_eq!(wrapper.content.len(), 1);
}

#[test]
fn framing_conveniences_wrap_the_content() {
    let plain = View::default().default_frame();
    assert_eq!(plain.frame, Frame::default());
    assert_eq!(plain.content.len(), 1);
    assert_eq!(plain.content.entry(0), fresh(white_view(), 1));

    let optional = SizedBox::new(3, 4).frame(Some(9), None);
    assert_eq!(optional.frame, Frame::default().width(Some(9)));
    assert_eq!(
        optional.content.entry(0),
        fresh(ElementKind::SizedBox { width: 3, height: 4 }, 1)
    );

    let absolute = View::default().absolute_frame(50, 100);
    assert_eq!(absolute.frame, Frame::default().width(Some(50)).height(Some(100)));

    let twice = absolute.absolute_frame(60, 110);
    assert_eq!(twice.content.len(), 2);
    assert_eq!(
        twice.content.entry(0),
        fresh(
            ElementKind::Frame { frame: Frame::default().width(Some(50)).height(Some(100)) },
            2
        )
    );
}

#[test]
fn blocks_report_their_identity() {
    assert_eq!(SizedBox::new(1, 1).content_type(), NodeType::LayoutNode { n: None });
    assert_eq!(View::default().content_type(), NodeType::RenderNode { n: None });
    assert_eq!(View::default().default_frame().content_type(), NodeType::LayoutNode { n: None });
    let column = VStack::new(MainAlignment::Leading, CrossAlignment::Leading, None, vec![]);
    assert_eq!(column.content_type(), NodeType::LayoutNode { n: None });
    let row = HStack::new(MainAlignment::Leading, CrossAlignment::Leading, None, vec![]);
    assert_eq!(row.content_type(), NodeType::LayoutNode { n: None });
    assert_eq!(NodeType::RenderNode { n: None }.node(), None);
    assert_eq!(NodeType::LayoutNode { n: None }.node(), None);
}

#[test]
fn default_view_is_white_and_childless() {
    let view = View::default();
    assert_eq!(view.background_color, Color::Write);
    assert!(view.child.is_none());
}

#[test]
fn view_with_a_child_is_stored_before_it() {
    let view = View {
        background_color: Color::RGBA(1, 2, 3, 128),
        child: Some(SizedBox::new(5, 6).into_element()),
    };
    let element = view.into_element();
    assert_eq!(element.len(), 2);
    assert_eq!(
        element.entry(0),
        fresh(ElementKind::View { background_color: Color::RGBA(1, 2, 3, 128) }, 2)
    );
    assert_eq!(element.entry(1), fresh(ElementKind::SizedBox { width: 5, height: 6 }, 1));
}

#[test]
fn stack_is_stored_in_pre_order_with_spans() {
    let v1 = View::default().absolute_frame(50, 100);
    let v2 = View::default().absolute_frame(100, 100);
    let v3 = View::default().absolute_frame(50, 50);
    let row = HStack::new(
        MainAlignment::Center,
        CrossAlignment::Center,
        Some(10),
        vec![v1.into_element(), v2.into_element()],
    );
    assert_eq!(row.spacing, Some(10));
    assert_eq!(row.content.len(), 2);
    let column = VStack::new(
        MainAlignment::Leading,
        CrossAlignment::Center,
        None,
        vec![row.into_element(), v3.into_element()],
    );
    let element = column.into_element();
    let frame = |w, h| ElementKind::Frame { frame: Frame::default().width(Some(w)).height(Some(h)) };
    let expected = vec![
        fresh(
            ElementKind::Stack {
                direction: FlexDirection::Column,
                alignment: MainAlignment::Leading,
                cross: CrossAlignment::Center,
                spacing: None,
            },
            8,
        ),
        fresh(
            ElementKind::Stack {
                direction: FlexDirection::Row,
                alignment: MainAlignment::Center,
                cross: CrossAlignment::Center,
                spacing: Some(10),
            },
            5,
        ),
        fresh(frame(50, 100), 2),
        fresh(white_view(), 1),
        fresh(frame(100, 100), 2),
        fresh(white_view(), 1),
        fresh(frame(50, 50), 2),
        fresh(white_view(), 1),
    ];
    assert_eq!(element.len(), expected.len());
    for (i, e) in expected.iter().enumerate() {
        assert_eq!(element.entry(i), *e);
    }
}

#[test]
fn empty_stack_is_a_single_element() {
    let column = VStack::new(MainAlignment::Evenly, CrossAlignment::Stretch, None, vec![]);
    let element = column.into_element();
    assert_eq!(element.len(), 1);
    assert_eq!(element.entry(0).span, 1);
}

#[test]
fn each_kind_has_its_style() {
    let plain = NodeStyle::default();
    assert_eq!(
        plain,
        NodeStyle {
            flex_direction: FlexDirection::Row,
            justify_content: JustifyContent::FlexStart,
            align_content: AlignContent::Stretch,
            flex_grow: 0,
            size: Size { width: Dimension::Auto, height: Dimension::Auto },
            min_size: Size { width: Dimension::Auto, height: Dimension::Auto },
            max_size: Size { width: Dimension::Auto, height: Dimension::Auto },
        }
    );
    assert_eq!(
        ElementKind::SizedBox { width: 3, height: 4 }.node_style(),
        NodeStyle {
            size: Size { width: Dimension::Points(3), height: Dimension::Points(4) },
            ..plain
        }
    );
    assert_eq!(white_view().node_style(), NodeStyle { flex_grow: 1, ..plain });
    let undefined = Size { width: Dimension::Undefined, height: Dimension::Undefined };
    assert_eq!(
        ElementKind::Frame { frame: Frame::default().width(Some(8)).max_height(Some(9)) }
            .node_style(),
        NodeStyle {
            size: Size { width: Dimension::Points(8), height: Dimension::Undefined },
            min_size: undefined,
            max_size: Size { width: Dimension::Undefined, height: Dimension::Points(9) },
            ..plain
        }
    );
    assert_eq!(
        ElementKind::Stack {
            direction: FlexDirection::Column,
            alignment: MainAlignment::Around,
            cross: CrossAlignment::Trailing,
            spacing: None,
        }
        .node_style(),
        NodeStyle {
            flex_direction: FlexDirection::Column,
            justify_content: JustifyContent::SpaceAround,
            align_content: AlignContent::FlexEnd,
            ..plain
        }
    );
}
