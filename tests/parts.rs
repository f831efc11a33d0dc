use xilem_core::diagram::{ConnectorType, DiagramControl, DiagramText, EnhancedGeometry};
use xilem_core::geometry::{add_sat, clamp_of, sub_sat, Size};
use xilem_core::widget::{spacing_for, Container, HStack, OptionWidget, Pod, TextWidget, VertAlignment, Widget};

#[test]
fn diagram_text_copies_its_text() {
    let t = DiagramText::new("hello");
    assert_eq!(t.child, "hello");
    assert_ne!(EnhancedGeometry::Ellipse, EnhancedGeometry::Rectangle);
    assert_ne!(ConnectorType::Straight, ConnectorType::Curved);
    assert_ne!(DiagramControl::Selection, DiagramControl::Circle);
}

#[test]
fn saturating_helpers() {
    assert_eq!(add_sat(u64::MAX, 1), u64::MAX);
    assert_eq!(sub_sat(3, 5), 0);
    assert_eq!(clamp_of(5, 10, 20), 10);
    assert_eq!(clamp_of(25, 10, 20), 20);
    assert_eq!(spacing_for(4, 0), 0);
    assert_eq!(spacing_for(4, 3), 8);
}

fn text_widget() -> Widget {
    Widget::Text(TextWidget {
        text: "x".to_string(),
        min_size: Size::new(1, 1),
        max_size: Size::new(9, 9),
    })
}

#[test]
fn option_widget_child_access() {
    let mut o = OptionWidget::new(None);
    assert!(o.child_mut().is_none());
    o.set_child(Some(text_widget()));
    let pod = o.child_mut().unwrap();
    assert!(pod.state.flags.request_update);
    pod.state.flags.request_update = false;
    assert!(!o.child.as_ref().unwrap().state.flags.request_update);
    o.set_child(None);
    assert!(o.child.is_none());
}

#[test]
fn option_widget_lays_out_child_or_nothing() {
    let mut root = Pod::new(Widget::Option(OptionWidget::new(Some(text_widget()))));
    root.update();
    let (min, max) = root.measure();
    assert_eq!(min, Size::new(0, 0));
    assert_eq!(max, Size::new(1_000_000_000, 1_000_000_000));
    assert_eq!(root.layout(Size::new(50, 3)), Size::new(9, 3));
    let mut empty = Pod::new(Widget::Option(OptionWidget::new(None)));
    empty.update();
    let _ = empty.measure();
    assert_eq!(empty.layout(Size::new(50, 3)), Size::new(0, 0));
}

#[test]
fn update_clears_request_and_marks_layout() {
    let mut p = Pod::new(text_widget());
    p.state.flags.request_layout = false;
    p.update();
    assert!(!p.state.flags.request_update);
    assert!(p.state.flags.request_layout);
    let before = p.state;
    p.update();
    assert_eq!(p.state, before);
    p.request_update();
    assert!(p.state.flags.request_update);
}

#[test]
fn container_and_stack_widget_accessors() {
    let mut c = Container::new(text_widget());
    assert!(c.child_mut().state.flags.request_update);
    c.padding(1, 2, 3, 4);
    assert_eq!((c.padding_top, c.padding_right, c.padding_bottom, c.padding_left), (1, 2, 3, 4));
    let mut root = Pod::new(Widget::Container(c));
    root.update();
    let _ = root.measure();
    assert_eq!(root.layout(Size::new(100, 100)), Size::new(15, 13));
    let mut h = HStack::new(vec![Pod::new(text_widget())], VertAlignment::Bottom);
    assert_eq!(h.spacing, 0);
    h.children_mut().push(Pod::new(text_widget()));
    assert_eq!(h.children.len(), 2);
}
