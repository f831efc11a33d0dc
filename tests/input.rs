use xilem_core::event::{
    EventResult, Handler, KeyEvent, KeyLocation, Message, MouseButton, MouseEvent, Position, RawEvent,
};
use xilem_core::geometry::{Point, Size};
use xilem_core::id::Cx;
use xilem_core::view::{container, h_stack, AnyView, Button, TextView, ViewSequence};
use xilem_core::widget::{move_event, to_i64, PaintOp, Pod, Widget};

struct Bump;

impl Handler<Vec<&'static str>, &'static str> for Bump {
    fn call(&self, app_state: &mut Vec<&'static str>) -> &'static str {
        app_state.push("bump");
        "bumped"
    }
}

fn mouse(x: i64, y: i64) -> MouseEvent {
    MouseEvent {
        pos: Position { x, y },
        window_pos: Position { x, y },
        buttons: 0,
        mods: 0,
        count: 1,
        focus: false,
        button: MouseButton::Left,
        wheel_delta: Position { x: 0, y: 0 },
    }
}

fn sized_button(w: u64, h: u64) -> AnyView<Bump> {
    AnyView::Button(Button::new("b".to_string(), Bump).size_range(Size::new(w, h), Size::new(w, h)))
}

fn sized_text(w: u64, h: u64) -> AnyView<Bump> {
    AnyView::Text(TextView::new("t".to_string()).size_range(Size::new(w, h), Size::new(w, h)))
}

fn laid_out_root() -> (AnyView<Bump>, xilem_core::view::ViewState, Pod) {
    let mut cx = Cx::new();
    let v = AnyView::HStack(h_stack(ViewSequence::new(vec![sized_text(40, 20), sized_button(30, 20)])));
    let (_, st, w) = v.build(&mut cx);
    let mut root = Pod::new(w);
    root.update();
    let _ = root.measure();
    let _ = root.layout(Size::new(200, 20));
    (v, st, root)
}

fn children(p: &Pod) -> &Vec<Pod> {
    match &*p.widget {
        Widget::HStack(h) => &h.children,
        _ => panic!("not a stack"),
    }
}

#[test]
fn click_on_button_reports_its_path_and_runs_handler() {
    let (v, st, mut root) = laid_out_root();
    assert_eq!(children(&root)[1].state.origin, Point::new(40, 0));
    let mut msgs: Vec<Message> = Vec::new();
    root.event(&RawEvent::MouseDown(mouse(50, 5)), &mut msgs);
    assert!(msgs.is_empty());
    assert!(children(&root)[1].state.flags.is_active);
    assert!(root.state.flags.has_active);
    root.event(&RawEvent::MouseUp(mouse(55, 10)), &mut msgs);
    assert_eq!(msgs.len(), 1);
    assert!(!children(&root)[1].state.flags.is_active);
    assert!(!root.state.flags.has_active);
    let mut log: Vec<&'static str> = Vec::new();
    let r = v.event(&msgs[0].id_path[1..], &st, &mut log);
    assert_eq!(r, EventResult::Action("bumped"));
    assert_eq!(log, vec!["bump"]);
}

#[test]
fn release_outside_button_reports_nothing() {
    let (_v, _st, mut root) = laid_out_root();
    let mut msgs: Vec<Message> = Vec::new();
    root.event(&RawEvent::MouseDown(mouse(50, 5)), &mut msgs);
    root.event(&RawEvent::MouseUp(mouse(5, 5)), &mut msgs);
    assert!(msgs.is_empty());
    assert!(!children(&root)[1].state.flags.is_hot);
    assert!(children(&root)[0].state.flags.is_hot);
}

#[test]
fn pointer_outside_root_is_not_hot() {
    let (_v, _st, mut root) = laid_out_root();
    let mut msgs: Vec<Message> = Vec::new();
    root.event(&RawEvent::MouseMove(mouse(500, 5)), &mut msgs);
    assert!(!root.state.flags.is_hot);
    root.event(&RawEvent::MouseMove(mouse(10, 5)), &mut msgs);
    assert!(root.state.flags.is_hot);
    assert!(children(&root)[0].state.flags.is_hot);
    assert!(!children(&root)[1].state.flags.is_hot);
}

#[test]
fn key_events_pass_through_unchanged() {
    let k = KeyEvent {
        key: "a".to_string(),
        code: "KeyA".to_string(),
        location: KeyLocation::Standard,
        mods: 0,
        repeat: false,
        is_composing: false,
    };
    let e = RawEvent::KeyDown(k);
    assert_eq!(move_event(&e, Point::new(3, 4)), e);
    let (_v, _st, mut root) = laid_out_root();
    let mut msgs: Vec<Message> = Vec::new();
    root.event(&e, &mut msgs);
    assert!(msgs.is_empty());
}

#[test]
fn mouse_positions_move_into_child_coordinates() {
    let e = RawEvent::MouseMove(mouse(50, 5));
    match move_event(&e, Point::new(40, 2)) {
        RawEvent::MouseMove(m) => assert_eq!(m.pos, Position { x: 10, y: 3 }),
        _ => panic!("kind changed"),
    }
    assert_eq!(to_i64(i128::MAX), i64::MAX);
    assert_eq!(to_i64(-5), -5);
}

#[test]
fn paint_lists_leaves_at_window_positions() {
    let (_v, _st, root) = laid_out_root();
    let mut ops: Vec<PaintOp> = Vec::new();
    root.paint(Point::new(5, 7), &mut ops);
    assert_eq!(ops.len(), 2);
    match &ops[0] {
        PaintOp::Text { origin, size, text } => {
            assert_eq!(*origin, Point::new(5, 7));
            assert_eq!(*size, Size::new(40, 20));
            assert_eq!(text, "t");
        }
        _ => panic!("expected the text first"),
    }
    match &ops[1] {
        PaintOp::Button { origin, size, label, hot, active } => {
            assert_eq!(*origin, Point::new(45, 7));
            assert_eq!(*size, Size::new(30, 20));
            assert_eq!(label, "b");
            assert!(!*hot && !*active);
        }
        _ => panic!("expected the button second"),
    }
}

#[test]
fn container_paint_is_clipped() {
    let mut cx = Cx::new();
    let v = AnyView::Container(container(sized_text(10, 10)).padding(2));
    let (_, _, w) = v.build(&mut cx);
    let mut root = Pod::new(w);
    root.update();
    let _ = root.measure();
    let _ = root.layout(Size::new(50, 50));
    let mut ops: Vec<PaintOp> = Vec::new();
    root.paint(Point::new(0, 0), &mut ops);
    assert_eq!(ops.len(), 3);
    assert!(matches!(ops[0], PaintOp::PushClip { origin: Point { x: 0, y: 0 }, size: Size { width: 14, height: 14 } }));
    assert!(matches!(ops[1], PaintOp::Text { origin: Point { x: 2, y: 2 }, .. }));
    assert!(matches!(ops[2], PaintOp::PopClip));
}
