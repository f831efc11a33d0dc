use xilem_core::event::{EventResult, Handler};
use xilem_core::geometry::{Point, Size, UNBOUNDED};
use xilem_core::id::{Cx, Id};
use xilem_core::optional::{optional, Optional};
use xilem_core::view::{
    container, find_slot, h_stack, AnyView, Button, Container, HStack, TextView, ViewSequence,
    ViewState,
};
use xilem_core::widget::{Pod, VertAlignment, Widget};

/// Adds its amount to a counter and returns the new count.
#[derive(Clone, Debug, PartialEq)]
struct Add(u32);

impl Handler<u32, u32> for Add {
    fn call(&self, app_state: &mut u32) -> u32 {
        *app_state += self.0;
        *app_state
    }
}

fn text(s: &str) -> AnyView<Add> {
    AnyView::Text(TextView::new(s.to_string()))
}

fn button(s: &str, n: u32) -> AnyView<Add> {
    AnyView::Button(Button::new(s.to_string(), Add(n)))
}

fn stack(views: Vec<AnyView<Add>>) -> AnyView<Add> {
    AnyView::HStack(h_stack(ViewSequence::new(views)))
}

fn seq_ids(st: &ViewState) -> Vec<Id> {
    match st {
        ViewState::Sequence(ids, _) => ids.clone(),
        _ => panic!("not a sequence state"),
    }
}

fn stack_children(w: &Widget) -> &Vec<Pod> {
    match w {
        Widget::HStack(h) => &h.children,
        _ => panic!("not a stack"),
    }
}

fn text_of(w: &Widget) -> String {
    match w {
        Widget::Text(t) => t.text.clone(),
        Widget::Button(b) => b.label.clone(),
        _ => panic!("not a leaf"),
    }
}

/// Runs the update, measure and layout passes on a fresh root pod.
fn settle(pod: &mut Pod, width: u64, height: u64) -> Size {
    pod.update();
    let _ = pod.measure();
    pod.layout(Size::new(width, height))
}

#[test]
fn identity_stable_across_rebuilds() {
    let mut cx = Cx::new();
    let v1 = stack(vec![text("a"), button("b", 1), text("c")]);
    let (id0, mut st, mut w) = v1.build(&mut cx);
    let mut id = id0;
    let ids_before = seq_ids(&st);
    let v2 = stack(vec![text("a2"), button("b2", 1), text("c")]);
    let changed = v2.rebuild(&mut cx, &v1, &mut id, &mut st, &mut w);
    assert!(changed);
    assert_eq!(id, id0);
    assert_eq!(seq_ids(&st), ids_before);
    let v3 = stack(vec![text("a3"), button("b3", 1), text("c3")]);
    let changed = v3.rebuild(&mut cx, &v2, &mut id, &mut st, &mut w);
    assert!(changed);
    assert_eq!(id, id0);
    assert_eq!(seq_ids(&st), ids_before);
}

#[test]
fn kind_change_builds_a_new_node() {
    let mut cx = Cx::new();
    let v1 = stack(vec![text("a"), text("b")]);
    let (_, mut st, mut w) = v1.build(&mut cx);
    let mut id = Id { raw: 1 };
    let before = seq_ids(&st);
    let v2 = stack(vec![text("a"), button("b", 1)]);
    assert!(v2.rebuild(&mut cx, &v1, &mut id, &mut st, &mut w));
    let after = seq_ids(&st);
    assert_eq!(after[0], before[0]);
    assert_ne!(after[1], before[1]);
    assert!(after[1].raw > before[1].raw);
    assert_eq!(text_of(&stack_children(&w)[1].widget), "b");
    assert!(matches!(*stack_children(&w)[1].widget, Widget::Button(_)));
}

#[test]
fn identical_rebuild_reports_no_change() {
    let mut cx = Cx::new();
    let v = stack(vec![text("a"), AnyView::Container(container(button("b", 1)).padding(3))]);
    let (mut id, mut st, mut w) = v.build(&mut cx);
    let same = stack(vec![text("a"), AnyView::Container(container(button("b", 9)).padding(3))]);
    let depth = cx.id_path().len();
    let probe = cx.new_id();
    assert!(!same.rebuild(&mut cx, &v, &mut id, &mut st, &mut w));
    assert_eq!(cx.id_path().len(), depth);
    // nothing was allocated by the rebuild
    assert_eq!(cx.new_id().raw, probe.raw + 1);
    assert_eq!(text_of(&stack_children(&w)[0].widget), "a");
}

#[test]
fn optional_transitions_follow_presence() {
    let mut cx = Cx::new();
    let shown = |show: bool| -> AnyView<Add> { AnyView::Optional(optional(text("t")).show(show)) };
    let v1 = shown(true);
    let (mut id, mut st, mut w) = v1.build(&mut cx);
    assert!(matches!(&w, Widget::Option(o) if o.child.is_some()));
    assert!(matches!(st, ViewState::Present(_, _)));
    let first_child = match &st {
        ViewState::Present(cid, _) => *cid,
        _ => unreachable!(),
    };
    let v2 = shown(false);
    let probe = cx.new_id();
    assert!(v2.rebuild(&mut cx, &v1, &mut id, &mut st, &mut w));
    assert!(matches!(&w, Widget::Option(o) if o.child.is_none()));
    assert!(matches!(st, ViewState::Absent));
    // dropping the child allocates nothing
    assert_eq!(cx.new_id().raw, probe.raw + 1);
    let v3 = shown(true);
    assert!(v3.rebuild(&mut cx, &v2, &mut id, &mut st, &mut w));
    assert!(matches!(&w, Widget::Option(o) if o.child.is_some()));
    let second_child = match &st {
        ViewState::Present(cid, _) => *cid,
        _ => panic!("child should be present"),
    };
    // exactly one build: one fresh identity
    assert_eq!(second_child.raw, probe.raw + 2);
    assert_ne!(second_child, first_child);
    assert_eq!(cx.new_id().raw, probe.raw + 3);
}

#[test]
fn optional_absent_to_absent_is_no_change() {
    let mut cx = Cx::new();
    let v1: AnyView<Add> = AnyView::Optional(Optional::new(text("x")).show(false));
    let (mut id, mut st, mut w) = v1.build(&mut cx);
    let v2: AnyView<Add> = AnyView::Optional(Optional::new(text("y")).show(false));
    assert!(!v2.rebuild(&mut cx, &v1, &mut id, &mut st, &mut w));
}

#[test]
fn changed_slot_alone_is_flagged() {
    let mut cx = Cx::new();
    let v1 = stack(vec![text("a"), text("b"), text("c")]);
    let (id0, st0, w0) = v1.build(&mut cx);
    let mut root = Pod::new(w0);
    settle(&mut root, 300, 50);
    let (mut id, mut st) = (id0, st0);
    let v2 = stack(vec![text("a"), text("B"), text("c")]);
    let before: Vec<_> = stack_children(&root.widget).iter().map(|p| p.state).collect();
    assert!(v2.rebuild(&mut cx, &v1, &mut id, &mut st, &mut root.widget));
    let kids = stack_children(&root.widget);
    assert_eq!(kids[0].state, before[0]);
    assert_eq!(kids[2].state, before[2]);
    assert!(kids[1].state.flags.request_update);
    assert!(!before[1].flags.request_update);
    assert_eq!(text_of(&kids[1].widget), "B");
    assert_eq!(text_of(&kids[0].widget), "a");
}

#[test]
fn sequence_grows_and_shrinks_by_position() {
    let mut cx = Cx::new();
    let v1 = stack(vec![text("a")]);
    let (mut id, mut st, mut w) = v1.build(&mut cx);
    let v2 = stack(vec![text("a"), text("b"), text("c")]);
    assert!(v2.rebuild(&mut cx, &v1, &mut id, &mut st, &mut w));
    assert_eq!(stack_children(&w).len(), 3);
    assert_eq!(seq_ids(&st).len(), 3);
    let v3 = stack(vec![text("a"), text("b")]);
    assert!(v3.rebuild(&mut cx, &v2, &mut id, &mut st, &mut w));
    assert_eq!(stack_children(&w).len(), 2);
    assert_eq!(text_of(&stack_children(&w)[1].widget), "b");
}

fn leaf(min_w: u64, min_h: u64, max_w: u64, max_h: u64) -> Pod {
    let v: AnyView<Add> = AnyView::Text(
        TextView::new("x".to_string()).size_range(Size::new(min_w, min_h), Size::new(max_w, max_h)),
    );
    let mut cx = Cx::new();
    let (_, _, w) = v.build(&mut cx);
    Pod::new(w)
}

fn stack_pod(children: Vec<Pod>, alignment: VertAlignment, spacing: u64) -> Pod {
    Pod::new(Widget::HStack(xilem_core::widget::HStack { children, alignment, spacing }))
}

#[test]
fn flexible_distribution_splits_evenly() {
    let kids = vec![
        leaf(50, 10, UNBOUNDED, 10),
        leaf(50, 10, UNBOUNDED, 10),
        leaf(50, 10, UNBOUNDED, 10),
    ];
    let mut root = stack_pod(kids, VertAlignment::Top, 0);
    let size = settle(&mut root, 210, 10);
    let widths: Vec<u64> = stack_children(&root.widget).iter().map(|p| p.state.size.width).collect();
    assert_eq!(widths, vec![70, 70, 70]);
    assert_eq!(size.width, 210);
}

#[test]
fn content_sized_children_go_first() {
    // a fixed 30-wide child and two flexible ones share 150
    let kids = vec![
        leaf(0, 10, UNBOUNDED, 10),
        leaf(30, 10, 30, 10),
        leaf(0, 10, UNBOUNDED, 10),
    ];
    let mut root = stack_pod(kids, VertAlignment::Top, 0);
    let size = settle(&mut root, 150, 10);
    let kids = stack_children(&root.widget);
    assert_eq!(kids[1].state.size.width, 30);
    assert_eq!(kids[0].state.size.width, 60);
    assert_eq!(kids[2].state.size.width, 60);
    assert_eq!(kids[1].state.origin, Point::new(60, 0));
    assert_eq!(kids[2].state.origin, Point::new(90, 0));
    assert_eq!(size, Size::new(150, 10));
}

#[test]
fn center_alignment_offsets_shorter_child() {
    let kids = vec![leaf(10, 20, 10, 20), leaf(10, 60, 10, 60)];
    let mut root = stack_pod(kids, VertAlignment::Center, 0);
    let size = settle(&mut root, 100, 100);
    let kids = stack_children(&root.widget);
    assert_eq!(kids[0].alignment(VertAlignment::Center), 10);
    assert_eq!(kids[1].alignment(VertAlignment::Center), 30);
    assert_eq!(kids[0].state.origin, Point::new(0, 20));
    assert_eq!(kids[1].state.origin, Point::new(10, 0));
    assert_eq!(size, Size::new(20, 60));
}

#[test]
fn bottom_alignment_and_spacing() {
    let kids = vec![leaf(10, 20, 10, 20), leaf(10, 60, 10, 60)];
    let mut root = stack_pod(kids, VertAlignment::Bottom, 5);
    let (min, max) = {
        root.update();
        root.measure()
    };
    assert_eq!(min, Size::new(25, 60));
    assert_eq!(max, Size::new(25, 60));
    let size = root.layout(Size::new(100, 100));
    let kids = stack_children(&root.widget);
    assert_eq!(kids[0].state.origin, Point::new(0, 40));
    assert_eq!(kids[1].state.origin, Point::new(15, 0));
    assert_eq!(size, Size::new(25, 60));
}

#[test]
fn measure_sums_widths_and_takes_tallest() {
    let kids = vec![leaf(10, 5, 20, 8), leaf(7, 9, 30, 12), leaf(3, 1, 4, 2)];
    let mut root = stack_pod(kids, VertAlignment::Top, 2);
    root.update();
    let (min, max) = root.measure();
    assert_eq!(min, Size::new(24, 9));
    assert_eq!(max, Size::new(58, 12));
    assert_eq!(root.state.min_size, min);
}

#[test]
fn empty_stack_has_no_size() {
    let mut root = stack_pod(vec![], VertAlignment::Center, 4);
    let size = settle(&mut root, 100, 100);
    assert_eq!(size, Size::new(0, 0));
    assert_eq!(root.state.max_size, Size::new(0, 0));
}

#[test]
fn container_insets_child_by_padding() {
    let mut cx = Cx::new();
    let v: AnyView<Add> = AnyView::Container(Container::new(text("p")).padding(4));
    let (_, _, w) = v.build(&mut cx);
    let mut root = Pod::new(w);
    let size = settle(&mut root, 100, 50);
    assert_eq!(size, Size::new(100, 50));
    match &*root.widget {
        Widget::Container(c) => {
            assert_eq!(c.child.state.origin, Point::new(4, 4));
            assert_eq!(c.child.state.size, Size::new(92, 42));
        }
        _ => panic!("not a container"),
    }
    assert_eq!(root.state.min_size, Size::new(0, 0));
    assert_eq!(root.state.max_size, Size::new(UNBOUNDED, UNBOUNDED));
}

#[test]
fn leaf_layout_clamps_proposal() {
    let mut p = leaf(10, 10, 40, 40);
    let size = settle(&mut p, 100, 5);
    assert_eq!(size, Size::new(40, 10));
}

#[test]
fn layout_is_memoized_until_flagged() {
    let mut root = stack_pod(vec![leaf(0, 0, UNBOUNDED, UNBOUNDED)], VertAlignment::Top, 0);
    settle(&mut root, 80, 20);
    assert!(!root.state.flags.request_layout);
    let cached = root.state;
    let size = root.layout(Size::new(80, 20));
    assert_eq!(size, Size::new(80, 20));
    assert_eq!(root.state, cached);
    let size = root.layout(Size::new(30, 20));
    assert_eq!(size, Size::new(30, 20));
    assert_eq!(root.state.proposed_size, Size::new(30, 20));
}

#[test]
fn round_trip_rebuild_keeps_layout() {
    let mut cx = Cx::new();
    let v = stack(vec![text("a"), button("b", 1)]);
    let (mut id, mut st, w) = v.build(&mut cx);
    let mut root = Pod::new(w);
    settle(&mut root, 120, 30);
    let sizes: Vec<_> = stack_children(&root.widget).iter().map(|p| p.state).collect();
    let root_state = root.state;
    assert!(!v.rebuild(&mut cx, &v, &mut id, &mut st, &mut root.widget));
    assert!(!v.rebuild(&mut cx, &v, &mut id, &mut st, &mut root.widget));
    let after: Vec<_> = stack_children(&root.widget).iter().map(|p| p.state).collect();
    assert_eq!(sizes, after);
    assert_eq!(root.state, root_state);
}

#[test]
fn event_reaches_second_slot_only() {
    let mut cx = Cx::new();
    let v = stack(vec![button("zero", 100), button("one", 1)]);
    let (_root_id, st, _w) = v.build(&mut cx);
    let ids = seq_ids(&st);
    let mut count: u32 = 0;
    let r: EventResult<u32> = v.event(&[ids[1]], &st, &mut count);
    assert_eq!(r, EventResult::Action(1));
    assert_eq!(count, 1);
    let r: EventResult<u32> = v.event(&[Id { raw: 999 }], &st, &mut count);
    assert_eq!(r, EventResult::Stale);
    assert_eq!(count, 1);
}

#[test]
fn button_path_routes_back_to_button() {
    let mut cx = Cx::new();
    let v = stack(vec![text("t"), AnyView::Container(container(button("go", 7)))]);
    let (_root_id, st, w) = v.build(&mut cx);
    let path = match &*stack_children(&w)[1].widget {
        Widget::Container(c) => match &*c.child.widget {
            Widget::Button(b) => b.id_path.clone(),
            _ => panic!("not a button"),
        },
        _ => panic!("not a container"),
    };
    assert_eq!(path.len(), 3);
    let mut count: u32 = 0;
    let r: EventResult<u32> = v.event(&path[1..], &st, &mut count);
    assert_eq!(r, EventResult::Action(7));
    assert_eq!(count, 7);
    let r: EventResult<u32> = v.event(&path[1..2], &st, &mut count);
    assert_eq!(r, EventResult::Stale);
    assert_eq!(count, 7);
}

#[test]
fn text_target_is_nop_and_empty_path_is_stale() {
    let mut cx = Cx::new();
    let v = stack(vec![text("t")]);
    let (_, st, _) = v.build(&mut cx);
    let ids = seq_ids(&st);
    let mut count: u32 = 0;
    let r: EventResult<u32> = v.event(&[ids[0]], &st, &mut count);
    assert_eq!(r, EventResult::Nop);
    let r: EventResult<u32> = v.event(&[], &st, &mut count);
    assert_eq!(r, EventResult::Stale);
    assert_eq!(count, 0);
}

#[test]
fn cx_allocates_increasing_ids_and_scopes_paths() {
    let mut cx = Cx::new();
    let a = cx.new_id();
    let b = cx.new_id();
    assert_eq!(a.raw, 1);
    assert_eq!(b.raw, 2);
    cx.push_id(a);
    cx.push_id(b);
    assert_eq!(cx.id_path(), vec![a, b]);
    cx.pop_id();
    assert_eq!(cx.id_path(), vec![a]);
}

#[test]
fn build_numbers_nodes_in_order() {
    let mut cx = Cx::new();
    let v = stack(vec![text("a"), text("b")]);
    let (id, st, _) = v.build(&mut cx);
    assert_eq!(id.raw, 1);
    assert_eq!(seq_ids(&st), vec![Id { raw: 2 }, Id { raw: 3 }]);
    assert_eq!(cx.new_id().raw, 4);
}

#[test]
fn find_slot_picks_first_match() {
    let ids = vec![Id { raw: 5 }, Id { raw: 7 }, Id { raw: 7 }];
    assert_eq!(find_slot(&ids, Id { raw: 7 }), 1);
    assert_eq!(find_slot(&ids, Id { raw: 9 }), 3);
}

#[test]
fn builders_set_parameters() {
    let h: HStack<Add> = HStack::new(ViewSequence::new(vec![text("a")]))
        .cross_axis_alignment(VertAlignment::Top)
        .spacing(6);
    assert_eq!(h.cross_axis_alignment, VertAlignment::Top);
    assert_eq!(h.spacing, 6);
    let c = container(text("a")).padding(2);
    assert_eq!((c.padding_top, c.padding_right, c.padding_bottom, c.padding_left), (2, 2, 2, 2));
    let o = optional(text("a"));
    assert!(o.show);
    assert!(!o.show(false).show);
}

#[test]
fn unmatched_head_is_stale_even_with_missing_ids() {
    let seq = ViewSequence::new(vec![button("only", 1)]);
    let mut count: u32 = 0;
    let r: EventResult<u32> = seq.event(&[Id { raw: 42 }], &vec![], &vec![ViewState::Leaf], &mut count);
    assert_eq!(r, EventResult::Stale);
    assert_eq!(count, 0);
}

#[test]
fn built_children_get_fresh_distinct_ids() {
    let mut cx = Cx::new();
    let v: AnyView<Add> = AnyView::Container(container(text("c")));
    let (id, st, _) = v.build(&mut cx);
    match st {
        ViewState::Container(cid, _) => {
            assert_ne!(cid, id);
            assert_eq!(cid.raw, id.raw + 1);
        }
        _ => panic!("not a container state"),
    }
}
