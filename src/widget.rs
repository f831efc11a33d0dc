//! The retained widget tree: widgets of a closed set of kinds, each held in a
//! `Pod` that caches its layout results and carries its dirty flags.
use vstd::prelude::*;
use crate::geometry::{
    Size, Point, UNBOUNDED, sat_add, sat_sub, max_u64, clamp_u64, add_sat, sub_sat, max_of,
    clamp_of,
};
use crate::id::Id;
use crate::event::{KeyEvent, Message, MouseEvent, Position, RawEvent, message_paths};

verus! {

/// Where children of a horizontal stack line up on the vertical axis.
#[derive(Clone, Copy, Debug, PartialEq, Eq, Structural)]
pub enum VertAlignment {
    Top,
    Center,
    Bottom,
}

#[derive(Clone, Copy, Debug, PartialEq, Eq, Structural)]
pub struct PodFlags {
    /// Something below this pod changed: its sizes must be measured again.
    pub request_update: bool,
    /// The cached measure and layout results are stale.
    pub request_layout: bool,
    /// The pointer is captured by this widget.
    pub is_active: bool,
    /// The pointer is over this widget.
    pub is_hot: bool,
    /// This widget or one below it has the pointer captured.
    pub has_active: bool,
}

#[derive(Clone, Copy, Debug, PartialEq, Eq, Structural)]
pub struct WidgetState {
    pub flags: PodFlags,
    pub min_size: Size,
    pub max_size: Size,
    pub proposed_size: Size,
    pub size: Size,
    pub origin: Point,
}

/// A leaf that shows a text.
pub struct TextWidget {
    pub text: String,
    pub min_size: Size,
    pub max_size: Size,
}

/// A leaf that reports a click to the view at the end of `id_path`.
pub struct ButtonWidget {
    pub label: String,
    pub id_path: Vec<Id>,
    pub min_size: Size,
    pub max_size: Size,
}

/// One child, inset by a padding on each side.
pub struct Container {
    pub child: Pod,
    pub padding_top: u64,
    pub padding_right: u64,
    pub padding_bottom: u64,
    pub padding_left: u64,
}

/// Children laid out left to right.
pub struct HStack {
    pub children: Vec<Pod>,
    pub alignment: VertAlignment,
    pub spacing: u64,
}

/// A child that may be absent.
pub struct OptionWidget {
    pub child: Option<Pod>,
}

/// A retained node, of one of the kinds the views build.
pub enum Widget {
    Text(TextWidget),
    Button(ButtonWidget),
    Container(Container),
    HStack(HStack),
    Option(OptionWidget),
}

/// A widget together with its cached layout state.
pub struct Pod {
    pub state: WidgetState,
    pub widget: Box<Widget>,
}

/// The flags of a pod that has never been measured.
pub open spec fn init_flags() -> PodFlags {
    PodFlags { request_update: true, request_layout: true, is_active: false, is_hot: false, has_active: false }
}

/// The state of a freshly created pod.
pub open spec fn init_state() -> WidgetState {
    WidgetState {
        flags: init_flags(),
        min_size: Size::zero(),
        max_size: Size::zero(),
        proposed_size: Size::zero(),
        size: Size::zero(),
        origin: Point { x: 0, y: 0 },
    }
}

/// Every pod in `p`, `p` included, is as `Pod::new` made it: flagged for
/// update and layout, with nothing cached.
pub open spec fn fresh_pod(p: Pod) -> bool
    decreases p,
{
    p.state == init_state() && fresh_widget(*p.widget)
}

/// Every pod below `w` is as `Pod::new` made it.
pub open spec fn fresh_widget(w: Widget) -> bool
    decreases w,
{
    match w {
        Widget::Container(c) => fresh_pod(c.child),
        Widget::HStack(h) => fresh_prefix(h.children@, h.children.len() as int),
        Widget::Option(o) => o.child is None || fresh_pod(o.child->Some_0),
        _ => true,
    }
}

/// The first `k` pods of `s` are as `Pod::new` made them.
pub open spec fn fresh_prefix(s: Seq<Pod>, k: int) -> bool
    decreases s, k,
{
    if k <= 0 {
        true
    } else if k > s.len() {
        false
    } else {
        fresh_prefix(s, k - 1) && fresh_pod(s[k - 1])
    }
}

/// `fresh_prefix` reads the pods of the prefix alone.
pub proof fn lemma_fresh_prefix_frame(s1: Seq<Pod>, s2: Seq<Pod>, k: int)
    requires
        0 <= k <= s2.len(),
        fresh_prefix(s1, k),
        forall|j: int| 0 <= j < k ==> #[trigger] s2[j] == s1[j],
    ensures
        fresh_prefix(s2, k),
    decreases k,
{
    if k > 0 {
        lemma_fresh_prefix_frame(s1, s2, k - 1);
        assert(s2[k - 1] == s1[k - 1]);
        assert(fresh_prefix(s2, k) == (fresh_prefix(s2, k - 1) && fresh_pod(s2[k - 1])));
    }
}

/// `new` is `old`, flagged for update where `changed` holds.
pub open spec fn marked(old: WidgetState, new: WidgetState, changed: bool) -> bool {
    if changed {
        new == (WidgetState { flags: PodFlags { request_update: true, ..old.flags }, ..old })
    } else {
        new == old
    }
}

// ---------------------------------------------------------------------------
// Sameness
// ---------------------------------------------------------------------------

/// The two pods hold the same widget tree with the same cached state.
pub open spec fn pod_same(a: Pod, b: Pod) -> bool
    decreases a,
{
    a.state == b.state && widget_same(*a.widget, *b.widget)
}

/// The first `k` pods of `a` and `b` are the same.
pub open spec fn pods_same_prefix(a: Seq<Pod>, b: Seq<Pod>, k: int) -> bool
    decreases a, k,
{
    if k <= 0 {
        true
    } else if k > a.len() || k > b.len() {
        false
    } else {
        pods_same_prefix(a, b, k - 1) && pod_same(a[k - 1], b[k - 1])
    }
}

/// The two widgets are the same, down to the cached state of every pod.
pub open spec fn widget_same(a: Widget, b: Widget) -> bool
    decreases a,
{
    match (a, b) {
        (Widget::Text(x), Widget::Text(y)) => x == y,
        (Widget::Button(x), Widget::Button(y)) => x.label == y.label && x.id_path@ == y.id_path@
            && x.min_size == y.min_size && x.max_size == y.max_size,
        (Widget::Container(x), Widget::Container(y)) => {
            &&& x.padding_top == y.padding_top && x.padding_right == y.padding_right
            &&& x.padding_bottom == y.padding_bottom && x.padding_left == y.padding_left
            &&& pod_same(x.child, y.child)
        },
        (Widget::HStack(x), Widget::HStack(y)) => {
            &&& x.alignment == y.alignment && x.spacing == y.spacing
            &&& x.children.len() == y.children.len()
            &&& pods_same_prefix(x.children@, y.children@, x.children.len() as int)
        },
        (Widget::Option(x), Widget::Option(y)) => match (x.child, y.child) {
            (Some(p), Some(q)) => pod_same(p, q),
            (None, None) => true,
            _ => false,
        },
        _ => false,
    }
}

/// A prefix of the same pods depends on the pods of the prefix alone.
pub proof fn lemma_pods_same_prefix_frame(a: Seq<Pod>, b1: Seq<Pod>, b2: Seq<Pod>, k: int)
    requires
        0 <= k <= b2.len(),
        pods_same_prefix(a, b1, k),
        forall|j: int| 0 <= j < k ==> #[trigger] b2[j] == b1[j],
    ensures
        pods_same_prefix(a, b2, k),
    decreases k,
{
    if k > 0 {
        lemma_pods_same_prefix_frame(a, b1, b2, k - 1);
        assert(b2[k - 1] == b1[k - 1]);
        assert(pods_same_prefix(a, b2, k) == (pods_same_prefix(a, b2, k - 1) && pod_same(a[k - 1], b2[k - 1])));
    }
}

/// Sameness of widget trees chains.
pub proof fn lemma_widget_same_transitive(a: Widget, b: Widget, c: Widget)
    requires
        widget_same(a, b),
        widget_same(b, c),
    ensures
        widget_same(a, c),
    decreases a,
{
    match (a, b, c) {
        (Widget::Container(x), Widget::Container(y), Widget::Container(z)) => {
            assert(pod_same(x.child, y.child) == (x.child.state == y.child.state
                && widget_same(*x.child.widget, *y.child.widget)));
            assert(pod_same(y.child, z.child) == (y.child.state == z.child.state
                && widget_same(*y.child.widget, *z.child.widget)));
            lemma_widget_same_transitive(*x.child.widget, *y.child.widget, *z.child.widget);
            assert(pod_same(x.child, z.child) == (x.child.state == z.child.state
                && widget_same(*x.child.widget, *z.child.widget)));
        },
        (Widget::HStack(x), Widget::HStack(y), Widget::HStack(z)) =>
            lemma_pods_same_prefix_transitive(x.children@, y.children@, z.children@, x.children.len() as int),
        (Widget::Option(x), Widget::Option(y), Widget::Option(z)) => {
            if x.child is Some && y.child is Some && z.child is Some {
                let (p, q, r) = (x.child->Some_0, y.child->Some_0, z.child->Some_0);
                assert(pod_same(p, q) == (p.state == q.state && widget_same(*p.widget, *q.widget)));
                assert(pod_same(q, r) == (q.state == r.state && widget_same(*q.widget, *r.widget)));
                lemma_widget_same_transitive(*p.widget, *q.widget, *r.widget);
                assert(pod_same(p, r) == (p.state == r.state && widget_same(*p.widget, *r.widget)));
            }
        },
        _ => {},
    }
}

pub proof fn lemma_pods_same_prefix_transitive(a: Seq<Pod>, b: Seq<Pod>, c: Seq<Pod>, k: int)
    requires
        pods_same_prefix(a, b, k),
        pods_same_prefix(b, c, k),
    ensures
        pods_same_prefix(a, c, k),
    decreases a, k,
{
    if k > 0 {
        assert(pods_same_prefix(a, b, k) == (pods_same_prefix(a, b, k - 1) && pod_same(a[k - 1], b[k - 1])));
        assert(pods_same_prefix(b, c, k) == (pods_same_prefix(b, c, k - 1) && pod_same(b[k - 1], c[k - 1])));
        assert(pod_same(a[k - 1], b[k - 1]) == (a[k - 1].state == b[k - 1].state
            && widget_same(*a[k - 1].widget, *b[k - 1].widget)));
        assert(pod_same(b[k - 1], c[k - 1]) == (b[k - 1].state == c[k - 1].state
            && widget_same(*b[k - 1].widget, *c[k - 1].widget)));
        lemma_pods_same_prefix_transitive(a, b, c, k - 1);
        lemma_widget_same_transitive(*a[k - 1].widget, *b[k - 1].widget, *c[k - 1].widget);
        assert(pod_same(a[k - 1], c[k - 1]) == (a[k - 1].state == c[k - 1].state
            && widget_same(*a[k - 1].widget, *c[k - 1].widget)));
        assert(pods_same_prefix(a, c, k) == (pods_same_prefix(a, c, k - 1) && pod_same(a[k - 1], c[k - 1])));
    }
}

// ---------------------------------------------------------------------------
// Measure
// ---------------------------------------------------------------------------

/// Sum of the minimum (or, with `use_max`, maximum) widths of `s[..k]`.
pub open spec fn sum_widths(s: Seq<Pod>, k: int, use_max: bool) -> u64
    decreases k,
{
    if k <= 0 {
        0
    } else {
        let w = if use_max { s[k - 1].state.max_size.width } else { s[k - 1].state.min_size.width };
        sat_add(sum_widths(s, k - 1, use_max), w)
    }
}

/// Largest minimum (or, with `use_max`, maximum) height of `s[..k]`.
pub open spec fn max_heights(s: Seq<Pod>, k: int, use_max: bool) -> u64
    decreases k,
{
    if k <= 0 {
        0
    } else {
        let h = if use_max { s[k - 1].state.max_size.height } else { s[k - 1].state.min_size.height };
        max_u64(max_heights(s, k - 1, use_max), h)
    }
}

/// The spacing that `n` children put between them.
pub open spec fn total_spacing(spacing: u64, n: int) -> u64 {
    if n <= 1 {
        0
    } else if spacing * (n - 1) > u64::MAX {
        u64::MAX
    } else {
        (spacing * (n - 1)) as u64
    }
}

/// The size envelope of a horizontal stack whose children report the
/// envelopes cached in `s`.
pub open spec fn stack_envelope(s: Seq<Pod>, spacing: u64) -> (Size, Size) {
    let sp = total_spacing(spacing, s.len() as int);
    (
        Size {
            width: sat_add(sum_widths(s, s.len() as int, false), sp),
            height: max_heights(s, s.len() as int, false),
        },
        Size {
            width: sat_add(sum_widths(s, s.len() as int, true), sp),
            height: max_heights(s, s.len() as int, true),
        },
    )
}

/// `new` is `old` after its measure pass: a pod flagged for layout measures
/// its widget and caches the envelope that it reports; any other pod keeps
/// what it cached, and nothing below it is visited.
pub open spec fn measured(old: Pod, new: Pod) -> bool
    decreases old,
{
    if old.state.flags.request_layout {
        &&& new.state == (WidgetState { min_size: new.state.min_size, max_size: new.state.max_size, ..old.state })
        &&& measured_widget(*old.widget, *new.widget, new.state.min_size, new.state.max_size)
    } else {
        new == old
    }
}

/// Each of the first `k` pods of `b` is the pod at its index in `a` after
/// its measure pass.
pub open spec fn measured_prefix(a: Seq<Pod>, b: Seq<Pod>, k: int) -> bool
    decreases a, k,
{
    if k <= 0 {
        true
    } else if k > a.len() || k > b.len() {
        false
    } else {
        measured_prefix(a, b, k - 1) && measured(a[k - 1], b[k - 1])
    }
}

/// `new` is `old` after its measure pass, reporting the envelope `[min, max]`.
pub open spec fn measured_widget(old: Widget, new: Widget, min: Size, max: Size) -> bool
    decreases old,
{
    match old {
        Widget::Text(t) => new == old && min == t.min_size && max == t.max_size,
        Widget::Button(b) => new == old && min == b.min_size && max == b.max_size,
        Widget::Container(c) => match new {
            Widget::Container(c2) => {
                &&& measured(c.child, c2.child)
                &&& c2.padding_top == c.padding_top && c2.padding_right == c.padding_right
                &&& c2.padding_bottom == c.padding_bottom && c2.padding_left == c.padding_left
                &&& min == Size::zero() && max == (Size { width: UNBOUNDED, height: UNBOUNDED })
            },
            _ => false,
        },
        Widget::HStack(h) => match new {
            Widget::HStack(h2) => {
                &&& h2.alignment == h.alignment && h2.spacing == h.spacing
                &&& h2.children.len() == h.children.len()
                &&& measured_prefix(h.children@, h2.children@, h.children.len() as int)
                &&& (min, max) == stack_envelope(h2.children@, h.spacing)
            },
            _ => false,
        },
        Widget::Option(o) => match new {
            Widget::Option(o2) => {
                &&& match (o.child, o2.child) {
                    (Some(c), Some(c2)) => measured(c, c2),
                    (None, None) => true,
                    _ => false,
                }
                &&& min == Size::zero() && max == (Size { width: UNBOUNDED, height: UNBOUNDED })
            },
            _ => false,
        },
    }
}

// ---------------------------------------------------------------------------
// Layout
// ---------------------------------------------------------------------------

/// How much wider than its minimum a pod can grow.
pub open spec fn width_flex(p: Pod) -> u64 {
    sat_sub(p.state.max_size.width, p.state.min_size.width)
}

/// The width flexibility of each pod of `s`.
pub open spec fn flex_keys(s: Seq<Pod>) -> Seq<u64> {
    Seq::new(s.len(), |i: int| width_flex(s[i]))
}

/// The first position at or after `j` in `order` whose key exceeds `key`.
pub open spec fn first_greater(order: Seq<usize>, keys: Seq<u64>, key: u64, j: int) -> int
    decreases order.len() - j,
{
    if j >= order.len() || j < 0 {
        order.len() as int
    } else if keys[order[j] as int] > key {
        j
    } else {
        first_greater(order, keys, key, j + 1)
    }
}

/// The indices `0..n` ordered by increasing key, equal keys in index order:
/// each index goes after every earlier index whose key is not larger.
pub open spec fn flex_order(keys: Seq<u64>, n: int) -> Seq<usize>
    decreases n,
{
    if n <= 0 {
        Seq::empty()
    } else {
        let o = flex_order(keys, n - 1);
        o.insert(first_greater(o, keys, keys[n - 1], 0), (n - 1) as usize)
    }
}

/// `p` moved to `origin`.
pub open spec fn with_origin(p: Pod, origin: Point) -> Pod {
    Pod { state: WidgetState { origin, ..p.state }, widget: p.widget }
}

/// The width that is left to share after the children at `order[..k]`
/// took theirs out of `start`.
pub open spec fn width_left(b: Seq<Pod>, order: Seq<usize>, k: int, start: u64) -> u64
    decreases k,
{
    if k <= 0 {
        start
    } else {
        sat_sub(width_left(b, order, k - 1, start), b[order[k - 1] as int].state.size.width)
    }
}

/// The width offered to the child at `order[k]`: an equal share of what is
/// left among the children not yet laid out.
pub open spec fn width_offer(b: Seq<Pod>, order: Seq<usize>, k: int, start: u64) -> u64 {
    (width_left(b, order, k, start) / ((order.len() - k) as u64)) as u64
}

/// The children at `order[..k]` were laid out in that order, each offered its
/// share of the width left and the full height `height`.
pub open spec fn distributed(a: Seq<Pod>, b: Seq<Pod>, order: Seq<usize>, k: int, start: u64, height: u64) -> bool
    decreases a, k,
{
    if k <= 0 {
        true
    } else if k > order.len() || order.len() > a.len() || !(order[k - 1] < a.len()) || b.len() != a.len() {
        false
    } else {
        let ix = order[k - 1] as int;
        &&& distributed(a, b, order, k - 1, start, height)
        &&& laid_out_at(
            a[ix],
            b[ix].state.origin,
            Size { width: width_offer(b, order, k - 1, start), height },
            b[ix],
        )
    }
}

/// The value that alignment `al` reads off a pod that was laid out.
pub open spec fn align_value(p: Pod, al: VertAlignment) -> u64 {
    match al {
        VertAlignment::Top => 0,
        VertAlignment::Center => (p.state.size.height / 2) as u64,
        VertAlignment::Bottom => p.state.size.height,
    }
}

/// The largest alignment value among `s[..k]`.
pub open spec fn max_align(s: Seq<Pod>, al: VertAlignment, k: int) -> u64
    decreases k,
{
    if k <= 0 {
        0
    } else {
        max_u64(max_align(s, al, k - 1), align_value(s[k - 1], al))
    }
}

/// Where the child at `i` starts along the main axis.
pub open spec fn x_before(s: Seq<Pod>, spacing: u64, i: int) -> u64
    decreases i, 0int,
{
    if i <= 0 {
        0
    } else {
        sat_add(x_after(s, spacing, i - 1), spacing)
    }
}

/// Where the child at `i` ends along the main axis.
pub open spec fn x_after(s: Seq<Pod>, spacing: u64, i: int) -> u64
    decreases i, 1int,
{
    sat_add(x_before(s, spacing, i), s[i].state.size.width)
}

/// The origin the stack gives the child at `i`: along the main axis after
/// the children before it, and shifted down so that its alignment line meets
/// the lowest one among all children.
pub open spec fn stack_origin(s: Seq<Pod>, al: VertAlignment, spacing: u64, i: int) -> Point {
    Point {
        x: x_before(s, spacing, i),
        y: sat_sub(max_align(s, al, s.len() as int), align_value(s[i], al)),
    }
}

/// The bottom edge of the lowest of `s[..k]`, placed by the stack.
pub open spec fn stack_bottom(s: Seq<Pod>, al: VertAlignment, spacing: u64, k: int) -> u64
    decreases k,
{
    if k <= 0 {
        0
    } else {
        max_u64(
            stack_bottom(s, al, spacing, k - 1),
            sat_add(s[k - 1].state.size.height, stack_origin(s, al, spacing, k - 1).y),
        )
    }
}

/// The size of a stack whose children, laid out, are `s`.
pub open spec fn stack_size(s: Seq<Pod>, al: VertAlignment, spacing: u64) -> Size {
    Size {
        width: if s.len() == 0 { 0 } else { x_after(s, spacing, s.len() - 1) },
        height: stack_bottom(s, al, spacing, s.len() as int),
    }
}

/// `new` is `old` after its layout pass with the proposed size `proposed`,
/// placed at `origin` by its parent. A pod lays out its widget again when it
/// was flagged or when the proposal differs from the last one; otherwise it
/// keeps its cached size.
pub open spec fn laid_out_at(old: Pod, origin: Point, proposed: Size, new: Pod) -> bool
    decreases old,
{
    if old.state.flags.request_layout || proposed != old.state.proposed_size {
        &&& new.state == (WidgetState {
            flags: PodFlags { request_layout: false, ..old.state.flags },
            proposed_size: proposed,
            size: new.state.size,
            origin,
            ..old.state
        })
        &&& laid_out_widget(*old.widget, proposed, *new.widget, new.state.size)
    } else {
        new == with_origin(old, origin)
    }
}

/// `new` is `old` after its layout pass with the proposed size `proposed`,
/// taking the size `size`.
pub open spec fn laid_out_widget(old: Widget, proposed: Size, new: Widget, size: Size) -> bool
    decreases old,
{
    match old {
        Widget::Text(t) => new == old && size == (Size {
            width: clamp_u64(proposed.width, t.min_size.width, t.max_size.width),
            height: clamp_u64(proposed.height, t.min_size.height, t.max_size.height),
        }),
        Widget::Button(b) => new == old && size == (Size {
            width: clamp_u64(proposed.width, b.min_size.width, b.max_size.width),
            height: clamp_u64(proposed.height, b.min_size.height, b.max_size.height),
        }),
        Widget::Container(c) => match new {
            Widget::Container(c2) => {
                &&& c2.padding_top == c.padding_top && c2.padding_right == c.padding_right
                &&& c2.padding_bottom == c.padding_bottom && c2.padding_left == c.padding_left
                &&& laid_out_at(
                    c.child,
                    Point { x: c.padding_left, y: c.padding_top },
                    Size {
                        width: sat_sub(sat_sub(proposed.width, c.padding_left), c.padding_right),
                        height: sat_sub(sat_sub(proposed.height, c.padding_top), c.padding_bottom),
                    },
                    c2.child,
                )
                &&& size == (Size {
                    width: sat_add(sat_add(c2.child.state.size.width, c.padding_left), c.padding_right),
                    height: sat_add(sat_add(c2.child.state.size.height, c.padding_top), c.padding_bottom),
                })
            },
            _ => false,
        },
        Widget::HStack(h) => match new {
            Widget::HStack(h2) => {
                let n = h.children.len() as int;
                &&& h2.alignment == h.alignment && h2.spacing == h.spacing
                &&& h2.children.len() == n
                &&& distributed(
                    h.children@,
                    h2.children@,
                    flex_order(flex_keys(h.children@), n),
                    n,
                    sat_sub(proposed.width, total_spacing(h.spacing, n)),
                    proposed.height,
                )
                &&& forall|i: int| 0 <= i < n ==> (#[trigger] h2.children[i]).state.origin
                    == stack_origin(h2.children@, h.alignment, h.spacing, i)
                &&& size == stack_size(h2.children@, h.alignment, h.spacing)
            },
            _ => false,
        },
        Widget::Option(o) => match new {
            Widget::Option(o2) => match (o.child, o2.child) {
                (Some(c), Some(c2)) => laid_out_at(c, c.state.origin, proposed, c2) && size == c2.state.size,
                (None, None) => size == Size::zero(),
                _ => false,
            },
            _ => false,
        },
    }
}

impl Pod {
    /// Measures this pod, or returns the envelope it cached when nothing
    /// below it changed since it was last measured.
    pub fn measure(&mut self) -> (r: (Size, Size))
        ensures
            measured(*old(self), *final(self)),
            r == (final(self).state.min_size, final(self).state.max_size),
        decreases *old(self),
    {
        if self.state.flags.request_layout {
            let r = self.widget.measure();
            self.state.min_size = r.0;
            self.state.max_size = r.1;
        }
        (self.state.min_size, self.state.max_size)
    }
}

impl Widget {
    /// Measures this widget: the smallest and the largest size it can take.
    pub fn measure(&mut self) -> (r: (Size, Size))
        ensures
            measured_widget(*old(self), *final(self), r.0, r.1),
        decreases *old(self),
    {
        let r = match self {
            Widget::Text(t) => (t.min_size, t.max_size),
            Widget::Button(b) => (b.min_size, b.max_size),
            Widget::Container(c) => {
                let _ = c.child.measure();
                (Size::new(0, 0), Size::unbounded())
            },
            Widget::HStack(h) => h.measure(),
            Widget::Option(o) => {
                if let Some(mut c) = o.child.take() {
                    let _ = c.measure();
                    o.child = Some(c);
                }
                (Size::new(0, 0), Size::unbounded())
            },
        };
        r
    }
}

impl HStack {
    /// Measures every child; the stack is as wide as its children and their
    /// spacing together, and as tall as its tallest child.
    pub fn measure(&mut self) -> (r: (Size, Size))
        ensures
            final(self).alignment == old(self).alignment,
            final(self).spacing == old(self).spacing,
            final(self).children.len() == old(self).children.len(),
            measured_prefix(old(self).children@, final(self).children@, old(self).children.len() as int),
            r == stack_envelope(final(self).children@, old(self).spacing),
        decreases *old(self),
    {
        let n = self.children.len();
        let mut min_w: u64 = 0;
        let mut min_h: u64 = 0;
        let mut max_w: u64 = 0;
        let mut max_h: u64 = 0;
        let mut i: usize = 0;
        while i < n
            invariant
                0 <= i <= n,
                n == self.children.len(),
                n == old(self).children.len(),
                self.alignment == old(self).alignment,
                self.spacing == old(self).spacing,
                measured_prefix(old(self).children@, self.children@, i as int),
                forall|j: int| i <= j < n ==> #[trigger] self.children[j] == old(self).children[j],
                min_w == sum_widths(self.children@, i as int, false),
                max_w == sum_widths(self.children@, i as int, true),
                min_h == max_heights(self.children@, i as int, false),
                max_h == max_heights(self.children@, i as int, true),
            decreases n - i,
        {
            let ghost before = self.children@;
            let (cmin, cmax) = self.children[i].measure();
            proof {
                assert forall|k: int| 0 <= k <= i implies
                    sum_widths(self.children@, k, false) == sum_widths(before, k, false)
                    && sum_widths(self.children@, k, true) == sum_widths(before, k, true)
                    && max_heights(self.children@, k, false) == max_heights(before, k, false)
                    && max_heights(self.children@, k, true) == max_heights(before, k, true) by {
                    lemma_prefix_aggregates(self.children@, before, k);
                }
                lemma_measured_prefix_frame(old(self).children@, before, self.children@, i as int);
            }
            min_w = add_sat(min_w, cmin.width);
            max_w = add_sat(max_w, cmax.width);
            min_h = max_of(min_h, cmin.height);
            max_h = max_of(max_h, cmax.height);
            i = i + 1;
        }
        let sp = spacing_for(self.spacing, n);
        (Size::new(add_sat(min_w, sp), min_h), Size::new(add_sat(max_w, sp), max_h))
    }
}

/// The spacing that `n` children put between them.
pub fn spacing_for(spacing: u64, n: usize) -> (r: u64)
    ensures
        r == total_spacing(spacing, n as int),
{
    if n <= 1 {
        0
    } else {
        match spacing.checked_mul((n - 1) as u64) {
            Some(v) => v,
            None => u64::MAX,
        }
    }
}

impl Pod {
    /// Lays this pod out at the proposed size, or returns the size it cached
    /// when it was not flagged and the proposal is the last one.
    pub fn layout(&mut self, proposed: Size) -> (r: Size)
        ensures
            laid_out_at(*old(self), old(self).state.origin, proposed, *final(self)),
            r == final(self).state.size,
        decreases *old(self),
    {
        if self.state.flags.request_layout || proposed != self.state.proposed_size {
            let size = self.widget.layout(proposed);
            self.state.proposed_size = proposed;
            self.state.size = size;
            self.state.flags.request_layout = false;
        }
        self.state.size
    }

    /// Moves this pod; nothing else of it changes.
    pub fn set_origin(&mut self, origin: Point)
        ensures
            *final(self) == with_origin(*old(self), origin),
    {
        self.state.origin = origin;
    }

    /// How much wider than its minimum this pod can grow.
    pub fn width_flexibility(&self) -> (r: u64)
        ensures
            r == width_flex(*self),
    {
        sub_sat(self.state.max_size.width, self.state.min_size.width)
    }

    /// The value that alignment `al` reads off this pod, once laid out.
    pub fn alignment(&self, al: VertAlignment) -> (r: u64)
        ensures
            r == align_value(*self, al),
    {
        match al {
            VertAlignment::Top => 0,
            VertAlignment::Center => self.state.size.height / 2,
            VertAlignment::Bottom => self.state.size.height,
        }
    }
}

impl Widget {
    /// Lays this widget out at the proposed size and returns the size it takes.
    pub fn layout(&mut self, proposed: Size) -> (r: Size)
        ensures
            laid_out_widget(*old(self), proposed, *final(self), r),
        decreases *old(self),
    {
        match self {
            Widget::Text(t) => Size::new(
                clamp_of(proposed.width, t.min_size.width, t.max_size.width),
                clamp_of(proposed.height, t.min_size.height, t.max_size.height),
            ),
            Widget::Button(b) => Size::new(
                clamp_of(proposed.width, b.min_size.width, b.max_size.width),
                clamp_of(proposed.height, b.min_size.height, b.max_size.height),
            ),
            Widget::Container(c) => c.layout(proposed),
            Widget::HStack(h) => h.layout(proposed),
            Widget::Option(o) => o.layout(proposed),
        }
    }
}

impl Container {
    /// Lays the child out in what the padding leaves of the proposed size.
    pub fn layout(&mut self, proposed: Size) -> (r: Size)
        ensures
            laid_out_widget(Widget::Container(*old(self)), proposed, Widget::Container(*final(self)), r),
        decreases *old(self),
    {
        let child_proposed = Size::new(
            sub_sat(sub_sat(proposed.width, self.padding_left), self.padding_right),
            sub_sat(sub_sat(proposed.height, self.padding_top), self.padding_bottom),
        );
        let origin = Point::new(self.padding_left, self.padding_top);
        let ghost child0 = self.child;
        let cs = self.child.layout(child_proposed);
        let ghost child1 = self.child;
        self.child.set_origin(origin);
        proof {
            lemma_laid_out_reorigin(child0, child0.state.origin, child_proposed, child1, origin);
        }
        Size::new(
            add_sat(add_sat(cs.width, self.padding_left), self.padding_right),
            add_sat(add_sat(cs.height, self.padding_top), self.padding_bottom),
        )
    }
}

impl OptionWidget {
    /// Lays the child out at the proposed size; an absent child takes no room.
    pub fn layout(&mut self, proposed: Size) -> (r: Size)
        ensures
            laid_out_widget(Widget::Option(*old(self)), proposed, Widget::Option(*final(self)), r),
        decreases *old(self),
    {
        match self.child.take() {
            Some(mut c) => {
                let r = c.layout(proposed);
                self.child = Some(c);
                r
            },
            None => Size::new(0, 0),
        }
    }
}

/// The indices of `children` by increasing width flexibility, equal
/// flexibilities in index order.
pub fn flex_order_of(children: &Vec<Pod>) -> (r: Vec<usize>)
    ensures
        r@ == flex_order(flex_keys(children@), children.len() as int),
        r.len() == children.len(),
        forall|j: int| 0 <= j < r.len() ==> #[trigger] r@[j] < children.len(),
        r@.no_duplicates(),
        sorted_by_key(flex_keys(children@), r@),
{
    let n = children.len();
    let ghost keys = flex_keys(children@);
    let mut order: Vec<usize> = Vec::new();
    let mut i: usize = 0;
    while i < n
        invariant
            0 <= i <= n,
            n == children.len(),
            keys == flex_keys(children@),
            order@ == flex_order(keys, i as int),
        decreases n - i,
    {
        proof {
            lemma_flex_order(keys, i as int);
        }
        let key = children[i].width_flexibility();
        let mut p: usize = 0;
        while p < order.len() && children[order[p]].width_flexibility() <= key
            invariant
                0 <= p <= order.len(),
                i < n,
                n == children.len(),
                keys == flex_keys(children@),
                key == keys[i as int],
                order@ == flex_order(keys, i as int),
                forall|j: int| 0 <= j < order.len() ==> #[trigger] order@[j] < i,
                first_greater(order@, keys, key, p as int) == first_greater(order@, keys, key, 0),
            decreases order.len() - p,
        {
            p = p + 1;
        }
        order.insert(p, i);
        i = i + 1;
    }
    proof {
        lemma_flex_order(keys, n as int);
        lemma_flex_order_sorted(keys, n as int);
    }
    order
}

impl HStack {
    /// Lays the children out left to right. Children are offered width in
    /// order of increasing flexibility, each an equal share of what the
    /// children before it left, so that content-sized children take what they
    /// need and the most flexible ones share the rest. Then every child is
    /// shifted down so that the alignment lines of all children meet.
    pub fn layout(&mut self, proposed: Size) -> (r: Size)
        ensures
            laid_out_widget(Widget::HStack(*old(self)), proposed, Widget::HStack(*final(self)), r),
        decreases *old(self),
    {
        let n = self.children.len();
        let ghost a = old(self).children@;
        let order = flex_order_of(&self.children);
        proof {
            lemma_flex_order(flex_keys(a), n as int);
        }
        let start = sub_sat(proposed.width, spacing_for(self.spacing, n));
        let mut left = start;
        let mut k: usize = 0;
        while k < n
            invariant
                0 <= k <= n,
                n == self.children.len(),
                n == a.len(),
                a == old(self).children@,
                self.alignment == old(self).alignment,
                self.spacing == old(self).spacing,
                order@ == flex_order(flex_keys(a), n as int),
                order.len() == n,
                forall|j: int| 0 <= j < n ==> #[trigger] order@[j] < n,
                order@.no_duplicates(),
                distributed(a, self.children@, order@, k as int, start, proposed.height),
                left == width_left(self.children@, order@, k as int, start),
                forall|j: int| k <= j < n ==> #[trigger] self.children@[order@[j] as int] == a[order@[j] as int],
            decreases n - k,
        {
            let ix = order[k];
            let offer = left / ((n - k) as u64);
            let ghost before = self.children@;
            let cs = self.children[ix].layout(Size::new(offer, proposed.height));
            proof {
                assert forall|j: int| 0 <= j < k implies
                    #[trigger] self.children@[order@[j] as int] == before[order@[j] as int] by {
                    assert(order@[j] != order@[k as int]);
                }
                lemma_distributed_frame(a, before, self.children@, order@, k as int, start, proposed.height);
                lemma_distributed_step(a, self.children@, order@, k as int, start, proposed.height);
                assert forall|j: int| k + 1 <= j < n implies
                    #[trigger] self.children@[order@[j] as int] == a[order@[j] as int] by {
                    assert(order@[j] != order@[k as int]);
                }
            }
            left = sub_sat(left, cs.width);
            k = k + 1;
        }
        let ghost b = self.children@;
        let al = self.alignment;
        let mut top: u64 = 0;
        let mut i: usize = 0;
        while i < n
            invariant
                0 <= i <= n,
                n == self.children.len(),
                b == self.children@,
                top == max_align(b, al, i as int),
            decreases n - i,
        {
            top = max_of(top, self.children[i].alignment(al));
            i = i + 1;
        }
        let spacing = self.spacing;
        let mut x: u64 = 0;
        let mut bottom: u64 = 0;
        let mut i: usize = 0;
        while i < n
            invariant
                0 <= i <= n,
                n == self.children.len(),
                n == b.len(),
                al == self.alignment,
                spacing == self.spacing,
                self.alignment == old(self).alignment,
                self.spacing == old(self).spacing,
                top == max_align(b, al, n as int),
                forall|j: int| 0 <= j < n ==> #[trigger] self.children@[j] == with_origin(b[j], self.children@[j].state.origin),
                forall|j: int| i <= j < n ==> #[trigger] self.children@[j] == b[j],
                forall|j: int| 0 <= j < i ==> (#[trigger] self.children@[j]).state.origin == stack_origin(b, al, spacing, j),
                x == (if i == 0 { 0 } else { x_after(b, spacing, i - 1) }),
                bottom == stack_bottom(b, al, spacing, i as int),
            decreases n - i,
        {
            if i != 0 {
                x = add_sat(x, spacing);
            }
            let y = sub_sat(top, self.children[i].alignment(al));
            let origin = Point::new(x, y);
            let size = self.children[i].state.size;
            self.children[i].set_origin(origin);
            bottom = max_of(bottom, add_sat(size.height, y));
            x = add_sat(x, size.width);
            i = i + 1;
        }
        proof {
            lemma_sizes_frame(b, self.children@, al, spacing);
            lemma_distributed_reorigin(a, b, self.children@, order@, n as int, start, proposed.height);
        }
        Size::new(x, bottom)
    }
}

/// A pod laid out at one origin is, moved, laid out at another.
pub proof fn lemma_laid_out_reorigin(p: Pod, o1: Point, proposed: Size, new: Pod, o2: Point)
    requires
        laid_out_at(p, o1, proposed, new),
    ensures
        laid_out_at(p, o2, proposed, with_origin(new, o2)),
{
}

/// The order of `flex_order` is a permutation of `0..n`.
pub proof fn lemma_flex_order(keys: Seq<u64>, n: int)
    requires
        0 <= n <= keys.len(),
        n <= usize::MAX,
    ensures
        flex_order(keys, n).len() == n,
        forall|j: int| 0 <= j < n ==> #[trigger] flex_order(keys, n)[j] < n,
        flex_order(keys, n).no_duplicates(),
    decreases n,
{
    if n > 0 {
        lemma_flex_order(keys, n - 1);
        let o = flex_order(keys, n - 1);
        lemma_first_greater_bounds(o, keys, keys[n - 1], 0);
        let p = first_greater(o, keys, keys[n - 1], 0);
        let o2 = o.insert(p, (n - 1) as usize);
        assert(o2 == flex_order(keys, n));
        assert forall|j: int| 0 <= j < n implies #[trigger] o2[j] < n by {
            if j < p {
                assert(o2[j] == o[j]);
            } else if j > p {
                assert(o2[j] == o[j - 1]);
            }
        }
        assert forall|x: int, y: int| 0 <= x < o2.len() && 0 <= y < o2.len() && x != y implies
            o2[x] != o2[y] by {
            if x != p && y != p {
                let xo = if x < p { x } else { x - 1 };
                let yo = if y < p { y } else { y - 1 };
                assert(o2[x] == o[xo]);
                assert(o2[y] == o[yo]);
            } else if x == p {
                let yo = if y < p { y } else { y - 1 };
                assert(o2[x] == (n - 1) as usize);
                assert(o2[y] == o[yo]);
                assert(o[yo] < n - 1);
            } else {
                let xo = if x < p { x } else { x - 1 };
                assert(o2[y] == (n - 1) as usize);
                assert(o2[x] == o[xo]);
                assert(o[xo] < n - 1);
            }
        }
    }
}

/// `order` lists indices by increasing key, equal keys by increasing index.
pub open spec fn sorted_by_key(keys: Seq<u64>, order: Seq<usize>) -> bool {
    forall|a: int, b: int| 0 <= a < b < order.len() ==>
        keys[#[trigger] order[a] as int] < keys[#[trigger] order[b] as int]
        || (keys[order[a] as int] == keys[order[b] as int] && order[a] < order[b])
}

/// The order in which the stack offers width is a stable sort of the
/// indices by flexibility.
pub proof fn lemma_flex_order_sorted(keys: Seq<u64>, n: int)
    requires
        0 <= n <= keys.len(),
        n <= usize::MAX,
    ensures
        sorted_by_key(keys, flex_order(keys, n)),
    decreases n,
{
    if n > 0 {
        lemma_flex_order(keys, n - 1);
        lemma_flex_order_sorted(keys, n - 1);
        let o = flex_order(keys, n - 1);
        let key = keys[n - 1];
        lemma_first_greater_bounds(o, keys, key, 0);
        lemma_first_greater_splits(o, keys, key, 0);
        let p = first_greater(o, keys, key, 0);
        let o2 = o.insert(p, (n - 1) as usize);
        assert(o2 == flex_order(keys, n));
        assert forall|x: int| p <= x < o.len() implies keys[o[x] as int] > key by {
            if x > p {
                assert(keys[o[p] as int] < keys[o[x] as int] || keys[o[p] as int] == keys[o[x] as int]);
            }
        }
        assert forall|a: int, b: int| 0 <= a < b < o2.len() implies
            keys[#[trigger] o2[a] as int] < keys[#[trigger] o2[b] as int]
            || (keys[o2[a] as int] == keys[o2[b] as int] && o2[a] < o2[b]) by {
            let ai = if a < p { a } else { a - 1 };
            let bi = if b < p { b } else { b - 1 };
            if a != p && b != p {
                assert(o2[a] == o[ai]);
                assert(o2[b] == o[bi]);
            } else if a == p {
                assert(o2[a] == (n - 1) as usize);
                assert(o2[b] == o[bi]);
            } else {
                assert(o2[b] == (n - 1) as usize);
                assert(o2[a] == o[ai]);
                assert(o[ai] < n - 1);
            }
        }
    }
}

/// Before the position `first_greater` finds, every key is at most `key`;
/// at that position, if any, the key exceeds it.
pub proof fn lemma_first_greater_splits(order: Seq<usize>, keys: Seq<u64>, key: u64, j: int)
    requires
        0 <= j <= order.len(),
    ensures
        forall|x: int| j <= x < first_greater(order, keys, key, j) ==> keys[#[trigger] order[x] as int] <= key,
        first_greater(order, keys, key, j) < order.len() ==> keys[order[first_greater(order, keys, key, j)] as int] > key,
    decreases order.len() - j,
{
    if j < order.len() && keys[order[j] as int] <= key {
        lemma_first_greater_splits(order, keys, key, j + 1);
    }
}

pub proof fn lemma_first_greater_bounds(order: Seq<usize>, keys: Seq<u64>, key: u64, j: int)
    requires
        0 <= j <= order.len(),
    ensures
        j <= first_greater(order, keys, key, j) <= order.len(),
    decreases order.len() - j,
{
    if j < order.len() && keys[order[j] as int] <= key {
        lemma_first_greater_bounds(order, keys, key, j + 1);
    }
}

/// `distributed` and `width_left` read only the children at `order[..k]`.
pub proof fn lemma_distributed_frame(a: Seq<Pod>, b1: Seq<Pod>, b2: Seq<Pod>, order: Seq<usize>, k: int, start: u64, height: u64)
    requires
        0 <= k <= order.len(),
        b1.len() == b2.len(),
        forall|j: int| 0 <= j < k ==> #[trigger] b2[order[j] as int] == b1[order[j] as int],
    ensures
        distributed(a, b1, order, k, start, height) == distributed(a, b2, order, k, start, height),
        width_left(b1, order, k, start) == width_left(b2, order, k, start),
    decreases k,
{
    if k > 0 {
        lemma_distributed_frame(a, b1, b2, order, k - 1, start, height);
        assert(distributed(a, b1, order, k, start, height) == (
            if k > order.len() || order.len() > a.len() || !(order[k - 1] < a.len()) || b1.len() != a.len() {
                false
            } else {
                distributed(a, b1, order, k - 1, start, height) && laid_out_at(
                    a[order[k - 1] as int],
                    b1[order[k - 1] as int].state.origin,
                    Size { width: width_offer(b1, order, k - 1, start), height },
                    b1[order[k - 1] as int],
                )
            }));
        assert(distributed(a, b2, order, k, start, height) == (
            if k > order.len() || order.len() > a.len() || !(order[k - 1] < a.len()) || b2.len() != a.len() {
                false
            } else {
                distributed(a, b2, order, k - 1, start, height) && laid_out_at(
                    a[order[k - 1] as int],
                    b2[order[k - 1] as int].state.origin,
                    Size { width: width_offer(b2, order, k - 1, start), height },
                    b2[order[k - 1] as int],
                )
            }));
    }
}

/// One more child of the order laid out extends `distributed`.
pub proof fn lemma_distributed_step(a: Seq<Pod>, b: Seq<Pod>, order: Seq<usize>, k: int, start: u64, height: u64)
    requires
        0 <= k < order.len(),
        order.len() == a.len(),
        b.len() == a.len(),
        order[k] < a.len(),
        distributed(a, b, order, k, start, height),
        laid_out_at(
            a[order[k] as int],
            b[order[k] as int].state.origin,
            Size { width: width_offer(b, order, k, start), height },
            b[order[k] as int],
        ),
    ensures
        distributed(a, b, order, k + 1, start, height),
{
    assert(distributed(a, b, order, k + 1, start, height) == (
        distributed(a, b, order, k, start, height) && laid_out_at(
            a[order[k] as int],
            b[order[k] as int].state.origin,
            Size { width: width_offer(b, order, k, start), height },
            b[order[k] as int],
        )));
}

/// Moving the children keeps them laid out as they were.
pub proof fn lemma_distributed_reorigin(a: Seq<Pod>, b1: Seq<Pod>, b2: Seq<Pod>, order: Seq<usize>, k: int, start: u64, height: u64)
    requires
        0 <= k <= order.len(),
        b1.len() == b2.len(),
        forall|j: int| 0 <= j < b1.len() ==> #[trigger] b2[j] == with_origin(b1[j], b2[j].state.origin),
        distributed(a, b1, order, k, start, height),
    ensures
        distributed(a, b2, order, k, start, height),
        width_left(b1, order, k, start) == width_left(b2, order, k, start),
    decreases k,
{
    if k > 0 {
        lemma_distributed_reorigin(a, b1, b2, order, k - 1, start, height);
        let ix = order[k - 1] as int;
        let offer = Size { width: width_offer(b1, order, k - 1, start), height };
        assert(distributed(a, b1, order, k, start, height) == (
            distributed(a, b1, order, k - 1, start, height)
                && laid_out_at(a[ix], b1[ix].state.origin, offer, b1[ix])));
        lemma_laid_out_reorigin(a[ix], b1[ix].state.origin, offer, b1[ix], b2[ix].state.origin);
        assert(distributed(a, b2, order, k, start, height) == (
            distributed(a, b2, order, k - 1, start, height)
                && laid_out_at(a[ix], b2[ix].state.origin, offer, b2[ix])));
    }
}

/// Placement reads only the sizes of the children.
pub proof fn lemma_sizes_frame(s1: Seq<Pod>, s2: Seq<Pod>, al: VertAlignment, spacing: u64)
    requires
        s1.len() == s2.len(),
        forall|j: int| 0 <= j < s1.len() ==> #[trigger] s2[j].state.size == s1[j].state.size,
    ensures
        forall|i: int| 0 <= i < s1.len() ==> #[trigger] stack_origin(s2, al, spacing, i) == stack_origin(s1, al, spacing, i),
        stack_size(s2, al, spacing) == stack_size(s1, al, spacing),
{
    lemma_sizes_frame_prefix(s1, s2, al, spacing, s1.len() as int);
    assert forall|i: int| 0 <= i < s1.len() implies
        #[trigger] stack_origin(s2, al, spacing, i) == stack_origin(s1, al, spacing, i) by {
        lemma_sizes_frame_prefix(s1, s2, al, spacing, i + 1);
    }
    lemma_bottom_frame(s1, s2, al, spacing, s1.len() as int);
}

pub proof fn lemma_bottom_frame(s1: Seq<Pod>, s2: Seq<Pod>, al: VertAlignment, spacing: u64, k: int)
    requires
        s1.len() == s2.len(),
        0 <= k <= s1.len(),
        forall|i: int| 0 <= i < s1.len() ==> #[trigger] stack_origin(s2, al, spacing, i) == stack_origin(s1, al, spacing, i),
        forall|j: int| 0 <= j < s1.len() ==> #[trigger] s2[j].state.size == s1[j].state.size,
    ensures
        stack_bottom(s2, al, spacing, k) == stack_bottom(s1, al, spacing, k),
    decreases k,
{
    if k > 0 {
        lemma_bottom_frame(s1, s2, al, spacing, k - 1);
        assert(stack_origin(s2, al, spacing, k - 1) == stack_origin(s1, al, spacing, k - 1));
        assert(s2[k - 1].state.size == s1[k - 1].state.size);
    }
}

pub proof fn lemma_sizes_frame_prefix(s1: Seq<Pod>, s2: Seq<Pod>, al: VertAlignment, spacing: u64, k: int)
    requires
        s1.len() == s2.len(),
        0 <= k <= s1.len(),
        forall|j: int| 0 <= j < s1.len() ==> #[trigger] s2[j].state.size == s1[j].state.size,
    ensures
        max_align(s2, al, k) == max_align(s1, al, k),
        max_align(s2, al, s1.len() as int) == max_align(s1, al, s1.len() as int),
        k > 0 ==> x_after(s2, spacing, k - 1) == x_after(s1, spacing, k - 1),
        k > 0 ==> x_before(s2, spacing, k - 1) == x_before(s1, spacing, k - 1),
    decreases k,
{
    lemma_align_frame(s1, s2, al, k);
    lemma_align_frame(s1, s2, al, s1.len() as int);
    if k > 0 {
        lemma_sizes_frame_prefix(s1, s2, al, spacing, k - 1);
        assert(s2[k - 1].state.size == s1[k - 1].state.size);
    }
}

pub proof fn lemma_align_frame(s1: Seq<Pod>, s2: Seq<Pod>, al: VertAlignment, k: int)
    requires
        s1.len() == s2.len(),
        0 <= k <= s1.len(),
        forall|j: int| 0 <= j < s1.len() ==> #[trigger] s2[j].state.size == s1[j].state.size,
    ensures
        max_align(s2, al, k) == max_align(s1, al, k),
    decreases k,
{
    if k > 0 {
        lemma_align_frame(s1, s2, al, k - 1);
        assert(s2[k - 1].state.size == s1[k - 1].state.size);
    }
}

// ---------------------------------------------------------------------------
// Update
// ---------------------------------------------------------------------------

/// `new` is `old` after its update pass: a pod flagged for update passes the
/// notification on to its children and marks its cached layout stale; any
/// other pod stays as it is, and nothing below it is visited.
pub open spec fn updated(old: Pod, new: Pod) -> bool
    decreases old,
{
    if old.state.flags.request_update {
        &&& new.state == (WidgetState {
            flags: PodFlags { request_update: false, request_layout: true, ..old.state.flags },
            ..old.state
        })
        &&& updated_widget(*old.widget, *new.widget)
    } else {
        new == old
    }
}

/// Each of the first `k` pods of `b` is the pod at its index in `a` after its
/// update pass.
pub open spec fn updated_prefix(a: Seq<Pod>, b: Seq<Pod>, k: int) -> bool
    decreases a, k,
{
    if k <= 0 {
        true
    } else if k > a.len() || k > b.len() {
        false
    } else {
        updated_prefix(a, b, k - 1) && updated(a[k - 1], b[k - 1])
    }
}

/// `new` is `old` after its update pass.
pub open spec fn updated_widget(old: Widget, new: Widget) -> bool
    decreases old,
{
    match old {
        Widget::Text(_) => new == old,
        Widget::Button(_) => new == old,
        Widget::Container(c) => match new {
            Widget::Container(c2) => {
                &&& updated(c.child, c2.child)
                &&& c2.padding_top == c.padding_top && c2.padding_right == c.padding_right
                &&& c2.padding_bottom == c.padding_bottom && c2.padding_left == c.padding_left
            },
            _ => false,
        },
        Widget::HStack(h) => match new {
            Widget::HStack(h2) => {
                &&& h2.alignment == h.alignment && h2.spacing == h.spacing
                &&& h2.children.len() == h.children.len()
                &&& updated_prefix(h.children@, h2.children@, h.children.len() as int)
            },
            _ => false,
        },
        Widget::Option(o) => match new {
            Widget::Option(o2) => match (o.child, o2.child) {
                (Some(c), Some(c2)) => updated(c, c2),
                (None, None) => true,
                _ => false,
            },
            _ => false,
        },
    }
}

impl Pod {
    /// A pod around a widget that has not been measured yet.
    pub fn new(widget: Widget) -> (p: Pod)
        ensures
            p.state == init_state(),
            *p.widget == widget,
    {
        let zero = Size::new(0, 0);
        Pod {
            state: WidgetState {
                flags: PodFlags {
                    request_update: true,
                    request_layout: true,
                    is_active: false,
                    is_hot: false,
                    has_active: false,
                },
                min_size: zero,
                max_size: zero,
                proposed_size: zero,
                size: zero,
                origin: Point::new(0, 0),
            },
            widget: Box::new(widget),
        }
    }

    /// Notes that something in this pod changed, so that the next update
    /// pass measures it again.
    pub fn request_update(&mut self)
        ensures
            final(self).widget == old(self).widget,
            final(self).state == (WidgetState {
                flags: PodFlags { request_update: true, ..old(self).state.flags },
                ..old(self).state
            }),
    {
        self.state.flags.request_update = true;
    }

    /// Passes an update notification down to every flagged pod.
    pub fn update(&mut self)
        ensures
            updated(*old(self), *final(self)),
        decreases *old(self),
    {
        if self.state.flags.request_update {
            self.widget.update();
            self.state.flags.request_update = false;
            self.state.flags.request_layout = true;
        }
    }
}

impl Container {
    /// A container around `child`, in a fresh pod, without padding.
    pub fn new(child: Widget) -> (c: Container)
        ensures
            c.child.state == init_state(),
            *c.child.widget == child,
            c.padding_top == 0 && c.padding_right == 0 && c.padding_bottom == 0 && c.padding_left == 0,
    {
        Container { child: Pod::new(child), padding_top: 0, padding_right: 0, padding_bottom: 0, padding_left: 0 }
    }

    /// The pod of the child.
    pub fn child_mut(&mut self) -> (r: &mut Pod)
        ensures
            *r == old(self).child,
            final(self).child == *final(r),
            final(self).padding_top == old(self).padding_top,
            final(self).padding_right == old(self).padding_right,
            final(self).padding_bottom == old(self).padding_bottom,
            final(self).padding_left == old(self).padding_left,
    {
        &mut self.child
    }

    /// Sets the padding on each side.
    pub fn padding(&mut self, padding_top: u64, padding_right: u64, padding_bottom: u64, padding_left: u64)
        ensures
            final(self).child == old(self).child,
            final(self).padding_top == padding_top,
            final(self).padding_right == padding_right,
            final(self).padding_bottom == padding_bottom,
            final(self).padding_left == padding_left,
    {
        self.padding_top = padding_top;
        self.padding_right = padding_right;
        self.padding_bottom = padding_bottom;
        self.padding_left = padding_left;
    }
}

impl HStack {
    /// A stack of `children`, lined up by `alignment`, without spacing.
    pub fn new(children: Vec<Pod>, alignment: VertAlignment) -> (h: HStack)
        ensures
            h.children == children,
            h.alignment == alignment,
            h.spacing == 0,
    {
        HStack { children, alignment, spacing: 0 }
    }

    /// The pods of the children.
    pub fn children_mut(&mut self) -> (r: &mut Vec<Pod>)
        ensures
            *r == old(self).children,
            final(self).children == *final(r),
            final(self).alignment == old(self).alignment,
            final(self).spacing == old(self).spacing,
    {
        &mut self.children
    }
}

impl OptionWidget {
    /// An option widget around `child`, in a fresh pod when there is one.
    pub fn new(child: Option<Widget>) -> (o: OptionWidget)
        ensures
            child is None ==> o.child is None,
            child is Some ==> o.child is Some && o.child->Some_0.state == init_state()
                && *o.child->Some_0.widget == child->Some_0,
    {
        match child {
            Some(w) => OptionWidget { child: Some(Pod::new(w)) },
            None => OptionWidget { child: None },
        }
    }

    /// The pod of the child, where there is one.
    pub fn child_mut(&mut self) -> (r: Option<&mut Pod>)
        ensures
            r is Some <==> old(self).child is Some,
            r is Some ==> *r->Some_0 == old(self).child->Some_0,
            r is Some ==> final(self).child == Some(*final(r->Some_0)),
            r is None ==> *final(self) == *old(self),
    {
        self.child.as_mut()
    }

    /// Replaces the child, putting a new one in a fresh pod.
    pub fn set_child(&mut self, child: Option<Widget>)
        ensures
            child is None ==> final(self).child is None,
            child is Some ==> final(self).child is Some && final(self).child->Some_0.state == init_state()
                && *final(self).child->Some_0.widget == child->Some_0,
    {
        *self = OptionWidget::new(child);
    }
}

impl Widget {
    /// Passes an update notification to the children of this widget.
    pub fn update(&mut self)
        ensures
            updated_widget(*old(self), *final(self)),
        decreases *old(self),
    {
        match self {
            Widget::Text(_) => {},
            Widget::Button(_) => {},
            Widget::Container(c) => c.child.update(),
            Widget::HStack(h) => h.update(),
            Widget::Option(o) => {
                if let Some(mut c) = o.child.take() {
                    c.update();
                    o.child = Some(c);
                }
            },
        }
    }
}

impl HStack {
    /// Passes an update notification to every child.
    pub fn update(&mut self)
        ensures
            updated_widget(Widget::HStack(*old(self)), Widget::HStack(*final(self))),
        decreases *old(self),
    {
        let n = self.children.len();
        let mut i: usize = 0;
        while i < n
            invariant
                0 <= i <= n,
                n == self.children.len(),
                n == old(self).children.len(),
                self.alignment == old(self).alignment,
                self.spacing == old(self).spacing,
                updated_prefix(old(self).children@, self.children@, i as int),
                forall|j: int| i <= j < n ==> #[trigger] self.children[j] == old(self).children[j],
            decreases n - i,
        {
            let ghost before = self.children@;
            self.children[i].update();
            proof {
                lemma_updated_prefix_frame(old(self).children@, before, self.children@, i as int);
                assert(updated_prefix(old(self).children@, self.children@, i + 1) == (
                    updated_prefix(old(self).children@, self.children@, i as int)
                        && updated(old(self).children@[i as int], self.children@[i as int])));
            }
            i = i + 1;
        }
    }
}

/// An updated prefix depends on the pods of the prefix alone.
pub proof fn lemma_updated_prefix_frame(a: Seq<Pod>, b: Seq<Pod>, c: Seq<Pod>, k: int)
    requires
        0 <= k <= a.len(),
        b.len() == a.len(),
        c.len() == a.len(),
        updated_prefix(a, b, k),
        forall|j: int| 0 <= j < k ==> #[trigger] c[j] == b[j],
    ensures
        updated_prefix(a, c, k),
    decreases k,
{
    if k > 0 {
        lemma_updated_prefix_frame(a, b, c, k - 1);
        assert(updated_prefix(a, c, k) == (updated_prefix(a, c, k - 1) && updated(a[k - 1], c[k - 1])));
    }
}

// ---------------------------------------------------------------------------
// Input
// ---------------------------------------------------------------------------

/// The pointer data of a mouse event.
pub open spec fn mouse_of(e: RawEvent) -> Option<MouseEvent> {
    match e {
        RawEvent::MouseDown(m) => Some(m),
        RawEvent::MouseUp(m) => Some(m),
        RawEvent::MouseMove(m) => Some(m),
        RawEvent::MouseWheel(m) => Some(m),
        _ => None,
    }
}

/// `v`, brought into the range of `i64`.
pub open spec fn clamp_i64(v: int) -> i64 {
    if v > i64::MAX {
        i64::MAX
    } else if v < i64::MIN {
        i64::MIN
    } else {
        v as i64
    }
}

/// `pos`, taken into the coordinates of a child placed at `origin`.
pub open spec fn moved_pos(pos: Position, origin: Point) -> Position {
    Position { x: clamp_i64(pos.x - origin.x), y: clamp_i64(pos.y - origin.y) }
}

/// `e`, as the child placed at `origin` receives it.
pub open spec fn moved_event(e: RawEvent, origin: Point) -> RawEvent {
    match e {
        RawEvent::MouseDown(m) => RawEvent::MouseDown(MouseEvent { pos: moved_pos(m.pos, origin), ..m }),
        RawEvent::MouseUp(m) => RawEvent::MouseUp(MouseEvent { pos: moved_pos(m.pos, origin), ..m }),
        RawEvent::MouseMove(m) => RawEvent::MouseMove(MouseEvent { pos: moved_pos(m.pos, origin), ..m }),
        RawEvent::MouseWheel(m) => RawEvent::MouseWheel(MouseEvent { pos: moved_pos(m.pos, origin), ..m }),
        _ => e,
    }
}

/// `pos` lies in the rectangle at `origin` of size `size`.
pub open spec fn hits(origin: Point, size: Size, pos: Position) -> bool {
    &&& origin.x <= pos.x < origin.x + size.width
    &&& origin.y <= pos.y < origin.y + size.height
}

/// Whether the pointer is over the pod once it has seen `e`, given in the
/// coordinates of the pod's parent. Key events leave it as it was.
pub open spec fn hot_after(p: Pod, e: RawEvent) -> bool {
    match mouse_of(e) {
        Some(m) => hits(p.state.origin, p.state.size, m.pos),
        None => p.state.flags.is_hot,
    }
}

/// Whether `e` is passed on to the widget in the pod: key events always are,
/// mouse events when the pointer is over the pod or something in it has the
/// pointer captured.
pub open spec fn reaches(p: Pod, e: RawEvent) -> bool {
    mouse_of(e) is None || p.state.flags.has_active || hot_after(p, e)
}

/// Whether a widget holds the pointer captured after `e`: a button captures
/// it on a press and lets it go on a release.
pub open spec fn active_after(w: Widget, e: RawEvent, was: bool) -> bool {
    match w {
        Widget::Button(_) => match e {
            RawEvent::MouseDown(_) => true,
            RawEvent::MouseUp(_) => false,
            _ => was,
        },
        _ => was,
    }
}

/// A pod directly below `w` reports the pointer captured.
pub open spec fn below_active(w: Widget) -> bool {
    match w {
        Widget::Container(c) => c.child.state.flags.has_active,
        Widget::HStack(h) => exists|i: int| 0 <= i < h.children.len() && (#[trigger] h.children[i]).state.flags.has_active,
        Widget::Option(o) => o.child is Some && o.child->Some_0.state.flags.has_active,
        _ => false,
    }
}

/// The paths that the pod reports on `e`, in tree order: the path of every
/// button released with the pointer over it.
pub open spec fn pod_emits(p: Pod, e: RawEvent) -> Seq<Seq<Id>>
    decreases p,
{
    if reaches(p, e) {
        widget_emits(*p.widget, hot_after(p, e), moved_event(e, p.state.origin))
    } else {
        Seq::empty()
    }
}

/// The paths that a widget reports on `e`, whose pod is `hot` or not.
pub open spec fn widget_emits(w: Widget, hot: bool, e: RawEvent) -> Seq<Seq<Id>>
    decreases w,
{
    match w {
        Widget::Text(_) => Seq::empty(),
        Widget::Button(b) => if e is MouseUp && hot { seq![b.id_path@] } else { Seq::empty() },
        Widget::Container(c) => pod_emits(c.child, e),
        Widget::HStack(h) => seq_emits(h.children@, e, h.children.len() as int),
        Widget::Option(o) => match o.child {
            Some(c) => pod_emits(c, e),
            None => Seq::empty(),
        },
    }
}

/// The paths that `s[..k]` report on `e`, one pod after the other.
pub open spec fn seq_emits(s: Seq<Pod>, e: RawEvent, k: int) -> Seq<Seq<Id>>
    decreases s, k,
{
    if k <= 0 || k > s.len() {
        Seq::empty()
    } else {
        seq_emits(s, e, k - 1) + pod_emits(s[k - 1], e)
    }
}

/// `new` is `old` after it received `e`.
pub open spec fn evented(old: Pod, e: RawEvent, new: Pod) -> bool
    decreases old,
{
    let hot = hot_after(old, e);
    if reaches(old, e) {
        let active = active_after(*old.widget, e, old.state.flags.is_active);
        &&& new.state == (WidgetState {
            flags: PodFlags {
                is_hot: hot,
                is_active: active,
                has_active: active || below_active(*new.widget),
                ..old.state.flags
            },
            ..old.state
        })
        &&& evented_widget(*old.widget, moved_event(e, old.state.origin), *new.widget)
    } else {
        &&& new.state == (WidgetState { flags: PodFlags { is_hot: hot, ..old.state.flags }, ..old.state })
        &&& new.widget == old.widget
    }
}

/// Each of the first `k` pods of `b` is the pod at its index in `a` after it
/// received `e`.
pub open spec fn evented_prefix(a: Seq<Pod>, b: Seq<Pod>, e: RawEvent, k: int) -> bool
    decreases a, k,
{
    if k <= 0 {
        true
    } else if k > a.len() || k > b.len() {
        false
    } else {
        evented_prefix(a, b, e, k - 1) && evented(a[k - 1], e, b[k - 1])
    }
}

/// `new` is `old` after it received `e`, in its own coordinates.
pub open spec fn evented_widget(old: Widget, e: RawEvent, new: Widget) -> bool
    decreases old,
{
    match old {
        Widget::Text(_) => new == old,
        Widget::Button(_) => new == old,
        Widget::Container(c) => match new {
            Widget::Container(c2) => {
                &&& evented(c.child, e, c2.child)
                &&& c2.padding_top == c.padding_top && c2.padding_right == c.padding_right
                &&& c2.padding_bottom == c.padding_bottom && c2.padding_left == c.padding_left
            },
            _ => false,
        },
        Widget::HStack(h) => match new {
            Widget::HStack(h2) => {
                &&& h2.alignment == h.alignment && h2.spacing == h.spacing
                &&& h2.children.len() == h.children.len()
                &&& evented_prefix(h.children@, h2.children@, e, h.children.len() as int)
            },
            _ => false,
        },
        Widget::Option(o) => match new {
            Widget::Option(o2) => match (o.child, o2.child) {
                (Some(c), Some(c2)) => evented(c, e, c2),
                (None, None) => true,
                _ => false,
            },
            _ => false,
        },
    }
}

/// Some button in `w` carries the path `q`.
pub open spec fn has_button_path(w: Widget, q: Seq<Id>) -> bool
    decreases w,
{
    match w {
        Widget::Text(_) => false,
        Widget::Button(b) => b.id_path@ == q,
        Widget::Container(c) => has_button_path(*c.child.widget, q),
        Widget::HStack(h) => seq_has_button_path(h.children@, q, h.children.len() as int),
        Widget::Option(o) => o.child is Some && has_button_path(*o.child->Some_0.widget, q),
    }
}

/// Some button in the pods `s[..k]` carries the path `q`.
pub open spec fn seq_has_button_path(s: Seq<Pod>, q: Seq<Id>, k: int) -> bool
    decreases s, k,
{
    if k <= 0 || k > s.len() {
        false
    } else {
        seq_has_button_path(s, q, k - 1) || has_button_path(*s[k - 1].widget, q)
    }
}

/// The pod at which `seq_has_button_path` finds the button.
pub proof fn lemma_seq_button_at(s: Seq<Pod>, q: Seq<Id>, k: int) -> (j: int)
    requires
        seq_has_button_path(s, q, k),
    ensures
        0 <= j < k,
        j < s.len(),
        has_button_path(*s[j].widget, q),
    decreases k,
{
    if seq_has_button_path(s, q, k - 1) {
        lemma_seq_button_at(s, q, k - 1)
    } else {
        k - 1
    }
}

/// A button found in one pod is found in every prefix holding that pod.
pub proof fn lemma_seq_button_from(s: Seq<Pod>, q: Seq<Id>, j: int, k: int)
    requires
        0 <= j < k <= s.len(),
        has_button_path(*s[j].widget, q),
    ensures
        seq_has_button_path(s, q, k),
    decreases k,
{
    if j < k - 1 {
        lemma_seq_button_from(s, q, j, k - 1);
    }
}

/// Every path that a pod reports on an event is the path of a button in it.
pub proof fn lemma_pod_emits_buttons(p: Pod, e: RawEvent, q: Seq<Id>)
    requires
        pod_emits(p, e).contains(q),
    ensures
        has_button_path(*p.widget, q),
    decreases p,
{
    lemma_widget_emits_buttons(*p.widget, hot_after(p, e), moved_event(e, p.state.origin), q);
}

/// Every path that a widget reports on an event is the path of a button in it.
pub proof fn lemma_widget_emits_buttons(w: Widget, hot: bool, e: RawEvent, q: Seq<Id>)
    requires
        widget_emits(w, hot, e).contains(q),
    ensures
        has_button_path(w, q),
    decreases w,
{
    match w {
        Widget::Button(b) => {
            assert(widget_emits(w, hot, e).len() == 1);
            assert(widget_emits(w, hot, e)[0] == b.id_path@);
        },
        Widget::Container(c) => lemma_pod_emits_buttons(c.child, e, q),
        Widget::HStack(h) => {
            let j = lemma_seq_emits_buttons(h.children@, e, q, h.children.len() as int);
            lemma_seq_button_from(h.children@, q, j, h.children.len() as int);
        },
        Widget::Option(o) => {
            if o.child is Some {
                lemma_pod_emits_buttons(o.child->Some_0, e, q);
            }
        },
        Widget::Text(_) => {},
    }
}

/// A path reported by the pods `s[..k]` is reported by one of them.
pub proof fn lemma_seq_emits_buttons(s: Seq<Pod>, e: RawEvent, q: Seq<Id>, k: int) -> (j: int)
    requires
        seq_emits(s, e, k).contains(q),
    ensures
        0 <= j < k,
        j < s.len(),
        has_button_path(*s[j].widget, q),
    decreases s, k,
{
    let before = seq_emits(s, e, k - 1);
    let last = pod_emits(s[k - 1], e);
    assert(seq_emits(s, e, k) == before + last);
    let x = choose|x: int| 0 <= x < (before + last).len() && (before + last)[x] == q;
    if x < before.len() {
        assert(before[x] == q);
        lemma_seq_emits_buttons(s, e, q, k - 1)
    } else {
        assert(last[x - before.len()] == q);
        lemma_pod_emits_buttons(s[k - 1], e, q);
        k - 1
    }
}

/// `v`, brought into the range of `i64`.
pub fn to_i64(v: i128) -> (r: i64)
    ensures
        r == clamp_i64(v as int),
{
    if v > i64::MAX as i128 {
        i64::MAX
    } else if v < i64::MIN as i128 {
        i64::MIN
    } else {
        v as i64
    }
}

fn move_mouse(m: &MouseEvent, origin: Point) -> (r: MouseEvent)
    ensures
        r == (MouseEvent { pos: moved_pos(m.pos, origin), ..*m }),
{
    let pos = Position {
        x: to_i64(m.pos.x as i128 - origin.x as i128),
        y: to_i64(m.pos.y as i128 - origin.y as i128),
    };
    MouseEvent { pos, ..*m }
}

fn copy_key(k: &KeyEvent) -> (r: KeyEvent)
    ensures
        r == *k,
{
    KeyEvent {
        key: k.key.clone(),
        code: k.code.clone(),
        location: k.location,
        mods: k.mods,
        repeat: k.repeat,
        is_composing: k.is_composing,
    }
}

/// The event as the child placed at `origin` receives it.
pub fn move_event(e: &RawEvent, origin: Point) -> (r: RawEvent)
    ensures
        r == moved_event(*e, origin),
{
    match e {
        RawEvent::MouseDown(m) => RawEvent::MouseDown(move_mouse(m, origin)),
        RawEvent::MouseUp(m) => RawEvent::MouseUp(move_mouse(m, origin)),
        RawEvent::MouseMove(m) => RawEvent::MouseMove(move_mouse(m, origin)),
        RawEvent::MouseWheel(m) => RawEvent::MouseWheel(move_mouse(m, origin)),
        RawEvent::KeyDown(k) => RawEvent::KeyDown(copy_key(k)),
        RawEvent::KeyUp(k) => RawEvent::KeyUp(copy_key(k)),
    }
}

impl Pod {
    /// Whether `pos`, in the coordinates of this pod's parent, lies on it.
    pub fn contains(&self, pos: Position) -> (r: bool)
        ensures
            r == hits(self.state.origin, self.state.size, pos),
    {
        let ox = self.state.origin.x as i128;
        let oy = self.state.origin.y as i128;
        let px = pos.x as i128;
        let py = pos.y as i128;
        ox <= px && px < ox + self.state.size.width as i128 && oy <= py && py < oy + self.state.size.height as i128
    }

    /// Delivers raw input, given in the coordinates of this pod's parent.
    /// The pod notes whether the pointer is over it and passes the event on,
    /// moved into its own coordinates, when the pointer is over it, when
    /// something in it has the pointer captured, or when it is a key event.
    /// Buttons released under the pointer report their paths to `msgs`.
    pub fn event(&mut self, event: &RawEvent, msgs: &mut Vec<Message>)
        ensures
            evented(*old(self), *event, *final(self)),
            message_paths(final(msgs)@) == message_paths(old(msgs)@) + pod_emits(*old(self), *event),
        decreases *old(self),
    {
        let hot = match event {
            RawEvent::MouseDown(m) => self.contains(m.pos),
            RawEvent::MouseUp(m) => self.contains(m.pos),
            RawEvent::MouseMove(m) => self.contains(m.pos),
            RawEvent::MouseWheel(m) => self.contains(m.pos),
            _ => self.state.flags.is_hot,
        };
        let is_mouse = match event {
            RawEvent::KeyDown(_) => false,
            RawEvent::KeyUp(_) => false,
            _ => true,
        };
        let reach = !is_mouse || self.state.flags.has_active || hot;
        self.state.flags.is_hot = hot;
        if reach {
            let moved = move_event(event, self.state.origin);
            let active = self.widget.event(&moved, hot, self.state.flags.is_active, msgs);
            self.state.flags.is_active = active;
            self.state.flags.has_active = active || self.widget.below_active();
        } else {
            assert(message_paths(msgs@) =~= message_paths(old(msgs)@) + pod_emits(*old(self), *event));
        }
    }
}

impl Widget {
    /// Delivers raw input in this widget's coordinates; `hot` and `active`
    /// are the pointer flags of its pod. Returns whether the widget holds the
    /// pointer captured afterwards.
    pub fn event(&mut self, event: &RawEvent, hot: bool, active: bool, msgs: &mut Vec<Message>) -> (r: bool)
        ensures
            evented_widget(*old(self), *event, *final(self)),
            r == active_after(*old(self), *event, active),
            message_paths(final(msgs)@) == message_paths(old(msgs)@) + widget_emits(*old(self), hot, *event),
        decreases *old(self),
    {
        let ghost m0 = msgs@;
        match self {
            Widget::Text(_) => {
                assert(message_paths(msgs@) =~= message_paths(m0) + Seq::<Seq<Id>>::empty());
                active
            },
            Widget::Button(b) => match event {
                RawEvent::MouseDown(_) => {
                    assert(message_paths(msgs@) =~= message_paths(m0) + Seq::<Seq<Id>>::empty());
                    true
                },
                RawEvent::MouseUp(_) => {
                    if hot {
                        msgs.push(Message { id_path: b.id_path.clone() });
                        assert(message_paths(msgs@) =~= message_paths(m0) + seq![b.id_path@]);
                    } else {
                        assert(message_paths(msgs@) =~= message_paths(m0) + Seq::<Seq<Id>>::empty());
                    }
                    false
                },
                _ => {
                    assert(message_paths(msgs@) =~= message_paths(m0) + Seq::<Seq<Id>>::empty());
                    active
                },
            },
            Widget::Container(c) => {
                c.child.event(event, msgs);
                active
            },
            Widget::HStack(h) => {
                h.event(event, msgs);
                active
            },
            Widget::Option(o) => {
                if let Some(mut c) = o.child.take() {
                    c.event(event, msgs);
                    o.child = Some(c);
                } else {
                    assert(message_paths(msgs@) =~= message_paths(m0) + Seq::<Seq<Id>>::empty());
                }
                active
            },
        }
    }

    /// Whether a pod directly below this widget has the pointer captured.
    pub fn below_active(&self) -> (r: bool)
        ensures
            r == below_active(*self),
    {
        match self {
            Widget::Container(c) => c.child.state.flags.has_active,
            Widget::HStack(h) => {
                let mut i: usize = 0;
                while i < h.children.len()
                    invariant
                        0 <= i <= h.children.len(),
                        *self == Widget::HStack(*h),
                        forall|j: int| 0 <= j < i ==> !(#[trigger] h.children[j]).state.flags.has_active,
                    decreases h.children.len() - i,
                {
                    if h.children[i].state.flags.has_active {
                        assert(h.children@[i as int].state.flags.has_active);
                        return true;
                    }
                    i = i + 1;
                }
                false
            },
            Widget::Option(o) => match &o.child {
                Some(c) => c.state.flags.has_active,
                None => false,
            },
            _ => false,
        }
    }
}

impl HStack {
    /// Delivers raw input to every child in order.
    pub fn event(&mut self, event: &RawEvent, msgs: &mut Vec<Message>)
        ensures
            evented_widget(Widget::HStack(*old(self)), *event, Widget::HStack(*final(self))),
            message_paths(final(msgs)@) == message_paths(old(msgs)@)
                + seq_emits(old(self).children@, *event, old(self).children.len() as int),
        decreases *old(self),
    {
        let n = self.children.len();
        let mut i: usize = 0;
        while i < n
            invariant
                0 <= i <= n,
                n == self.children.len(),
                n == old(self).children.len(),
                self.alignment == old(self).alignment,
                self.spacing == old(self).spacing,
                evented_prefix(old(self).children@, self.children@, *event, i as int),
                forall|j: int| i <= j < n ==> #[trigger] self.children[j] == old(self).children[j],
                message_paths(msgs@) == message_paths(old(msgs)@) + seq_emits(old(self).children@, *event, i as int),
            decreases n - i,
        {
            let ghost before = self.children@;
            let ghost m0 = msgs@;
            self.children[i].event(event, msgs);
            proof {
                lemma_evented_prefix_frame(old(self).children@, before, self.children@, *event, i as int);
                assert(evented_prefix(old(self).children@, self.children@, *event, i + 1) == (
                    evented_prefix(old(self).children@, self.children@, *event, i as int)
                        && evented(old(self).children@[i as int], *event, self.children@[i as int])));
                assert(seq_emits(old(self).children@, *event, i + 1) == seq_emits(old(self).children@, *event, i as int)
                    + pod_emits(old(self).children@[i as int], *event));
                assert(message_paths(msgs@) =~= message_paths(old(msgs)@) + seq_emits(old(self).children@, *event, i + 1));
            }
            i = i + 1;
        }
    }
}

/// A prefix that received an event depends on the pods of the prefix alone.
pub proof fn lemma_evented_prefix_frame(a: Seq<Pod>, b: Seq<Pod>, c: Seq<Pod>, e: RawEvent, k: int)
    requires
        0 <= k <= c.len(),
        evented_prefix(a, b, e, k),
        forall|j: int| 0 <= j < k ==> #[trigger] c[j] == b[j],
    ensures
        evented_prefix(a, c, e, k),
    decreases k,
{
    if k > 0 {
        lemma_evented_prefix_frame(a, b, c, e, k - 1);
        assert(c[k - 1] == b[k - 1]);
        assert(evented_prefix(a, c, e, k) == (evented_prefix(a, c, e, k - 1) && evented(a[k - 1], e, c[k - 1])));
    }
}

// ---------------------------------------------------------------------------
// Paint
// ---------------------------------------------------------------------------

/// One drawing step, in window coordinates, for the paint backend to carry
/// out in order.
pub enum PaintOp {
    /// Restrict drawing to the rectangle until the matching `PopClip`.
    PushClip { origin: Point, size: Size },
    PopClip,
    /// A text laid out in the rectangle.
    Text { origin: Point, size: Size, text: String },
    /// A button in the rectangle, drawn as pressed while `active` and as
    /// highlighted while `hot`.
    Button { origin: Point, size: Size, label: String, hot: bool, active: bool },
}

/// `a + b`, one axis at a time, capped at the largest `u64`.
pub open spec fn offset_by(a: Point, b: Point) -> Point {
    Point { x: sat_add(a.x, b.x), y: sat_add(a.y, b.y) }
}

/// The drawing steps of a pod whose parent stands at `offset`: the pod's
/// widget is drawn at its origin, children after their parents, in order.
pub open spec fn paint_ops(p: Pod, offset: Point) -> Seq<PaintOp>
    decreases p,
{
    let at = offset_by(offset, p.state.origin);
    match *p.widget {
        Widget::Text(t) => seq![PaintOp::Text { origin: at, size: p.state.size, text: t.text }],
        Widget::Button(b) => seq![PaintOp::Button {
            origin: at,
            size: p.state.size,
            label: b.label,
            hot: p.state.flags.is_hot,
            active: p.state.flags.is_active,
        }],
        Widget::Container(c) => seq![PaintOp::PushClip { origin: at, size: p.state.size }]
            + paint_ops(c.child, at) + seq![PaintOp::PopClip],
        Widget::HStack(h) => seq_paint_ops(h.children@, at, h.children.len() as int),
        Widget::Option(o) => match o.child {
            Some(c) => seq![PaintOp::PushClip { origin: at, size: p.state.size }] + paint_ops(c, at)
                + seq![PaintOp::PopClip],
            None => Seq::empty(),
        },
    }
}

/// The drawing steps of the pods `s[..k]`, one after the other.
pub open spec fn seq_paint_ops(s: Seq<Pod>, offset: Point, k: int) -> Seq<PaintOp>
    decreases s, k,
{
    if k <= 0 || k > s.len() {
        Seq::empty()
    } else {
        seq_paint_ops(s, offset, k - 1) + paint_ops(s[k - 1], offset)
    }
}

impl HStack {
    /// Appends the drawing steps of the children, left to right; the stack
    /// stands at `at` in the window.
    pub fn paint(&self, at: Point, ops: &mut Vec<PaintOp>)
        ensures
            final(ops)@ == old(ops)@ + seq_paint_ops(self.children@, at, self.children.len() as int),
        decreases *self,
    {
        let ghost ops0 = ops@;
        let mut i: usize = 0;
        while i < self.children.len()
            invariant
                0 <= i <= self.children.len(),
                ops@ == ops0 + seq_paint_ops(self.children@, at, i as int),
            decreases self.children.len() - i,
        {
            self.children[i].paint(at, ops);
            proof {
                assert(seq_paint_ops(self.children@, at, i + 1) == seq_paint_ops(self.children@, at, i as int)
                    + paint_ops(self.children@[i as int], at));
                assert(ops@ =~= ops0 + seq_paint_ops(self.children@, at, i + 1));
            }
            i = i + 1;
        }
    }
}

impl Pod {
    /// Appends the drawing steps of this pod, whose parent stands at
    /// `offset` in the window, to `ops`.
    pub fn paint(&self, offset: Point, ops: &mut Vec<PaintOp>)
        ensures
            final(ops)@ == old(ops)@ + paint_ops(*self, offset),
        decreases *self,
    {
        let at = Point::new(add_sat(offset.x, self.state.origin.x), add_sat(offset.y, self.state.origin.y));
        let ghost ops0 = ops@;
        match &*self.widget {
            Widget::Text(t) => {
                ops.push(PaintOp::Text { origin: at, size: self.state.size, text: t.text.clone() });
                assert(ops@ =~= ops0 + paint_ops(*self, offset));
            },
            Widget::Button(b) => {
                ops.push(PaintOp::Button {
                    origin: at,
                    size: self.state.size,
                    label: b.label.clone(),
                    hot: self.state.flags.is_hot,
                    active: self.state.flags.is_active,
                });
                assert(ops@ =~= ops0 + paint_ops(*self, offset));
            },
            Widget::Container(c) => {
                ops.push(PaintOp::PushClip { origin: at, size: self.state.size });
                c.child.paint(at, ops);
                ops.push(PaintOp::PopClip);
                assert(ops@ =~= ops0 + paint_ops(*self, offset));
            },
            Widget::HStack(h) => h.paint(at, ops),
            Widget::Option(o) => match &o.child {
                Some(c) => {
                    ops.push(PaintOp::PushClip { origin: at, size: self.state.size });
                    c.paint(at, ops);
                    ops.push(PaintOp::PopClip);
                    assert(ops@ =~= ops0 + paint_ops(*self, offset));
                },
                None => {
                    assert(ops@ =~= ops0 + paint_ops(*self, offset));
                },
            },
        }
    }
}

/// The stack lines its children up: each child, shifted down by its origin,
/// has its alignment line at the same height, that of the child whose
/// alignment value is largest, which itself is not shifted.
pub proof fn lemma_alignment_lines_meet(s: Seq<Pod>, al: VertAlignment, spacing: u64, i: int)
    requires
        0 <= i < s.len(),
    ensures
        stack_origin(s, al, spacing, i).y + align_value(s[i], al) == max_align(s, al, s.len() as int),
        align_value(s[i], al) == max_align(s, al, s.len() as int) ==> stack_origin(s, al, spacing, i).y == 0,
{
    lemma_max_align_bound(s, al, s.len() as int, i);
}

/// The largest alignment value of a prefix bounds every value in it.
pub proof fn lemma_max_align_bound(s: Seq<Pod>, al: VertAlignment, k: int, i: int)
    requires
        0 <= i < k <= s.len(),
    ensures
        align_value(s[i], al) <= max_align(s, al, k),
    decreases k,
{
    if i < k - 1 {
        lemma_max_align_bound(s, al, k - 1, i);
    }
}

/// Every index below `n` has a place in `flex_order(keys, n)`.
pub proof fn lemma_flex_order_covers(keys: Seq<u64>, n: int, i: int)
    requires
        0 <= i < n <= keys.len(),
        n <= usize::MAX,
    ensures
        flex_order(keys, n).contains(i as usize),
    decreases n,
{
    let o = flex_order(keys, n - 1);
    lemma_flex_order(keys, n - 1);
    lemma_first_greater_bounds(o, keys, keys[n - 1], 0);
    let p = first_greater(o, keys, keys[n - 1], 0);
    let o2 = o.insert(p, (n - 1) as usize);
    assert(o2 == flex_order(keys, n));
    if i == n - 1 {
        assert(o2[p] == i as usize);
    } else {
        lemma_flex_order_covers(keys, n - 1, i);
        let x = choose|x: int| 0 <= x < o.len() && o[x] == i as usize;
        if x < p {
            assert(o2[x] == o[x]);
        } else {
            assert(o2[x + 1] == o[x]);
        }
    }
}

/// A leaf pod flagged for layout whose width range holds `q`.
pub open spec fn leaf_accepting(p: Pod, q: u64) -> bool {
    &&& p.state.flags.request_layout
    &&& *p.widget is Text
    &&& (*p.widget)->Text_0.min_size.width <= q <= (*p.widget)->Text_0.max_size.width
}

/// Flexible distribution splits evenly: when `n` text children, each able
/// to take the width `q`, share `n * q` without spacing, each is offered and
/// takes exactly `q`, whatever the order of their flexibilities, and the
/// stack is `n * q` wide.
pub proof fn lemma_even_split(h: HStack, proposed: Size, h2: HStack, size: Size, q: u64)
    requires
        laid_out_widget(Widget::HStack(h), proposed, Widget::HStack(h2), size),
        h.spacing == 0,
        h.children.len() > 0,
        proposed.width == h.children.len() * q,
        forall|i: int| 0 <= i < h.children.len() ==> leaf_accepting(#[trigger] h.children[i], q),
    ensures
        forall|i: int| 0 <= i < h2.children.len() ==> (#[trigger] h2.children[i]).state.size.width == q,
        h2.children.len() == h.children.len(),
        size.width == proposed.width,
{
    let n = h.children.len() as int;
    let a = h.children@;
    let b = h2.children@;
    let keys = flex_keys(a);
    let order = flex_order(keys, n);
    lemma_flex_order(keys, n);
    assert(total_spacing(0, n) == 0);
    lemma_even_split_prefix(a, b, order, n, proposed.width, q, proposed.height);
    assert forall|i: int| 0 <= i < b.len() implies (#[trigger] b[i]).state.size.width == q by {
        lemma_flex_order_covers(keys, n, i);
        let k = choose|k: int| 0 <= k < order.len() && order[k] == i as usize;
    }
    lemma_even_split_width(b, q, n - 1);
    assert(x_after(b, 0, n - 1) == n * q);
}

/// Along the distribution, each child takes `q` and `(n - k) * q` is left.
pub proof fn lemma_even_split_prefix(a: Seq<Pod>, b: Seq<Pod>, order: Seq<usize>, k: int, start: u64, q: u64, height: u64)
    requires
        0 <= k <= order.len(),
        a.len() <= u64::MAX,
        order.len() == a.len(),
        forall|j: int| 0 <= j < order.len() ==> #[trigger] order[j] < a.len(),
        start == a.len() * q,
        distributed(a, b, order, k, start, height),
        forall|i: int| 0 <= i < a.len() ==> leaf_accepting(#[trigger] a[i], q),
    ensures
        width_left(b, order, k, start) == (a.len() - k) * q,
        forall|j: int| 0 <= j < k ==> (#[trigger] b[order[j] as int]).state.size.width == q,
    decreases k,
{
    let n = a.len() as int;
    if k > 0 {
        let ix = order[k - 1] as int;
        let offer = Size { width: width_offer(b, order, k - 1, start), height };
        assert(distributed(a, b, order, k, start, height) == (
            distributed(a, b, order, k - 1, start, height)
                && laid_out_at(a[ix], b[ix].state.origin, offer, b[ix])));
        lemma_even_split_prefix(a, b, order, k - 1, start, q, height);
        let m = n - (k - 1);
        assert(m * q <= n * q) by (nonlinear_arith)
            requires
                0 < m <= n,
                0 <= q,
        ;
        vstd::arithmetic::div_mod::lemma_div_by_multiple(q as int, m);
        assert(m * q == q * m) by (nonlinear_arith);
        assert(width_left(b, order, k - 1, start) == m * q);
        assert((order.len() - (k - 1)) as u64 == m);
        assert(offer.width == q);
        assert(leaf_accepting(a[ix], q));
        assert(laid_out_widget(*a[ix].widget, offer, *b[ix].widget, b[ix].state.size));
        assert(b[ix].state.size.width == q);
        assert((n - k) * q == m * q - q) by (nonlinear_arith)
            requires
                m == n - k + 1,
        ;
    } else {
        assert(n * q == (n - 0) * q);
    }
}

/// With every child `q` wide and no spacing, child `i` ends at `(i + 1) * q`.
pub proof fn lemma_even_split_width(b: Seq<Pod>, q: u64, i: int)
    requires
        0 <= i < b.len(),
        b.len() * q <= u64::MAX,
        forall|j: int| 0 <= j < b.len() ==> (#[trigger] b[j]).state.size.width == q,
    ensures
        x_after(b, 0, i) == (i + 1) * q,
    decreases i,
{
    assert((i + 1) * q <= b.len() * q) by (nonlinear_arith)
        requires
            0 <= i < b.len(),
            0 <= q,
    ;
    if i > 0 {
        lemma_even_split_width(b, q, i - 1);
        assert((i + 1) * q == i * q + q) by (nonlinear_arith);
        assert(x_before(b, 0, i) == sat_add(x_after(b, 0, i - 1), 0));
        assert(x_before(b, 0, i) == i * q);
        assert(b[i].state.size.width == q);
        assert(i * q + q <= u64::MAX);
    } else {
        assert(x_before(b, 0, 0) == 0);
        assert((i + 1) * q == q) by (nonlinear_arith)
            requires
                i == 0,
        ;
    }
    assert(x_after(b, 0, i) == sat_add(x_before(b, 0, i), b[i].state.size.width));
}

/// Extending a measured prefix by one pod, where the pods before it stay.
pub proof fn lemma_measured_prefix_frame(a: Seq<Pod>, b: Seq<Pod>, c: Seq<Pod>, k: int)
    requires
        0 <= k < a.len(),
        b.len() == a.len(),
        c.len() == a.len(),
        measured_prefix(a, b, k),
        forall|j: int| 0 <= j < k ==> #[trigger] c[j] == b[j],
        measured(a[k], c[k]),
    ensures
        measured_prefix(a, c, k + 1),
    decreases k,
{
    lemma_measured_prefix_frame_up(a, b, c, k);
    assert(measured_prefix(a, c, k + 1) == (measured_prefix(a, c, k) && measured(a[k], c[k])));
}

/// A measured prefix depends on the pods of the prefix alone.
pub proof fn lemma_measured_prefix_frame_up(a: Seq<Pod>, b: Seq<Pod>, c: Seq<Pod>, k: int)
    requires
        0 <= k <= a.len(),
        b.len() == a.len(),
        c.len() == a.len(),
        measured_prefix(a, b, k),
        forall|j: int| 0 <= j < k ==> #[trigger] c[j] == b[j],
    ensures
        measured_prefix(a, c, k),
    decreases k,
{
    if k > 0 {
        lemma_measured_prefix_frame_up(a, b, c, k - 1);
    }
}

/// Prefix aggregates only read the prefix.
pub proof fn lemma_prefix_aggregates(a: Seq<Pod>, b: Seq<Pod>, k: int)
    requires
        0 <= k <= a.len(),
        k <= b.len(),
        forall|j: int| 0 <= j < k ==> #[trigger] a[j] == b[j],
    ensures
        sum_widths(a, k, false) == sum_widths(b, k, false),
        sum_widths(a, k, true) == sum_widths(b, k, true),
        max_heights(a, k, false) == max_heights(b, k, false),
        max_heights(a, k, true) == max_heights(b, k, true),
    decreases k,
{
    if k > 0 {
        lemma_prefix_aggregates(a, b, k - 1);
    }
}

} // verus!
