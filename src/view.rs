//! Views: cheap descriptions of a widget subtree, rebuilt every cycle and
//! diffed against their predecessors to patch the retained tree.
use vstd::prelude::*;
use crate::event::{EventResult, Handler, RawEvent};
use crate::geometry::{Size, UNBOUNDED};
use crate::id::{Cx, Id};
use crate::optional::Optional;
use crate::widget::{self, ButtonWidget, OptionWidget, Pod, TextWidget, VertAlignment, Widget};

verus! {

/// A text.
pub struct TextView {
    pub text: String,
    pub min_size: Size,
    pub max_size: Size,
}

/// A clickable label whose handler runs when an event reaches it.
pub struct Button<H> {
    pub label: String,
    pub handler: H,
    pub min_size: Size,
    pub max_size: Size,
}

/// One child, inset by a padding on each side.
pub struct Container<H> {
    pub child: Box<AnyView<H>>,
    pub padding_top: u64,
    pub padding_right: u64,
    pub padding_bottom: u64,
    pub padding_left: u64,
}

/// Children laid out left to right.
pub struct HStack<H> {
    pub children: ViewSequence<H>,
    pub cross_axis_alignment: VertAlignment,
    pub spacing: u64,
}

/// An ordered list of views, matched with its predecessor slot by slot.
pub struct ViewSequence<H> {
    pub views: Vec<AnyView<H>>,
}

/// A view of any of the kinds this library knows.
pub enum AnyView<H> {
    Text(TextView),
    Button(Button<H>),
    Container(Container<H>),
    HStack(HStack<H>),
    Optional(Optional<H>),
}

/// What a view keeps across cycles to drive its diff.
pub enum ViewState {
    /// A text or a button.
    Leaf,
    /// A container: its child's identity and state.
    Container(Id, Box<ViewState>),
    /// A sequence: the identity and the state of each slot.
    Sequence(Vec<Id>, Vec<ViewState>),
    /// A present optional child: its identity and state.
    Present(Id, Box<ViewState>),
    /// An absent optional child.
    Absent,
}

// ---------------------------------------------------------------------------
// The model
// ---------------------------------------------------------------------------

/// The two views are of the same kind, so that one can be rebuilt into the
/// other in place.
pub open spec fn same_kind<H>(a: AnyView<H>, b: AnyView<H>) -> bool {
    match (a, b) {
        (AnyView::Text(_), AnyView::Text(_)) => true,
        (AnyView::Button(_), AnyView::Button(_)) => true,
        (AnyView::Container(_), AnyView::Container(_)) => true,
        (AnyView::HStack(_), AnyView::HStack(_)) => true,
        (AnyView::Optional(_), AnyView::Optional(_)) => true,
        _ => false,
    }
}

/// The two views show the same thing: same kinds, same parameters and, where
/// present, the same children. Handlers are not compared.
pub open spec fn same<H>(a: AnyView<H>, b: AnyView<H>) -> bool
    decreases a,
{
    match (a, b) {
        (AnyView::Text(t), AnyView::Text(u)) => t.text@ == u.text@ && t.min_size == u.min_size
            && t.max_size == u.max_size,
        (AnyView::Button(t), AnyView::Button(u)) => t.label@ == u.label@ && t.min_size == u.min_size
            && t.max_size == u.max_size,
        (AnyView::Container(c), AnyView::Container(d)) => {
            &&& c.padding_top == d.padding_top && c.padding_right == d.padding_right
            &&& c.padding_bottom == d.padding_bottom && c.padding_left == d.padding_left
            &&& same(*c.child, *d.child)
        },
        (AnyView::HStack(h), AnyView::HStack(g)) => {
            &&& h.cross_axis_alignment == g.cross_axis_alignment && h.spacing == g.spacing
            &&& same_seq(h.children.views@, g.children.views@)
        },
        (AnyView::Optional(o), AnyView::Optional(p)) => {
            &&& o.show == p.show
            &&& o.show ==> same(*o.child, *p.child)
        },
        _ => false,
    }
}

/// Two sequences of equal length whose slots show the same thing.
pub open spec fn same_seq<H>(a: Seq<AnyView<H>>, b: Seq<AnyView<H>>) -> bool
    decreases a,
{
    a.len() == b.len() && same_prefix(a, b, a.len() as int)
}

/// The first `k` slots of `a` and `b` show the same thing.
pub open spec fn same_prefix<H>(a: Seq<AnyView<H>>, b: Seq<AnyView<H>>, k: int) -> bool
    decreases a, k,
{
    if k <= 0 {
        true
    } else if k > a.len() || k > b.len() {
        false
    } else {
        same_prefix(a, b, k - 1) && same(a[k - 1], b[k - 1])
    }
}

/// The number of nodes of `v`, absent optional children included: a bound
/// on the identities one build or rebuild of `v` hands out.
pub open spec fn node_count<H>(v: AnyView<H>) -> nat
    decreases v,
{
    match v {
        AnyView::Text(_) => 1,
        AnyView::Button(_) => 1,
        AnyView::Container(c) => 1 + node_count(*c.child),
        AnyView::HStack(h) => 1 + seq_count(h.children.views@, h.children.views.len() as int),
        AnyView::Optional(o) => 1 + node_count(*o.child),
    }
}

/// The number of nodes of `s[..k]`.
pub open spec fn seq_count<H>(s: Seq<AnyView<H>>, k: int) -> nat
    decreases s, k,
{
    if k <= 0 || k > s.len() {
        0
    } else {
        seq_count(s, k - 1) + node_count(s[k - 1])
    }
}

/// Every identity in `st` lies below `bound`, and the slots of every
/// sequence in it carry distinct identities.
pub open spec fn ids_ok(st: ViewState, bound: nat) -> bool
    decreases st,
{
    match st {
        ViewState::Container(cid, s) => cid.raw < bound && ids_ok(*s, bound),
        ViewState::Present(cid, s) => cid.raw < bound && ids_ok(*s, bound),
        ViewState::Sequence(ids, sts) => {
            &&& ids@.no_duplicates()
            &&& forall|j: int| 0 <= j < ids.len() ==> (#[trigger] ids@[j]).raw < bound
            &&& states_ok_prefix(sts@, bound, sts.len() as int)
        },
        _ => true,
    }
}

/// The first `k` states of `s` satisfy `ids_ok` under `bound`.
pub open spec fn states_ok_prefix(s: Seq<ViewState>, bound: nat, k: int) -> bool
    decreases s, k,
{
    if k <= 0 {
        true
    } else if k > s.len() {
        false
    } else {
        states_ok_prefix(s, bound, k - 1) && ids_ok(s[k - 1], bound)
    }
}

/// A larger bound keeps `ids_ok`.
pub proof fn lemma_ids_ok_mono(st: ViewState, b1: nat, b2: nat)
    requires
        ids_ok(st, b1),
        b1 <= b2,
    ensures
        ids_ok(st, b2),
    decreases st,
{
    match st {
        ViewState::Container(_, s) => lemma_ids_ok_mono(*s, b1, b2),
        ViewState::Present(_, s) => lemma_ids_ok_mono(*s, b1, b2),
        ViewState::Sequence(_, sts) => lemma_states_ok_mono(sts@, b1, b2, sts.len() as int),
        _ => {},
    }
}

pub proof fn lemma_states_ok_mono(s: Seq<ViewState>, b1: nat, b2: nat, k: int)
    requires
        states_ok_prefix(s, b1, k),
        b1 <= b2,
    ensures
        states_ok_prefix(s, b2, k),
    decreases s, k,
{
    if k > 0 {
        lemma_states_ok_mono(s, b1, b2, k - 1);
        lemma_ids_ok_mono(s[k - 1], b1, b2);
    }
}

/// `states_ok_prefix` reads the states of the prefix alone.
pub proof fn lemma_states_ok_frame(s1: Seq<ViewState>, s2: Seq<ViewState>, bound: nat, k: int)
    requires
        0 <= k <= s2.len(),
        states_ok_prefix(s1, bound, k),
        forall|j: int| 0 <= j < k ==> #[trigger] s2[j] == s1[j],
    ensures
        states_ok_prefix(s2, bound, k),
    decreases k,
{
    if k > 0 {
        lemma_states_ok_frame(s1, s2, bound, k - 1);
        assert(s2[k - 1] == s1[k - 1]);
    }
}

/// A state of a prefix that satisfies `ids_ok` satisfies it on its own.
pub proof fn lemma_states_ok_at(s: Seq<ViewState>, bound: nat, k: int, j: int)
    requires
        0 <= j < k,
        states_ok_prefix(s, bound, k),
    ensures
        ids_ok(s[j], bound),
    decreases k,
{
    if j < k - 1 {
        lemma_states_ok_at(s, bound, k - 1, j);
    }
}

/// Every identity in `st` lies in `[lo, hi)`.
pub open spec fn ids_in(st: ViewState, lo: nat, hi: nat) -> bool
    decreases st,
{
    match st {
        ViewState::Container(cid, s) => lo <= cid.raw < hi && ids_in(*s, lo, hi),
        ViewState::Present(cid, s) => lo <= cid.raw < hi && ids_in(*s, lo, hi),
        ViewState::Sequence(ids, sts) => {
            &&& forall|j: int| 0 <= j < ids.len() ==> lo <= (#[trigger] ids@[j]).raw < hi
            &&& states_in_prefix(sts@, lo, hi, sts.len() as int)
        },
        _ => true,
    }
}

/// Every identity in the first `k` states of `s` lies in `[lo, hi)`.
pub open spec fn states_in_prefix(s: Seq<ViewState>, lo: nat, hi: nat, k: int) -> bool
    decreases s, k,
{
    if k <= 0 {
        true
    } else if k > s.len() {
        false
    } else {
        states_in_prefix(s, lo, hi, k - 1) && ids_in(s[k - 1], lo, hi)
    }
}

/// A wider range keeps `ids_in`.
pub proof fn lemma_ids_in_widen(st: ViewState, lo1: nat, hi1: nat, lo2: nat, hi2: nat)
    requires
        ids_in(st, lo1, hi1),
        lo2 <= lo1,
        hi1 <= hi2,
    ensures
        ids_in(st, lo2, hi2),
    decreases st,
{
    match st {
        ViewState::Container(_, s) => lemma_ids_in_widen(*s, lo1, hi1, lo2, hi2),
        ViewState::Present(_, s) => lemma_ids_in_widen(*s, lo1, hi1, lo2, hi2),
        ViewState::Sequence(_, sts) => lemma_states_in_widen(sts@, lo1, hi1, lo2, hi2, sts.len() as int),
        _ => {},
    }
}

pub proof fn lemma_states_in_widen(s: Seq<ViewState>, lo1: nat, hi1: nat, lo2: nat, hi2: nat, k: int)
    requires
        states_in_prefix(s, lo1, hi1, k),
        lo2 <= lo1,
        hi1 <= hi2,
    ensures
        states_in_prefix(s, lo2, hi2, k),
    decreases s, k,
{
    if k > 0 {
        lemma_states_in_widen(s, lo1, hi1, lo2, hi2, k - 1);
        lemma_ids_in_widen(s[k - 1], lo1, hi1, lo2, hi2);
    }
}

/// `states_in_prefix` reads the states of the prefix alone.
pub proof fn lemma_states_in_frame(s1: Seq<ViewState>, s2: Seq<ViewState>, lo: nat, hi: nat, k: int)
    requires
        0 <= k <= s2.len(),
        states_in_prefix(s1, lo, hi, k),
        forall|j: int| 0 <= j < k ==> #[trigger] s2[j] == s1[j],
    ensures
        states_in_prefix(s2, lo, hi, k),
    decreases k,
{
    if k > 0 {
        lemma_states_in_frame(s1, s2, lo, hi, k - 1);
        assert(s2[k - 1] == s1[k - 1]);
    }
}

/// The two diff states are the same, down to the state of every child.
pub open spec fn state_same(a: ViewState, b: ViewState) -> bool
    decreases a,
{
    match (a, b) {
        (ViewState::Leaf, ViewState::Leaf) => true,
        (ViewState::Container(i, s), ViewState::Container(j, t)) => i == j && state_same(*s, *t),
        (ViewState::Sequence(ids, sts), ViewState::Sequence(jds, tts)) => {
            &&& ids@ == jds@
            &&& sts.len() == tts.len()
            &&& states_same_prefix(sts@, tts@, sts.len() as int)
        },
        (ViewState::Present(i, s), ViewState::Present(j, t)) => i == j && state_same(*s, *t),
        (ViewState::Absent, ViewState::Absent) => true,
        _ => false,
    }
}

/// The first `k` states of `a` and `b` are the same.
pub open spec fn states_same_prefix(a: Seq<ViewState>, b: Seq<ViewState>, k: int) -> bool
    decreases a, k,
{
    if k <= 0 {
        true
    } else if k > a.len() || k > b.len() {
        false
    } else {
        states_same_prefix(a, b, k - 1) && state_same(a[k - 1], b[k - 1])
    }
}

/// A prefix of the same states depends on the states of the prefix alone.
pub proof fn lemma_states_same_prefix_frame(a: Seq<ViewState>, b1: Seq<ViewState>, b2: Seq<ViewState>, k: int)
    requires
        0 <= k <= b2.len(),
        states_same_prefix(a, b1, k),
        forall|j: int| 0 <= j < k ==> #[trigger] b2[j] == b1[j],
    ensures
        states_same_prefix(a, b2, k),
    decreases k,
{
    if k > 0 {
        lemma_states_same_prefix_frame(a, b1, b2, k - 1);
        assert(b2[k - 1] == b1[k - 1]);
        assert(states_same_prefix(a, b2, k) == (states_same_prefix(a, b2, k - 1) && state_same(a[k - 1], b2[k - 1])));
    }
}

/// `st` and `w` are the diff state and the widget of the view `v`, whose
/// node has the identity `id` and stands under the identities `path`.
pub open spec fn wf<H>(v: AnyView<H>, id: Id, st: ViewState, w: Widget, path: Seq<Id>) -> bool
    decreases v,
{
    match v {
        AnyView::Text(t) => {
            &&& st is Leaf
            &&& w is Text
            &&& w->Text_0.text@ == t.text@
            &&& w->Text_0.min_size == t.min_size
            &&& w->Text_0.max_size == t.max_size
        },
        AnyView::Button(b) => {
            &&& st is Leaf
            &&& w is Button
            &&& w->Button_0.label@ == b.label@
            &&& w->Button_0.id_path@ == path.push(id)
            &&& w->Button_0.min_size == b.min_size
            &&& w->Button_0.max_size == b.max_size
        },
        AnyView::Container(c) => {
            &&& st is Container
            &&& w is Container
            &&& w->Container_0.padding_top == c.padding_top
            &&& w->Container_0.padding_right == c.padding_right
            &&& w->Container_0.padding_bottom == c.padding_bottom
            &&& w->Container_0.padding_left == c.padding_left
            &&& wf(*c.child, st->Container_0, *st->Container_1, *w->Container_0.child.widget, path.push(id))
        },
        AnyView::HStack(h) => {
            &&& st is Sequence
            &&& w is HStack
            &&& w->HStack_0.alignment == h.cross_axis_alignment
            &&& w->HStack_0.spacing == h.spacing
            &&& seq_wf(h.children.views@, st->Sequence_0@, st->Sequence_1@, w->HStack_0.children@, path.push(id))
        },
        AnyView::Optional(o) => {
            &&& w is Option
            &&& if o.show {
                &&& st is Present
                &&& w->Option_0.child is Some
                &&& wf(*o.child, st->Present_0, *st->Present_1, *w->Option_0.child->Some_0.widget, path.push(id))
            } else {
                &&& st is Absent
                &&& w->Option_0.child is None
            }
        },
    }
}

/// The identities, states and pods of a sequence belong slot by slot to
/// the views `vs`.
pub open spec fn seq_wf<H>(vs: Seq<AnyView<H>>, ids: Seq<Id>, sts: Seq<ViewState>, pods: Seq<Pod>, path: Seq<Id>) -> bool
    decreases vs,
{
    &&& ids.len() == vs.len()
    &&& sts.len() == vs.len()
    &&& pods.len() == vs.len()
    &&& seq_wf_prefix(vs, ids, sts, pods, path, vs.len() as int)
}

/// The first `k` slots of a sequence belong to the views `vs`.
pub open spec fn seq_wf_prefix<H>(vs: Seq<AnyView<H>>, ids: Seq<Id>, sts: Seq<ViewState>, pods: Seq<Pod>, path: Seq<Id>, k: int) -> bool
    decreases vs, k,
{
    if k <= 0 {
        true
    } else if k > vs.len() || k > ids.len() || k > sts.len() || k > pods.len() {
        false
    } else {
        seq_wf_prefix(vs, ids, sts, pods, path, k - 1)
            && wf(vs[k - 1], ids[k - 1], sts[k - 1], *pods[k - 1].widget, path)
    }
}

/// Rebuilding `prev` into `v` kept the identity of every node below this one
/// that kept its position and its kind.
pub open spec fn ids_kept<H>(prev: AnyView<H>, v: AnyView<H>, old_st: ViewState, new_st: ViewState) -> bool
    decreases v,
{
    match (prev, v) {
        (AnyView::Container(pc), AnyView::Container(c)) => same_kind(*pc.child, *c.child) ==> {
            &&& new_st->Container_0 == old_st->Container_0
            &&& ids_kept(*pc.child, *c.child, *old_st->Container_1, *new_st->Container_1)
        },
        (AnyView::HStack(ph), AnyView::HStack(h)) => seq_ids_kept(
            ph.children.views@,
            h.children.views@,
            old_st->Sequence_0@,
            old_st->Sequence_1@,
            new_st->Sequence_0@,
            new_st->Sequence_1@,
            h.children.views.len() as int,
        ),
        (AnyView::Optional(po), AnyView::Optional(o)) => (po.show && o.show && same_kind(*po.child, *o.child)) ==> {
            &&& new_st->Present_0 == old_st->Present_0
            &&& ids_kept(*po.child, *o.child, *old_st->Present_1, *new_st->Present_1)
        },
        _ => true,
    }
}

/// Of the first `k` slots, each that kept its kind kept its identity, and so
/// did the nodes below it.
pub open spec fn seq_ids_kept<H>(
    pvs: Seq<AnyView<H>>,
    vs: Seq<AnyView<H>>,
    old_ids: Seq<Id>,
    old_sts: Seq<ViewState>,
    new_ids: Seq<Id>,
    new_sts: Seq<ViewState>,
    k: int,
) -> bool
    decreases vs, k,
{
    if k <= 0 {
        true
    } else if k > vs.len() {
        false
    } else {
        &&& seq_ids_kept(pvs, vs, old_ids, old_sts, new_ids, new_sts, k - 1)
        &&& (k <= pvs.len() && same_kind(pvs[k - 1], vs[k - 1])) ==> {
            &&& new_ids[k - 1] == old_ids[k - 1]
            &&& ids_kept(pvs[k - 1], vs[k - 1], old_sts[k - 1], new_sts[k - 1])
        }
    }
}

/// The first slot at or after `j` whose identity is `id`, or the number of
/// slots where there is none.
pub open spec fn find_id(ids: Seq<Id>, id: Id, j: int) -> int
    decreases ids.len() - j,
{
    if j < 0 || j >= ids.len() {
        ids.len() as int
    } else if ids[j] == id {
        j
    } else {
        find_id(ids, id, j + 1)
    }
}

/// The leaf view that the identities `path`, read below the node of `v`,
/// lead to; none where a step finds no node.
pub open spec fn target<H>(v: AnyView<H>, st: ViewState, path: Seq<Id>) -> Option<AnyView<H>>
    decreases v,
{
    match v {
        AnyView::Text(_) => if path.len() == 0 { Some(v) } else { None },
        AnyView::Button(_) => if path.len() == 0 { Some(v) } else { None },
        AnyView::Container(c) => if path.len() > 0 && st is Container && path[0] == st->Container_0 {
            target(*c.child, *st->Container_1, path.drop_first())
        } else {
            None
        },
        AnyView::HStack(h) => if st is Sequence {
            seq_target(h.children.views@, st->Sequence_0@, st->Sequence_1@, path)
        } else {
            None
        },
        AnyView::Optional(o) => if o.show && path.len() > 0 && st is Present && path[0] == st->Present_0 {
            target(*o.child, *st->Present_1, path.drop_first())
        } else {
            None
        },
    }
}

/// The leaf view that `path` leads to below a sequence: its first identity
/// picks the first slot that carries it, the rest is read below that slot.
pub open spec fn seq_target<H>(vs: Seq<AnyView<H>>, ids: Seq<Id>, sts: Seq<ViewState>, path: Seq<Id>) -> Option<AnyView<H>>
    decreases vs,
{
    if path.len() > 0 {
        let j = find_id(ids, path[0], 0);
        if 0 <= j < vs.len() && j < ids.len() && j < sts.len() {
            target(vs[j], sts[j], path.drop_first())
        } else {
            None
        }
    } else {
        None
    }
}

// ---------------------------------------------------------------------------
// Constructors
// ---------------------------------------------------------------------------

impl TextView {
    /// A text that takes any size it is offered.
    pub fn new(text: String) -> (t: TextView)
        ensures
            t.text == text,
            t.min_size == Size::zero(),
            t.max_size == (Size { width: UNBOUNDED, height: UNBOUNDED }),
    {
        TextView { text, min_size: Size::new(0, 0), max_size: Size::unbounded() }
    }

    /// The same text, taking sizes between `min` and `max`.
    pub fn size_range(self, min: Size, max: Size) -> (t: TextView)
        ensures
            t.text == self.text,
            t.min_size == min,
            t.max_size == max,
    {
        TextView { text: self.text, min_size: min, max_size: max }
    }
}

impl<H> Button<H> {
    /// A button that takes any size it is offered.
    pub fn new(label: String, handler: H) -> (b: Button<H>)
        ensures
            b.label == label,
            b.handler == handler,
            b.min_size == Size::zero(),
            b.max_size == (Size { width: UNBOUNDED, height: UNBOUNDED }),
    {
        Button { label, handler, min_size: Size::new(0, 0), max_size: Size::unbounded() }
    }

    /// The same button, taking sizes between `min` and `max`.
    pub fn size_range(self, min: Size, max: Size) -> (b: Button<H>)
        ensures
            b.label == self.label,
            b.handler == self.handler,
            b.min_size == min,
            b.max_size == max,
    {
        Button { label: self.label, handler: self.handler, min_size: min, max_size: max }
    }
}

/// A container around `child`, without padding.
pub fn container<H>(child: AnyView<H>) -> (c: Container<H>)
    ensures
        *c.child == child,
        c.padding_top == 0 && c.padding_right == 0 && c.padding_bottom == 0 && c.padding_left == 0,
{
    Container::new(child)
}

impl<H> Container<H> {
    /// A container around `child`, without padding.
    pub fn new(child: AnyView<H>) -> (c: Container<H>)
        ensures
            *c.child == child,
            c.padding_top == 0 && c.padding_right == 0 && c.padding_bottom == 0 && c.padding_left == 0,
    {
        Container { child: Box::new(child), padding_top: 0, padding_right: 0, padding_bottom: 0, padding_left: 0 }
    }

    /// The same container with `padding` on every side.
    pub fn padding(self, padding: u64) -> (c: Container<H>)
        ensures
            c.child == self.child,
            c.padding_top == padding && c.padding_right == padding,
            c.padding_bottom == padding && c.padding_left == padding,
    {
        Container {
            child: self.child,
            padding_top: padding,
            padding_right: padding,
            padding_bottom: padding,
            padding_left: padding,
        }
    }
}

/// A horizontal stack of `children`, centred on the vertical axis.
pub fn h_stack<H>(children: ViewSequence<H>) -> (h: HStack<H>)
    ensures
        h.children == children,
        h.cross_axis_alignment == VertAlignment::Center,
        h.spacing == 0,
{
    HStack::new(children)
}

impl<H> HStack<H> {
    /// A horizontal stack of `children`, centred on the vertical axis.
    pub fn new(children: ViewSequence<H>) -> (h: HStack<H>)
        ensures
            h.children == children,
            h.cross_axis_alignment == VertAlignment::Center,
            h.spacing == 0,
    {
        HStack { children, cross_axis_alignment: VertAlignment::Center, spacing: 0 }
    }

    /// The same stack, lining its children up by `align`.
    pub fn cross_axis_alignment(self, align: VertAlignment) -> (h: HStack<H>)
        ensures
            h.children == self.children,
            h.cross_axis_alignment == align,
            h.spacing == self.spacing,
    {
        HStack { children: self.children, cross_axis_alignment: align, spacing: self.spacing }
    }

    /// The same stack, with `spacing` between neighbouring children.
    pub fn spacing(self, spacing: u64) -> (h: HStack<H>)
        ensures
            h.children == self.children,
            h.cross_axis_alignment == self.cross_axis_alignment,
            h.spacing == spacing,
    {
        HStack { children: self.children, cross_axis_alignment: self.cross_axis_alignment, spacing }
    }
}

impl<H> ViewSequence<H> {
    pub fn new(views: Vec<AnyView<H>>) -> (s: ViewSequence<H>)
        ensures
            s.views == views,
    {
        ViewSequence { views }
    }
}

/// `n`, capped at the largest `u64`.
pub open spec fn cap_u64(n: nat) -> u64 {
    if n > u64::MAX {
        u64::MAX
    } else {
        n as u64
    }
}

impl<H> AnyView<H> {
    /// The number of nodes of this view, absent optional children included,
    /// capped at the largest `u64`: how many identities a build or a rebuild
    /// of it may need.
    pub fn count_nodes(&self) -> (r: u64)
        ensures
            r == cap_u64(node_count(*self)),
        decreases *self,
    {
        match self {
            AnyView::Text(_) => 1,
            AnyView::Button(_) => 1,
            AnyView::Container(c) => c.child.count_nodes().saturating_add(1),
            AnyView::HStack(h) => h.children.count_nodes().saturating_add(1),
            AnyView::Optional(o) => o.child.count_nodes().saturating_add(1),
        }
    }
}

impl<H> ViewSequence<H> {
    /// The number of nodes of all slots, capped at the largest `u64`.
    pub fn count_nodes(&self) -> (r: u64)
        ensures
            r == cap_u64(seq_count(self.views@, self.views.len() as int)),
        decreases *self,
    {
        let mut total: u64 = 0;
        let mut i: usize = 0;
        while i < self.views.len()
            invariant
                0 <= i <= self.views.len(),
                total == cap_u64(seq_count(self.views@, i as int)),
            decreases self.views.len() - i,
        {
            proof {
                lemma_seq_count_mono(self.views@, i + 1, self.views.len() as int);
            }
            total = total.saturating_add(self.views[i].count_nodes());
            i = i + 1;
        }
        total
    }
}

// ---------------------------------------------------------------------------
// Build
// ---------------------------------------------------------------------------

impl<H> AnyView<H> {
    /// Builds the retained node of this view under the current scope of `cx`:
    /// a fresh identity for it, its diff state and its widget, with the
    /// children built below it.
    pub fn build(&self, cx: &mut Cx) -> (r: (Id, ViewState, Widget))
        requires
            old(cx).capacity() >= node_count(*self),
        ensures
            wf(*self, r.0, r.1, r.2, old(cx).path()),
            widget::fresh_widget(r.2),
            ids_ok(r.1, final(cx).next_raw()),
            ids_in(r.1, old(cx).next_raw() + 1, final(cx).next_raw()),
            r.0.raw == old(cx).next_raw(),
            old(cx).next_raw() < final(cx).next_raw() <= old(cx).next_raw() + node_count(*self),
            final(cx).path() == old(cx).path(),
        decreases *self,
    {
        let ghost path = cx.path();
        let id = cx.new_id();
        cx.push_id(id);
        let r = match self {
            AnyView::Text(t) => (
                ViewState::Leaf,
                Widget::Text(TextWidget { text: t.text.clone(), min_size: t.min_size, max_size: t.max_size }),
            ),
            AnyView::Button(b) => {
                let id_path = cx.id_path();
                (
                    ViewState::Leaf,
                    Widget::Button(
                        ButtonWidget {
                            label: b.label.clone(),
                            id_path,
                            min_size: b.min_size,
                            max_size: b.max_size,
                        },
                    ),
                )
            },
            AnyView::Container(c) => {
                let ghost next1 = cx.next_raw();
                let (cid, cst, cw) = c.child.build(cx);
                proof {
                    lemma_ids_in_widen(cst, next1 + 1, cx.next_raw(), next1, cx.next_raw());
                }
                (
                    ViewState::Container(cid, Box::new(cst)),
                    Widget::Container(
                        widget::Container {
                            child: Pod::new(cw),
                            padding_top: c.padding_top,
                            padding_right: c.padding_right,
                            padding_bottom: c.padding_bottom,
                            padding_left: c.padding_left,
                        },
                    ),
                )
            },
            AnyView::HStack(h) => {
                let (ids, sts, pods) = h.children.build(cx);
                (
                    ViewState::Sequence(ids, sts),
                    Widget::HStack(
                        widget::HStack {
                            children: pods,
                            alignment: h.cross_axis_alignment,
                            spacing: h.spacing,
                        },
                    ),
                )
            },
            AnyView::Optional(o) => {
                if o.show {
                    let ghost next1 = cx.next_raw();
                    let (cid, cst, cw) = o.child.build(cx);
                    proof {
                        lemma_ids_in_widen(cst, next1 + 1, cx.next_raw(), next1, cx.next_raw());
                    }
                    (
                        ViewState::Present(cid, Box::new(cst)),
                        Widget::Option(OptionWidget { child: Some(Pod::new(cw)) }),
                    )
                } else {
                    (ViewState::Absent, Widget::Option(OptionWidget { child: None }))
                }
            },
        };
        cx.pop_id();
        assert(path.push(id).drop_last() == path);
        (id, r.0, r.1)
    }
}

impl<H> ViewSequence<H> {
    /// The number of slots.
    pub fn len(&self) -> (r: usize)
        ensures
            r == self.views.len(),
    {
        self.views.len()
    }

    /// Builds every slot in order, under the current scope of `cx`.
    pub fn build(&self, cx: &mut Cx) -> (r: (Vec<Id>, Vec<ViewState>, Vec<Pod>))
        requires
            old(cx).capacity() >= seq_count(self.views@, self.views.len() as int),
        ensures
            seq_wf(self.views@, r.0@, r.1@, r.2@, old(cx).path()),
            widget::fresh_prefix(r.2@, r.2.len() as int),
            r.0@.no_duplicates(),
            forall|j: int| 0 <= j < r.0.len() ==>
                old(cx).next_raw() <= (#[trigger] r.0@[j]).raw < final(cx).next_raw(),
            states_ok_prefix(r.1@, final(cx).next_raw(), r.1.len() as int),
            states_in_prefix(r.1@, old(cx).next_raw(), final(cx).next_raw(), r.1.len() as int),
            old(cx).next_raw() <= final(cx).next_raw()
                <= old(cx).next_raw() + seq_count(self.views@, self.views.len() as int),
            final(cx).path() == old(cx).path(),
        decreases *self,
    {
        let n = self.views.len();
        let mut ids: Vec<Id> = Vec::new();
        let mut sts: Vec<ViewState> = Vec::new();
        let mut pods: Vec<Pod> = Vec::new();
        let mut i: usize = 0;
        while i < n
            invariant
                0 <= i <= n,
                n == self.views.len(),
                ids.len() == i,
                sts.len() == i,
                pods.len() == i,
                cx.path() == old(cx).path(),
                old(cx).capacity() >= seq_count(self.views@, n as int),
                old(cx).next_raw() <= cx.next_raw() <= old(cx).next_raw() + seq_count(self.views@, i as int),
                seq_wf_prefix(self.views@, ids@, sts@, pods@, old(cx).path(), i as int),
                ids@.no_duplicates(),
                forall|j: int| 0 <= j < i ==> old(cx).next_raw() <= (#[trigger] ids@[j]).raw < cx.next_raw(),
                states_ok_prefix(sts@, cx.next_raw(), i as int),
                states_in_prefix(sts@, old(cx).next_raw(), cx.next_raw(), i as int),
                widget::fresh_prefix(pods@, i as int),
            decreases n - i,
        {
            proof {
                lemma_seq_count_mono(self.views@, i + 1, n as int);
            }
            let ghost next0 = cx.next_raw();
            let (id, st, w) = self.views[i].build(cx);
            let ghost (ids0, sts0, pods0) = (ids@, sts@, pods@);
            ids.push(id);
            sts.push(st);
            pods.push(Pod::new(w));
            proof {
                lemma_states_in_widen(sts0, old(cx).next_raw(), next0, old(cx).next_raw(), cx.next_raw(), i as int);
                lemma_states_in_frame(sts0, sts@, old(cx).next_raw(), cx.next_raw(), i as int);
                lemma_ids_in_widen(st, next0 + 1, cx.next_raw(), old(cx).next_raw(), cx.next_raw());
                assert(states_in_prefix(sts@, old(cx).next_raw(), cx.next_raw(), i + 1) == (
                    states_in_prefix(sts@, old(cx).next_raw(), cx.next_raw(), i as int)
                        && ids_in(sts@[i as int], old(cx).next_raw(), cx.next_raw())));
                widget::lemma_fresh_prefix_frame(pods0, pods@, i as int);
                assert(widget::fresh_prefix(pods@, i + 1) == (widget::fresh_prefix(pods@, i as int)
                    && widget::fresh_pod(pods@[i as int])));
                lemma_states_ok_mono(sts0, next0, cx.next_raw(), i as int);
                lemma_states_ok_frame(sts0, sts@, cx.next_raw(), i as int);
                assert forall|x: int, y: int| 0 <= x < ids@.len() && 0 <= y < ids@.len() && x != y
                    implies ids@[x] != ids@[y] by {
                    if x < i && y < i {
                        assert(ids@[x] == ids0[x] && ids@[y] == ids0[y]);
                    }
                }
                lemma_seq_wf_prefix_frame(self.views@, ids0, sts0, pods0, ids@, sts@, pods@, old(cx).path(), i as int);
                assert(seq_wf_prefix(self.views@, ids@, sts@, pods@, old(cx).path(), i + 1) == (
                    seq_wf_prefix(self.views@, ids@, sts@, pods@, old(cx).path(), i as int)
                        && wf(self.views@[i as int], ids@[i as int], sts@[i as int], *pods@[i as int].widget, old(cx).path())));
            }
            i = i + 1;
        }
        (ids, sts, pods)
    }
}

// ---------------------------------------------------------------------------
// Rebuild
// ---------------------------------------------------------------------------

impl<H> AnyView<H> {
    /// Rebuilds the node of `prev` into the node of this view. A node of the
    /// same kind is patched in place, parameter by parameter and child by
    /// child, and keeps its identity; a node of another kind is built afresh.
    /// Returns whether anything visible changed: when nothing did, nothing is
    /// touched.
    pub fn rebuild(
        &self,
        cx: &mut Cx,
        prev: &AnyView<H>,
        id: &mut Id,
        state: &mut ViewState,
        element: &mut Widget,
    ) -> (changed: bool)
        requires
            wf(*prev, *old(id), *old(state), *old(element), old(cx).path()),
            ids_ok(*old(state), old(cx).next_raw()),
            old(id).raw < old(cx).next_raw(),
            old(cx).capacity() >= node_count(*self),
        ensures
            wf(*self, *final(id), *final(state), *final(element), old(cx).path()),
            ids_ok(*final(state), final(cx).next_raw()),
            final(id).raw < final(cx).next_raw(),
            *final(id) == *old(id) || old(cx).next_raw() <= final(id).raw,
            final(cx).path() == old(cx).path(),
            old(cx).next_raw() <= final(cx).next_raw() <= old(cx).next_raw() + node_count(*self),
            changed == !same(*self, *prev),
            !changed ==> {
                &&& *final(id) == *old(id)
                &&& state_same(*old(state), *final(state))
                &&& widget::widget_same(*old(element), *final(element))
                &&& final(cx).next_raw() == old(cx).next_raw()
            },
            same_kind(*self, *prev) ==> *final(id) == *old(id),
            ids_kept(*prev, *self, *old(state), *final(state)),
            (*self is Container && *prev is Container) ==> widget::marked(
                old(element)->Container_0.child.state,
                final(element)->Container_0.child.state,
                !same(*self->Container_0.child, *prev->Container_0.child),
            ),
            !same_kind(*self, *prev) ==> {
                &&& final(id).raw == old(cx).next_raw()
                &&& ids_in(*final(state), old(cx).next_raw() + 1, final(cx).next_raw())
                &&& widget::fresh_widget(*final(element))
            },
            (*self is Optional && *prev is Optional && self->Optional_0.show && !prev->Optional_0.show) ==> {
                &&& *final(state) is Present
                &&& final(state)->Present_0.raw == old(cx).next_raw()
                &&& ids_in(*final(state)->Present_1, old(cx).next_raw() + 1, final(cx).next_raw())
                &&& final(element)->Option_0.child is Some
                &&& widget::fresh_pod(final(element)->Option_0.child->Some_0)
                &&& final(cx).next_raw() <= old(cx).next_raw() + node_count(*self->Optional_0.child)
            },
            (*self is Optional && *prev is Optional && !self->Optional_0.show && prev->Optional_0.show)
                ==> final(cx).next_raw() == old(cx).next_raw(),
            (*self is Optional && *prev is Optional && self->Optional_0.show && prev->Optional_0.show)
                ==> widget::marked(
                old(element)->Option_0.child->Some_0.state,
                final(element)->Option_0.child->Some_0.state,
                !same(*self->Optional_0.child, *prev->Optional_0.child),
            ),
        decreases *self,
    {
        let ghost path = cx.path();
        match (self, prev) {
            (AnyView::Text(t), AnyView::Text(pt)) => {
                if t.text == pt.text && t.min_size == pt.min_size && t.max_size == pt.max_size {
                    false
                } else {
                    match element {
                        Widget::Text(tw) => {
                            tw.text = t.text.clone();
                            tw.min_size = t.min_size;
                            tw.max_size = t.max_size;
                        },
                        _ => {},
                    }
                    true
                }
            },
            (AnyView::Button(b), AnyView::Button(pb)) => {
                if b.label == pb.label && b.min_size == pb.min_size && b.max_size == pb.max_size {
                    false
                } else {
                    match element {
                        Widget::Button(bw) => {
                            bw.label = b.label.clone();
                            bw.min_size = b.min_size;
                            bw.max_size = b.max_size;
                        },
                        _ => {},
                    }
                    true
                }
            },
            (AnyView::Container(c), AnyView::Container(pc)) => {
                match state {
                    ViewState::Container(cid, cst) => match element {
                        Widget::Container(cw) => {
                            cx.push_id(*id);
                            let child_changed = c.child.rebuild(cx, &pc.child, cid, cst, &mut cw.child.widget);
                            cx.pop_id();
                            assert(path.push(*id).drop_last() == path);
                            if child_changed {
                                cw.child.request_update();
                            }
                            let padding_changed = c.padding_top != pc.padding_top
                                || c.padding_right != pc.padding_right
                                || c.padding_bottom != pc.padding_bottom
                                || c.padding_left != pc.padding_left;
                            if padding_changed {
                                cw.padding_top = c.padding_top;
                                cw.padding_right = c.padding_right;
                                cw.padding_bottom = c.padding_bottom;
                                cw.padding_left = c.padding_left;
                            }
                            child_changed || padding_changed
                        },
                        _ => false,
                    },
                    _ => false,
                }
            },
            (AnyView::HStack(h), AnyView::HStack(ph)) => {
                match state {
                    ViewState::Sequence(ids, sts) => match element {
                        Widget::HStack(hw) => {
                            cx.push_id(*id);
                            let children_changed = h.children.rebuild(cx, &ph.children, ids, sts, &mut hw.children);
                            cx.pop_id();
                            assert(path.push(*id).drop_last() == path);
                            let own_changed = h.cross_axis_alignment != ph.cross_axis_alignment
                                || h.spacing != ph.spacing;
                            if own_changed {
                                hw.alignment = h.cross_axis_alignment;
                                hw.spacing = h.spacing;
                            }
                            children_changed || own_changed
                        },
                        _ => false,
                    },
                    _ => false,
                }
            },
            (AnyView::Optional(o), AnyView::Optional(po)) => {
                match element {
                    Widget::Option(ow) => {
                        if o.show && po.show {
                            match state {
                                ViewState::Present(cid, cst) => match ow.child_mut() {
                                    Some(pod) => {
                                        let ghost pod0 = *pod;
                                        cx.push_id(*id);
                                        let child_changed = o.child.rebuild(cx, &po.child, cid, cst, &mut pod.widget);
                                        cx.pop_id();
                                        assert(path.push(*id).drop_last() == path);
                                        if child_changed {
                                            pod.request_update();
                                        } else {
                                            assert(widget::pod_same(pod0, *pod));
                                        }
                                        child_changed
                                    },
                                    None => false,
                                },
                                _ => false,
                            }
                        } else if o.show {
                            cx.push_id(*id);
                            let (cid, cst, cw) = o.child.build(cx);
                            cx.pop_id();
                            assert(path.push(*id).drop_last() == path);
                            *state = ViewState::Present(cid, Box::new(cst));
                            ow.set_child(Some(cw));
                            true
                        } else if po.show {
                            *state = ViewState::Absent;
                            ow.set_child(None);
                            true
                        } else {
                            false
                        }
                    },
                    _ => false,
                }
            },
            _ => {
                let (new_id, new_state, new_element) = self.build(cx);
                *id = new_id;
                *state = new_state;
                *element = new_element;
                true
            },
        }
    }
}

impl<H> ViewSequence<H> {
    /// Rebuilds `prev`'s slots into this sequence's, slot by slot by
    /// position: slot `i` is rebuilt against slot `i` of `prev`, and its pod
    /// is flagged for update when it changed. Slots past the end of `prev`
    /// are built; slots of `prev` past this sequence's end are dropped.
    pub fn rebuild(
        &self,
        cx: &mut Cx,
        prev: &ViewSequence<H>,
        ids: &mut Vec<Id>,
        sts: &mut Vec<ViewState>,
        pods: &mut Vec<Pod>,
    ) -> (changed: bool)
        requires
            seq_wf(prev.views@, old(ids)@, old(sts)@, old(pods)@, old(cx).path()),
            old(ids)@.no_duplicates(),
            forall|j: int| 0 <= j < old(ids).len() ==> (#[trigger] old(ids)@[j]).raw < old(cx).next_raw(),
            states_ok_prefix(old(sts)@, old(cx).next_raw(), old(sts).len() as int),
            old(cx).capacity() >= seq_count(self.views@, self.views.len() as int),
        ensures
            seq_wf(self.views@, final(ids)@, final(sts)@, final(pods)@, old(cx).path()),
            final(ids)@.no_duplicates(),
            forall|j: int| 0 <= j < final(ids).len() ==> (#[trigger] final(ids)@[j]).raw < final(cx).next_raw(),
            states_ok_prefix(final(sts)@, final(cx).next_raw(), final(sts).len() as int),
            final(cx).path() == old(cx).path(),
            old(cx).next_raw() <= final(cx).next_raw()
                <= old(cx).next_raw() + seq_count(self.views@, self.views.len() as int),
            changed == !same_seq(self.views@, prev.views@),
            !changed ==> {
                &&& final(ids)@ == old(ids)@
                &&& final(sts).len() == old(sts).len()
                &&& final(pods).len() == old(pods).len()
                &&& states_same_prefix(old(sts)@, final(sts)@, old(sts).len() as int)
                &&& widget::pods_same_prefix(old(pods)@, final(pods)@, old(pods).len() as int)
                &&& final(cx).next_raw() == old(cx).next_raw()
            },
            forall|i: int| 0 <= i < self.views.len() && i < prev.views.len()
                && #[trigger] same(self.views@[i], prev.views@[i]) ==> {
                &&& final(ids)@[i] == old(ids)@[i]
                &&& state_same(old(sts)@[i], final(sts)@[i])
                &&& widget::pod_same(old(pods)@[i], final(pods)@[i])
            },
            forall|i: int| 0 <= i < self.views.len() && i < prev.views.len()
                && !#[trigger] same(self.views@[i], prev.views@[i]) ==>
                final(pods)@[i].state == (widget::WidgetState {
                    flags: widget::PodFlags { request_update: true, ..old(pods)@[i].state.flags },
                    ..old(pods)@[i].state
                }),
            seq_ids_kept(prev.views@, self.views@, old(ids)@, old(sts)@, final(ids)@, final(sts)@, self.views.len() as int),
        decreases *self,
    {
        let n = self.views.len();
        let pn = prev.views.len();
        let common = if n < pn { n } else { pn };
        let ghost path = cx.path();
        let ghost (ids0, sts0, pods0) = (ids@, sts@, pods@);
        let mut changed = false;
        let mut i: usize = 0;
        while i < common
            invariant
                0 <= i <= common,
                common <= n && common <= pn,
                common == n || common == pn,
                n == self.views.len(),
                pn == prev.views.len(),
                ids.len() == pn && sts.len() == pn && pods.len() == pn,
                seq_wf(prev.views@, ids0, sts0, pods0, path),
                path == old(cx).path(),
                cx.path() == path,
                ids0 == old(ids)@ && sts0 == old(sts)@ && pods0 == old(pods)@,
                old(cx).capacity() >= seq_count(self.views@, n as int),
                old(cx).next_raw() <= cx.next_raw() <= old(cx).next_raw() + seq_count(self.views@, i as int),
                !changed ==> cx.next_raw() == old(cx).next_raw() && ids@ == ids0
                    && states_same_prefix(sts0, sts@, i as int) && widget::pods_same_prefix(pods0, pods@, i as int),
                changed == !same_prefix(self.views@, prev.views@, i as int),
                seq_wf_prefix(self.views@, ids@, sts@, pods@, path, i as int),
                forall|j: int| i <= j < pn ==> #[trigger] ids@[j] == ids0[j],
                forall|j: int| i <= j < pn ==> #[trigger] sts@[j] == sts0[j],
                forall|j: int| i <= j < pn ==> #[trigger] pods@[j] == pods0[j],
                forall|j: int| 0 <= j < i && #[trigger] same(self.views@[j], prev.views@[j]) ==> {
                    &&& ids@[j] == ids0[j]
                    &&& state_same(sts0[j], sts@[j])
                    &&& widget::pod_same(pods0[j], pods@[j])
                },
                forall|j: int| 0 <= j < i && !#[trigger] same(self.views@[j], prev.views@[j]) ==>
                    pods@[j].state == (widget::WidgetState {
                        flags: widget::PodFlags { request_update: true, ..pods0[j].state.flags },
                        ..pods0[j].state
                    }),
                seq_ids_kept(prev.views@, self.views@, ids0, sts0, ids@, sts@, i as int),
                ids@.no_duplicates(),
                forall|j: int| 0 <= j < pn ==> (#[trigger] ids@[j]).raw < cx.next_raw(),
                states_ok_prefix(sts0, old(cx).next_raw(), pn as int),
                states_ok_prefix(sts@, cx.next_raw(), i as int),
            decreases common - i,
        {
            proof {
                lemma_seq_count_mono(self.views@, i + 1, n as int);
                lemma_seq_wf_at(prev.views@, ids0, sts0, pods0, path, pn as int, i as int);
                lemma_states_ok_at(sts0, old(cx).next_raw(), pn as int, i as int);
                lemma_ids_ok_mono(sts0[i as int], old(cx).next_raw(), cx.next_raw());
            }
            let ghost (ids1, sts1, pods1) = (ids@, sts@, pods@);
            let ghost next1 = cx.next_raw();
            let child_changed = self.views[i].rebuild(cx, &prev.views[i], &mut ids[i], &mut sts[i], &mut pods[i].widget);
            if child_changed {
                pods[i].request_update();
                changed = true;
            }
            proof {
                lemma_states_ok_mono(sts1, next1, cx.next_raw(), i as int);
                lemma_states_ok_frame(sts1, sts@, cx.next_raw(), i as int);
                assert forall|x: int, y: int| 0 <= x < ids@.len() && 0 <= y < ids@.len() && x != y
                    implies ids@[x] != ids@[y] by {
                    if x != i && y != i {
                        assert(ids@[x] == ids1[x] && ids@[y] == ids1[y]);
                    } else if x == i {
                        assert(ids@[y] == ids1[y]);
                    } else {
                        assert(ids@[x] == ids1[x]);
                    }
                }
                lemma_seq_wf_prefix_frame(self.views@, ids1, sts1, pods1, ids@, sts@, pods@, path, i as int);
                assert(seq_wf_prefix(self.views@, ids@, sts@, pods@, path, i + 1) == (
                    seq_wf_prefix(self.views@, ids@, sts@, pods@, path, i as int)
                        && wf(self.views@[i as int], ids@[i as int], sts@[i as int], *pods@[i as int].widget, path)));
                assert(same_prefix(self.views@, prev.views@, i + 1) == (
                    same_prefix(self.views@, prev.views@, i as int)
                        && same(self.views@[i as int], prev.views@[i as int])));
                lemma_seq_ids_kept_frame(prev.views@, self.views@, ids0, sts0, ids1, sts1, ids@, sts@, i as int);
                assert(seq_ids_kept(prev.views@, self.views@, ids0, sts0, ids@, sts@, i + 1) == (
                    seq_ids_kept(prev.views@, self.views@, ids0, sts0, ids@, sts@, i as int)
                        && ((i + 1 <= prev.views.len() && same_kind(prev.views@[i as int], self.views@[i as int])) ==> {
                            &&& ids@[i as int] == ids0[i as int]
                            &&& ids_kept(prev.views@[i as int], self.views@[i as int], sts0[i as int], sts@[i as int])
                        })));
                if !changed {
                    assert(ids@ =~= ids0);
                    lemma_states_same_prefix_frame(sts0, sts1, sts@, i as int);
                    widget::lemma_pods_same_prefix_frame(pods0, pods1, pods@, i as int);
                    assert(states_same_prefix(sts0, sts@, i + 1) == (
                        states_same_prefix(sts0, sts@, i as int) && state_same(sts0[i as int], sts@[i as int])));
                    assert(widget::pods_same_prefix(pods0, pods@, i + 1) == (
                        widget::pods_same_prefix(pods0, pods@, i as int) && widget::pod_same(pods0[i as int], pods@[i as int])));
                }
            }
            i = i + 1;
        }
        if n < pn {
            let ghost (ids1, sts1, pods1) = (ids@, sts@, pods@);
            ids.truncate(n);
            sts.truncate(n);
            pods.truncate(n);
            changed = true;
            proof {
                lemma_seq_wf_prefix_frame(self.views@, ids1, sts1, pods1, ids@, sts@, pods@, path, n as int);
                lemma_seq_ids_kept_frame(prev.views@, self.views@, ids0, sts0, ids1, sts1, ids@, sts@, n as int);
                lemma_states_ok_frame(sts1, sts@, cx.next_raw(), n as int);
                assert forall|x: int, y: int| 0 <= x < ids@.len() && 0 <= y < ids@.len() && x != y
                    implies ids@[x] != ids@[y] by {
                    assert(ids@[x] == ids1[x] && ids@[y] == ids1[y]);
                }
            }
        } else {
            while i < n
                invariant
                    pn <= i <= n,
                    n == self.views.len(),
                    pn == prev.views.len(),
                    ids.len() == i && sts.len() == i && pods.len() == i,
                    path == old(cx).path(),
                    cx.path() == path,
                    ids0 == old(ids)@ && sts0 == old(sts)@ && pods0 == old(pods)@,
                    old(cx).capacity() >= seq_count(self.views@, n as int),
                    old(cx).next_raw() <= cx.next_raw() <= old(cx).next_raw() + seq_count(self.views@, i as int),
                    i == pn ==> (!changed ==> cx.next_raw() == old(cx).next_raw() && ids@ == ids0
                        && states_same_prefix(sts0, sts@, pn as int) && widget::pods_same_prefix(pods0, pods@, pn as int)),
                    i > pn ==> changed,
                    i == pn ==> changed == !same_prefix(self.views@, prev.views@, pn as int),
                    seq_wf_prefix(self.views@, ids@, sts@, pods@, path, i as int),
                    forall|j: int| 0 <= j < pn && #[trigger] same(self.views@[j], prev.views@[j]) ==> {
                        &&& ids@[j] == ids0[j]
                        &&& state_same(sts0[j], sts@[j])
                        &&& widget::pod_same(pods0[j], pods@[j])
                    },
                    forall|j: int| 0 <= j < pn && !#[trigger] same(self.views@[j], prev.views@[j]) ==>
                        pods@[j].state == (widget::WidgetState {
                            flags: widget::PodFlags { request_update: true, ..pods0[j].state.flags },
                            ..pods0[j].state
                        }),
                    seq_ids_kept(prev.views@, self.views@, ids0, sts0, ids@, sts@, i as int),
                    ids@.no_duplicates(),
                    forall|j: int| 0 <= j < i ==> (#[trigger] ids@[j]).raw < cx.next_raw(),
                    states_ok_prefix(sts@, cx.next_raw(), i as int),
                decreases n - i,
            {
                proof {
                    lemma_seq_count_mono(self.views@, i + 1, n as int);
                }
                let ghost (ids1, sts1, pods1) = (ids@, sts@, pods@);
                let ghost next1 = cx.next_raw();
                let (id, st, w) = self.views[i].build(cx);
                ids.push(id);
                sts.push(st);
                pods.push(Pod::new(w));
                changed = true;
                proof {
                    lemma_states_ok_mono(sts1, next1, cx.next_raw(), i as int);
                    lemma_states_ok_frame(sts1, sts@, cx.next_raw(), i as int);
                    assert forall|x: int, y: int| 0 <= x < ids@.len() && 0 <= y < ids@.len() && x != y
                        implies ids@[x] != ids@[y] by {
                        if x < i && y < i {
                            assert(ids@[x] == ids1[x] && ids@[y] == ids1[y]);
                        }
                    }
                    lemma_seq_wf_prefix_frame(self.views@, ids1, sts1, pods1, ids@, sts@, pods@, path, i as int);
                    assert(seq_wf_prefix(self.views@, ids@, sts@, pods@, path, i + 1) == (
                        seq_wf_prefix(self.views@, ids@, sts@, pods@, path, i as int)
                            && wf(self.views@[i as int], ids@[i as int], sts@[i as int], *pods@[i as int].widget, path)));
                    lemma_seq_ids_kept_frame(prev.views@, self.views@, ids0, sts0, ids1, sts1, ids@, sts@, i as int);
                }
                i = i + 1;
            }
        }
        proof {
            if n == pn {
                assert(same_seq(self.views@, prev.views@) == same_prefix(self.views@, prev.views@, n as int));
            }
        }
        changed
    }
}

/// A slot of a well-formed prefix belongs to its view.
pub proof fn lemma_seq_wf_at<H>(vs: Seq<AnyView<H>>, ids: Seq<Id>, sts: Seq<ViewState>, pods: Seq<Pod>, path: Seq<Id>, k: int, j: int)
    requires
        0 <= j < k,
        seq_wf_prefix(vs, ids, sts, pods, path, k),
    ensures
        wf(vs[j], ids[j], sts[j], *pods[j].widget, path),
    decreases k,
{
    assert(seq_wf_prefix(vs, ids, sts, pods, path, k) == (
        seq_wf_prefix(vs, ids, sts, pods, path, k - 1) && wf(vs[k - 1], ids[k - 1], sts[k - 1], *pods[k - 1].widget, path)));
    if j < k - 1 {
        lemma_seq_wf_at(vs, ids, sts, pods, path, k - 1, j);
    }
}

/// Kept identities of a prefix depend on the slots of the prefix alone.
pub proof fn lemma_seq_ids_kept_frame<H>(
    pvs: Seq<AnyView<H>>,
    vs: Seq<AnyView<H>>,
    old_ids: Seq<Id>,
    old_sts: Seq<ViewState>,
    ids1: Seq<Id>,
    sts1: Seq<ViewState>,
    ids2: Seq<Id>,
    sts2: Seq<ViewState>,
    k: int,
)
    requires
        0 <= k,
        seq_ids_kept(pvs, vs, old_ids, old_sts, ids1, sts1, k),
        forall|j: int| 0 <= j < k ==> #[trigger] ids2[j] == ids1[j],
        forall|j: int| 0 <= j < k ==> #[trigger] sts2[j] == sts1[j],
    ensures
        seq_ids_kept(pvs, vs, old_ids, old_sts, ids2, sts2, k),
    decreases k,
{
    if k > 0 {
        lemma_seq_ids_kept_frame(pvs, vs, old_ids, old_sts, ids1, sts1, ids2, sts2, k - 1);
        assert(ids2[k - 1] == ids1[k - 1]);
        assert(sts2[k - 1] == sts1[k - 1]);
        assert(seq_ids_kept(pvs, vs, old_ids, old_sts, ids1, sts1, k) == (
            seq_ids_kept(pvs, vs, old_ids, old_sts, ids1, sts1, k - 1)
                && ((k <= pvs.len() && same_kind(pvs[k - 1], vs[k - 1])) ==> {
                    &&& ids1[k - 1] == old_ids[k - 1]
                    &&& ids_kept(pvs[k - 1], vs[k - 1], old_sts[k - 1], sts1[k - 1])
                })));
        assert(seq_ids_kept(pvs, vs, old_ids, old_sts, ids2, sts2, k) == (
            seq_ids_kept(pvs, vs, old_ids, old_sts, ids2, sts2, k - 1)
                && ((k <= pvs.len() && same_kind(pvs[k - 1], vs[k - 1])) ==> {
                    &&& ids2[k - 1] == old_ids[k - 1]
                    &&& ids_kept(pvs[k - 1], vs[k - 1], old_sts[k - 1], sts2[k - 1])
                })));
    }
}

// ---------------------------------------------------------------------------
// Event routing
// ---------------------------------------------------------------------------

/// The first slot whose identity is `id`, or the number of slots.
pub fn find_slot(ids: &Vec<Id>, id: Id) -> (r: usize)
    ensures
        r == find_id(ids@, id, 0),
{
    let mut j: usize = 0;
    while j < ids.len() && ids[j] != id
        invariant
            0 <= j <= ids.len(),
            find_id(ids@, id, j as int) == find_id(ids@, id, 0),
        decreases ids.len() - j,
    {
        j = j + 1;
    }
    j
}

impl<H> AnyView<H> {
    /// Delivers an event along `id_path`, the identities below this node
    /// from the next one down to the target. A button at the end of the path
    /// runs its handler on the application state; a path that leads nowhere
    /// is stale and changes nothing.
    pub fn event<T, A>(&self, id_path: &[Id], state: &ViewState, app_state: &mut T) -> (r: EventResult<A>)
        where
            H: Handler<T, A>,
        ensures
            target(*self, *state, id_path@) is None ==> r is Stale && *final(app_state) == *old(app_state),
            target(*self, *state, id_path@) is Some && target(*self, *state, id_path@)->Some_0 is Text
                ==> r is Nop && *final(app_state) == *old(app_state),
            target(*self, *state, id_path@) is Some && target(*self, *state, id_path@)->Some_0 is Button
                ==> r is Action,
        decreases *self,
    {
        match self {
            AnyView::Text(_) => {
                if id_path.len() == 0 {
                    EventResult::Nop
                } else {
                    EventResult::Stale
                }
            },
            AnyView::Button(b) => {
                if id_path.len() == 0 {
                    EventResult::Action(b.handler.call(app_state))
                } else {
                    EventResult::Stale
                }
            },
            AnyView::Container(c) => match state {
                ViewState::Container(cid, cst) => {
                    if id_path.len() > 0 && id_path[0] == *cid {
                        let tail = &id_path[1..id_path.len()];
                        assert(tail@ == id_path@.drop_first());
                        c.child.event(tail, cst, app_state)
                    } else {
                        EventResult::Stale
                    }
                },
                _ => EventResult::Stale,
            },
            AnyView::HStack(h) => match state {
                ViewState::Sequence(ids, sts) => h.children.event(id_path, ids, sts, app_state),
                _ => EventResult::Stale,
            },
            AnyView::Optional(o) => match state {
                ViewState::Present(cid, cst) => {
                    if o.show && id_path.len() > 0 && id_path[0] == *cid {
                        let tail = &id_path[1..id_path.len()];
                        assert(tail@ == id_path@.drop_first());
                        o.child.event(tail, cst, app_state)
                    } else {
                        EventResult::Stale
                    }
                },
                _ => EventResult::Stale,
            },
        }
    }
}

impl<H> ViewSequence<H> {
    /// Delivers an event to the slot whose identity leads `id_path`, with the
    /// rest of the path; stale where no slot carries that identity.
    pub fn event<T, A>(&self, id_path: &[Id], ids: &Vec<Id>, sts: &Vec<ViewState>, app_state: &mut T) -> (r: EventResult<A>)
        where
            H: Handler<T, A>,
        ensures
            ({
                let t = seq_target(self.views@, ids@, sts@, id_path@);
                &&& t is None ==> r is Stale && *final(app_state) == *old(app_state)
                &&& t is Some && t->Some_0 is Text ==> r is Nop && *final(app_state) == *old(app_state)
                &&& t is Some && t->Some_0 is Button ==> r is Action
            }),
        decreases *self,
    {
        if id_path.len() == 0 {
            return EventResult::Stale;
        }
        let j = find_slot(ids, id_path[0]);
        if j < self.views.len() && j < ids.len() && j < sts.len() {
            let tail = &id_path[1..id_path.len()];
            assert(tail@ == id_path@.drop_first());
            self.views[j].event(tail, &sts[j], app_state)
        } else {
            EventResult::Stale
        }
    }
}

// ---------------------------------------------------------------------------
// Laws
// ---------------------------------------------------------------------------

/// Every view shows the same thing as itself. By the contract of `rebuild`,
/// rebuilding a view against an identical predecessor therefore reports no
/// change and leaves the identity, the diff state and the widget as they were.
pub proof fn lemma_same_reflexive<H>(v: AnyView<H>)
    ensures
        same(v, v),
    decreases v,
{
    match v {
        AnyView::Container(c) => {
            lemma_same_reflexive(*c.child);
            assert(same(v, v) == same(*c.child, *c.child));
        },
        AnyView::HStack(h) => {
            lemma_same_prefix_reflexive(h.children.views@, h.children.views.len() as int);
            assert(same(v, v) == same_seq(h.children.views@, h.children.views@));
        },
        AnyView::Optional(o) => {
            lemma_same_reflexive(*o.child);
            assert(same(v, v) == (o.show ==> same(*o.child, *o.child)));
        },
        _ => {},
    }
}

pub proof fn lemma_same_prefix_reflexive<H>(s: Seq<AnyView<H>>, k: int)
    requires
        0 <= k <= s.len(),
    ensures
        same_prefix(s, s, k),
    decreases s, k,
{
    if k > 0 {
        lemma_same_prefix_reflexive(s, k - 1);
        lemma_same_reflexive(s[k - 1]);
        assert(same_prefix(s, s, k) == (same_prefix(s, s, k - 1) && same(s[k - 1], s[k - 1])));
    }
}

/// Sameness of diff states chains.
pub proof fn lemma_state_same_transitive(a: ViewState, b: ViewState, c: ViewState)
    requires
        state_same(a, b),
        state_same(b, c),
    ensures
        state_same(a, c),
    decreases a,
{
    match (a, b, c) {
        (ViewState::Container(_, s), ViewState::Container(_, t), ViewState::Container(_, u)) =>
            lemma_state_same_transitive(*s, *t, *u),
        (ViewState::Present(_, s), ViewState::Present(_, t), ViewState::Present(_, u)) =>
            lemma_state_same_transitive(*s, *t, *u),
        (ViewState::Sequence(_, s), ViewState::Sequence(_, t), ViewState::Sequence(_, u)) =>
            lemma_states_same_prefix_transitive(s@, t@, u@, s.len() as int),
        _ => {},
    }
}

pub proof fn lemma_states_same_prefix_transitive(a: Seq<ViewState>, b: Seq<ViewState>, c: Seq<ViewState>, k: int)
    requires
        states_same_prefix(a, b, k),
        states_same_prefix(b, c, k),
    ensures
        states_same_prefix(a, c, k),
    decreases a, k,
{
    if k > 0 {
        assert(states_same_prefix(a, b, k) == (states_same_prefix(a, b, k - 1) && state_same(a[k - 1], b[k - 1])));
        assert(states_same_prefix(b, c, k) == (states_same_prefix(b, c, k - 1) && state_same(b[k - 1], c[k - 1])));
        lemma_states_same_prefix_transitive(a, b, c, k - 1);
        lemma_state_same_transitive(a[k - 1], b[k - 1], c[k - 1]);
        assert(states_same_prefix(a, c, k) == (states_same_prefix(a, c, k - 1) && state_same(a[k - 1], c[k - 1])));
    }
}

/// Rebuilding a view against an identical predecessor, twice in a row,
/// reports no change either time and leaves the diff state and the widget
/// tree, down to every cached size, as they were before the first rebuild.
/// The requirements are what the contract of `rebuild` gives of the two
/// calls, which returned `changed1` and `changed2`.
pub proof fn lemma_rebuild_round_trip<H>(
    v: AnyView<H>,
    changed1: bool,
    changed2: bool,
    st0: ViewState,
    st1: ViewState,
    st2: ViewState,
    w0: Widget,
    w1: Widget,
    w2: Widget,
)
    requires
        changed1 == !same(v, v),
        !changed1 ==> state_same(st0, st1) && widget::widget_same(w0, w1),
        changed2 == !same(v, v),
        !changed2 ==> state_same(st1, st2) && widget::widget_same(w1, w2),
    ensures
        !changed1,
        !changed2,
        state_same(st0, st2),
        widget::widget_same(w0, w2),
{
    lemma_same_reflexive(v);
    lemma_state_same_transitive(st0, st1, st2);
    widget::lemma_widget_same_transitive(w0, w1, w2);
}

/// With distinct identities, the slot found for an identity is the slot
/// that carries it.
pub proof fn lemma_find_distinct(ids: Seq<Id>, j: int, start: int)
    requires
        ids.no_duplicates(),
        0 <= start <= j < ids.len(),
    ensures
        find_id(ids, ids[j], start) == j,
    decreases j - start,
{
    if start < j {
        assert(ids[start] != ids[j]);
        lemma_find_distinct(ids, j, start + 1);
    }
}

/// The path of every button below a well-formed node starts with the path
/// of the node, and what follows leads from the node back to that button.
pub proof fn lemma_button_path_routes<H>(v: AnyView<H>, id: Id, st: ViewState, w: Widget, path: Seq<Id>, bound: nat, q: Seq<Id>)
    requires
        wf(v, id, st, w, path),
        ids_ok(st, bound),
        widget::has_button_path(w, q),
    ensures
        q.len() > path.len(),
        q.subrange(0, path.len() + 1int) == path.push(id),
        target(v, st, q.subrange(path.len() + 1int, q.len() as int)) is Some,
        target(v, st, q.subrange(path.len() + 1int, q.len() as int))->Some_0 is Button,
    decreases v,
{
    let inner = path.push(id);
    let n = path.len() as int;
    match v {
        AnyView::Text(_) => {
            assert(w is Text);
            assert(!widget::has_button_path(w, q));
        },
        AnyView::Button(_) => {
            assert(q =~= inner);
            assert(q.subrange(0, n + 1) =~= inner);
            assert(q.subrange(n + 1, q.len() as int) =~= Seq::<Id>::empty());
            assert(target(v, st, q.subrange(n + 1, q.len() as int)) is Some);
        },
        AnyView::Container(c) => {
            let cid = st->Container_0;
            let cst = *st->Container_1;
            let cw = w->Container_0;
            lemma_button_path_routes(*c.child, cid, cst, *cw.child.widget, inner, bound, q);
            let r = q.subrange(n + 1, q.len() as int);
            assert(q.subrange(0, n + 2) =~= inner.push(cid));
            assert(q.subrange(0, n + 1) =~= q.subrange(0, n + 2).subrange(0, n + 1));
            assert(r[0] == q[n + 1]);
            assert(r.drop_first() =~= q.subrange(n + 2, q.len() as int));
            assert(q.subrange(0, n + 2)[n + 1] == q[n + 1]);
            assert(inner.push(cid)[n + 1] == cid);
            assert(r[0] == cid);
            assert(target(v, st, r) == target(*c.child, cst, r.drop_first()));
        },
        AnyView::HStack(h) => {
            let ids = st->Sequence_0@;
            let sts = st->Sequence_1@;
            let pods = w->HStack_0.children@;
            assert(seq_wf(h.children.views@, ids, sts, pods, inner));
            assert(widget::seq_has_button_path(pods, q, pods.len() as int));
            let j = widget::lemma_seq_button_at(pods, q, pods.len() as int);
            lemma_seq_wf_at(h.children.views@, ids, sts, pods, inner, h.children.views.len() as int, j);
            lemma_states_ok_at(sts, bound, sts.len() as int, j);
            lemma_button_path_routes(h.children.views@[j], ids[j], sts[j], *pods[j].widget, inner, bound, q);
            lemma_find_distinct(ids, j, 0);
            let r = q.subrange(n + 1, q.len() as int);
            assert(q.subrange(0, n + 2) =~= inner.push(ids[j]));
            assert(q.subrange(0, n + 1) =~= q.subrange(0, n + 2).subrange(0, n + 1));
            assert(r[0] == q[n + 1]);
            assert(r.drop_first() =~= q.subrange(n + 2, q.len() as int));
            assert(q.subrange(0, n + 2)[n + 1] == q[n + 1]);
            assert(inner.push(ids[j])[n + 1] == ids[j]);
            assert(r[0] == ids[j]);
            assert(target(v, st, r) == seq_target(h.children.views@, ids, sts, r));
            assert(seq_target(h.children.views@, ids, sts, r) == target(h.children.views@[j], sts[j], r.drop_first()));
        },
        AnyView::Optional(o) => {
            if o.show {
                let cid = st->Present_0;
                let cst = *st->Present_1;
                let pod = w->Option_0.child->Some_0;
                lemma_button_path_routes(*o.child, cid, cst, *pod.widget, inner, bound, q);
                let r = q.subrange(n + 1, q.len() as int);
                assert(q.subrange(0, n + 2) =~= inner.push(cid));
                assert(q.subrange(0, n + 1) =~= q.subrange(0, n + 2).subrange(0, n + 1));
                assert(r[0] == q[n + 1]);
                assert(r.drop_first() =~= q.subrange(n + 2, q.len() as int));
                assert(q.subrange(0, n + 2)[n + 1] == q[n + 1]);
                assert(inner.push(cid)[n + 1] == cid);
                assert(r[0] == cid);
                assert(target(v, st, r) == target(*o.child, cst, r.drop_first()));
            } else {
                assert(w->Option_0.child is None);
                assert(!widget::has_button_path(w, q));
            }
        },
    }
}

/// Every click that the retained tree of a root view reports leads back to
/// a button: the path starts with the root's identity, and the rest of it,
/// delivered to the root view, reaches a button, whose handler therefore
/// runs (see `AnyView::event`).
pub proof fn lemma_reported_clicks_route_to_buttons<H>(
    v: AnyView<H>,
    id: Id,
    st: ViewState,
    pod: Pod,
    e: RawEvent,
    bound: nat,
    q: Seq<Id>,
)
    requires
        wf(v, id, st, *pod.widget, Seq::empty()),
        ids_ok(st, bound),
        widget::pod_emits(pod, e).contains(q),
    ensures
        q.len() >= 1,
        q[0] == id,
        target(v, st, q.drop_first()) is Some,
        target(v, st, q.drop_first())->Some_0 is Button,
{
    widget::lemma_pod_emits_buttons(pod, e, q);
    lemma_button_path_routes(v, id, st, *pod.widget, Seq::empty(), bound, q);
    assert(Seq::<Id>::empty().push(id) =~= seq![id]);
    assert(q.subrange(0, 1)[0] == q[0]);
    assert(q.subrange(1, q.len() as int) =~= q.drop_first());
}

/// Node counts of prefixes grow with the prefix.
pub proof fn lemma_seq_count_mono<H>(s: Seq<AnyView<H>>, k: int, n: int)
    requires
        0 <= k <= n <= s.len(),
    ensures
        seq_count(s, k) <= seq_count(s, n),
        k > 0 ==> seq_count(s, k) == seq_count(s, k - 1) + node_count(s[k - 1]),
    decreases n - k,
{
    if k < n {
        lemma_seq_count_mono(s, k + 1, n);
    }
}

/// A well-formed prefix depends on the slots of the prefix alone.
pub proof fn lemma_seq_wf_prefix_frame<H>(
    vs: Seq<AnyView<H>>,
    ids1: Seq<Id>,
    sts1: Seq<ViewState>,
    pods1: Seq<Pod>,
    ids2: Seq<Id>,
    sts2: Seq<ViewState>,
    pods2: Seq<Pod>,
    path: Seq<Id>,
    k: int,
)
    requires
        0 <= k,
        k <= ids2.len() && k <= sts2.len() && k <= pods2.len(),
        seq_wf_prefix(vs, ids1, sts1, pods1, path, k),
        forall|j: int| 0 <= j < k ==> #[trigger] ids2[j] == ids1[j],
        forall|j: int| 0 <= j < k ==> #[trigger] sts2[j] == sts1[j],
        forall|j: int| 0 <= j < k ==> #[trigger] pods2[j] == pods1[j],
    ensures
        seq_wf_prefix(vs, ids2, sts2, pods2, path, k),
    decreases k,
{
    if k > 0 {
        lemma_seq_wf_prefix_frame(vs, ids1, sts1, pods1, ids2, sts2, pods2, path, k - 1);
        assert(ids2[k - 1] == ids1[k - 1]);
        assert(sts2[k - 1] == sts1[k - 1]);
        assert(pods2[k - 1] == pods1[k - 1]);
        assert(seq_wf_prefix(vs, ids2, sts2, pods2, path, k) == (
            seq_wf_prefix(vs, ids2, sts2, pods2, path, k - 1)
                && wf(vs[k - 1], ids2[k - 1], sts2[k - 1], *pods2[k - 1].widget, path)));
    }
}

} // verus!
