//! Keyboard focus and the top layer. Callers build ordinary elements and
//! style them; an open modal makes the rest of the document inert and traps
//! focus traversal in its subtree.
use vstd::prelude::*;
use crate::ui::order::{lemma_insert_at, lemma_sort_contains, lemma_sort_keeps, lemma_sort_sorted, sort_by, total_preorder};
use crate::ui::widget::{with_flag, TopLayerKind, WidgetStatus, FOCUSED};

verus! {

/// CSS `visibility`.
#[derive(Debug, Clone, Copy, PartialEq, Eq, Structural)]
pub enum Visibility {
    Visible,
    Hidden,
    Collapse,
}

/// What focus and the top layer read of one widget. Widgets are numbered so
/// that a parent comes before its children; a link that points back to an
/// earlier number is not followed, so every walk ends.
#[derive(Debug)]
pub struct FocusNode {
    pub parent: Option<usize>,
    pub children: Vec<usize>,
    pub tree_order: usize,
    /// The `inert` attribute.
    pub inert: bool,
    /// The `disabled` attribute.
    pub disabled: bool,
    /// The `autofocus` attribute.
    pub autofocus: bool,
    /// The `open` attribute, which an open modal carries.
    pub open: bool,
    /// The `tabindex` attribute, where it reads as an integer.
    pub tabindex: Option<i32>,
    /// A button, input, select or textarea, focusable without a tabindex.
    pub form_control: bool,
    pub visibility: Visibility,
    pub display_none: bool,
    pub top_layer: Option<TopLayerKind>,
    pub status: WidgetStatus,
    /// How many widgets in this subtree, itself included, have focus.
    pub focused_descendants: usize,
}

/// An element in the top layer, with the focus to restore when it closes.
#[derive(Debug, Clone, Copy, PartialEq, Eq, Structural)]
pub struct TopLayerEntry {
    pub id: usize,
    pub kind: TopLayerKind,
    pub restore_focus: Option<usize>,
}

/// Why an element cannot enter the top layer.
#[derive(Debug, Clone, Copy, PartialEq, Eq, Structural)]
pub enum TopLayerError {
    /// No such element.
    Stale,
    /// The document root cannot enter the top layer.
    Root,
    /// Close the existing top-layer mode before changing it.
    ModeChange,
}

/// The widgets, the top layer in the order it was entered, and focus.
#[derive(Debug)]
pub struct FocusTree {
    pub nodes: Vec<FocusNode>,
    pub root: Option<usize>,
    pub top_layers: Vec<TopLayerEntry>,
    pub focused: Option<usize>,
    /// A style recalculation is pending, so computed visibility may be stale.
    pub styles_pending: bool,
    /// The status flags some stylesheet selects on.
    pub style_mask: u8,
    /// Styles must be recomputed.
    pub css_dirty: bool,
}

/// Whether `id` is `anc` or lies below it.
pub open spec fn desc_or_self(nodes: Seq<FocusNode>, id: int, anc: int) -> bool
    decreases id,
{
    if id == anc {
        true
    } else if 0 <= id < nodes.len() {
        match nodes[id].parent {
            Some(p) => p < id && desc_or_self(nodes, p as int, anc),
            None => false,
        }
    } else {
        false
    }
}

/// The most recently opened modal.
pub open spec fn last_modal(tops: Seq<TopLayerEntry>) -> Option<usize>
    decreases tops.len(),
{
    if tops.len() == 0 {
        None
    } else if tops.last().kind == TopLayerKind::Modal {
        Some(tops.last().id)
    } else {
        last_modal(tops.drop_last())
    }
}

/// Whether `id` or an ancestor up to the modal carries `inert`.
pub open spec fn inert_chain(nodes: Seq<FocusNode>, id: int, modal: Option<usize>) -> bool
    decreases id,
{
    if !(0 <= id < nodes.len()) {
        false
    } else if nodes[id].inert {
        true
    } else if modal == Some(id as usize) {
        false
    } else {
        match nodes[id].parent {
            Some(p) => p < id && inert_chain(nodes, p as int, modal),
            None => false,
        }
    }
}

/// Whether a widget ignores input: it is gone, outside the active modal, or
/// inside an `inert` element.
pub open spec fn inert(nodes: Seq<FocusNode>, tops: Seq<TopLayerEntry>, id: int) -> bool {
    ||| !(0 <= id < nodes.len())
    ||| (last_modal(tops) matches Some(m) && !desc_or_self(nodes, id, m as int))
    ||| inert_chain(nodes, id, last_modal(tops))
}

/// Whether a widget and its ancestors are displayed.
pub open spec fn shown(nodes: Seq<FocusNode>, id: int) -> bool
    decreases id,
{
    if !(0 <= id < nodes.len()) || nodes[id].display_none {
        false
    } else {
        match nodes[id].parent {
            Some(p) => p < id && shown(nodes, p as int),
            None => true,
        }
    }
}

proof fn lemma_desc_le(nodes: Seq<FocusNode>, id: int, anc: int)
    requires
        desc_or_self(nodes, id, anc),
    ensures
        anc <= id,
    decreases id,
{
    if id != anc {
        match nodes[id].parent {
            Some(p) => lemma_desc_le(nodes, p as int, anc),
            None => {},
        }
    }
}

proof fn lemma_desc_trans(nodes: Seq<FocusNode>, a: int, b: int, c: int)
    requires
        desc_or_self(nodes, a, b),
        0 <= b < nodes.len(),
        nodes[b].parent matches Some(q) && q as int == c,
        c < b,
    ensures
        desc_or_self(nodes, a, c),
    decreases a,
{
    if a != b {
        lemma_desc_le(nodes, a, b);
        match nodes[a].parent {
            Some(p) => lemma_desc_trans(nodes, p as int, b, c),
            None => {},
        }
    } else {
        assert(desc_or_self(nodes, c, c));
    }
}

impl FocusTree {
    pub fn is_descendant_or_self(&self, id: usize, ancestor: usize) -> (r: bool)
        ensures
            r == desc_or_self(self.nodes@, id as int, ancestor as int),
        decreases id,
    {
        if id == ancestor {
            return true;
        }
        if id >= self.nodes.len() {
            return false;
        }
        match self.nodes[id].parent {
            Some(p) => p < id && self.is_descendant_or_self(p, ancestor),
            None => false,
        }
    }

    /// The most recently opened modal, if any.
    pub fn active_modal(&self) -> (r: Option<usize>)
        ensures
            r == last_modal(self.top_layers@),
    {
        let mut k: usize = self.top_layers.len();
        assert(self.top_layers@.take(k as int) =~= self.top_layers@);
        while k > 0
            invariant
                k <= self.top_layers.len(),
                last_modal(self.top_layers@) == last_modal(self.top_layers@.take(k as int)),
            decreases k,
        {
            let e = self.top_layers[k - 1];
            proof {
                assert(self.top_layers@.take(k as int).drop_last() =~= self.top_layers@.take(k - 1));
            }
            if e.kind == TopLayerKind::Modal {
                return Some(e.id);
            }
            k = k - 1;
        }
        None
    }

    fn inert_walk(&self, id: usize, modal: Option<usize>) -> (r: bool)
        ensures
            r == inert_chain(self.nodes@, id as int, modal),
        decreases id,
    {
        if id >= self.nodes.len() {
            return false;
        }
        if self.nodes[id].inert {
            return true;
        }
        if modal == Some(id) {
            return false;
        }
        match self.nodes[id].parent {
            Some(p) => p < id && self.inert_walk(p, modal),
            None => false,
        }
    }

    /// Whether a widget ignores input.
    pub fn is_inert(&self, id: usize) -> (r: bool)
        ensures
            r == inert(self.nodes@, self.top_layers@, id as int),
    {
        if id >= self.nodes.len() {
            return true;
        }
        let modal = self.active_modal();
        if let Some(m) = modal {
            if !self.is_descendant_or_self(id, m) {
                return true;
            }
        }
        self.inert_walk(id, modal)
    }

    /// Whether a widget and its ancestors are displayed.
    pub fn is_rendered(&self, id: usize) -> (r: bool)
        ensures
            r == shown(self.nodes@, id as int),
        decreases id,
    {
        if id >= self.nodes.len() || self.nodes[id].display_none {
            return false;
        }
        match self.nodes[id].parent {
            Some(p) => p < id && self.is_rendered(p),
            None => true,
        }
    }
}

/// Whether a widget has focus.
pub open spec fn has_focus(n: FocusNode) -> bool {
    n.status.has(FOCUSED)
}

/// How many of the first `k` widgets lie in the subtree of `n` and have focus.
pub open spec fn focus_count(nodes: Seq<FocusNode>, n: int, k: int) -> nat
    decreases k,
{
    if k <= 0 {
        0
    } else {
        focus_count(nodes, n, k - 1) + if desc_or_self(nodes, k - 1, n) && has_focus(nodes[k - 1]) {
            1nat
        } else {
            0nat
        }
    }
}

/// Parents come first, and every widget counts the focused widgets in its
/// subtree.
#[verifier::opaque]
pub open spec fn focus_wf(nodes: Seq<FocusNode>) -> bool {
    &&& forall|i: int| 0 <= i < nodes.len() ==> ((#[trigger] nodes[i]).parent matches Some(p) ==> p < i)
    &&& forall|i: int|
        0 <= i < nodes.len() ==> (#[trigger] nodes[i]).focused_descendants == focus_count(nodes, i, nodes.len() as int)
}

/// Same tree shape and focus flags.
pub open spec fn same_shape(a: Seq<FocusNode>, b: Seq<FocusNode>) -> bool {
    &&& a.len() == b.len()
    &&& forall|i: int| 0 <= i < a.len() ==> (#[trigger] a[i]).parent == b[i].parent
}

/// `b` is `a` with only the focused-descendant counts changed.
pub open spec fn same_but_counts(a: FocusNode, b: FocusNode) -> bool {
    same_fields(a, b) && a.status == b.status
}

/// `b` is `a` with only the status and the focused-descendant counts changed.
pub open spec fn same_fields(a: FocusNode, b: FocusNode) -> bool {
    &&& same_frame(a, b)
    &&& a.open == b.open
    &&& a.top_layer == b.top_layer
}

/// `b` is `a` but for its top-layer state, status and counts.
pub open spec fn same_frame(a: FocusNode, b: FocusNode) -> bool {
    &&& a.parent == b.parent
    &&& a.children == b.children
    &&& a.tree_order == b.tree_order
    &&& a.inert == b.inert
    &&& a.disabled == b.disabled
    &&& a.autofocus == b.autofocus
    &&& a.tabindex == b.tabindex
    &&& a.form_control == b.form_control
    &&& a.visibility == b.visibility
    &&& a.display_none == b.display_none
}

proof fn lemma_desc_same_shape(a: Seq<FocusNode>, b: Seq<FocusNode>, id: int, anc: int)
    requires
        same_shape(a, b),
    ensures
        desc_or_self(a, id, anc) == desc_or_self(b, id, anc),
    decreases id,
{
    if id != anc && 0 <= id < a.len() {
        assert(a[id].parent == b[id].parent);
        match a[id].parent {
            Some(p) => if p < id {
                lemma_desc_same_shape(a, b, p as int, anc);
            },
            None => {},
        }
    }
}

proof fn lemma_count_frame(a: Seq<FocusNode>, b: Seq<FocusNode>, n: int, k: int)
    requires
        same_shape(a, b),
        0 <= k <= a.len(),
        forall|i: int| 0 <= i < k ==> has_focus(#[trigger] a[i]) == has_focus(b[i]),
    ensures
        focus_count(a, n, k) == focus_count(b, n, k),
    decreases k,
{
    if k > 0 {
        lemma_count_frame(a, b, n, k - 1);
        lemma_desc_same_shape(a, b, k - 1, n);
    }
}

/// Flipping the focus of widget `x` changes the counts of exactly its
/// ancestors, by one.
proof fn lemma_count_toggle(a: Seq<FocusNode>, b: Seq<FocusNode>, x: int, n: int, k: int)
    requires
        same_shape(a, b),
        0 <= x < a.len(),
        0 <= k <= a.len(),
        has_focus(a[x]) != has_focus(b[x]),
        forall|i: int| 0 <= i < a.len() && i != x ==> has_focus(#[trigger] a[i]) == has_focus(b[i]),
    ensures
        focus_count(b, n, k) == if x < k && desc_or_self(a, x, n) {
            if has_focus(b[x]) {
                focus_count(a, n, k) + 1int
            } else {
                focus_count(a, n, k) - 1
            }
        } else {
            focus_count(a, n, k) as int
        },
        k > x && desc_or_self(a, x, n) && has_focus(a[x]) ==> focus_count(a, n, k) >= 1,
        focus_count(a, n, k) <= k,
    decreases k,
{
    if k > 0 {
        lemma_count_toggle(a, b, x, n, k - 1);
        lemma_desc_same_shape(a, b, k - 1, n);
    }
}

impl FocusTree {
    pub open spec fn wf(&self) -> bool {
        &&& focus_wf(self.nodes@)
        &&& self.focused matches Some(f) ==> f < self.nodes.len()
        &&& forall|k: int| 0 <= k < self.top_layers@.len() ==> #[trigger] self.top_layers@[k].id < self.nodes.len()
    }

    /// Sets a widget's status flags, keeping the focus counts of its
    /// ancestors. True when a stylesheet selects on a flag that changed.
    pub fn set_status(&mut self, id: usize, status: WidgetStatus) -> (r: bool)
        requires
            old(self).wf(),
            id < old(self).nodes.len(),
        ensures
            final(self).wf(),
            final(self).nodes.len() == old(self).nodes.len(),
            final(self).nodes@[id as int].status == status,
            forall|i: int|
                0 <= i < old(self).nodes.len() && i != id ==> same_but_counts(
                    #[trigger] old(self).nodes@[i],
                    final(self).nodes@[i],
                ),
            same_fields(old(self).nodes@[id as int], final(self).nodes@[id as int]),
            final(self).root == old(self).root,
            final(self).top_layers == old(self).top_layers,
            final(self).focused == old(self).focused,
            final(self).styles_pending == old(self).styles_pending,
            final(self).style_mask == old(self).style_mask,
            r == (old(self).nodes@[id as int].status != status && old(self).style_mask & (old(self).nodes@[id as int].status.bits
                ^ status.bits) != 0),
            final(self).css_dirty == (old(self).css_dirty || r),
    {
        proof {
            reveal(focus_wf);
        }
        let old_status = self.nodes[id].status;
        if old_status == status {
            return false;
        }
        let ghost a = self.nodes@;
        let was_focused = old_status.is_focused();
        let now_focused = status.is_focused();
        self.nodes[id].status = status;
        let ghost b = self.nodes@;
        proof {
            assert(same_shape(a, b));
            assert forall|i: int| 0 <= i < a.len() && i != id implies has_focus(#[trigger] a[i]) == has_focus(b[i]) by {
                assert(a[i] == b[i]);
            }
        }
        if was_focused != now_focused {
            let mut cur: Option<usize> = Some(id);
            while cur.is_some()
                invariant
                    self.root == old(self).root,
                    self.top_layers == old(self).top_layers,
                    self.focused == old(self).focused,
                    self.styles_pending == old(self).styles_pending,
                    self.style_mask == old(self).style_mask,
                    self.css_dirty == old(self).css_dirty,
                    id < self.nodes.len(),
                    self.nodes.len() == a.len(),
                    same_shape(a, self.nodes@),
                    b.len() == a.len(),
                    same_shape(a, b),
                    focus_wf(a),
                    has_focus(b[id as int]) == now_focused,
                    has_focus(a[id as int]) == was_focused,
                    was_focused != now_focused,
                    forall|i: int| 0 <= i < a.len() && i != id ==> has_focus(#[trigger] a[i]) == has_focus(b[i]),
                    forall|i: int| 0 <= i < a.len() ==> same_but_counts(#[trigger] b[i], self.nodes@[i]),
                    cur matches Some(c) ==> c < a.len() && desc_or_self(a, id as int, c as int),
                    forall|i: int|
                        0 <= i < a.len() ==> (#[trigger] self.nodes@[i]).focused_descendants == if desc_or_self(a, id as int, i)
                            && !(cur matches Some(c) && desc_or_self(a, c as int, i)) {
                            focus_count(b, i, a.len() as int)
                        } else {
                            focus_count(a, i, a.len() as int)
                        },
                decreases match cur {
                    Some(c) => c + 1,
                    None => 0,
                },
            {
                match cur {
                    Some(c) => {
                        let ghost before = self.nodes@;
                        proof {
                            lemma_count_toggle(b, a, id as int, c as int, a.len() as int);
                        }
                        proof {
                            lemma_count_toggle(a, b, id as int, c as int, a.len() as int);
                            assert(before[c as int].focused_descendants == focus_count(a, c as int, a.len() as int)) by {
                                assert(desc_or_self(a, c as int, c as int));
                            }
                        }
                        let count = self.nodes[c].focused_descendants;
                        if now_focused {
                            self.nodes[c].focused_descendants = count + 1;
                        } else {
                            self.nodes[c].focused_descendants = count - 1;
                        }
                        let next = match self.nodes[c].parent {
                            Some(p) => if p < c {
                                Some(p)
                            } else {
                                None
                            },
                            None => None,
                        };
                        proof {
                            assert forall|i: int| 0 <= i < a.len() implies (#[trigger] self.nodes@[i]).focused_descendants
                                == if desc_or_self(a, id as int, i) && !(next matches Some(q) && desc_or_self(a, q as int, i)) {
                                focus_count(b, i, a.len() as int)
                            } else {
                                focus_count(a, i, a.len() as int)
                            } by {
                                assert(a[c as int].parent == before[c as int].parent);
                                assert(desc_or_self(a, c as int, i) == (c == i || (next matches Some(q) && desc_or_self(a, q as int, i))));
                                if i == c {
                                    if let Some(q) = next {
                                        if desc_or_self(a, q as int, i) {
                                            lemma_desc_le(a, q as int, i);
                                        }
                                    }
                                }
                            }
                            if let Some(q) = next {
                                assert(desc_or_self(a, id as int, q as int)) by {
                                    lemma_desc_trans(a, id as int, c as int, q as int);
                                }
                            }
                        }
                        cur = next;
                    },
                    None => {},
                }
            }
            proof {
                assert forall|i: int| 0 <= i < a.len() implies (#[trigger] self.nodes@[i]).focused_descendants == focus_count(
                    self.nodes@,
                    i,
                    self.nodes@.len() as int,
                ) by {
                    lemma_count_toggle(a, b, id as int, i, a.len() as int);
                    assert(same_shape(b, self.nodes@)) by {
                        assert forall|j: int| 0 <= j < b.len() implies (#[trigger] b[j]).parent == self.nodes@[j].parent by {
                            assert(same_but_counts(b[j], self.nodes@[j]));
                        }
                    }
                    assert forall|j: int| 0 <= j < a.len() implies has_focus(#[trigger] b[j]) == has_focus(self.nodes@[j]) by {
                        assert(same_but_counts(b[j], self.nodes@[j]));
                    }
                    lemma_count_frame(b, self.nodes@, i, a.len() as int);
                }
            }
        } else {
            proof {
                assert forall|i: int| 0 <= i < a.len() implies (#[trigger] self.nodes@[i]).focused_descendants == focus_count(
                    self.nodes@,
                    i,
                    self.nodes@.len() as int,
                ) by {
                    lemma_count_frame(a, b, i, a.len() as int);
                }
            }
        }
        proof {
            assert forall|i: int| 0 <= i < self.nodes@.len() implies ((#[trigger] self.nodes@[i]).parent matches Some(p) ==> p < i) by {
                assert(self.nodes@[i].parent == a[i].parent);
                assert(a[i].parent matches Some(p) ==> p < i);
            }
            assert(focus_wf(self.nodes@));
        }
        let changed = old_status.bits ^ status.bits;
        if self.style_mask & changed != 0 {
            self.css_dirty = true;
            return true;
        }
        false
    }
}

/// Whether widget `x` cannot take focus: it is inert or disabled, or hidden
/// where styles are up to date.
pub open spec fn refuses_focus(t: FocusTree, x: int) -> bool {
    refuses_in(t.nodes@, t.top_layers@, t.styles_pending, x)
}

pub open spec fn refuses_in(nodes: Seq<FocusNode>, tops: Seq<TopLayerEntry>, pending: bool, x: int) -> bool {
    ||| inert(nodes, tops, x)
    ||| nodes[x].disabled
    ||| (!pending && (!shown(nodes, x) || nodes[x].visibility == Visibility::Hidden))
}

/// Only statuses and counts differ.
pub open spec fn same_but_status(a: Seq<FocusNode>, b: Seq<FocusNode>) -> bool {
    &&& a.len() == b.len()
    &&& forall|i: int| 0 <= i < a.len() ==> same_fields(#[trigger] a[i], b[i])
}

proof fn lemma_refuses_same(a: Seq<FocusNode>, b: Seq<FocusNode>, tops: Seq<TopLayerEntry>, pending: bool, x: int)
    requires
        same_but_status(a, b),
    ensures
        refuses_in(a, tops, pending, x) == refuses_in(b, tops, pending, x),
        inert(a, tops, x) == inert(b, tops, x),
{
    lemma_walks_same(a, b, tops, x);
    if 0 <= x < a.len() {
        assert(same_fields(a[x], b[x]));
    }
}

proof fn lemma_walks_same(a: Seq<FocusNode>, b: Seq<FocusNode>, tops: Seq<TopLayerEntry>, x: int)
    requires
        same_but_status(a, b),
    ensures
        shown(a, x) == shown(b, x),
        inert_chain(a, x, last_modal(tops)) == inert_chain(b, x, last_modal(tops)),
        forall|m: int| desc_or_self(a, x, m) == desc_or_self(b, x, m),
    decreases x,
{
    if 0 <= x < a.len() {
        assert(same_fields(a[x], b[x]));
        match a[x].parent {
            Some(p) => if p < x {
                lemma_walks_same(a, b, tops, p as int);
                assert forall|m: int| desc_or_self(a, x, m) == desc_or_self(b, x, m) by {
                    assert(desc_or_self(a, p as int, m) == desc_or_self(b, p as int, m));
                }
            },
            None => {},
        }
    }
}

/// The status of widget `i` after focus moves from `t.focused` to `id`.
pub open spec fn status_after(t: FocusTree, i: int, id: Option<usize>) -> WidgetStatus {
    let s = t.nodes@[i].status;
    if t.focused == Some(i as usize) {
        WidgetStatus { bits: with_flag(s.bits, FOCUSED, false) }
    } else if id == Some(i as usize) {
        WidgetStatus { bits: with_flag(s.bits, FOCUSED, true) }
    } else {
        s
    }
}

/// Whether a status change touches a flag some stylesheet selects on.
pub open spec fn restyles(mask: u8, before: WidgetStatus, after: WidgetStatus) -> bool {
    before != after && mask & (before.bits ^ after.bits) != 0
}

impl FocusTree {
    /// Whether widget `x` cannot take focus.
    fn refuses(&self, x: usize) -> (r: bool)
        ensures
            r == refuses_focus(*self, x as int),
    {
        if self.is_inert(x) {
            return true;
        }
        self.nodes[x].disabled || (!self.styles_pending && (!self.is_rendered(x) || self.nodes[x].visibility
            == Visibility::Hidden))
    }

    /// Moves keyboard focus to `id`, or clears it. False when the widget
    /// cannot take focus or already has it.
    #[verifier::rlimit(40)]
    pub fn set_focused(&mut self, id: Option<usize>) -> (r: bool)
        requires
            old(self).wf(),
        ensures
            final(self).wf(),
            r == (!(id matches Some(x) && refuses_focus(*old(self), x as int)) && old(self).focused != id),
            !r ==> *final(self) == *old(self),
            r ==> final(self).focused == id,
            final(self).nodes.len() == old(self).nodes.len(),
            r ==> forall|i: int|
                0 <= i < old(self).nodes.len() ==> same_fields(old(self).nodes@[i], #[trigger] final(self).nodes@[i])
                    && final(self).nodes@[i].status == status_after(*old(self), i, id),
            r ==> final(self).css_dirty == (old(self).css_dirty || (old(self).focused matches Some(o) && restyles(
                old(self).style_mask,
                old(self).nodes@[o as int].status,
                status_after(*old(self), o as int, id),
            )) || (id matches Some(n) && restyles(
                old(self).style_mask,
                old(self).nodes@[n as int].status,
                status_after(*old(self), n as int, id),
            ))),
            final(self).root == old(self).root,
            final(self).top_layers == old(self).top_layers,
            final(self).styles_pending == old(self).styles_pending,
            final(self).style_mask == old(self).style_mask,
    {
        if let Some(x) = id {
            if self.refuses(x) {
                return false;
            }
        }
        if self.focused == id {
            return false;
        }
        let ghost t0 = *self;
        if let Some(o) = self.focused {
            let mut st = self.nodes[o].status;
            st.set_focused(false);
            self.set_status(o, st);
        }
        let ghost t1 = *self;
        if let Some(n) = id {
            let mut st = self.nodes[n].status;
            st.set_focused(true);
            self.set_status(n, st);
        }
        let ghost t2 = *self;
        proof {
            assert forall|i: int| 0 <= i < t0.nodes@.len() implies same_fields(t0.nodes@[i], #[trigger] t2.nodes@[i])
                && t2.nodes@[i].status == status_after(t0, i, id) by {
                if t0.focused != Some(i as usize) {
                    assert(same_but_counts(t0.nodes@[i], t1.nodes@[i]));
                }
                if id != Some(i as usize) {
                    assert(same_but_counts(t1.nodes@[i], t2.nodes@[i]));
                }
            }
        }
        self.focused = id;
        true
    }
}

/// A focus candidate: whether it uses the default tab order, its tabindex,
/// its tree order and the widget.
pub type Candidate = (bool, i32, usize, usize);

/// The tab index a widget takes part in traversal with, if any.
pub open spec fn tab_of(n: FocusNode) -> Option<i32> {
    match n.tabindex {
        Some(t) => Some(t),
        None => if n.form_control {
            Some(0)
        } else {
            None
        },
    }
}

/// Widget `i` as a traversal candidate: displayed, visible, not inert or
/// disabled, with a tab index of at least zero.
pub open spec fn candidate_of(t: FocusTree, i: int) -> Option<Candidate> {
    if inert(t.nodes@, t.top_layers@, i) || !shown(t.nodes@, i) || t.nodes@[i].visibility != Visibility::Visible
        || t.nodes@[i].disabled {
        None
    } else {
        match tab_of(t.nodes@[i]) {
            Some(tab) => if tab >= 0 {
                Some((tab == 0, tab, t.nodes@[i].tree_order, i as usize))
            } else {
                None
            },
            None => None,
        }
    }
}

/// The candidates among the first `k` widgets, in widget order.
pub open spec fn candidates(t: FocusTree, k: int) -> Seq<Candidate>
    decreases k,
{
    if k <= 0 {
        Seq::empty()
    } else {
        let r = candidates(t, k - 1);
        match candidate_of(t, k - 1) {
            Some(c) => r.push(c),
            None => r,
        }
    }
}

/// Positive tab indices first, in increasing order, then the default tab
/// order; ties go by tree order.
pub open spec fn candidate_order() -> spec_fn(Candidate, Candidate) -> bool {
    |a: Candidate, b: Candidate| (!a.0 && b.0) || (a.0 == b.0 && (a.1 < b.1 || (a.1 == b.1 && a.2 <= b.2)))
}

/// Where widget `f` stands among the candidates.
pub open spec fn position_of(c: Seq<Candidate>, f: Option<usize>) -> Option<int>
    decreases c.len(),
{
    if c.len() == 0 {
        None
    } else {
        match position_of(c.drop_last(), f) {
            Some(i) => Some(i),
            None => if f == Some(c.last().3) {
                Some(c.len() - 1)
            } else {
                None
            },
        }
    }
}

/// The widget that traversal moves focus to, cycling through the candidates;
/// with none, the active modal.
pub open spec fn next_focus(t: FocusTree, reverse: bool) -> Option<usize> {
    let c = sort_by(candidates(t, t.nodes@.len() as int), candidate_order());
    if c.len() == 0 {
        last_modal(t.top_layers@)
    } else {
        let n = c.len() as int;
        let i = match position_of(c, t.focused) {
            Some(i) => if reverse {
                (i + n - 1) % n
            } else {
                (i + 1) % n
            },
            None => if reverse {
                n - 1
            } else {
                0
            },
        };
        Some(c[i].3)
    }
}

fn candidate_before(a: Candidate, b: Candidate) -> (r: bool)
    ensures
        r == candidate_order()(a, b),
{
    (!a.0 && b.0) || (a.0 == b.0 && (a.1 < b.1 || (a.1 == b.1 && a.2 <= b.2)))
}

fn sort_candidates(v: &mut Vec<Candidate>)
    ensures
        final(v)@ == sort_by(old(v)@, candidate_order()),
{
    let mut out: Vec<Candidate> = Vec::new();
    let mut i: usize = 0;
    while i < v.len()
        invariant
            i <= v.len(),
            v@ == old(v)@,
            out@ == sort_by(v@.take(i as int), candidate_order()),
        decreases v.len() - i,
    {
        let x = v[i];
        let mut j: usize = out.len();
        while j > 0 && !candidate_before(out[j - 1], x)
            invariant
                j <= out.len(),
                forall|m: int| j <= m < out.len() ==> !candidate_order()(#[trigger] out@[m], x),
            decreases j,
        {
            j = j - 1;
        }
        proof {
            lemma_insert_at(out@, x, candidate_order(), j as int);
            assert(v@.take(i + 1).drop_last() =~= v@.take(i as int));
        }
        out.insert(j, x);
        assert(out@ =~= sort_by(v@.take(i + 1), candidate_order())) by {
            assert(v@.take(i + 1).last() == x);
        }
        i = i + 1;
    }
    assert(v@.take(v.len() as int) =~= v@);
    *v = out;
}

proof fn lemma_position_prefix(c: Seq<Candidate>, f: Option<usize>, k: int)
    requires
        0 <= k < c.len(),
        position_of(c.take(k), f) is None,
        f == Some(c[k].3),
    ensures
        position_of(c, f) == Some(k),
    decreases c.len(),
{
    if k < c.len() - 1 {
        assert(c.drop_last().take(k) =~= c.take(k));
        lemma_position_prefix(c.drop_last(), f, k);
    } else {
        assert(c.drop_last() =~= c.take(k));
    }
}

impl FocusTree {
    fn candidate(&self, i: usize) -> (r: Option<Candidate>)
        requires
            i < self.nodes.len(),
        ensures
            r == candidate_of(*self, i as int),
    {
        if self.is_inert(i) || !self.is_rendered(i) || self.nodes[i].visibility != Visibility::Visible
            || self.nodes[i].disabled {
            return None;
        }
        let node = &self.nodes[i];
        let tab = match node.tabindex {
            Some(t) => t,
            None => {
                if node.form_control {
                    0
                } else {
                    return None;
                }
            },
        };
        if tab >= 0 {
            Some((tab == 0, tab, node.tree_order, i))
        } else {
            None
        }
    }

    /// The widget traversal would move focus to.
    pub fn next_focus_target(&self, reverse: bool) -> (r: Option<usize>)
        ensures
            r == next_focus(*self, reverse),
    {
        let mut cands: Vec<Candidate> = Vec::new();
        let mut i: usize = 0;
        while i < self.nodes.len()
            invariant
                i <= self.nodes.len(),
                cands@ == candidates(*self, i as int),
            decreases self.nodes.len() - i,
        {
            if let Some(c) = self.candidate(i) {
                cands.push(c);
            }
            i = i + 1;
        }
        sort_candidates(&mut cands);
        let ghost c = cands@;
        if cands.len() == 0 {
            return self.active_modal();
        }
        let n = cands.len();
        let mut index: Option<usize> = None;
        let mut k: usize = 0;
        while k < n
            invariant
                k <= n,
                n == cands.len(),
                cands@ == c,
                index is None ==> position_of(c.take(k as int), self.focused) is None,
                index matches Some(x) ==> x < k && position_of(c, self.focused) == Some(x as int),
            decreases n - k,
        {
            proof {
                assert(c.take(k + 1).drop_last() =~= c.take(k as int));
            }
            if index.is_none() && self.focused == Some(cands[k].3) {
                index = Some(k);
                proof {
                    lemma_position_prefix(c, self.focused, k as int);
                }
            }
            k = k + 1;
        }
        let at: usize = match index {
            Some(x) => if reverse {
                if x == 0 {
                    n - 1
                } else {
                    x - 1
                }
            } else {
                if x + 1 == n {
                    0
                } else {
                    x + 1
                }
            },
            None => if reverse {
                n - 1
            } else {
                0
            },
        };
        proof {
            if index is None {
                assert(c.take(n as int) =~= c);
            }
            if let Some(x) = index {
                let ni = n as int;
                let xi = x as int;
                if reverse {
                    if x == 0 {
                        assert((xi + ni - 1) % ni == ni - 1) by (nonlinear_arith)
                            requires
                                xi == 0,
                                ni > 0,
                        ;
                    } else {
                        assert((xi + ni - 1) % ni == xi - 1) by (nonlinear_arith)
                            requires
                                0 < xi < ni,
                        ;
                    }
                } else {
                    if x + 1 == n {
                        assert((xi + 1) % ni == 0) by (nonlinear_arith)
                            requires
                                xi + 1 == ni,
                                ni > 0,
                        ;
                    } else {
                        assert((xi + 1) % ni == xi + 1) by (nonlinear_arith)
                            requires
                                0 <= xi,
                                xi + 1 < ni,
                        ;
                    }
                }
            }
        }
        Some(cands[at].3)
    }

    /// Moves focus to the next candidate, or the previous one in reverse.
    /// True when focus changed.
    pub fn focus_next(&mut self, reverse: bool) -> (r: bool)
        requires
            old(self).wf(),
        ensures
            final(self).wf(),
            final(self).focused == ({
                let target = next_focus(*old(self), reverse);
                if target matches Some(x) && refuses_focus(*old(self), x as int) {
                    old(self).focused
                } else {
                    target
                }
            }),
            r == (final(self).focused != old(self).focused),
    {
        let target = self.next_focus_target(reverse);
        let previous = self.focused;
        self.set_focused(target);
        previous != self.focused
    }
}

proof fn lemma_wf_frame(a: Seq<FocusNode>, b: Seq<FocusNode>)
    requires
        focus_wf(a),
        a.len() == b.len(),
        forall|i: int|
            0 <= i < a.len() ==> (#[trigger] b[i]).parent == a[i].parent && b[i].status == a[i].status
                && b[i].focused_descendants == a[i].focused_descendants,
    ensures
        focus_wf(b),
{
    reveal(focus_wf);
    assert(same_shape(a, b)) by {
        assert forall|i: int| 0 <= i < a.len() implies (#[trigger] a[i]).parent == b[i].parent by {
            assert(b[i].parent == a[i].parent);
        }
    }
    assert forall|i: int| 0 <= i < b.len() implies (#[trigger] b[i]).focused_descendants == focus_count(b, i, b.len() as int) by {
        assert forall|j: int| 0 <= j < b.len() implies has_focus(#[trigger] a[j]) == has_focus(b[j]) by {
            assert(b[j].status == a[j].status);
        }
        lemma_count_frame(a, b, i, a.len() as int);
        assert(a[i].focused_descendants == focus_count(a, i, a.len() as int));
    }
    assert forall|i: int| 0 <= i < b.len() implies ((#[trigger] b[i]).parent matches Some(p) ==> p < i) by {
        assert(a[i].parent matches Some(p) ==> p < i);
    }
}

/// Whether widget `x` may take focus when a modal opens.
pub open spec fn autofocus_ok(nodes: Seq<FocusNode>, tops: Seq<TopLayerEntry>, x: int) -> bool {
    nodes[x].autofocus && !nodes[x].disabled && !inert(nodes, tops, x)
}

/// The first widget in document order within the subtree of `id`, itself
/// included, that takes focus when a modal opens.
pub open spec fn autofocus_in(nodes: Seq<FocusNode>, tops: Seq<TopLayerEntry>, id: int) -> Option<usize>
    decreases nodes.len() - id, 1int, 0int,
{
    if !(0 <= id < nodes.len()) {
        None
    } else if autofocus_ok(nodes, tops, id) {
        Some(id as usize)
    } else {
        autofocus_children(nodes, tops, id, 0)
    }
}

/// The same search among the children of `parent` from the `k`th on.
pub open spec fn autofocus_children(nodes: Seq<FocusNode>, tops: Seq<TopLayerEntry>, parent: int, k: int) -> Option<usize>
    decreases nodes.len() - parent, 0int, nodes[parent].children@.len() - k,
{
    if !(0 <= parent < nodes.len()) || k < 0 || k >= nodes[parent].children@.len() {
        None
    } else {
        let c = nodes[parent].children@[k] as int;
        let found = if parent < c < nodes.len() {
            autofocus_in(nodes, tops, c)
        } else {
            None
        };
        if found is Some {
            found
        } else {
            autofocus_children(nodes, tops, parent, k + 1)
        }
    }
}

proof fn lemma_autofocus_same(a: Seq<FocusNode>, b: Seq<FocusNode>, tops: Seq<TopLayerEntry>, id: int)
    requires
        same_but_status(a, b),
    ensures
        autofocus_in(a, tops, id) == autofocus_in(b, tops, id),
    decreases a.len() - id, 1int, 0int,
{
    if 0 <= id < a.len() {
        assert(same_fields(a[id], b[id]));
        lemma_refuses_same(a, b, tops, false, id);
        lemma_autofocus_children_same(a, b, tops, id, 0);
    }
}

proof fn lemma_autofocus_children_same(a: Seq<FocusNode>, b: Seq<FocusNode>, tops: Seq<TopLayerEntry>, parent: int, k: int)
    requires
        same_but_status(a, b),
        0 <= parent < a.len(),
    ensures
        autofocus_children(a, tops, parent, k) == autofocus_children(b, tops, parent, k),
    decreases a.len() - parent, 0int, a[parent].children@.len() - k,
{
    assert(same_fields(a[parent], b[parent]));
    if 0 <= k < a[parent].children@.len() {
        let c = a[parent].children@[k] as int;
        if parent < c < a.len() {
            lemma_autofocus_same(a, b, tops, c);
        }
        lemma_autofocus_children_same(a, b, tops, parent, k + 1);
    }
}

impl FocusTree {
    fn find_autofocus(&self, id: usize) -> (r: Option<usize>)
        ensures
            r == autofocus_in(self.nodes@, self.top_layers@, id as int),
        decreases self.nodes.len() - id, 1int, 0int,
    {
        if id >= self.nodes.len() {
            return None;
        }
        if self.nodes[id].autofocus && !self.nodes[id].disabled && !self.is_inert(id) {
            return Some(id);
        }
        self.find_in_children(id, 0)
    }

    fn find_in_children(&self, parent: usize, k: usize) -> (r: Option<usize>)
        requires
            parent < self.nodes.len(),
        ensures
            r == autofocus_children(self.nodes@, self.top_layers@, parent as int, k as int),
        decreases self.nodes.len() - parent, 0int, self.nodes@[parent as int].children@.len() - k,
    {
        if k >= self.nodes[parent].children.len() {
            return None;
        }
        let c = self.nodes[parent].children[k];
        let found = if parent < c && c < self.nodes.len() {
            self.find_autofocus(c)
        } else {
            None
        };
        if found.is_some() {
            found
        } else {
            self.find_in_children(parent, k + 1)
        }
    }
}

/// Whether `id` may enter the top layer as `kind`: `Ok(true)` when it enters,
/// `Ok(false)` when it is already there in that mode.
/// `after` is `before` with widget `id` opened in the top layer as `kind`:
/// its entry appended, its top-layer state (and for a modal its `open`
/// flag) set, every other widget's own fields kept, styles marked dirty, and
/// focus moved for a modal to its autofocus target (or itself) where that
/// can take focus.
pub open spec fn opened(before: FocusTree, after: FocusTree, id: usize, kind: TopLayerKind) -> bool {
    &&& after.top_layers@ == before.top_layers@.push(
        TopLayerEntry { id, kind, restore_focus: before.focused },
    )
    &&& after.nodes.len() == before.nodes.len()
    &&& after.nodes@[id as int].top_layer == Some(kind)
    &&& after.nodes@[id as int].open == (before.nodes@[id as int].open || kind == TopLayerKind::Modal)
    &&& forall|i: int|
        0 <= i < before.nodes.len() && i != id ==> same_fields(
            before.nodes@[i],
            #[trigger] after.nodes@[i],
        )
    &&& after.css_dirty
    &&& after.root == before.root
    &&& after.styles_pending == before.styles_pending
    &&& after.style_mask == before.style_mask
    &&& kind == TopLayerKind::Popover ==> after.focused == before.focused
    &&& kind == TopLayerKind::Modal ==> after.focused == ({
        let target = match autofocus_in(after.nodes@, after.top_layers@, id as int) {
            Some(x) => x,
            None => id,
        };
        if refuses_in(after.nodes@, after.top_layers@, before.styles_pending, target as int)
            || before.focused == Some(target) {
            before.focused
        } else {
            Some(target)
        }
    })
}

pub open spec fn show_result(t: FocusTree, id: usize, kind: TopLayerKind) -> Result<bool, TopLayerError> {
    if id >= t.nodes@.len() {
        Err(TopLayerError::Stale)
    } else if t.root == Some(id) {
        Err(TopLayerError::Root)
    } else {
        match t.nodes@[id as int].top_layer {
            Some(k) => if k != kind {
                Err(TopLayerError::ModeChange)
            } else {
                Ok(false)
            },
            None => Ok(true),
        }
    }
}

impl FocusTree {
    /// Promotes an element into the top layer. A modal also gets `open`,
    /// makes the rest of the document inert and takes focus: its first
    /// autofocus widget, or itself.
    pub fn show_top_layer(&mut self, id: usize, kind: TopLayerKind) -> (r: Result<bool, TopLayerError>)
        requires
            old(self).wf(),
        ensures
            final(self).wf(),
            r == show_result(*old(self), id, kind),
            r != Ok::<bool, TopLayerError>(true) ==> *final(self) == *old(self),
            r == Ok::<bool, TopLayerError>(true) ==> opened(*old(self), *final(self), id, kind),
    {
        if id >= self.nodes.len() {
            return Err(TopLayerError::Stale);
        }
        if self.root == Some(id) {
            return Err(TopLayerError::Root);
        }
        if let Some(existing) = self.nodes[id].top_layer {
            if existing != kind {
                return Err(TopLayerError::ModeChange);
            }
            return Ok(false);
        }
        let ghost a = self.nodes@;
        let restore_focus = self.focused;
        self.nodes[id].top_layer = Some(kind);
        if kind == TopLayerKind::Modal {
            self.nodes[id].open = true;
        }
        proof {
            lemma_wf_frame(a, self.nodes@);
        }
        self.top_layers.push(TopLayerEntry { id, kind, restore_focus });
        self.css_dirty = true;
        if kind == TopLayerKind::Modal {
            let ghost mid = self.nodes@;
            let focus = match self.find_autofocus(id) {
                Some(x) => x,
                None => id,
            };
            self.set_focused(Some(focus));
            proof {
                assert(same_but_status(mid, self.nodes@)) by {
                    assert forall|i: int| 0 <= i < mid.len() implies same_fields(#[trigger] mid[i], self.nodes@[i]) by {}
                }
                lemma_refuses_same(mid, self.nodes@, self.top_layers@, self.styles_pending, focus as int);
                lemma_autofocus_same(mid, self.nodes@, self.top_layers@, id as int);
            }
        }
        Ok(true)
    }
}

/// Whether closing `id` takes widget `i` out of the top layer: `i` is in the
/// top layer and is `id` or lies below it.
pub open spec fn closes(nodes: Seq<FocusNode>, tops: Seq<TopLayerEntry>, id: int, i: int) -> bool {
    (exists|k: int| 0 <= k < tops.len() && #[trigger] tops[k].id == i) && desc_or_self(nodes, i, id)
}

/// The top layer without the entries that closing `id` removes.
pub open spec fn remaining(nodes: Seq<FocusNode>, tops: Seq<TopLayerEntry>, id: int) -> Seq<TopLayerEntry>
    decreases tops.len(),
{
    if tops.len() == 0 {
        tops
    } else {
        let r = remaining(nodes, tops.drop_last(), id);
        if desc_or_self(nodes, tops.last().id as int, id) {
            r
        } else {
            r.push(tops.last())
        }
    }
}

/// The entry of `id` that comes first.
pub open spec fn first_entry(tops: Seq<TopLayerEntry>, id: usize) -> int {
    choose|k: int| 0 <= k < tops.len() && tops[k].id == id && forall|j: int| 0 <= j < k ==> #[trigger] tops[j].id != id
}

/// Whether focus sat in what closing `id` removes.
pub open spec fn focus_closed(t: FocusTree, id: int) -> bool {
    t.focused matches Some(f) && exists|k: int|
        0 <= k < t.top_layers@.len() && desc_or_self(t.nodes@, t.top_layers@[k].id as int, id) && desc_or_self(
            t.nodes@,
            f as int,
            #[trigger] t.top_layers@[k].id as int,
        )
}

/// Where focus goes when what held it closes: the focus saved when `id`
/// opened, if it can still take input, else the active modal.
pub open spec fn refocus_target(
    nodes: Seq<FocusNode>,
    tops_after: Seq<TopLayerEntry>,
    restore: Option<usize>,
) -> Option<usize> {
    if restore matches Some(r) && r < nodes.len() && !inert(nodes, tops_after, r as int) {
        restore
    } else {
        last_modal(tops_after)
    }
}

proof fn lemma_remaining_ids(nodes: Seq<FocusNode>, tops: Seq<TopLayerEntry>, id: int, bound: int)
    requires
        forall|k: int| 0 <= k < tops.len() ==> #[trigger] tops[k].id < bound,
    ensures
        forall|k: int| 0 <= k < remaining(nodes, tops, id).len() ==> #[trigger] remaining(nodes, tops, id)[k].id < bound,
    decreases tops.len(),
{
    if tops.len() > 0 {
        let d = tops.drop_last();
        assert forall|k: int| 0 <= k < d.len() implies #[trigger] d[k].id < bound by {
            assert(tops[k].id < bound);
        }
        lemma_remaining_ids(nodes, d, id, bound);
        assert(tops[tops.len() - 1].id < bound);
    }
}

impl FocusTree {
    /// Closes the entry of `id` and every top-layer entry below it, and puts
    /// focus back when it sat in what closed. False when `id` is not in the
    /// top layer.
    pub fn close_top_layer(&mut self, id: usize) -> (r: bool)
        requires
            old(self).wf(),
        ensures
            final(self).wf(),
            r == exists|k: int| 0 <= k < old(self).top_layers@.len() && #[trigger] old(self).top_layers@[k].id == id,
            !r ==> *final(self) == *old(self),
            r ==> {
                let nodes = old(self).nodes@;
                let tops = old(self).top_layers@;
                &&& final(self).top_layers@ == remaining(nodes, tops, id as int)
                &&& final(self).nodes.len() == nodes.len()
                &&& forall|i: int|
                    0 <= i < nodes.len() ==> {
                        &&& same_frame(nodes[i], #[trigger] final(self).nodes@[i])
                        &&& final(self).nodes@[i].top_layer == if closes(nodes, tops, id as int, i) {
                            None
                        } else {
                            nodes[i].top_layer
                        }
                        &&& final(self).nodes@[i].open == if closes(nodes, tops, id as int, i) && nodes[i].top_layer
                            == Some(TopLayerKind::Modal) {
                            false
                        } else {
                            nodes[i].open
                        }
                    }
                &&& final(self).css_dirty
                &&& final(self).root == old(self).root
                &&& final(self).styles_pending == old(self).styles_pending
                &&& final(self).style_mask == old(self).style_mask
                &&& final(self).focused == if focus_closed(*old(self), id as int) {
                    let target = refocus_target(
                        final(self).nodes@,
                        final(self).top_layers@,
                        tops[first_entry(tops, id)].restore_focus,
                    );
                    if (target matches Some(x) && refuses_in(
                        final(self).nodes@,
                        final(self).top_layers@,
                        old(self).styles_pending,
                        x as int,
                    )) || old(self).focused == target {
                        old(self).focused
                    } else {
                        target
                    }
                } else {
                    old(self).focused
                }
            },
    {
        let ghost nodes0 = self.nodes@;
        let ghost tops0 = self.top_layers@;
        let mut index: usize = 0;
        while index < self.top_layers.len() && self.top_layers[index].id != id
            invariant
                index <= self.top_layers.len(),
                forall|j: int| 0 <= j < index ==> #[trigger] self.top_layers@[j].id != id,
            decreases self.top_layers.len() - index,
        {
            index = index + 1;
        }
        if index == self.top_layers.len() {
            return false;
        }
        let restore = self.top_layers[index].restore_focus;
        proof {
            let k = first_entry(tops0, id);
            assert(tops0[index as int].id == id && forall|j: int| 0 <= j < index ==> #[trigger] tops0[j].id != id);
            if k != index {
                if k < index {
                    assert(tops0[k].id != id);
                } else {
                    assert(tops0[index as int].id != id);
                }
            }
        }
        // The entries that close, in top-layer order.
        let mut ids: Vec<usize> = Vec::new();
        let mut k: usize = 0;
        while k < self.top_layers.len()
            invariant
                k <= self.top_layers.len(),
                self.nodes@ == nodes0,
                self.top_layers@ == tops0,
                forall|m: int| #![trigger ids@[m]] 0 <= m < ids.len() ==> exists|j: int| 0 <= j < k && #[trigger] tops0[j].id == ids@[m] && desc_or_self(nodes0, ids@[m] as int, id as int),
                forall|j: int| 0 <= j < k && desc_or_self(nodes0, tops0[j].id as int, id as int) ==> #[trigger] ids@.contains(tops0[j].id),
            decreases self.top_layers.len() - k,
        {
            let e = self.top_layers[k];
            let ghost before = ids@;
            if self.is_descendant_or_self(e.id, id) {
                ids.push(e.id);
            }
            proof {
                assert forall|j: int| 0 <= j < k + 1 && desc_or_self(nodes0, tops0[j].id as int, id as int) implies #[trigger] ids@.contains(tops0[j].id) by {
                    if j < k {
                        assert(before.contains(tops0[j].id));
                        let w = choose|w: int| 0 <= w < before.len() && before[w] == tops0[j].id;
                        assert(ids@[w] == tops0[j].id);
                    } else {
                        assert(ids@[ids.len() - 1] == tops0[j].id);
                    }
                }
                assert forall|m: int| #![trigger ids@[m]] 0 <= m < ids.len() implies exists|j: int| 0 <= j < k + 1 && #[trigger] tops0[j].id == ids@[m] && desc_or_self(nodes0, ids@[m] as int, id as int) by {
                    if m < before.len() {
                        assert(before[m] == ids@[m]);
                    } else {
                        assert(tops0[k as int].id == ids@[m]);
                    }
                }
            }
            k = k + 1;
        }
        assert forall|i: usize| #[trigger] closes(nodes0, tops0, id as int, i as int) <==> ids@.contains(i) by {
            if closes(nodes0, tops0, id as int, i as int) {
                let j = choose|j: int| 0 <= j < tops0.len() && #[trigger] tops0[j].id == i as int;
                assert(ids@.contains(tops0[j].id));
            }
            if ids@.contains(i) {
                let m = choose|m: int| 0 <= m < ids.len() && #[trigger] ids@[m] == i;
                let j = choose|j: int| 0 <= j < k && #[trigger] tops0[j].id == ids@[m] && desc_or_self(nodes0, ids@[m] as int, id as int);
                assert(tops0[j].id == i);
            }
        }
        assert forall|m: int| 0 <= m < ids.len() implies #[trigger] ids@[m] < nodes0.len() by {
            let j = choose|j: int| 0 <= j < k && #[trigger] tops0[j].id == ids@[m] && desc_or_self(nodes0, ids@[m] as int, id as int);
            assert(tops0[j].id < nodes0.len());
        }
        // Deepest and latest first.
        let mut m: usize = ids.len();
        while m > 0
            invariant
                m <= ids.len(),
                self.nodes.len() == nodes0.len(),
                self.top_layers@ == tops0,
                self.root == old(self).root,
                self.focused == old(self).focused,
                self.styles_pending == old(self).styles_pending,
                self.style_mask == old(self).style_mask,
                self.css_dirty == old(self).css_dirty,
                forall|i: int|
                    0 <= i < nodes0.len() ==> {
                        &&& same_frame(nodes0[i], #[trigger] self.nodes@[i])
                        &&& self.nodes@[i].status == nodes0[i].status
                        &&& self.nodes@[i].focused_descendants == nodes0[i].focused_descendants
                        &&& self.nodes@[i].top_layer == if ids@.skip(m as int).contains(i as usize) {
                            None
                        } else {
                            nodes0[i].top_layer
                        }
                        &&& self.nodes@[i].open == if ids@.skip(m as int).contains(i as usize) && nodes0[i].top_layer
                            == Some(TopLayerKind::Modal) {
                            false
                        } else {
                            nodes0[i].open
                        }
                    },
                forall|i: int| 0 <= i < ids.len() ==> #[trigger] ids@[i] < nodes0.len(),
            decreases m,
        {
            let x = ids[m - 1];
            if self.nodes[x].top_layer == Some(TopLayerKind::Modal) {
                self.nodes[x].open = false;
            }
            self.nodes[x].top_layer = None;
            proof {
                assert forall|q: usize| #[trigger] ids@.skip(m - 1).contains(q) <==> (q == x || ids@.skip(m as int).contains(q)) by {
                    if ids@.skip(m - 1).contains(q) {
                        let w = choose|w: int| 0 <= w < ids@.skip(m - 1).len() && #[trigger] ids@.skip(m - 1)[w] == q;
                        if w > 0 {
                            assert(ids@.skip(m as int)[w - 1] == q);
                        }
                    }
                    if ids@.skip(m as int).contains(q) {
                        let w = choose|w: int| 0 <= w < ids@.skip(m as int).len() && #[trigger] ids@.skip(m as int)[w] == q;
                        assert(ids@.skip(m - 1)[w + 1] == q);
                    }
                    if q == x {
                        assert(ids@.skip(m - 1)[0] == q);
                    }
                }
            }
            m = m - 1;
        }
        assert(ids@.skip(0) =~= ids@);
        proof {
            lemma_wf_frame(nodes0, self.nodes@);
        }
        // Drop the closed entries.
        let mut kept: Vec<TopLayerEntry> = Vec::new();
        let mut k: usize = 0;
        while k < self.top_layers.len()
            invariant
                k <= self.top_layers.len(),
                self.top_layers@ == tops0,
                same_shape(nodes0, self.nodes@),
                kept@ == remaining(nodes0, tops0.take(k as int), id as int),
            decreases self.top_layers.len() - k,
        {
            let e = self.top_layers[k];
            proof {
                assert(tops0.take(k + 1).drop_last() =~= tops0.take(k as int));
                lemma_desc_same_shape(nodes0, self.nodes@, e.id as int, id as int);
            }
            if !self.is_descendant_or_self(e.id, id) {
                kept.push(e);
            }
            k = k + 1;
        }
        assert(tops0.take(tops0.len() as int) =~= tops0);
        proof {
            lemma_remaining_ids(nodes0, tops0, id as int, nodes0.len() as int);
        }
        self.top_layers = kept;
        self.css_dirty = true;
        // Did focus sit in what closed?
        let mut moved = false;
        if let Some(f) = self.focused {
            let mut q: usize = 0;
            while q < ids.len()
                invariant
                    q <= ids.len(),
                    same_shape(nodes0, self.nodes@),
                    moved == exists|w: int| 0 <= w < q && desc_or_self(nodes0, f as int, #[trigger] ids@[w] as int),
                decreases ids.len() - q,
            {
                proof {
                    lemma_desc_same_shape(nodes0, self.nodes@, f as int, ids@[q as int] as int);
                }
                if self.is_descendant_or_self(f, ids[q]) {
                    moved = true;
                }
                q = q + 1;
            }
        }
        proof {
            assert(moved == focus_closed(*old(self), id as int)) by {
                if moved {
                    let f = old(self).focused->Some_0;
                    let w = choose|w: int| 0 <= w < ids.len() && desc_or_self(nodes0, f as int, #[trigger] ids@[w] as int);
                    assert(ids@.contains(ids@[w]));
                    let i = ids@[w] as int;
                    assert(closes(nodes0, tops0, id as int, i));
                    let j = choose|j: int| 0 <= j < tops0.len() && #[trigger] tops0[j].id == i;
                    assert(desc_or_self(nodes0, tops0[j].id as int, id as int));
                }
                if focus_closed(*old(self), id as int) {
                    let f = old(self).focused->Some_0;
                    let j = choose|j: int|
                        0 <= j < tops0.len() && desc_or_self(nodes0, tops0[j].id as int, id as int) && desc_or_self(
                            nodes0,
                            f as int,
                            #[trigger] tops0[j].id as int,
                        );
                    let i = tops0[j].id as int;
                    assert(closes(nodes0, tops0, id as int, i));
                    assert(ids@.contains(i as usize));
                    let w = choose|w: int| 0 <= w < ids.len() && #[trigger] ids@[w] == i as usize;
                    assert(desc_or_self(nodes0, f as int, ids@[w] as int));
                }
            }
        }
        if moved {
            let target = match restore {
                Some(r) => if r < self.nodes.len() && !self.is_inert(r) {
                    Some(r)
                } else {
                    self.active_modal()
                },
                None => self.active_modal(),
            };
            let ghost mid = self.nodes@;
            self.set_focused(target);
            proof {
                assert(same_but_status(mid, self.nodes@)) by {
                    assert forall|i: int| 0 <= i < mid.len() implies same_fields(#[trigger] mid[i], self.nodes@[i]) by {}
                }
                if let Some(x) = target {
                    lemma_refuses_same(mid, self.nodes@, self.top_layers@, self.styles_pending, x as int);
                }
                if let Some(r) = restore {
                    lemma_refuses_same(mid, self.nodes@, self.top_layers@, self.styles_pending, r as int);
                }
            }
        }
        true
    }
}

impl FocusTree {
    /// Promotes an element as a modal. Opening an already-open modal is a
    /// no-op that returns `Ok(false)`.
    pub fn show_modal(&mut self, id: usize) -> (r: Result<bool, TopLayerError>)
        requires
            old(self).wf(),
        ensures
            final(self).wf(),
            r == show_result(*old(self), id, TopLayerKind::Modal),
            r != Ok::<bool, TopLayerError>(true) ==> *final(self) == *old(self),
            r == Ok::<bool, TopLayerError>(true) ==> opened(*old(self), *final(self), id, TopLayerKind::Modal),
    {
        self.show_top_layer(id, TopLayerKind::Modal)
    }

    /// Promotes an element without modality; focus stays where it is.
    pub fn show_popover(&mut self, id: usize) -> (r: Result<bool, TopLayerError>)
        requires
            old(self).wf(),
        ensures
            final(self).wf(),
            r == show_result(*old(self), id, TopLayerKind::Popover),
            r != Ok::<bool, TopLayerError>(true) ==> *final(self) == *old(self),
            r == Ok::<bool, TopLayerError>(true) ==> opened(*old(self), *final(self), id, TopLayerKind::Popover),
    {
        self.show_top_layer(id, TopLayerKind::Popover)
    }

    pub fn focused(&self) -> (r: Option<usize>)
        ensures
            r == self.focused,
    {
        self.focused
    }

    /// Whether a widget is in the top layer.
    pub fn is_top_layer(&self, id: usize) -> (r: bool)
        ensures
            r == (id < self.nodes.len() && self.nodes@[id as int].top_layer is Some),
    {
        id < self.nodes.len() && self.nodes[id].top_layer.is_some()
    }

    /// How a widget is in the top layer, if it is.
    pub fn top_layer_kind(&self, id: usize) -> (r: Option<TopLayerKind>)
        ensures
            r == if id < self.nodes.len() {
                self.nodes@[id as int].top_layer
            } else {
                None
            },
    {
        if id < self.nodes.len() {
            self.nodes[id].top_layer
        } else {
            None
        }
    }

    /// The top layer, in the order its elements entered.
    pub fn top_layer(&self) -> (r: Vec<usize>)
        ensures
            r@ == self.top_layers@.map_values(|e: TopLayerEntry| e.id),
    {
        let mut r: Vec<usize> = Vec::new();
        let mut k: usize = 0;
        while k < self.top_layers.len()
            invariant
                k <= self.top_layers.len(),
                r@ == self.top_layers@.take(k as int).map_values(|e: TopLayerEntry| e.id),
            decreases self.top_layers.len() - k,
        {
            r.push(self.top_layers[k].id);
            assert(self.top_layers@.take(k + 1).map_values(|e: TopLayerEntry| e.id) =~= r@);
            k = k + 1;
        }
        assert(self.top_layers@.take(k as int) =~= self.top_layers@);
        r
    }
}

proof fn lemma_candidates_free(t: FocusTree, k: int)
    requires
        k <= t.nodes@.len(),
    ensures
        forall|i: int|
            0 <= i < candidates(t, k).len() ==> !inert(t.nodes@, t.top_layers@, #[trigger] candidates(t, k)[i].3 as int),
    decreases k,
{
    if k > 0 {
        lemma_candidates_free(t, k - 1);
        let r = candidates(t, k - 1);
        match candidate_of(t, k - 1) {
            Some(c) => {
                assert forall|i: int| 0 <= i < r.push(c).len() implies !inert(t.nodes@, t.top_layers@, #[trigger] r.push(c)[i].3 as int) by {
                    if i < r.len() {
                        assert(r.push(c)[i] == r[i]);
                    } else {
                        assert(t.nodes@.len() == t.nodes.len());
                        assert(c.3 as int == k - 1);
                    }
                }
            },
            None => {},
        }
    }
}

proof fn lemma_position_bound(c: Seq<Candidate>, f: Option<usize>)
    ensures
        position_of(c, f) matches Some(i) ==> 0 <= i < c.len(),
    decreases c.len(),
{
    if c.len() > 0 {
        lemma_position_bound(c.drop_last(), f);
    }
}

/// With a modal open, focus traversal never leaves the modal's subtree.
pub proof fn lemma_traversal_stays_in_modal(t: FocusTree, reverse: bool)
    requires
        last_modal(t.top_layers@) is Some,
    ensures
        next_focus(t, reverse) matches Some(x) && desc_or_self(t.nodes@, x as int, last_modal(t.top_layers@)->Some_0 as int),
{
    let m = last_modal(t.top_layers@)->Some_0;
    let cs = candidates(t, t.nodes@.len() as int);
    lemma_candidates_free(t, t.nodes@.len() as int);
    let p = |c: Candidate| desc_or_self(t.nodes@, c.3 as int, m as int);
    assert forall|i: int| 0 <= i < cs.len() implies p(#[trigger] cs[i]) by {
        assert(!inert(t.nodes@, t.top_layers@, cs[i].3 as int));
    }
    lemma_sort_keeps(cs, candidate_order(), p);
    let c = sort_by(cs, candidate_order());
    if c.len() > 0 {
        let n = c.len() as int;
        lemma_position_bound(c, t.focused);
        let i = match position_of(c, t.focused) {
            Some(i) => if reverse {
                (i + n - 1) % n
            } else {
                (i + 1) % n
            },
            None => if reverse {
                n - 1
            } else {
                0
            },
        };
        assert(0 <= i < n) by {
            if let Some(j) = position_of(c, t.focused) {
                assert(0 <= (j + n - 1) % n < n) by (nonlinear_arith)
                    requires
                        0 <= j < n,
                ;
                assert(0 <= (j + 1) % n < n) by (nonlinear_arith)
                    requires
                        0 <= j < n,
                ;
            }
        }
        assert(p(c[i]));
    }
}

/// The candidates among the first `k` widgets are exactly the widgets that
/// are candidates there, each once, as `candidate_of` gives them.
proof fn lemma_candidates_members(t: FocusTree, k: int)
    requires
        0 <= k <= t.nodes@.len() <= usize::MAX,
    ensures
        forall|m: int| 0 <= m < candidates(t, k).len() ==> candidate_of(t, (#[trigger] candidates(t, k)[m]).3 as int)
            == Some(candidates(t, k)[m]),
        forall|i: int| 0 <= i < k && (#[trigger] candidate_of(t, i)) is Some ==> candidates(t, k).contains(
            candidate_of(t, i)->0,
        ),
    decreases k,
{
    if k > 0 {
        lemma_candidates_members(t, k - 1);
        let r = candidates(t, k - 1);
        match candidate_of(t, k - 1) {
            Some(c) => {
                assert(c.3 == (k - 1) as usize);
                assert(candidates(t, k) == r.push(c));
                assert forall|m: int| 0 <= m < candidates(t, k).len() implies candidate_of(t, (#[trigger] candidates(t, k)[m]).3 as int)
                    == Some(candidates(t, k)[m]) by {
                    if m < r.len() {
                        assert(candidates(t, k)[m] == r[m]);
                    } else {
                        assert(candidates(t, k)[m] == c);
                        assert(c.3 as int == k - 1);
                    }
                }
                assert forall|i: int| 0 <= i < k && (#[trigger] candidate_of(t, i)) is Some implies candidates(t, k).contains(
                    candidate_of(t, i)->0,
                ) by {
                    if i < k - 1 {
                        let x = candidate_of(t, i)->0;
                        assert(r.contains(x));
                        let m = choose|m: int| 0 <= m < r.len() && r[m] == x;
                        assert(candidates(t, k)[m] == x);
                    } else {
                        assert(candidates(t, k)[r.len() as int] == c);
                    }
                }
            },
            None => {},
        }
    }
}

proof fn lemma_position_none(c: Seq<Candidate>)
    ensures
        position_of(c, None) is None,
    decreases c.len(),
{
    if c.len() > 0 {
        lemma_position_none(c.drop_last());
    }
}

/// Tab order from nothing focused: forward traversal goes to the first widget
/// in Tab order. Widgets with a positive tab index come before the others,
/// in increasing tab index; equal tab indices go in tree order. So with
/// candidates of tab index 1 and 2, the tab index 1 widget is focused first.
pub proof fn lemma_tab_order_first(t: FocusTree)
    requires
        t.nodes@.len() <= usize::MAX,
        t.focused is None,
        exists|i: int| 0 <= i < t.nodes@.len() && (#[trigger] candidate_of(t, i)) is Some,
    ensures
        next_focus(t, false) matches Some(x) && candidate_of(t, x as int) matches Some(cx) && forall|i: int|
            0 <= i < t.nodes@.len() && (#[trigger] candidate_of(t, i)) is Some ==> {
                let ci = candidate_of(t, i)->0;
                &&& ci.1 > 0 ==> 0 < cx.1 <= ci.1
                &&& ci.1 == cx.1 ==> cx.2 <= ci.2
            },
{
    let n = t.nodes@.len() as int;
    let cands = candidates(t, n);
    let le = candidate_order();
    let c = sort_by(cands, le);
    lemma_candidates_members(t, n);
    let w = choose|i: int| 0 <= i < n && (#[trigger] candidate_of(t, i)) is Some;
    assert(cands.contains(candidate_of(t, w)->0));
    assert(total_preorder(le)) by {
        assert forall|a: Candidate, b: Candidate| #[trigger] le(a, b) || le(b, a) by {}
        assert forall|a: Candidate, b: Candidate, d: Candidate| #[trigger] le(a, b) && #[trigger] le(b, d) implies le(a, d) by {}
    }
    lemma_sort_sorted(cands, le);
    lemma_sort_contains(cands, le);
    let valid = |e: Candidate| candidate_of(t, e.3 as int) == Some(e);
    assert forall|m: int| 0 <= m < cands.len() implies valid(#[trigger] cands[m]) by {}
    lemma_sort_keeps(cands, le, valid);
    lemma_position_none(c);
    assert(c.len() > 0);
    let cx = c[0];
    assert(valid(cx));
    assert(next_focus(t, false) == Some(cx.3));
    assert forall|i: int| 0 <= i < n && (#[trigger] candidate_of(t, i)) is Some implies {
        let ci = candidate_of(t, i)->0;
        &&& ci.1 > 0 ==> 0 < cx.1 <= ci.1
        &&& ci.1 == cx.1 ==> cx.2 <= ci.2
    } by {
        let ci = candidate_of(t, i)->0;
        assert(cands.contains(ci));
        let m0 = choose|m: int| 0 <= m < cands.len() && cands[m] == ci;
        assert(c.contains(cands[m0]));
        let m = choose|m: int| 0 <= m < c.len() && c[m] == ci;
        if m > 0 {
            assert(le(c[0], c[m]));
        }
        assert(valid(c[m]));
    }
}

} // verus!
