//! CSS stacking contexts compiled into one retained paint order. Painting and
//! hit testing consume the same list, so visual order cannot diverge from
//! input order.
use vstd::prelude::*;
use crate::ui::order::{lemma_insert_at, lemma_sort_sorted, sort_by, total_preorder};

verus! {

/// CSS `position`.
#[derive(Debug, Clone, Copy, PartialEq, Eq, Structural)]
pub enum Position {
    Static,
    Relative,
    Absolute,
    Fixed,
    Sticky,
}

/// What a paint entry draws of its widget.
#[derive(Debug, Clone, Copy, PartialEq, Eq, Structural)]
pub enum Phase {
    Box,
    Content,
    Backdrop,
    Scrollbar,
}

/// What the paint order reads of one widget. Widgets are numbered so that a
/// parent comes before its children; a link that points back to an earlier
/// number is not followed, so every walk ends.
#[derive(Debug)]
pub struct StackNode {
    pub parent: Option<usize>,
    /// The widget whose box contains this one, which clips it.
    pub layout_parent: Option<usize>,
    pub children: Vec<usize>,
    pub display_none: bool,
    pub top_layer: bool,
    /// The parent lays out with flex or grid.
    pub in_flex_or_grid: bool,
    pub position: Position,
    /// `None` is `z-index: auto`.
    pub z_index: Option<i32>,
    pub transformed: bool,
    pub isolated: bool,
    pub scrolls: bool,
    pub paints_content: bool,
    pub tree_order: usize,
}

/// A child group in a stacking list: its z-index, tree order and group.
pub type Layer = (i32, usize, usize);

/// An entry of a group's normal flow.
#[derive(Debug, Clone, Copy, PartialEq, Eq, Structural)]
pub enum Item {
    Box(usize),
    Group(usize),
}

/// One paint-as-if group: its root, the child groups below its flow, its
/// normal flow, the content it paints, and the child groups above.
#[derive(Debug)]
pub struct Group {
    pub root: usize,
    pub negative: Vec<Layer>,
    pub normal: Vec<Item>,
    pub content: Vec<usize>,
    pub zero: Vec<Layer>,
    pub positive: Vec<Layer>,
}

/// A group as values.
pub type GroupView = (usize, Seq<Layer>, Seq<Item>, Seq<usize>, Seq<Layer>, Seq<Layer>);

impl Group {
    pub open spec fn model(&self) -> GroupView {
        (self.root, self.negative@, self.normal@, self.content@, self.zero@, self.positive@)
    }
}

pub open spec fn models(groups: Seq<Group>) -> Seq<GroupView> {
    groups.map_values(|g: Group| g.model())
}

/// A fresh group rooted at `id`.
pub open spec fn new_group(id: usize, paints: bool) -> GroupView {
    (id, Seq::empty(), Seq::empty(), if paints { seq![id] } else { Seq::empty() }, Seq::empty(), Seq::empty())
}

/// `g` with a child group filed by its z-index.
pub open spec fn with_layer(g: GroupView, layer: Layer) -> GroupView {
    if layer.0 < 0 {
        (g.0, g.1.push(layer), g.2, g.3, g.4, g.5)
    } else if layer.0 > 0 {
        (g.0, g.1, g.2, g.3, g.4, g.5.push(layer))
    } else {
        (g.0, g.1, g.2, g.3, g.4.push(layer), g.5)
    }
}

/// Whether a node is positioned.
pub open spec fn positioned(n: StackNode) -> bool {
    n.position != Position::Static
}

/// Whether a node takes its z-index as a flex or grid item.
pub open spec fn flex_item(n: StackNode) -> bool {
    n.in_flex_or_grid && !(n.position == Position::Absolute || n.position == Position::Fixed)
}

/// The z-index a node stacks by.
pub open spec fn z_of(n: StackNode) -> i32 {
    if positioned(n) || flex_item(n) {
        match n.z_index {
            Some(z) => z,
            None => 0,
        }
    } else {
        0
    }
}

/// Whether a node starts a stacking context of its own.
pub open spec fn starts_context(n: StackNode) -> bool {
    ||| n.position == Position::Fixed
    ||| n.position == Position::Sticky
    ||| n.transformed
    ||| n.isolated
    ||| ((positioned(n) || flex_item(n)) && n.z_index is Some)
}

/// Whether a node paints as a group of its own.
pub open spec fn forms_group(n: StackNode) -> bool {
    starts_context(n) || positioned(n) || flex_item(n) || n.scrolls
}

/// The groups after visiting node `id` and its subtree, with `current` the
/// paint-as-if group and `ctx` the stacking context it belongs to.
pub open spec fn visit_spec(nodes: Seq<StackNode>, id: int, current: int, ctx: int, gs: Seq<GroupView>) -> Seq<GroupView>
    decreases nodes.len() - id, 1int, 0int,
{
    if id < 0 || id >= nodes.len() || nodes[id].display_none || nodes[id].top_layer {
        gs
    } else {
        let n = nodes[id];
        if forms_group(n) {
            let index = gs.len() as int;
            let gs1 = gs.push(new_group(id as usize, n.paints_content));
            let gs2 = if starts_context(n) || positioned(n) {
                gs1.update(ctx, with_layer(gs1[ctx], (z_of(n), n.tree_order, index as usize)))
            } else {
                let g = gs1[current];
                gs1.update(current, (g.0, g.1, g.2.push(Item::Group(index as usize)), g.3, g.4, g.5))
            };
            visit_children(nodes, id, 0, index, if starts_context(n) { index } else { ctx }, gs2)
        } else {
            let g = gs[current];
            let gs1 = gs.update(
                current,
                (g.0, g.1, g.2.push(Item::Box(id as usize)), if n.paints_content { g.3.push(id as usize) } else { g.3 }, g.4, g.5),
            );
            visit_children(nodes, id, 0, current, ctx, gs1)
        }
    }
}

/// The groups after visiting the children of `parent` from the `k`th on.
pub open spec fn visit_children(
    nodes: Seq<StackNode>,
    parent: int,
    k: int,
    current: int,
    ctx: int,
    gs: Seq<GroupView>,
) -> Seq<GroupView>
    decreases nodes.len() - parent, 0int, nodes[parent].children@.len() - k,
{
    if parent < 0 || parent >= nodes.len() || k < 0 || k >= nodes[parent].children@.len() {
        gs
    } else {
        let child = nodes[parent].children@[k] as int;
        if child <= parent || child >= nodes.len() {
            visit_children(nodes, parent, k + 1, current, ctx, gs)
        } else {
            visit_children(nodes, parent, k + 1, current, ctx, visit_spec(nodes, child, current, ctx, gs))
        }
    }
}


impl Group {
    /// A fresh group rooted at `id`.
    fn fresh(id: usize, paints: bool) -> (g: Group)
        ensures
            g.model() == new_group(id, paints),
    {
        let mut content: Vec<usize> = Vec::new();
        if paints {
            content.push(id);
        }
        let g = Group { root: id, negative: Vec::new(), normal: Vec::new(), content, zero: Vec::new(), positive: Vec::new() };
        assert(g.model().3 =~= new_group(id, paints).3);
        g
    }
}

proof fn lemma_models_update(groups: Seq<Group>, i: int, g: Group)
    requires
        0 <= i < groups.len(),
    ensures
        models(groups.update(i, g)) == models(groups).update(i, g.model()),
{
    assert(models(groups.update(i, g)) =~= models(groups).update(i, g.model()));
}

proof fn lemma_models_push(groups: Seq<Group>, g: Group)
    ensures
        models(groups.push(g)) == models(groups).push(g.model()),
{
    assert(models(groups.push(g)) =~= models(groups).push(g.model()));
}

/// Files node `id` and its subtree into `groups`.
fn visit(nodes: &Vec<StackNode>, id: usize, current: usize, ctx: usize, groups: &mut Vec<Group>)
    requires
        current < old(groups).len(),
        ctx < old(groups).len(),
    ensures
        models(final(groups)@) == visit_spec(nodes@, id as int, current as int, ctx as int, models(old(groups)@)),
        final(groups).len() >= old(groups).len(),
    decreases nodes.len() - id,
{
    if id >= nodes.len() {
        return;
    }
    let node = &nodes[id];
    if node.display_none || node.top_layer {
        return;
    }
    let ghost n = nodes@[id as int];
    let ghost gs0 = models(groups@);
    let is_positioned = node.position != Position::Static;
    let is_flex_item = node.in_flex_or_grid && !(node.position == Position::Absolute || node.position == Position::Fixed);
    let z: i32 = if is_positioned || is_flex_item {
        match node.z_index {
            Some(z) => z,
            None => 0,
        }
    } else {
        0
    };
    let context = node.position == Position::Fixed || node.position == Position::Sticky || node.transformed
        || node.isolated || ((is_positioned || is_flex_item) && node.z_index.is_some());
    assert(is_positioned == positioned(n));
    assert(is_flex_item == flex_item(n));
    assert(z == z_of(n));
    assert(context == starts_context(n));
    let next_current: usize;
    let next_ctx: usize;
    if context || is_positioned || is_flex_item || node.scrolls {
        let index = groups.len();
        let fresh = Group::fresh(id, node.paints_content);
        proof {
            lemma_models_push(groups@, fresh);
        }
        groups.push(fresh);
        let ghost pre = groups@;
        if context || is_positioned {
            let item: Layer = (z, node.tree_order, index);
            if z < 0 {
                groups[ctx].negative.push(item);
            } else if z > 0 {
                groups[ctx].positive.push(item);
            } else {
                groups[ctx].zero.push(item);
            }
            proof {
                assert(groups@ == pre.update(ctx as int, groups@[ctx as int]));
                lemma_models_update(pre, ctx as int, groups@[ctx as int]);
                assert(groups@[ctx as int].model() == with_layer(pre[ctx as int].model(), item));
            }
        } else {
            groups[current].normal.push(Item::Group(index));
            proof {
                assert(groups@ == pre.update(current as int, groups@[current as int]));
                lemma_models_update(pre, current as int, groups@[current as int]);
            }
        }
        next_current = index;
        next_ctx = if context { index } else { ctx };
    } else {
        let ghost pre = groups@;
        groups[current].normal.push(Item::Box(id));
        if node.paints_content {
            groups[current].content.push(id);
        }
        proof {
            assert(groups@ == pre.update(current as int, groups@[current as int]));
            lemma_models_update(pre, current as int, groups@[current as int]);
        }
        next_current = current;
        next_ctx = ctx;
    }
    let ghost start = models(groups@);
    let mut k: usize = 0;
    while k < node.children.len()
        invariant
            id < nodes.len(),
            node == &nodes@[id as int],
            k <= node.children.len(),
            next_current < groups.len(),
            next_ctx < groups.len(),
            groups.len() >= old(groups).len(),
            visit_children(nodes@, id as int, 0, next_current as int, next_ctx as int, start)
                == visit_children(nodes@, id as int, k as int, next_current as int, next_ctx as int, models(groups@)),
        decreases node.children.len() - k,
    {
        let child = node.children[k];
        if child > id && child < nodes.len() {
            visit(nodes, child, next_current, next_ctx, groups);
        }
        k = k + 1;
    }
}

/// Whether `a` may stay before `b` in a sorted stacking list: by z-index then
/// tree order, or by tree order alone.
pub open spec fn layer_le(a: Layer, b: Layer, by_z: bool) -> bool {
    if by_z {
        a.0 < b.0 || (a.0 == b.0 && a.1 <= b.1)
    } else {
        a.1 <= b.1
    }
}

pub open spec fn layer_order(by_z: bool) -> spec_fn(Layer, Layer) -> bool {
    |a: Layer, b: Layer| layer_le(a, b, by_z)
}

/// The stable sort of a stacking list.
pub open spec fn sort_layers(s: Seq<Layer>, by_z: bool) -> Seq<Layer> {
    sort_by(s, layer_order(by_z))
}

fn layer_before(a: Layer, b: Layer, by_z: bool) -> (r: bool)
    ensures
        r == layer_le(a, b, by_z),
{
    if by_z {
        a.0 < b.0 || (a.0 == b.0 && a.1 <= b.1)
    } else {
        a.1 <= b.1
    }
}

/// Sorts a stacking list stably, as `sort_layers` states.
fn sort_layer_list(v: &mut Vec<Layer>, by_z: bool)
    ensures
        final(v)@ == sort_layers(old(v)@, by_z),
{
    let mut out: Vec<Layer> = Vec::new();
    let mut i: usize = 0;
    while i < v.len()
        invariant
            i <= v.len(),
            v@ == old(v)@,
            out@ == sort_layers(v@.take(i as int), by_z),
        decreases v.len() - i,
    {
        let x = v[i];
        let mut j: usize = out.len();
        while j > 0 && !layer_before(out[j - 1], x, by_z)
            invariant
                j <= out.len(),
                forall|m: int| j <= m < out.len() ==> !layer_order(by_z)(#[trigger] out@[m], x),
            decreases j,
        {
            j = j - 1;
        }
        proof {
            lemma_insert_at(out@, x, layer_order(by_z), j as int);
            assert(v@.take(i + 1).drop_last() =~= v@.take(i as int));
        }
        out.insert(j, x);
        assert(out@ =~= sort_layers(v@.take(i + 1), by_z)) by {
            assert(v@.take(i + 1).last() == x);
        }
        i = i + 1;
    }
    assert(v@.take(v.len() as int) =~= v@);
    *v = out;
}

/// One entry of the retained paint list: a widget and what is drawn of it.
#[derive(Debug, Clone, Copy, PartialEq, Eq, Structural)]
pub struct PaintEntry {
    pub id: usize,
    pub phase: Phase,
}

pub open spec fn entry(id: usize, phase: Phase) -> PaintEntry {
    PaintEntry { id, phase }
}

/// The content entries of a group's list.
pub open spec fn content_entries(ids: Seq<usize>) -> Seq<PaintEntry> {
    ids.map_values(|id: usize| entry(id, Phase::Content))
}

/// The paint entries of group `i` and the groups it holds.
pub open spec fn emit_group(nodes: Seq<StackNode>, gs: Seq<GroupView>, i: int) -> Seq<PaintEntry>
    decreases gs.len() - i, 1int, 0int,
{
    if i < 0 || i >= gs.len() {
        Seq::empty()
    } else {
        let g = gs[i];
        seq![entry(g.0, Phase::Box)] + emit_layers(nodes, gs, i, g.1, 0) + emit_items(nodes, gs, i, g.2, 0)
            + content_entries(g.3) + emit_layers(nodes, gs, i, g.4, 0) + emit_layers(nodes, gs, i, g.5, 0)
            + if g.0 < nodes.len() && nodes[g.0 as int].scrolls {
            seq![entry(g.0, Phase::Scrollbar)]
        } else {
            Seq::empty()
        }
    }
}

/// The paint entries of the child groups in `ls` from the `k`th on.
pub open spec fn emit_layers(nodes: Seq<StackNode>, gs: Seq<GroupView>, parent: int, ls: Seq<Layer>, k: int) -> Seq<
    PaintEntry,
>
    decreases gs.len() - parent, 0int, ls.len() - k,
{
    if k < 0 || k >= ls.len() {
        Seq::empty()
    } else {
        let c = ls[k].2 as int;
        (if parent < c < gs.len() {
            emit_group(nodes, gs, c)
        } else {
            Seq::empty()
        }) + emit_layers(nodes, gs, parent, ls, k + 1)
    }
}

/// The paint entries of a group's normal flow from the `k`th entry on.
pub open spec fn emit_items(nodes: Seq<StackNode>, gs: Seq<GroupView>, parent: int, items: Seq<Item>, k: int) -> Seq<
    PaintEntry,
>
    decreases gs.len() - parent, 0int, items.len() - k,
{
    if k < 0 || k >= items.len() {
        Seq::empty()
    } else {
        (match items[k] {
            Item::Box(id) => seq![entry(id, Phase::Box)],
            Item::Group(c) => if parent < c < gs.len() {
                emit_group(nodes, gs, c as int)
            } else {
                Seq::empty()
            },
        }) + emit_items(nodes, gs, parent, items, k + 1)
    }
}

fn emit_layer_list(nodes: &Vec<StackNode>, groups: &Vec<Group>, index: usize, ls: &Vec<Layer>, out: &mut Vec<PaintEntry>)
    requires
        index < groups.len(),
    ensures
        final(out)@ == old(out)@ + emit_layers(nodes@, models(groups@), index as int, ls@, 0),
    decreases groups.len() - index, 0int, ls.len(),
{
    let ghost gs = models(groups@);
    let ghost base = old(out)@;
    let mut k: usize = 0;
    while k < ls.len()
        invariant
            index < groups.len(),
            gs == models(groups@),
            k <= ls.len(),
            base + emit_layers(nodes@, gs, index as int, ls@, 0) == out@ + emit_layers(nodes@, gs, index as int, ls@, k as int),
        decreases ls.len() - k,
    {
        let c = ls[k].2;
        let ghost before = out@;
        if index < c && c < groups.len() {
            emit(nodes, groups, c, out);
        }
        let ghost e = if index < c && c < groups.len() { emit_group(nodes@, gs, c as int) } else { Seq::<PaintEntry>::empty() };
        assert(out@ == before + e);
        assert(before + (e + emit_layers(nodes@, gs, index as int, ls@, k + 1)) =~= out@ + emit_layers(nodes@, gs, index as int, ls@, k + 1));
        k = k + 1;
    }
    assert(out@ + emit_layers(nodes@, gs, index as int, ls@, k as int) =~= out@);
}

fn emit_item_list(nodes: &Vec<StackNode>, groups: &Vec<Group>, index: usize, items: &Vec<Item>, out: &mut Vec<PaintEntry>)
    requires
        index < groups.len(),
    ensures
        final(out)@ == old(out)@ + emit_items(nodes@, models(groups@), index as int, items@, 0),
    decreases groups.len() - index, 0int, items.len(),
{
    let ghost gs = models(groups@);
    let ghost base = old(out)@;
    let mut k: usize = 0;
    while k < items.len()
        invariant
            index < groups.len(),
            gs == models(groups@),
            k <= items.len(),
            base + emit_items(nodes@, gs, index as int, items@, 0) == out@ + emit_items(nodes@, gs, index as int, items@, k as int),
        decreases items.len() - k,
    {
        let ghost before = out@;
        let ghost e = match items@[k as int] {
            Item::Box(id) => seq![entry(id, Phase::Box)],
            Item::Group(c) => if (index as int) < c < gs.len() {
                emit_group(nodes@, gs, c as int)
            } else {
                Seq::empty()
            },
        };
        match items[k] {
            Item::Box(id) => {
                out.push(PaintEntry { id, phase: Phase::Box });
            },
            Item::Group(c) => {
                if index < c && c < groups.len() {
                    emit(nodes, groups, c, out);
                }
            },
        }
        assert(out@ =~= before + e);
        assert(before + (e + emit_items(nodes@, gs, index as int, items@, k + 1)) =~= out@ + emit_items(nodes@, gs, index as int, items@, k + 1));
        k = k + 1;
    }
    assert(out@ + emit_items(nodes@, gs, index as int, items@, k as int) =~= out@);
}

/// Appends the paint entries of group `index`.
fn emit(nodes: &Vec<StackNode>, groups: &Vec<Group>, index: usize, out: &mut Vec<PaintEntry>)
    requires
        index < groups.len(),
    ensures
        final(out)@ == old(out)@ + emit_group(nodes@, models(groups@), index as int),
    decreases groups.len() - index, 1int, 0int,
{
    let ghost gs = models(groups@);
    let ghost base = old(out)@;
    let group = &groups[index];
    let ghost g = gs[index as int];
    assert(g == group.model());
    out.push(PaintEntry { id: group.root, phase: Phase::Box });
    let ghost o1 = out@;
    emit_layer_list(nodes, groups, index, &group.negative, out);
    let ghost o2 = out@;
    emit_item_list(nodes, groups, index, &group.normal, out);
    let ghost o3 = out@;
    let mut k: usize = 0;
    while k < group.content.len()
        invariant
            group == &groups@[index as int],
            k <= group.content.len(),
            out@ == o3 + content_entries(group.content@.take(k as int)),
        decreases group.content.len() - k,
    {
        out.push(PaintEntry { id: group.content[k], phase: Phase::Content });
        assert(content_entries(group.content@.take(k + 1)) =~= content_entries(group.content@.take(k as int)).push(
            entry(group.content@[k as int], Phase::Content),
        ));
        k = k + 1;
    }
    assert(group.content@.take(k as int) =~= group.content@);
    let ghost o4 = out@;
    emit_layer_list(nodes, groups, index, &group.zero, out);
    let ghost o5 = out@;
    emit_layer_list(nodes, groups, index, &group.positive, out);
    let ghost o6 = out@;
    if group.root < nodes.len() && nodes[group.root].scrolls {
        out.push(PaintEntry { id: group.root, phase: Phase::Scrollbar });
    }
    let ghost tail = if g.0 < nodes.len() && nodes@[g.0 as int].scrolls {
        seq![entry(g.0, Phase::Scrollbar)]
    } else {
        Seq::<PaintEntry>::empty()
    };
    assert(out@ =~= o6 + tail);
    assert(out@ =~= base + emit_group(nodes@, gs, index as int));
}

/// Whether a widget and all its ancestors are displayed.
pub open spec fn rendered(nodes: Seq<StackNode>, id: int) -> bool
    decreases id,
{
    if id < 0 || id >= nodes.len() || nodes[id].display_none {
        false
    } else {
        match nodes[id].parent {
            Some(p) => p < id && rendered(nodes, p as int),
            None => true,
        }
    }
}

/// Whether widget `id` and its ancestors are displayed.
pub fn is_rendered(nodes: &Vec<StackNode>, id: usize) -> (r: bool)
    ensures
        r == rendered(nodes@, id as int),
    decreases id,
{
    if id >= nodes.len() || nodes[id].display_none {
        return false;
    }
    match nodes[id].parent {
        Some(p) => p < id && is_rendered(nodes, p),
        None => true,
    }
}

/// A group with its stacking lists sorted.
pub open spec fn sort_group(g: GroupView) -> GroupView {
    (g.0, sort_layers(g.1, true), g.2, g.3, sort_layers(g.4, false), sort_layers(g.5, true))
}

/// The sorted groups of the stacking context rooted at `root`.
pub open spec fn context_groups(nodes: Seq<StackNode>, root: int) -> Seq<GroupView> {
    let first = seq![new_group(root as usize, nodes[root].paints_content)];
    visit_children(nodes, root, 0, 0, 0, first).map_values(|g: GroupView| sort_group(g))
}

/// The paint entries of the stacking context rooted at `root`, before
/// scroll controls are lifted.
pub open spec fn context_entries(nodes: Seq<StackNode>, root: int) -> Seq<PaintEntry> {
    if rendered(nodes, root) {
        emit_group(nodes, context_groups(nodes, root), 0)
    } else {
        Seq::empty()
    }
}

/// Within every group of a stacking context, the child layers below the flow
/// come in increasing z-index and those above it too, ties in tree order;
/// the z-index 0 layers come in tree order. A layer at z-index -2 is painted
/// before (under) a sibling layer at -1, whatever their tree order.
pub proof fn lemma_layers_in_z_order(nodes: Seq<StackNode>, root: int)
    ensures
        forall|gi: int, i: int, j: int|
            0 <= gi < context_groups(nodes, root).len() && 0 <= i < j < context_groups(nodes, root)[gi].1.len() ==> {
                let a = #[trigger] context_groups(nodes, root)[gi].1[i];
                let b = #[trigger] context_groups(nodes, root)[gi].1[j];
                a.0 < b.0 || (a.0 == b.0 && a.1 <= b.1)
            },
        forall|gi: int, i: int, j: int|
            0 <= gi < context_groups(nodes, root).len() && 0 <= i < j < context_groups(nodes, root)[gi].5.len() ==> {
                let a = #[trigger] context_groups(nodes, root)[gi].5[i];
                let b = #[trigger] context_groups(nodes, root)[gi].5[j];
                a.0 < b.0 || (a.0 == b.0 && a.1 <= b.1)
            },
        forall|gi: int, i: int, j: int|
            0 <= gi < context_groups(nodes, root).len() && 0 <= i < j < context_groups(nodes, root)[gi].4.len() ==> (
            #[trigger] context_groups(nodes, root)[gi].4[i]).1 <= (#[trigger] context_groups(nodes, root)[gi].4[j]).1,
{
    let first = seq![new_group(root as usize, nodes[root].paints_content)];
    let visited = visit_children(nodes, root, 0, 0, 0, first);
    assert(total_preorder(layer_order(true))) by {
        assert forall|a: Layer, b: Layer| #[trigger] layer_order(true)(a, b) || layer_order(true)(b, a) by {}
        assert forall|a: Layer, b: Layer, c: Layer| #[trigger] layer_order(true)(a, b) && #[trigger] layer_order(true)(b, c)
            implies layer_order(true)(a, c) by {}
    }
    assert(total_preorder(layer_order(false))) by {
        assert forall|a: Layer, b: Layer| #[trigger] layer_order(false)(a, b) || layer_order(false)(b, a) by {}
        assert forall|a: Layer, b: Layer, c: Layer| #[trigger] layer_order(false)(a, b) && #[trigger] layer_order(false)(b, c)
            implies layer_order(false)(a, c) by {}
    }
    assert forall|gi: int| 0 <= gi < context_groups(nodes, root).len() implies {
        let g = #[trigger] context_groups(nodes, root)[gi];
        &&& forall|i: int, j: int| 0 <= i < j < g.1.len() ==> layer_order(true)(#[trigger] g.1[i], #[trigger] g.1[j])
        &&& forall|i: int, j: int| 0 <= i < j < g.5.len() ==> layer_order(true)(#[trigger] g.5[i], #[trigger] g.5[j])
        &&& forall|i: int, j: int| 0 <= i < j < g.4.len() ==> layer_order(false)(#[trigger] g.4[i], #[trigger] g.4[j])
    } by {
        let v = visited[gi];
        assert(context_groups(nodes, root)[gi] == sort_group(v));
        lemma_sort_sorted(v.1, layer_order(true));
        lemma_sort_sorted(v.5, layer_order(true));
        lemma_sort_sorted(v.4, layer_order(false));
    }
}

/// Collects and orders the stacking context rooted at `root`.
fn collect_context(nodes: &Vec<StackNode>, root: usize) -> (out: Vec<PaintEntry>)
    ensures
        out@ == context_entries(nodes@, root as int),
{
    let mut out: Vec<PaintEntry> = Vec::new();
    if !is_rendered(nodes, root) {
        return out;
    }
    let mut groups: Vec<Group> = Vec::new();
    let first = Group::fresh(root, nodes[root].paints_content);
    proof {
        lemma_models_push(groups@, first);
    }
    groups.push(first);
    assert(models(groups@) =~= seq![new_group(root, nodes@[root as int].paints_content)]);
    let ghost start = models(groups@);
    let children = &nodes[root].children;
    let mut k: usize = 0;
    while k < children.len()
        invariant
            root < nodes.len(),
            children == &nodes@[root as int].children,
            k <= children.len(),
            groups.len() >= 1,
            visit_children(nodes@, root as int, 0, 0, 0, start)
                == visit_children(nodes@, root as int, k as int, 0, 0, models(groups@)),
        decreases children.len() - k,
    {
        let child = children[k];
        if child > root && child < nodes.len() {
            visit(nodes, child, 0, 0, &mut groups);
        }
        k = k + 1;
    }
    let ghost visited = models(groups@);
    let mut i: usize = 0;
    while i < groups.len()
        invariant
            i <= groups.len(),
            groups.len() == visited.len(),
            forall|m: int| 0 <= m < i ==> #[trigger] models(groups@)[m] == sort_group(visited[m]),
            forall|m: int| i <= m < groups.len() ==> #[trigger] models(groups@)[m] == visited[m],
        decreases groups.len() - i,
    {
        let ghost pre = groups@;
        assert(models(pre)[i as int] == visited[i as int]);
        sort_layer_list(&mut groups[i].negative, true);
        sort_layer_list(&mut groups[i].zero, false);
        sort_layer_list(&mut groups[i].positive, true);
        proof {
            assert(groups@ == pre.update(i as int, groups@[i as int]));
            lemma_models_update(pre, i as int, groups@[i as int]);
            assert(models(pre)[i as int] == visited[i as int]);
            assert(pre[i as int].model() == visited[i as int]);
            assert(groups@[i as int].model() == sort_group(pre[i as int].model()));
            assert(models(groups@)[i as int] == sort_group(visited[i as int]));
        }
        i = i + 1;
    }
    assert(models(groups@) =~= context_groups(nodes@, root as int));
    emit(nodes, &groups, 0, &mut out);
    assert(out@ =~= context_entries(nodes@, root as int));
    out
}

/// Whether `b` is `x` or one of its containing-block ancestors.
pub open spec fn contains_box(nodes: Seq<StackNode>, b: int, x: int) -> bool
    decreases x,
{
    if x == b {
        true
    } else if 0 <= x < nodes.len() {
        match nodes[x].layout_parent {
            Some(p) => p < x && contains_box(nodes, b, p as int),
            None => false,
        }
    } else {
        false
    }
}

/// How many containing-block ancestors `x` has.
pub open spec fn box_depth(nodes: Seq<StackNode>, x: int) -> nat
    decreases x,
{
    if 0 <= x < nodes.len() {
        match nodes[x].layout_parent {
            Some(p) => if p < x {
                1 + box_depth(nodes, p as int)
            } else {
                0
            },
            None => 0,
        }
    } else {
        0
    }
}

/// The entries that are not scroll controls.
pub open spec fn body_of(es: Seq<PaintEntry>) -> Seq<PaintEntry>
    decreases es.len(),
{
    if es.len() == 0 {
        es
    } else {
        let r = body_of(es.drop_last());
        if es.last().phase != Phase::Scrollbar {
            r.push(es.last())
        } else {
            r
        }
    }
}

/// The widgets with scroll controls, each once, as they first come.
pub open spec fn scroll_ids(es: Seq<PaintEntry>) -> Seq<usize>
    decreases es.len(),
{
    if es.len() == 0 {
        Seq::empty()
    } else {
        let r = scroll_ids(es.drop_last());
        if es.last().phase == Phase::Scrollbar && !r.contains(es.last().id) {
            r.push(es.last().id)
        } else {
            r
        }
    }
}

/// The last body entry inside the box of `b`, or the first one.
pub open spec fn last_inside(nodes: Seq<StackNode>, body: Seq<PaintEntry>, b: int) -> int
    decreases body.len(),
{
    if body.len() == 0 {
        0
    } else if contains_box(nodes, b, body.last().id as int) {
        body.len() - 1
    } else {
        last_inside(nodes, body.drop_last(), b)
    }
}

/// A scroll control to place: after which body entry, its box depth, its widget.
pub type Bar = (usize, usize, usize);

/// Earlier body entries first; deeper boxes first after the same entry.
pub open spec fn bar_order() -> spec_fn(Bar, Bar) -> bool {
    |a: Bar, b: Bar| a.0 < b.0 || (a.0 == b.0 && a.1 >= b.1)
}

/// The scroll controls that go right after body entry `i`.
pub open spec fn bars_at(sorted: Seq<Bar>, i: int) -> Seq<PaintEntry>
    decreases sorted.len(),
{
    if sorted.len() == 0 {
        Seq::empty()
    } else {
        let r = bars_at(sorted.drop_last(), i);
        if sorted.last().0 == i {
            r.push(entry(sorted.last().2, Phase::Scrollbar))
        } else {
            r
        }
    }
}

/// The body from entry `i` on, each entry followed by its scroll controls.
pub open spec fn place_bars(body: Seq<PaintEntry>, sorted: Seq<Bar>, i: int) -> Seq<PaintEntry>
    decreases body.len() - i,
{
    if i < 0 || i >= body.len() {
        Seq::empty()
    } else {
        seq![body[i]] + bars_at(sorted, i) + place_bars(body, sorted, i + 1)
    }
}

/// The entries with each scroll control moved after the last entry drawn
/// inside its box, deeper boxes first, so that positioned descendants that
/// escaped their group never cover the controls.
pub open spec fn lift_bars(nodes: Seq<StackNode>, es: Seq<PaintEntry>) -> Seq<PaintEntry> {
    let ids = scroll_ids(es);
    if ids.len() == 0 {
        es
    } else {
        let body = body_of(es);
        let bars = ids.map_values(
            |b: usize| (last_inside(nodes, body, b as int) as usize, box_depth(nodes, b as int) as usize, b),
        );
        place_bars(body, sort_by(bars, bar_order()), 0)
    }
}

proof fn lemma_contains_box_le(nodes: Seq<StackNode>, b: int, x: int)
    requires
        contains_box(nodes, b, x),
    ensures
        b <= x,
    decreases x,
{
    if x != b {
        match nodes[x].layout_parent {
            Some(p) => lemma_contains_box_le(nodes, b, p as int),
            None => {},
        }
    }
}

proof fn lemma_box_depth_le(nodes: Seq<StackNode>, x: int)
    requires
        0 <= x,
    ensures
        box_depth(nodes, x) <= x,
    decreases x,
{
    if 0 <= x < nodes.len() {
        match nodes[x].layout_parent {
            Some(p) => if p < x {
                lemma_box_depth_le(nodes, p as int);
            },
            None => {},
        }
    }
}

proof fn lemma_last_inside_bound(nodes: Seq<StackNode>, body: Seq<PaintEntry>, b: int)
    requires
        body.len() > 0,
    ensures
        0 <= last_inside(nodes, body, b) < body.len(),
    decreases body.len(),
{
    if !contains_box(nodes, b, body.last().id as int) {
        if body.len() > 1 {
            lemma_last_inside_bound(nodes, body.drop_last(), b);
        } else {
            assert(last_inside(nodes, body.drop_last(), b) == 0);
        }
    }
}

/// A scroll control goes after every body entry drawn inside its box: no
/// such entry comes later than the one it is placed after.
pub proof fn lemma_bar_after_contents(nodes: Seq<StackNode>, body: Seq<PaintEntry>, b: int, i: int)
    requires
        0 <= i < body.len(),
        contains_box(nodes, b, body[i].id as int),
    ensures
        i <= last_inside(nodes, body, b),
        last_inside(nodes, body, b) < body.len(),
    decreases body.len(),
{
    lemma_last_inside_bound(nodes, body, b);
    if i < body.len() - 1 && !contains_box(nodes, b, body.last().id as int) {
        assert(body.drop_last()[i] == body[i]);
        lemma_bar_after_contents(nodes, body.drop_last(), b, i);
    }
}

/// Whether `b` is reached walking up from `cur`.
pub open spec fn reaches(nodes: Seq<StackNode>, b: int, cur: Option<usize>) -> bool {
    match cur {
        Some(c) => contains_box(nodes, b, c as int),
        None => false,
    }
}

/// The containing-block parent to walk to from `c`.
fn box_parent(nodes: &Vec<StackNode>, c: usize) -> (r: Option<usize>)
    ensures
        forall|b: int| #[trigger] contains_box(nodes@, b, c as int) == (b == c || reaches(nodes@, b, r)),
        r matches Some(p) ==> p < c,
{
    if c < nodes.len() {
        match nodes[c].layout_parent {
            Some(p) => if p < c {
                Some(p)
            } else {
                None
            },
            None => None,
        }
    } else {
        None
    }
}

/// How many containing-block ancestors widget `x` has.
fn depth_of(nodes: &Vec<StackNode>, x: usize) -> (r: usize)
    ensures
        r == box_depth(nodes@, x as int),
{
    let mut count: usize = 0;
    let mut cur = x;
    proof {
        lemma_box_depth_le(nodes@, x as int);
    }
    loop
        invariant
            count + box_depth(nodes@, cur as int) == box_depth(nodes@, x as int),
            box_depth(nodes@, x as int) <= x,
        decreases cur,
    {
        if cur >= nodes.len() {
            return count;
        }
        match nodes[cur].layout_parent {
            Some(p) => {
                if p < cur {
                    count = count + 1;
                    cur = p;
                } else {
                    return count;
                }
            },
            None => {
                return count;
            },
        }
    }
}

fn bar_before(a: Bar, b: Bar) -> (r: bool)
    ensures
        r == bar_order()(a, b),
{
    a.0 < b.0 || (a.0 == b.0 && a.1 >= b.1)
}

/// Sorts scroll controls stably, as `sort_by` with `bar_order` states.
fn sort_bar_list(v: &mut Vec<Bar>)
    ensures
        final(v)@ == sort_by(old(v)@, bar_order()),
{
    let mut out: Vec<Bar> = Vec::new();
    let mut i: usize = 0;
    while i < v.len()
        invariant
            i <= v.len(),
            v@ == old(v)@,
            out@ == sort_by(v@.take(i as int), bar_order()),
        decreases v.len() - i,
    {
        let x = v[i];
        let mut j: usize = out.len();
        while j > 0 && !bar_before(out[j - 1], x)
            invariant
                j <= out.len(),
                forall|m: int| j <= m < out.len() ==> !bar_order()(#[trigger] out@[m], x),
            decreases j,
        {
            j = j - 1;
        }
        proof {
            lemma_insert_at(out@, x, bar_order(), j as int);
            assert(v@.take(i + 1).drop_last() =~= v@.take(i as int));
        }
        out.insert(j, x);
        assert(out@ =~= sort_by(v@.take(i + 1), bar_order())) by {
            assert(v@.take(i + 1).last() == x);
        }
        i = i + 1;
    }
    assert(v@.take(v.len() as int) =~= v@);
    *v = out;
}

fn contains_id(ids: &Vec<usize>, id: usize) -> (r: bool)
    ensures
        r == ids@.contains(id),
{
    let mut m: usize = 0;
    while m < ids.len()
        invariant
            m <= ids.len(),
            forall|q: int| 0 <= q < m ==> ids@[q] != id,
        decreases ids.len() - m,
    {
        if ids[m] == id {
            return true;
        }
        m = m + 1;
    }
    false
}

/// Moves each scroll control after the last entry drawn inside its box.
fn finish_scrollbar_order(nodes: &Vec<StackNode>, es: Vec<PaintEntry>) -> (out: Vec<PaintEntry>)
    ensures
        out@ == lift_bars(nodes@, es@),
{
    let mut ids: Vec<usize> = Vec::new();
    let mut body: Vec<PaintEntry> = Vec::new();
    let mut k: usize = 0;
    while k < es.len()
        invariant
            k <= es.len(),
            ids@ == scroll_ids(es@.take(k as int)),
            body@ == body_of(es@.take(k as int)),
        decreases es.len() - k,
    {
        let e = es[k];
        proof {
            assert(es@.take(k + 1).drop_last() =~= es@.take(k as int));
        }
        if e.phase == Phase::Scrollbar {
            if !contains_id(&ids, e.id) {
                ids.push(e.id);
            }
        } else {
            body.push(e);
        }
        k = k + 1;
    }
    assert(es@.take(es.len() as int) =~= es@);
    if ids.len() == 0 {
        return es;
    }
    let ghost bodys = body@;
    // After which body entry each control goes.
    let mut ats: Vec<usize> = Vec::new();
    let mut m: usize = 0;
    while m < ids.len()
        invariant
            m <= ids.len(),
            ats.len() == m,
            forall|q: int| 0 <= q < m ==> ats@[q] == 0,
        decreases ids.len() - m,
    {
        ats.push(0);
        m = m + 1;
    }
    let mut i: usize = 0;
    while i < body.len()
        invariant
            i <= body.len(),
            body@ == bodys,
            ats.len() == ids.len(),
            forall|q: int| 0 <= q < ids.len() ==> #[trigger] ats@[q] == last_inside(nodes@, bodys.take(i as int), ids@[q] as int),
        decreases body.len() - i,
    {
        let x = body[i].id;
        let ghost prev = ats@;
        let mut cur: Option<usize> = Some(x);
        loop
            invariant
                i < body.len(),
                ats.len() == ids.len(),
                forall|b: int| reaches(nodes@, b, cur) ==> contains_box(nodes@, b, x as int),
                forall|q: int| 0 <= q < ids.len() ==> #[trigger] ats@[q] == if contains_box(nodes@, ids@[q] as int, x as int)
                    && !reaches(nodes@, ids@[q] as int, cur) {
                    i
                } else {
                    prev[q]
                },
            ensures
                ats.len() == ids.len(),
                forall|q: int| 0 <= q < ids.len() ==> #[trigger] ats@[q] == if contains_box(nodes@, ids@[q] as int, x as int) {
                    i
                } else {
                    prev[q]
                },
            decreases match cur {
                Some(c) => c + 1,
                None => 0,
            },
        {
            match cur {
                Some(c) => {
                    let next = box_parent(nodes, c);
                    let ghost before = ats@;
                    let mut q: usize = 0;
                    while q < ids.len()
                        invariant
                            q <= ids.len(),
                            ats.len() == ids.len(),
                            forall|r: int| 0 <= r < q ==> #[trigger] ats@[r] == if ids@[r] == c { i } else { before[r] },
                            forall|r: int| q <= r < ids.len() ==> #[trigger] ats@[r] == before[r],
                        decreases ids.len() - q,
                    {
                        if ids[q] == c {
                            ats.set(q, i);
                        }
                        q = q + 1;
                    }
                    proof {
                        assert forall|r: int| 0 <= r < ids.len() implies #[trigger] ats@[r] == if contains_box(nodes@, ids@[r] as int, x as int)
                            && !reaches(nodes@, ids@[r] as int, next) {
                            i
                        } else {
                            prev[r]
                        } by {
                            let b = ids@[r] as int;
                            assert(contains_box(nodes@, b, c as int) == (b == c || reaches(nodes@, b, next)));
                            if b == c {
                                if let Some(p) = next {
                                    if contains_box(nodes@, b, p as int) {
                                        lemma_contains_box_le(nodes@, b, p as int);
                                    }
                                }
                            }
                        }
                        assert forall|b: int| reaches(nodes@, b, next) implies contains_box(nodes@, b, x as int) by {
                            assert(contains_box(nodes@, b, c as int) == (b == c || reaches(nodes@, b, next)));
                        }
                    }
                    cur = next;
                },
                None => {
                    break;
                },
            }
        }
        proof {
            assert(bodys.take(i + 1).drop_last() =~= bodys.take(i as int));
            assert(bodys.take(i + 1).last() == bodys[i as int]);
            assert forall|q: int| 0 <= q < ids.len() implies #[trigger] ats@[q] == last_inside(nodes@, bodys.take(i + 1), ids@[q] as int) by {
                assert(prev[q] == last_inside(nodes@, bodys.take(i as int), ids@[q] as int));
            }
        }
        i = i + 1;
    }
    assert(bodys.take(body.len() as int) =~= bodys);
    let ghost want = ids@.map_values(
        |b: usize| (last_inside(nodes@, bodys, b as int) as usize, box_depth(nodes@, b as int) as usize, b),
    );
    let mut bars: Vec<Bar> = Vec::new();
    let mut m: usize = 0;
    while m < ids.len()
        invariant
            m <= ids.len(),
            ats.len() == ids.len(),
            body@ == bodys,
            forall|q: int| 0 <= q < ids.len() ==> #[trigger] ats@[q] == last_inside(nodes@, bodys, ids@[q] as int),
            want == ids@.map_values(
                |b: usize| (last_inside(nodes@, bodys, b as int) as usize, box_depth(nodes@, b as int) as usize, b),
            ),
            bars@ == want.take(m as int),
        decreases ids.len() - m,
    {
        let d = depth_of(nodes, ids[m]);
        bars.push((ats[m], d, ids[m]));
        assert(bars@ =~= want.take(m + 1)) by {
            if bodys.len() > 0 {
                lemma_last_inside_bound(nodes@, bodys, ids@[m as int] as int);
            }
        }
        m = m + 1;
    }
    assert(bars@ =~= want);
    sort_bar_list(&mut bars);
    let ghost sorted = bars@;
    let mut out: Vec<PaintEntry> = Vec::new();
    let mut i: usize = 0;
    while i < body.len()
        invariant
            i <= body.len(),
            body@ == bodys,
            bars@ == sorted,
            out@ + place_bars(bodys, sorted, i as int) == place_bars(bodys, sorted, 0),
        decreases body.len() - i,
    {
        let ghost o0 = out@;
        out.push(body[i]);
        let mut q: usize = 0;
        while q < bars.len()
            invariant
                q <= bars.len(),
                i < body.len(),
                out@ == o0.push(bodys[i as int]) + bars_at(sorted.take(q as int), i as int),
                bars@ == sorted,
            decreases bars.len() - q,
        {
            let bar = bars[q];
            proof {
                assert(sorted.take(q + 1).drop_last() =~= sorted.take(q as int));
            }
            if bar.0 == i {
                out.push(PaintEntry { id: bar.2, phase: Phase::Scrollbar });
            }
            assert(out@ =~= o0.push(bodys[i as int]) + bars_at(sorted.take(q + 1), i as int));
            q = q + 1;
        }
        assert(sorted.take(bars.len() as int) =~= sorted);
        assert(o0 + place_bars(bodys, sorted, i as int) =~= out@ + place_bars(bodys, sorted, i + 1));
        i = i + 1;
    }
    assert(out@ =~= place_bars(bodys, sorted, 0));
    out
}

/// The paint entries of the stacking context rooted at `root`.
pub open spec fn context_paint(nodes: Seq<StackNode>, root: int) -> Seq<PaintEntry> {
    lift_bars(nodes, context_entries(nodes, root))
}

/// The paint entries of the top layer, in the order it was entered: each
/// displayed entry's backdrop, then its own stacking context.
pub open spec fn top_layer_paint(nodes: Seq<StackNode>, tops: Seq<usize>) -> Seq<PaintEntry>
    decreases tops.len(),
{
    if tops.len() == 0 {
        Seq::empty()
    } else {
        let id = tops.last();
        top_layer_paint(nodes, tops.drop_last()) + if rendered(nodes, id as int) {
            seq![entry(id, Phase::Backdrop)] + context_paint(nodes, id as int)
        } else {
            Seq::empty()
        }
    }
}

/// The whole paint order of a tree.
pub open spec fn paint_order(nodes: Seq<StackNode>, root: Option<usize>, tops: Seq<usize>) -> Seq<PaintEntry> {
    match root {
        Some(r) => context_paint(nodes, r as int) + top_layer_paint(nodes, tops),
        None => Seq::empty(),
    }
}

/// The retained paint list. Painting walks it front to back; hit testing
/// walks it back to front.
#[derive(Debug)]
pub struct PaintOrder {
    pub entries: Vec<PaintEntry>,
    /// How many times the list was rebuilt.
    pub rebuilds: u64,
    pub revision: u64,
}

impl PaintOrder {
    pub fn new() -> (order: PaintOrder)
        ensures
            order.entries@.len() == 0,
            order.rebuilds == 0,
            order.revision == 0,
    {
        PaintOrder { entries: Vec::new(), rebuilds: 0, revision: 0 }
    }

    /// Rebuilds the list for a tree: the root's stacking context, then the
    /// top layer.
    pub fn rebuild(&mut self, nodes: &Vec<StackNode>, root: Option<usize>, top_layers: &Vec<usize>)
        requires
            old(self).rebuilds < u64::MAX,
        ensures
            final(self).entries@ == paint_order(nodes@, root, top_layers@),
            final(self).rebuilds == old(self).rebuilds + 1,
            final(self).revision == old(self).revision,
    {
        self.entries.clear();
        self.rebuilds = self.rebuilds + 1;
        let root = match root {
            Some(r) => r,
            None => {
                return;
            },
        };
        self.append_context(nodes, root);
        let mut k: usize = 0;
        while k < top_layers.len()
            invariant
                k <= top_layers.len(),
                self.rebuilds == old(self).rebuilds + 1,
                self.revision == old(self).revision,
                self.entries@ == context_paint(nodes@, root as int) + top_layer_paint(nodes@, top_layers@.take(k as int)),
            decreases top_layers.len() - k,
        {
            let id = top_layers[k];
            let ghost before = self.entries@;
            proof {
                assert(top_layers@.take(k + 1).drop_last() =~= top_layers@.take(k as int));
            }
            if is_rendered(nodes, id) {
                self.entries.push(PaintEntry { id, phase: Phase::Backdrop });
                self.append_context(nodes, id);
            }
            assert(self.entries@ =~= context_paint(nodes@, root as int) + top_layer_paint(nodes@, top_layers@.take(k + 1)));
            k = k + 1;
        }
        assert(top_layers@.take(top_layers.len() as int) =~= top_layers@);
    }

    /// Appends the paint entries of the stacking context rooted at `root`.
    pub fn append_context(&mut self, nodes: &Vec<StackNode>, root: usize)
        ensures
            final(self).entries@ == old(self).entries@ + context_paint(nodes@, root as int),
            final(self).rebuilds == old(self).rebuilds,
            final(self).revision == old(self).revision,
    {
        let es = collect_context(nodes, root);
        let mut lifted = finish_scrollbar_order(nodes, es);
        self.entries.append(&mut lifted);
    }
}

} // verus!
