//! Match described widgets to runtime handles without asking producers to
//! keep an ID registry. Keyed widgets keep their handle by key within their
//! scope; unkeyed ones follow their source range through the edits.
use super::document::{map_spec as edit_map, Bias, ChangeSet, Edit, EditError};
use super::projection::{BlockView, Projection, Replacement, ReplacementContent, ViewId, WidgetSpec};
use super::state::strings_equal;
use std::ops::Range;
use vstd::prelude::*;

verus! {

/// A widget description as values: kind, value, key and scope.
pub type WidgetView = (u64, u64, Option<Seq<char>>, Option<ViewId>);

/// A described widget of a projection: its handle, source range,
/// description, and whether it is a block.
pub type Described = (ViewId, Range<usize>, WidgetView, bool);

pub open spec fn wview(w: WidgetSpec) -> WidgetView {
    (
        w.kind,
        w.description,
        match w.key {
            Some(k) => Some(k@),
            None => None,
        },
        w.scope,
    )
}

/// Whether two widgets stand for the same instance: equal keys in the same
/// scope, or, unkeyed, the same kind over the same range in the same scope.
pub open spec fn same_identity(a: Described, b: Described) -> bool {
    match (a.2.2, b.2.2) {
        (Some(x), Some(y)) => a.2.3 == b.2.3 && x == y,
        (None, None) => a.2.3 == b.2.3 && a.2.0 == b.2.0 && a.1 == b.1 && a.3 == b.3,
        _ => false,
    }
}

/// The described widgets among the replacements, in order.
pub open spec fn rep_widgets(reps: Seq<Replacement>) -> Seq<Described>
    decreases reps.len(),
{
    if reps.len() == 0 {
        Seq::empty()
    } else {
        let r = rep_widgets(reps.drop_last());
        let last = reps.last();
        match last.content {
            ReplacementContent::Widget(w) => r.push((last.id, last.range, wview(w), false)),
            _ => r,
        }
    }
}

/// The described widgets among the blocks, in order.
pub open spec fn block_widgets(blocks: Seq<BlockView>) -> Seq<Described>
    decreases blocks.len(),
{
    if blocks.len() == 0 {
        Seq::empty()
    } else {
        let r = block_widgets(blocks.drop_last());
        let last = blocks.last();
        match last.widget {
            Some(w) => r.push((last.id, last.range, wview(w), true)),
            None => r,
        }
    }
}

/// Every described widget: replacements first, then blocks.
pub open spec fn widgets_of(reps: Seq<Replacement>, blocks: Seq<BlockView>) -> Seq<Described> {
    rep_widgets(reps) + block_widgets(blocks)
}

/// Whether `id` is the explicit handle of a replacement or block that is not
/// a described widget.
pub open spec fn fixed_id(reps: Seq<Replacement>, blocks: Seq<BlockView>, id: ViewId) -> bool {
    ||| exists|i: int| 0 <= i < reps.len() && #[trigger] reps[i].id == id && !(reps[i].content is Widget)
    ||| exists|j: int| 0 <= j < blocks.len() && #[trigger] blocks[j].id == id && blocks[j].widget is None
}

/// Whether a projection shows a view under handle `id`.
pub open spec fn shows_view(reps: Seq<Replacement>, blocks: Seq<BlockView>, id: ViewId) -> bool {
    ||| exists|i: int| 0 <= i < reps.len() && #[trigger] reps[i].id == id && !(reps[i].content is Text)
    ||| exists|j: int| 0 <= j < blocks.len() && #[trigger] blocks[j].id == id
}

/// Where an unkeyed previous widget's range lands after the edits, or `None`
/// when an edit replaced all of its source.
pub open spec fn carried_range(r: Range<usize>, edits: Option<Seq<Edit>>) -> Option<Range<usize>> {
    match edits {
        None => Some(r),
        Some(e) => if r.start < r.end && exists|k: int|
            0 <= k < e.len() && (#[trigger] e[k]).range.start <= r.start && e[k].range.end >= r.end {
            None
        } else {
            Some(
                edit_map(e, r.start as int, Bias::After) as usize..edit_map(
                    e,
                    r.end as int,
                    if r.start >= r.end {
                        Bias::After
                    } else {
                        Bias::Before
                    },
                ) as usize,
            )
        },
    }
}

/// The previous widgets offered for reuse, in order, with unkeyed ranges
/// carried through the edits.
pub open spec fn offered(
    prev: Seq<Described>,
    reps: Seq<Replacement>,
    blocks: Seq<BlockView>,
    edits: Option<Seq<Edit>>,
    match_ranges: bool,
    match_keys: bool,
) -> Seq<Described>
    decreases prev.len(),
{
    if prev.len() == 0 {
        Seq::empty()
    } else {
        let r = offered(prev.drop_last(), reps, blocks, edits, match_ranges, match_keys);
        let w = prev.last();
        if fixed_id(reps, blocks, w.0) || (if w.2.2 is Some {
            !match_keys
        } else {
            !match_ranges
        }) {
            r
        } else if w.2.2 is Some {
            r.push(w)
        } else {
            match carried_range(w.1, edits) {
                Some(range) => r.push((w.0, range, w.2, w.3)),
                None => r,
            }
        }
    }
}

/// The first offer from index `a` on that is untaken and has `w`'s identity.
pub open spec fn first_offer(avail: Seq<Described>, taken: Seq<bool>, w: Described, a: int) -> Option<int>
    decreases avail.len() - a,
{
    if a < 0 || a >= avail.len() {
        None
    } else if !taken[a] && same_identity(avail[a], w) {
        Some(a)
    } else {
        first_offer(avail, taken, w, a + 1)
    }
}

/// The first handle from `n` on that nothing holds.
pub open spec fn free_id(reserved: Set<ViewId>, n: u64) -> Option<u64>
    decreases u64::MAX - n,
{
    if !reserved.contains(ViewId(n)) {
        Some(n)
    } else if n == u64::MAX {
        None
    } else {
        free_id(reserved, (n + 1) as u64)
    }
}

/// The assignment state: which offers are taken, the reserved handles, the
/// next fresh handle to try, and the keys seen.
pub type MatchState = (Seq<bool>, Set<ViewId>, u64, Set<(Option<ViewId>, Seq<char>)>);

/// Giving widget `w` a handle: a duplicate key is refused; otherwise it takes
/// the first untaken offer with its identity, or the first free handle.
pub open spec fn step_spec(w: Described, avail: Seq<Described>, st: MatchState) -> Result<(ViewId, MatchState), EditError> {
    let (taken, reserved, next, keys) = st;
    if w.2.2 matches Some(key) && keys.contains((w.2.3, key)) {
        Err(EditError::Rejected("duplicate widget key in projection scope"))
    } else {
        let keys2 = match w.2.2 {
            Some(key) => keys.insert((w.2.3, key)),
            None => keys,
        };
        match first_offer(avail, taken, w, 0) {
            Some(a) => Ok((avail[a].0, (taken.update(a, true), reserved.insert(avail[a].0), next, keys2))),
            None => match free_id(reserved, next) {
                None => Err(EditError::Rejected("view ID space exhausted")),
                Some(n) => Ok((ViewId(n), (taken, reserved.insert(ViewId(n)), n, keys2))),
            },
        }
    }
}

/// The handles given to the widgets from the `k`th on, and the error that
/// stopped the assignment, if any.
pub open spec fn assign(cur: Seq<Described>, k: int, avail: Seq<Described>, st: MatchState) -> (Seq<ViewId>, Option<EditError>)
    decreases cur.len() - k,
{
    if k < 0 || k >= cur.len() {
        (Seq::empty(), None)
    } else {
        match step_spec(cur[k], avail, st) {
            Err(e) => (Seq::empty(), Some(e)),
            Ok((id, st2)) => {
                let (rest, e) = assign(cur, k + 1, avail, st2);
                (seq![id] + rest, e)
            },
        }
    }
}

/// An exec described widget.
pub type DescribedWidget = (ViewId, Range<usize>, WidgetSpec, bool);

pub open spec fn dview(d: DescribedWidget) -> Described {
    (d.0, d.1, wview(d.2), d.3)
}

pub open spec fn dviews(ds: Seq<DescribedWidget>) -> Seq<Described> {
    ds.map_values(|d: DescribedWidget| dview(d))
}

proof fn lemma_same_widget_view(a: WidgetSpec, b: WidgetSpec)
    requires
        super::projection::same_widget(a, b),
    ensures
        wview(a) == wview(b),
{
}

/// The described widgets of a projection, replacements first.
fn collect_widgets(reps: &Vec<Replacement>, blocks: &Vec<BlockView>) -> (out: Vec<DescribedWidget>)
    ensures
        dviews(out@) == widgets_of(reps@, blocks@),
{
    let mut out: Vec<DescribedWidget> = Vec::new();
    let mut i: usize = 0;
    while i < reps.len()
        invariant
            i <= reps.len(),
            dviews(out@) == rep_widgets(reps@.take(i as int)),
        decreases reps.len() - i,
    {
        let r = &reps[i];
        proof {
            assert(reps@.take(i + 1).drop_last() =~= reps@.take(i as int));
        }
        let ghost before = out@;
        match &r.content {
            ReplacementContent::Widget(w) => {
                let d = w.duplicate();
                proof {
                    lemma_same_widget_view(d, *w);
                }
                out.push((r.id, r.range.start..r.range.end, d, false));
                assert(dviews(out@) =~= dviews(before).push(dview(out@[out@.len() - 1])));
            },
            _ => {},
        }
        i = i + 1;
    }
    assert(reps@.take(reps.len() as int) =~= reps@);
    let ghost reps_part = dviews(out@);
    let mut j: usize = 0;
    while j < blocks.len()
        invariant
            j <= blocks.len(),
            dviews(out@) == reps_part + block_widgets(blocks@.take(j as int)),
        decreases blocks.len() - j,
    {
        let b = &blocks[j];
        proof {
            assert(blocks@.take(j + 1).drop_last() =~= blocks@.take(j as int));
        }
        let ghost before = out@;
        match &b.widget {
            Some(w) => {
                let d = w.duplicate();
                proof {
                    lemma_same_widget_view(d, *w);
                }
                out.push((b.id, b.range.start..b.range.end, d, true));
                assert(dviews(out@) =~= dviews(before).push(dview(out@[out@.len() - 1])));
            },
            None => {},
        }
        j = j + 1;
    }
    assert(blocks@.take(blocks.len() as int) =~= blocks@);
    out
}

/// Whether `id` is the handle of a replacement or block that is not a
/// described widget.
fn is_fixed(reps: &Vec<Replacement>, blocks: &Vec<BlockView>, id: ViewId) -> (r: bool)
    ensures
        r == fixed_id(reps@, blocks@, id),
{
    let mut i: usize = 0;
    while i < reps.len()
        invariant
            i <= reps.len(),
            forall|k: int| 0 <= k < i ==> !(#[trigger] reps@[k].id == id && !(reps@[k].content is Widget)),
        decreases reps.len() - i,
    {
        let widget = match &reps[i].content {
            ReplacementContent::Widget(_) => true,
            _ => false,
        };
        if reps[i].id == id && !widget {
            return true;
        }
        i = i + 1;
    }
    let mut j: usize = 0;
    while j < blocks.len()
        invariant
            j <= blocks.len(),
            forall|k: int| 0 <= k < reps.len() ==> !(#[trigger] reps@[k].id == id && !(reps@[k].content is Widget)),
            forall|k: int| 0 <= k < j ==> !(#[trigger] blocks@[k].id == id && blocks@[k].widget is None),
        decreases blocks.len() - j,
    {
        if blocks[j].id == id && blocks[j].widget.is_none() {
            return true;
        }
        j = j + 1;
    }
    false
}

/// Whether a projection shows a view under handle `id`.
fn shows(reps: &Vec<Replacement>, blocks: &Vec<BlockView>, id: ViewId) -> (r: bool)
    ensures
        r == shows_view(reps@, blocks@, id),
{
    let mut i: usize = 0;
    while i < reps.len()
        invariant
            i <= reps.len(),
            forall|k: int| 0 <= k < i ==> !(#[trigger] reps@[k].id == id && !(reps@[k].content is Text)),
        decreases reps.len() - i,
    {
        let text = match &reps[i].content {
            ReplacementContent::Text(_) => true,
            _ => false,
        };
        if reps[i].id == id && !text {
            return true;
        }
        i = i + 1;
    }
    let mut j: usize = 0;
    while j < blocks.len()
        invariant
            j <= blocks.len(),
            forall|k: int| 0 <= k < reps.len() ==> !(#[trigger] reps@[k].id == id && !(reps@[k].content is Text)),
            forall|k: int| 0 <= k < j ==> #[trigger] blocks@[k].id != id,
        decreases blocks.len() - j,
    {
        if blocks[j].id == id {
            return true;
        }
        j = j + 1;
    }
    false
}

/// The edits of an optional change set.
pub open spec fn edits_of(changes: Option<&ChangeSet>) -> Option<Seq<Edit>> {
    match changes {
        Some(c) => Some(c@),
        None => None,
    }
}

/// Every range of `ws` can be carried through `changes`.
pub open spec fn ranges_fit(ws: Seq<Described>, changes: Option<&ChangeSet>) -> bool {
    changes matches Some(c) ==> c.wf() && forall|k: int|
        0 <= k < ws.len() ==> (#[trigger] ws[k]).1.start + super::document::total_inserted(c@) <= usize::MAX && ws[k].1.end
            + super::document::total_inserted(c@) <= usize::MAX
}

/// Whether an edit replaced all of `r`.
fn replaced(c: &ChangeSet, r: &Range<usize>) -> (b: bool)
    ensures
        b == exists|k: int| 0 <= k < c@.len() && (#[trigger] c@[k]).range.start <= r.start && c@[k].range.end >= r.end,
{
    let edits = c.edits();
    let mut k: usize = 0;
    while k < edits.len()
        invariant
            k <= edits@.len(),
            edits@ == c@,
            forall|q: int| 0 <= q < k ==> !((#[trigger] c@[q]).range.start <= r.start && c@[q].range.end >= r.end),
        decreases edits@.len() - k,
    {
        if edits[k].range.start <= r.start && edits[k].range.end >= r.end {
            return true;
        }
        k = k + 1;
    }
    false
}

/// The previous widgets offered for reuse.
fn collect_offers(
    prev: &Vec<DescribedWidget>,
    reps: &Vec<Replacement>,
    blocks: &Vec<BlockView>,
    changes: Option<&ChangeSet>,
    match_ranges: bool,
    match_keys: bool,
) -> (out: Vec<DescribedWidget>)
    requires
        ranges_fit(dviews(prev@), changes),
    ensures
        dviews(out@) == offered(dviews(prev@), reps@, blocks@, edits_of(changes), match_ranges, match_keys),
{
    let ghost pv = dviews(prev@);
    let mut out: Vec<DescribedWidget> = Vec::new();
    let mut k: usize = 0;
    while k < prev.len()
        invariant
            k <= prev.len(),
            pv == dviews(prev@),
            ranges_fit(pv, changes),
            dviews(out@) == offered(pv.take(k as int), reps@, blocks@, edits_of(changes), match_ranges, match_keys),
        decreases prev.len() - k,
    {
        let w = &prev[k];
        proof {
            assert(pv.take(k + 1).drop_last() =~= pv.take(k as int));
            assert(pv.take(k + 1).last() == dview(*w));
        }
        let ghost before = out@;
        let keyed = w.2.key.is_some();
        let skip = is_fixed(reps, blocks, w.0) || (if keyed {
            !match_keys
        } else {
            !match_ranges
        });
        if !skip {
            if keyed {
                let d = w.2.duplicate();
                proof {
                    lemma_same_widget_view(d, w.2);
                }
                out.push((w.0, w.1.start..w.1.end, d, w.3));
                assert(dviews(out@) =~= dviews(before).push(dview(*w)));
            } else {
                match changes {
                    None => {
                        let d = w.2.duplicate();
                        proof {
                            lemma_same_widget_view(d, w.2);
                        }
                        out.push((w.0, w.1.start..w.1.end, d, w.3));
                        assert(dviews(out@) =~= dviews(before).push(dview(*w)));
                    },
                    Some(c) => {
                        let covered = w.1.start < w.1.end && replaced(c, &w.1);
                        if !covered {
                            proof {
                                assert(pv[k as int] == dview(*w));
                            }
                            let start = c.map(w.1.start, Bias::After);
                            let end = c.map(w.1.end, if w.1.start >= w.1.end {
                                Bias::After
                            } else {
                                Bias::Before
                            });
                            let d = w.2.duplicate();
                            proof {
                                lemma_same_widget_view(d, w.2);
                            }
                            out.push((w.0, start..end, d, w.3));
                            assert(dviews(out@) =~= dviews(before).push((w.0, start..end, wview(w.2), w.3)));
                        }
                    },
                }
            }
        }
        k = k + 1;
    }
    assert(pv.take(prev.len() as int) =~= pv);
    out
}

fn has_id(v: &Vec<ViewId>, id: ViewId) -> (r: bool)
    ensures
        r == v@.contains(id),
{
    let mut i: usize = 0;
    while i < v.len()
        invariant
            i <= v.len(),
            forall|k: int| 0 <= k < i ==> v@[k] != id,
        decreases v.len() - i,
    {
        if v[i] == id {
            return true;
        }
        i = i + 1;
    }
    false
}

/// The handles of replacements and blocks that are not described widgets.
fn fixed_list(reps: &Vec<Replacement>, blocks: &Vec<BlockView>) -> (out: Vec<ViewId>)
    ensures
        forall|id: ViewId| out@.contains(id) == fixed_id(reps@, blocks@, id),
{
    let mut out: Vec<ViewId> = Vec::new();
    let mut i: usize = 0;
    while i < reps.len()
        invariant
            i <= reps.len(),
            forall|id: ViewId|
                out@.contains(id) == exists|k: int| 0 <= k < i && #[trigger] reps@[k].id == id && !(reps@[k].content is Widget),
        decreases reps.len() - i,
    {
        let widget = match &reps[i].content {
            ReplacementContent::Widget(_) => true,
            _ => false,
        };
        let ghost before = out@;
        if !widget {
            out.push(reps[i].id);
        }
        proof {
            assert forall|id: ViewId| out@.contains(id) == exists|k: int| 0 <= k < i + 1 && #[trigger] reps@[k].id == id && !(reps@[k].content is Widget) by {
                if out@.contains(id) {
                    let w = choose|w: int| 0 <= w < out@.len() && out@[w] == id;
                    if w < before.len() {
                        assert(before.contains(id));
                    }
                }
                if exists|k: int| 0 <= k < i + 1 && #[trigger] reps@[k].id == id && !(reps@[k].content is Widget) {
                    let k = choose|k: int| 0 <= k < i + 1 && #[trigger] reps@[k].id == id && !(reps@[k].content is Widget);
                    if k < i {
                        assert(before.contains(id));
                        let w = choose|w: int| 0 <= w < before.len() && before[w] == id;
                        assert(out@[w] == id);
                    } else {
                        assert(out@[out@.len() - 1] == id);
                    }
                }
            }
        }
        i = i + 1;
    }
    let ghost from_reps = out@;
    let mut j: usize = 0;
    while j < blocks.len()
        invariant
            j <= blocks.len(),
            forall|id: ViewId|
                out@.contains(id) == ((exists|k: int| 0 <= k < reps.len() && #[trigger] reps@[k].id == id && !(reps@[k].content is Widget)) || exists|k: int|
                    0 <= k < j && #[trigger] blocks@[k].id == id && blocks@[k].widget is None),
        decreases blocks.len() - j,
    {
        let ghost before = out@;
        if blocks[j].widget.is_none() {
            out.push(blocks[j].id);
        }
        proof {
            assert forall|id: ViewId| out@.contains(id) == ((exists|k: int| 0 <= k < reps.len() && #[trigger] reps@[k].id == id && !(reps@[k].content is Widget)) || exists|k: int|
                0 <= k < j + 1 && #[trigger] blocks@[k].id == id && blocks@[k].widget is None) by {
                if out@.contains(id) {
                    let w = choose|w: int| 0 <= w < out@.len() && out@[w] == id;
                    if w < before.len() {
                        assert(before.contains(id));
                    }
                }
                if exists|k: int| 0 <= k < j + 1 && #[trigger] blocks@[k].id == id && blocks@[k].widget is None {
                    let k = choose|k: int| 0 <= k < j + 1 && #[trigger] blocks@[k].id == id && blocks@[k].widget is None;
                    if k < j {
                        assert(before.contains(id));
                        let w = choose|w: int| 0 <= w < before.len() && before[w] == id;
                        assert(out@[w] == id);
                    } else {
                        assert(out@[out@.len() - 1] == id);
                    }
                }
                if exists|k: int| 0 <= k < reps.len() && #[trigger] reps@[k].id == id && !(reps@[k].content is Widget) {
                    assert(before.contains(id));
                    let w = choose|w: int| 0 <= w < before.len() && before[w] == id;
                    assert(out@[w] == id);
                }
            }
        }
        j = j + 1;
    }
    out
}

/// The handles a projection shows views under.
fn view_list(reps: &Vec<Replacement>, blocks: &Vec<BlockView>) -> (out: Vec<ViewId>)
    ensures
        forall|id: ViewId| out@.contains(id) == shows_view(reps@, blocks@, id),
{
    let mut out: Vec<ViewId> = Vec::new();
    let mut i: usize = 0;
    while i < reps.len()
        invariant
            i <= reps.len(),
            forall|id: ViewId|
                out@.contains(id) == exists|k: int| 0 <= k < i && #[trigger] reps@[k].id == id && !(reps@[k].content is Text),
        decreases reps.len() - i,
    {
        let text = match &reps[i].content {
            ReplacementContent::Text(_) => true,
            _ => false,
        };
        let ghost before = out@;
        if !text {
            out.push(reps[i].id);
        }
        proof {
            assert forall|id: ViewId| out@.contains(id) == exists|k: int| 0 <= k < i + 1 && #[trigger] reps@[k].id == id && !(reps@[k].content is Text) by {
                if out@.contains(id) {
                    let w = choose|w: int| 0 <= w < out@.len() && out@[w] == id;
                    if w < before.len() {
                        assert(before.contains(id));
                    }
                }
                if exists|k: int| 0 <= k < i + 1 && #[trigger] reps@[k].id == id && !(reps@[k].content is Text) {
                    let k = choose|k: int| 0 <= k < i + 1 && #[trigger] reps@[k].id == id && !(reps@[k].content is Text);
                    if k < i {
                        assert(before.contains(id));
                        let w = choose|w: int| 0 <= w < before.len() && before[w] == id;
                        assert(out@[w] == id);
                    } else {
                        assert(out@[out@.len() - 1] == id);
                    }
                }
            }
        }
        i = i + 1;
    }
    let mut j: usize = 0;
    while j < blocks.len()
        invariant
            j <= blocks.len(),
            forall|id: ViewId|
                out@.contains(id) == ((exists|k: int| 0 <= k < reps.len() && #[trigger] reps@[k].id == id && !(reps@[k].content is Text)) || exists|k: int|
                    0 <= k < j && #[trigger] blocks@[k].id == id),
        decreases blocks.len() - j,
    {
        let ghost before = out@;
        out.push(blocks[j].id);
        proof {
            assert forall|id: ViewId| out@.contains(id) == ((exists|k: int| 0 <= k < reps.len() && #[trigger] reps@[k].id == id && !(reps@[k].content is Text)) || exists|k: int|
                0 <= k < j + 1 && #[trigger] blocks@[k].id == id) by {
                if out@.contains(id) {
                    let w = choose|w: int| 0 <= w < out@.len() && out@[w] == id;
                    if w < before.len() {
                        assert(before.contains(id));
                    }
                }
                if exists|k: int| 0 <= k < j + 1 && #[trigger] blocks@[k].id == id {
                    let k = choose|k: int| 0 <= k < j + 1 && #[trigger] blocks@[k].id == id;
                    if k < j {
                        assert(before.contains(id));
                        let w = choose|w: int| 0 <= w < before.len() && before[w] == id;
                        assert(out@[w] == id);
                    } else {
                        assert(out@[out@.len() - 1] == id);
                    }
                }
                if exists|k: int| 0 <= k < reps.len() && #[trigger] reps@[k].id == id && !(reps@[k].content is Text) {
                    assert(before.contains(id));
                    let w = choose|w: int| 0 <= w < before.len() && before[w] == id;
                    assert(out@[w] == id);
                }
            }
        }
        j = j + 1;
    }
    out
}

/// Whether offer `a` has the identity of the widget over `range`.
fn same_identity_exec(a: &DescribedWidget, range: &Range<usize>, spec: &WidgetSpec, block: bool) -> (r: bool)
    ensures
        forall|id: ViewId| r == same_identity(dview(*a), (id, *range, wview(*spec), block)),
{
    match (&a.2.key, &spec.key) {
        (Some(x), Some(y)) => a.2.scope == spec.scope && strings_equal(x.as_str(), y.as_str()),
        (None, None) => a.2.scope == spec.scope && a.2.kind == spec.kind && a.1.start == range.start && a.1.end == range.end
            && a.3 == block,
        _ => false,
    }
}

/// Assignment state while handles are given out.
struct Matcher {
    avail: Vec<DescribedWidget>,
    taken: Vec<bool>,
    /// Handles held by views that are not described widgets here, or that
    /// the previous projection showed.
    held: Vec<ViewId>,
    assigned: Vec<ViewId>,
    next: u64,
    keys: Vec<(Option<ViewId>, String)>,
}

impl Matcher {
    spec fn reserved(&self) -> Set<ViewId> {
        Set::new(|id: ViewId| self.held@.contains(id) || self.assigned@.contains(id))
    }

    spec fn keyset(&self) -> Set<(Option<ViewId>, Seq<char>)> {
        Set::new(
            |p: (Option<ViewId>, Seq<char>)|
                exists|i: int| 0 <= i < self.keys@.len() && (#[trigger] self.keys@[i]).0 == p.0 && self.keys@[i].1@ == p.1,
        )
    }

    spec fn state(&self) -> MatchState {
        (self.taken@, self.reserved(), self.next, self.keyset())
    }

    fn key_known(&self, scope: Option<ViewId>, key: &String) -> (r: bool)
        ensures
            r == self.keyset().contains((scope, key@)),
    {
        let mut i: usize = 0;
        while i < self.keys.len()
            invariant
                i <= self.keys.len(),
                forall|k: int| 0 <= k < i ==> !((#[trigger] self.keys@[k]).0 == scope && self.keys@[k].1@ == key@),
            decreases self.keys.len() - i,
        {
            if self.keys[i].0 == scope && strings_equal(self.keys[i].1.as_str(), key.as_str()) {
                assert(self.keyset().contains((scope, key@)));
                return true;
            }
            i = i + 1;
        }
        false
    }

    fn is_reserved(&self, id: ViewId) -> (r: bool)
        ensures
            r == self.reserved().contains(id),
    {
        has_id(&self.held, id) || has_id(&self.assigned, id)
    }

    /// Gives the widget over `range` described by `spec` its handle.
    fn step(&mut self, range: &Range<usize>, spec: &WidgetSpec, block: bool, Ghost(w): Ghost<Described>) -> (r: Result<ViewId, EditError>)
        requires
            old(self).taken@.len() == old(self).avail@.len(),
            w.1 == *range,
            w.2 == wview(*spec),
            w.3 == block,
        ensures
            final(self).avail@ == old(self).avail@,
            final(self).held@ == old(self).held@,
            final(self).taken@.len() == old(self).taken@.len(),
            r is Err ==> final(self).assigned@ == old(self).assigned@,
            match step_spec(w, dviews(old(self).avail@), old(self).state()) {
                Err(e) => r == Err::<ViewId, EditError>(e),
                Ok((id, st)) => r == Ok::<ViewId, EditError>(id) && final(self).state() == st && final(self).assigned@
                    == old(self).assigned@.push(id),
            },
    {
        let ghost st0 = self.state();
        let ghost avail = dviews(self.avail@);
        assert(w == (w.0, *range, wview(*spec), block));
        if let Some(key) = &spec.key {
            if self.key_known(spec.scope, key) {
                return Err(EditError::Rejected("duplicate widget key in projection scope"));
            }
            let ghost before = self.keys@;
            self.keys.push((spec.scope, key.clone()));
            proof {
                assert(self.keyset() =~= st0.3.insert((spec.scope, key@))) by {
                    assert forall|p: (Option<ViewId>, Seq<char>)| #[trigger] self.keyset().contains(p) == st0.3.insert((spec.scope, key@)).contains(p) by {
                        if self.keyset().contains(p) {
                            let i = choose|i: int| 0 <= i < self.keys@.len() && (#[trigger] self.keys@[i]).0 == p.0 && self.keys@[i].1@ == p.1;
                            if i < before.len() {
                                assert(before[i] == self.keys@[i]);
                            }
                        }
                        if st0.3.contains(p) {
                            let i = choose|i: int| 0 <= i < before.len() && (#[trigger] before[i]).0 == p.0 && before[i].1@ == p.1;
                            assert(self.keys@[i] == before[i]);
                        }
                        if p == (spec.scope, key@) {
                            assert(self.keys@[before.len() as int].0 == p.0);
                        }
                    }
                }
            }
        }
        let ghost keys2 = self.keyset();
        assert(!(w.2.2 matches Some(key) && st0.3.contains((w.2.3, key))));
        assert(keys2 == match w.2.2 {
            Some(key) => st0.3.insert((w.2.3, key)),
            None => st0.3,
        });
        let mut a: usize = 0;
        let mut found = false;
        while a < self.avail.len() && !found
            invariant
                a <= self.avail.len(),
                w == (w.0, *range, wview(*spec), block),
                self.taken@.len() == self.avail@.len(),
                avail == dviews(self.avail@),
                self.taken@ == st0.0,
                found ==> a < self.avail.len() && first_offer(avail, st0.0, w, 0) == Some(a as int),
                !found ==> first_offer(avail, st0.0, w, 0) == first_offer(avail, st0.0, w, a as int),
            decreases self.avail.len() - a + if found { 0int } else { 1int },
        {
            let same = same_identity_exec(&self.avail[a], range, spec, block);
            proof {
                assert(avail[a as int] == dview(self.avail@[a as int]));
                assert(same == same_identity(dview(self.avail@[a as int]), (w.0, *range, wview(*spec), block)));
                assert(same == same_identity(avail[a as int], w));
            }
            if !self.taken[a] && same {
                found = true;
            } else {
                a = a + 1;
            }
        }
        if found {
            self.taken.set(a, true);
            let id = self.avail[a].0;
            let ghost before = self.assigned@;
            self.assigned.push(id);
            proof {
                assert(avail[a as int].0 == id);
                assert(self.reserved() =~= st0.1.insert(id)) by {
                    assert forall|x: ViewId| #[trigger] self.reserved().contains(x) == st0.1.insert(id).contains(x) by {
                        assert(self.assigned@.contains(x) == (before.contains(x) || x == id)) by {
                            if self.assigned@.contains(x) {
                                let i = choose|i: int| 0 <= i < self.assigned@.len() && self.assigned@[i] == x;
                                if i < before.len() {
                                    assert(before[i] == x);
                                }
                            }
                            if before.contains(x) {
                                let i = choose|i: int| 0 <= i < before.len() && before[i] == x;
                                assert(self.assigned@[i] == x);
                            }
                            if x == id {
                                assert(self.assigned@[before.len() as int] == x);
                            }
                        }
                    }
                }
            }
            return Ok(id);
        }
        assert(first_offer(avail, st0.0, w, a as int) is None);
        let ghost start = self.next;
        loop
            invariant
                self.taken@ == st0.0,
                self.reserved() == st0.1,
                self.keyset() == keys2,
                self.avail@.len() == self.taken@.len(),
                free_id(st0.1, start) == free_id(st0.1, self.next),
                st0 == old(self).state(),
                start == old(self).next,
                avail == dviews(old(self).avail@),
                first_offer(avail, st0.0, w, 0) is None,
                !(w.2.2 matches Some(key) && st0.3.contains((w.2.3, key))),
                keys2 == match w.2.2 {
                    Some(key) => st0.3.insert((w.2.3, key)),
                    None => st0.3,
                },
                self.avail@ == old(self).avail@,
                self.held@ == old(self).held@,
                self.assigned@ == old(self).assigned@,
            ensures
                self.taken@ == st0.0,
                self.reserved() == st0.1,
                self.keyset() == keys2,
                self.avail@ == old(self).avail@,
                self.held@ == old(self).held@,
                self.assigned@ == old(self).assigned@,
                free_id(st0.1, start) == Some(self.next),
            decreases u64::MAX - self.next,
        {
            if !self.is_reserved(ViewId(self.next)) {
                break;
            }
            if self.next == u64::MAX {
                proof {
                    assert(free_id(st0.1, self.next) is None);
                }
                return Err(EditError::Rejected("view ID space exhausted"));
            }
            self.next = self.next + 1;
        }
        let id = ViewId(self.next);
        let ghost before = self.assigned@;
        self.assigned.push(id);
        proof {
            assert(self.reserved() =~= st0.1.insert(id)) by {
                assert forall|x: ViewId| #[trigger] self.reserved().contains(x) == st0.1.insert(id).contains(x) by {
                    assert(self.assigned@.contains(x) == (before.contains(x) || x == id)) by {
                        if self.assigned@.contains(x) {
                            let i = choose|i: int| 0 <= i < self.assigned@.len() && self.assigned@[i] == x;
                            if i < before.len() {
                                assert(before[i] == x);
                            }
                        }
                        if before.contains(x) {
                            let i = choose|i: int| 0 <= i < before.len() && before[i] == x;
                            assert(self.assigned@[i] == x);
                        }
                        if x == id {
                            assert(self.assigned@[before.len() as int] == x);
                        }
                    }
                }
            }
        }
        Ok(id)
    }
}

/// How many described widgets come before replacement `i`.
pub open spec fn rep_rank(reps: Seq<Replacement>, i: int) -> int {
    rep_widgets(reps.take(i)).len() as int
}

/// How many described widgets come before block `j`.
pub open spec fn block_rank(reps: Seq<Replacement>, blocks: Seq<BlockView>, j: int) -> int {
    (rep_widgets(reps).len() + block_widgets(blocks.take(j)).len()) as int
}

/// The handle at `rank`, where the assignment got that far.
pub open spec fn handle_at(ids: Seq<ViewId>, rank: int, old_id: ViewId) -> ViewId {
    if rank < ids.len() {
        ids[rank]
    } else {
        old_id
    }
}

/// The handles `match_widgets` gives the described widgets of `reps` and
/// `blocks`, in order, and the error that stopped it, if any.
pub open spec fn matched_handles(
    reps: Seq<Replacement>,
    blocks: Seq<BlockView>,
    previous: Option<(Seq<Replacement>, Seq<BlockView>)>,
    changes: Option<&ChangeSet>,
    match_ranges: bool,
    match_keys: bool,
) -> (Seq<ViewId>, Option<EditError>) {
    let avail = match previous {
        Some((pr, pb)) => offered(widgets_of(pr, pb), reps, blocks, edits_of(changes), match_ranges, match_keys),
        None => Seq::empty(),
    };
    assign(widgets_of(reps, blocks), 0, avail, (untaken(avail.len()), held_ids(reps, blocks, previous), 0, Set::empty()))
}

/// No offer taken yet.
pub open spec fn untaken(n: nat) -> Seq<bool> {
    Seq::new(n, |i: int| false)
}

/// The handles held before any widget is matched: those of views that are
/// not described widgets, and those the previous projection showed.
pub open spec fn held_ids(
    reps: Seq<Replacement>,
    blocks: Seq<BlockView>,
    previous: Option<(Seq<Replacement>, Seq<BlockView>)>,
) -> Set<ViewId> {
    Set::new(|id: ViewId| fixed_id(reps, blocks, id) || (previous matches Some((pr, pb)) && shows_view(pr, pb, id)))
}

proof fn lemma_rep_widgets_prefix(reps: Seq<Replacement>, i: int)
    requires
        0 <= i <= reps.len(),
    ensures
        rep_widgets(reps.take(i)).len() <= rep_widgets(reps).len(),
        forall|q: int| 0 <= q < rep_widgets(reps.take(i)).len() ==> rep_widgets(reps)[q] == #[trigger] rep_widgets(reps.take(i))[q],
    decreases reps.len() - i,
{
    if i < reps.len() {
        lemma_rep_widgets_prefix(reps, i + 1);
        assert(reps.take(i + 1).drop_last() =~= reps.take(i));
        let a = rep_widgets(reps.take(i));
        let b = rep_widgets(reps.take(i + 1));
        assert(b.len() >= a.len());
        assert forall|q: int| 0 <= q < a.len() implies rep_widgets(reps)[q] == #[trigger] a[q] by {
            assert(b[q] == a[q]);
        }
    } else {
        assert(reps.take(i) =~= reps);
    }
}

proof fn lemma_block_widgets_prefix(blocks: Seq<BlockView>, j: int)
    requires
        0 <= j <= blocks.len(),
    ensures
        block_widgets(blocks.take(j)).len() <= block_widgets(blocks).len(),
        forall|q: int| 0 <= q < block_widgets(blocks.take(j)).len() ==> block_widgets(blocks)[q] == #[trigger] block_widgets(blocks.take(j))[q],
    decreases blocks.len() - j,
{
    if j < blocks.len() {
        lemma_block_widgets_prefix(blocks, j + 1);
        assert(blocks.take(j + 1).drop_last() =~= blocks.take(j));
        let a = block_widgets(blocks.take(j));
        let b = block_widgets(blocks.take(j + 1));
        assert(b.len() >= a.len());
        assert forall|q: int| 0 <= q < a.len() implies block_widgets(blocks)[q] == #[trigger] a[q] by {
            assert(b[q] == a[q]);
        }
    } else {
        assert(blocks.take(j) =~= blocks);
    }
}

proof fn lemma_rank_mono(reps: Seq<Replacement>, i: int, q: int)
    requires
        0 <= i <= q <= reps.len(),
    ensures
        rep_rank(reps, i) <= rep_rank(reps, q),
        rep_rank(reps, q) <= rep_widgets(reps).len(),
{
    lemma_rep_widgets_prefix(reps.take(q), i);
    assert(reps.take(q).take(i) =~= reps.take(i));
    lemma_rep_widgets_prefix(reps, q);
}

proof fn lemma_block_rank_mono(reps: Seq<Replacement>, blocks: Seq<BlockView>, i: int, q: int)
    requires
        0 <= i <= q <= blocks.len(),
    ensures
        block_rank(reps, blocks, i) <= block_rank(reps, blocks, q),
        block_rank(reps, blocks, q) <= widgets_of(reps, blocks).len(),
        block_rank(reps, blocks, 0) == rep_widgets(reps).len(),
{
    lemma_block_widgets_prefix(blocks.take(q), i);
    assert(blocks.take(q).take(i) =~= blocks.take(i));
    lemma_block_widgets_prefix(blocks, q);
    assert(blocks.take(0) =~= Seq::<BlockView>::empty());
}

impl Projection {
    /// Gives every described widget a handle: the handle of the matching
    /// widget of `previous` (by key within its scope, or unkeyed by kind and
    /// source range carried through `changes`), or else the first handle
    /// nothing else holds. A key used twice in one scope is refused; handles
    /// given before the refusal stay.
    pub fn match_widgets(
        &mut self,
        previous: Option<&Projection>,
        changes: Option<&ChangeSet>,
        match_ranges: bool,
        match_keys: bool,
    ) -> (r: Result<(), EditError>)
        requires
            previous matches Some(p) ==> ranges_fit(widgets_of(p.replacements@, p.blocks@), changes),
        ensures
            ({
                let (ids, err) = matched_handles(
                    old(self).replacements@,
                    old(self).blocks@,
                    match previous {
                        Some(p) => Some((p.replacements@, p.blocks@)),
                        None => None,
                    },
                    changes,
                    match_ranges,
                    match_keys,
                );
                &&& r == match err {
                    Some(e) => Err::<(), EditError>(e),
                    None => Ok(()),
                }
                &&& final(self).replacements@.len() == old(self).replacements@.len()
                &&& forall|i: int|
                    0 <= i < old(self).replacements@.len() ==> #[trigger] final(self).replacements@[i] == (Replacement {
                        id: if old(self).replacements@[i].content is Widget {
                            handle_at(ids, rep_rank(old(self).replacements@, i), old(self).replacements@[i].id)
                        } else {
                            old(self).replacements@[i].id
                        },
                        ..old(self).replacements@[i]
                    })
                &&& final(self).blocks@.len() == old(self).blocks@.len()
                &&& forall|j: int|
                    0 <= j < old(self).blocks@.len() ==> #[trigger] final(self).blocks@[j] == (BlockView {
                        id: if old(self).blocks@[j].widget is Some {
                            handle_at(ids, block_rank(old(self).replacements@, old(self).blocks@, j), old(self).blocks@[j].id)
                        } else {
                            old(self).blocks@[j].id
                        },
                        ..old(self).blocks@[j]
                    })
                &&& final(self).styles == old(self).styles
            }),
    {
        let ghost reps0 = self.replacements@;
        let ghost blocks0 = self.blocks@;
        let ghost cur = widgets_of(reps0, blocks0);
        let mut held = fixed_list(&self.replacements, &self.blocks);
        let ghost prev = match previous {
            Some(p) => Some((p.replacements@, p.blocks@)),
            None => None,
        };
        let avail = match previous {
            Some(p) => {
                let pw = collect_widgets(&p.replacements, &p.blocks);
                let mut shown = view_list(&p.replacements, &p.blocks);
                let ghost f = held@;
                let ghost sv = shown@;
                held.append(&mut shown);
                proof {
                    assert forall|id: ViewId| #[trigger] held@.contains(id) == held_ids(reps0, blocks0, prev).contains(id) by {
                        assert(f.contains(id) == fixed_id(reps0, blocks0, id));
                        assert(sv.contains(id) == shows_view(p.replacements@, p.blocks@, id));
                        if held@.contains(id) {
                            let w = choose|w: int| 0 <= w < held@.len() && held@[w] == id;
                            if w < f.len() {
                                assert(f[w] == id);
                            } else {
                                assert(sv[w - f.len()] == id);
                            }
                        }
                        if f.contains(id) {
                            let w = choose|w: int| 0 <= w < f.len() && f[w] == id;
                            assert(held@[w] == id);
                        }
                        if sv.contains(id) {
                            let w = choose|w: int| 0 <= w < sv.len() && sv[w] == id;
                            assert(held@[f.len() + w] == id);
                        }
                    }
                }
                collect_offers(&pw, &self.replacements, &self.blocks, changes, match_ranges, match_keys)
            },
            None => {
                proof {
                    assert forall|id: ViewId| #[trigger] held@.contains(id) == held_ids(reps0, blocks0, prev).contains(id) by {
                        assert(held@.contains(id) == fixed_id(reps0, blocks0, id));
                    }
                }
                Vec::new()
            },
        };
        let ghost avail_spec = match prev {
            Some((pr, pb)) => offered(widgets_of(pr, pb), reps0, blocks0, edits_of(changes), match_ranges, match_keys),
            None => Seq::<Described>::empty(),
        };
        assert(dviews(avail@) =~= avail_spec);
        let ghost want = matched_handles(reps0, blocks0, prev, changes, match_ranges, match_keys);
        let mut taken: Vec<bool> = Vec::new();
        let mut t: usize = 0;
        while t < avail.len()
            invariant
                t <= avail.len(),
                taken@ == untaken(t as nat),
            decreases avail.len() - t,
        {
            taken.push(false);
            assert(taken@ =~= untaken((t + 1) as nat));
            t = t + 1;
        }
        let mut m = Matcher { avail, taken, held, assigned: Vec::new(), next: 0, keys: Vec::new() };
        proof {
            assert(m.reserved() =~= held_ids(reps0, blocks0, prev));
            assert(m.keyset() =~= Set::<(Option<ViewId>, Seq<char>)>::empty());
            assert(m.state() == (untaken(dviews(m.avail@).len()), held_ids(reps0, blocks0, prev), 0u64, Set::<(Option<ViewId>, Seq<char>)>::empty()));
            assert(want == assign(cur, 0, dviews(m.avail@), m.state()));
            assert(m.assigned@ + assign(cur, 0, dviews(m.avail@), m.state()).0 =~= assign(cur, 0, dviews(m.avail@), m.state()).0);
            lemma_rep_widgets_prefix(reps0, 0);
            assert(reps0.take(0) =~= Seq::<Replacement>::empty());
        }
        let ghost av = dviews(m.avail@);
        let mut i: usize = 0;
        while i < self.replacements.len()
            invariant
                i <= self.replacements.len(),
                self.replacements@.len() == reps0.len(),
                self.blocks@ == blocks0,
                self.styles == old(self).styles,
                cur == widgets_of(reps0, blocks0),
                reps0 == old(self).replacements@,
                blocks0 == old(self).blocks@,
                prev == match previous {
                    Some(p) => Some((p.replacements@, p.blocks@)),
                    None => None,
                },
                want == matched_handles(reps0, blocks0, prev, changes, match_ranges, match_keys),
                av == dviews(m.avail@),
                m.taken@.len() == m.avail@.len(),
                m.assigned@.len() == rep_rank(reps0, i as int),
                want.0 == m.assigned@ + assign(cur, m.assigned@.len() as int, av, m.state()).0,
                want.1 == assign(cur, m.assigned@.len() as int, av, m.state()).1,
                forall|q: int| 0 <= q < reps0.len() ==> #[trigger] self.replacements@[q] == (Replacement {
                    id: if q < i && reps0[q].content is Widget {
                        m.assigned@[rep_rank(reps0, q)]
                    } else {
                        reps0[q].id
                    },
                    ..reps0[q]
                }),
                forall|q: int| 0 <= q < i ==> rep_rank(reps0, q) <= rep_rank(reps0, i as int),
                forall|q: int| 0 <= q < i && reps0[q].content is Widget ==> rep_rank(reps0, q) < rep_rank(reps0, i as int),
            decreases reps0.len() - i,
        {
            proof {
                assert(reps0.take(i + 1).drop_last() =~= reps0.take(i as int));
                lemma_rep_widgets_prefix(reps0, i + 1);
            }
            let range = self.replacements[i].range.start..self.replacements[i].range.end;
            let ghost st_before = m.state();
            let ghost as_before = m.assigned@;
            let outcome = match &self.replacements[i].content {
                ReplacementContent::Widget(spec) => {
                    let k = m.assigned.len();
                    proof {
                        assert(self.replacements@[i as int].content == reps0[i as int].content);
                        assert(self.replacements@[i as int].range == reps0[i as int].range);
                        assert(rep_widgets(reps0.take(i + 1)) == rep_widgets(reps0.take(i as int)).push(
                            (reps0[i as int].id, reps0[i as int].range, wview(*spec), false),
                        ));
                        let rw = rep_widgets(reps0);
                        assert(k == rep_widgets(reps0.take(i as int)).len());
                        assert(rep_widgets(reps0.take(i + 1))[k as int] == (reps0[i as int].id, reps0[i as int].range, wview(*spec), false));
                        assert(k < rep_widgets(reps0.take(i + 1)).len());
                        assert(rw[k as int] == rep_widgets(reps0.take(i + 1))[k as int]);
                        assert(cur == rw + block_widgets(blocks0));
                        assert(cur[k as int] == rw[k as int]);
                        assert(range == reps0[i as int].range);
                        assert(cur[k as int] == (reps0[i as int].id, range, wview(*spec), false));
                    }
                    let ghost w = cur[k as int];
                    Some(m.step(&range, spec, false, Ghost(w)))
                },
                _ => None,
            };
            match outcome {
                Some(Err(e)) => {
                    proof {
                        assert(m.assigned@ == as_before);
                        assert(assign(cur, as_before.len() as int, av, st_before).0 == Seq::<ViewId>::empty());
                        assert(assign(cur, as_before.len() as int, av, st_before).1 == Some(e));
                        assert(want.1 == Some(e));
                        assert(want.0 == m.assigned@) by {
                            assert(m.assigned@ + Seq::<ViewId>::empty() =~= m.assigned@);
                        }
                        assert forall|q: int| 0 <= q < reps0.len() implies #[trigger] self.replacements@[q] == (Replacement {
                            id: if reps0[q].content is Widget {
                                handle_at(want.0, rep_rank(reps0, q), reps0[q].id)
                            } else {
                                reps0[q].id
                            },
                            ..reps0[q]
                        }) by {
                            if q >= i {
                                lemma_rank_mono(reps0, i as int, q);
                            }
                        }
                        assert forall|j: int| 0 <= j < blocks0.len() implies #[trigger] self.blocks@[j] == (BlockView {
                            id: if blocks0[j].widget is Some {
                                handle_at(want.0, block_rank(reps0, blocks0, j), blocks0[j].id)
                            } else {
                                blocks0[j].id
                            },
                            ..blocks0[j]
                        }) by {
                            lemma_rank_mono(reps0, i as int, reps0.len() as int);
                            lemma_block_rank_mono(reps0, blocks0, 0, j);
                        }
                    }
                    return Err(e);
                },
                Some(Ok(id)) => {
                    self.replacements[i].id = id;
                    proof {
                        assert(m.assigned@ + assign(cur, m.assigned@.len() as int, av, m.state()).0 =~= want.0);
                    }
                },
                None => {},
            }
            i = i + 1;
        }
        proof {
            assert(reps0.take(reps0.len() as int) =~= reps0);
            lemma_block_rank_mono(reps0, blocks0, 0, 0);
        }
        let mut j: usize = 0;
        while j < self.blocks.len()
            invariant
                j <= self.blocks.len(),
                self.blocks@.len() == blocks0.len(),
                self.replacements@.len() == reps0.len(),
                self.styles == old(self).styles,
                cur == widgets_of(reps0, blocks0),
                reps0 == old(self).replacements@,
                blocks0 == old(self).blocks@,
                prev == match previous {
                    Some(p) => Some((p.replacements@, p.blocks@)),
                    None => None,
                },
                want == matched_handles(reps0, blocks0, prev, changes, match_ranges, match_keys),
                av == dviews(m.avail@),
                m.taken@.len() == m.avail@.len(),
                m.assigned@.len() == block_rank(reps0, blocks0, j as int),
                want.0 == m.assigned@ + assign(cur, m.assigned@.len() as int, av, m.state()).0,
                want.1 == assign(cur, m.assigned@.len() as int, av, m.state()).1,
                forall|q: int| 0 <= q < reps0.len() ==> #[trigger] self.replacements@[q] == (Replacement {
                    id: if reps0[q].content is Widget {
                        m.assigned@[rep_rank(reps0, q)]
                    } else {
                        reps0[q].id
                    },
                    ..reps0[q]
                }),
                forall|q: int| 0 <= q < reps0.len() && reps0[q].content is Widget ==> rep_rank(reps0, q) < rep_widgets(reps0).len(),
                forall|q: int| 0 <= q < blocks0.len() ==> #[trigger] self.blocks@[q] == (BlockView {
                    id: if q < j && blocks0[q].widget is Some {
                        m.assigned@[block_rank(reps0, blocks0, q)]
                    } else {
                        blocks0[q].id
                    },
                    ..blocks0[q]
                }),
                forall|q: int| 0 <= q < j && blocks0[q].widget is Some ==> block_rank(reps0, blocks0, q) < block_rank(reps0, blocks0, j as int),
            decreases blocks0.len() - j,
        {
            proof {
                assert(blocks0.take(j + 1).drop_last() =~= blocks0.take(j as int));
                lemma_block_widgets_prefix(blocks0, j + 1);
                lemma_rep_widgets_prefix(reps0, reps0.len() as int);
                assert(reps0.take(reps0.len() as int) =~= reps0);
            }
            let range = self.blocks[j].range.start..self.blocks[j].range.end;
            let ghost st_before = m.state();
            let ghost as_before = m.assigned@;
            let outcome = match &self.blocks[j].widget {
                Some(spec) => {
                    let k = m.assigned.len();
                    proof {
                        assert(self.blocks@[j as int].widget == blocks0[j as int].widget);
                        assert(self.blocks@[j as int].range == blocks0[j as int].range);
                        assert(block_widgets(blocks0.take(j + 1)) == block_widgets(blocks0.take(j as int)).push(
                            (blocks0[j as int].id, blocks0[j as int].range, wview(*spec), true),
                        ));
                        let bw = block_widgets(blocks0);
                        let n = rep_widgets(reps0).len();
                        assert(k - n == block_widgets(blocks0.take(j as int)).len());
                        assert(bw[k - n] == block_widgets(blocks0.take(j + 1))[k - n]);
                        assert(cur == rep_widgets(reps0) + bw);
                        assert(cur[k as int] == bw[k - n]);
                        assert(cur[k as int] == (blocks0[j as int].id, range, wview(*spec), true));
                    }
                    let ghost w = cur[k as int];
                    Some(m.step(&range, spec, true, Ghost(w)))
                },
                None => None,
            };
            match outcome {
                Some(Err(e)) => {
                    proof {
                        assert(m.assigned@ == as_before);
                        assert(assign(cur, as_before.len() as int, av, st_before).0 == Seq::<ViewId>::empty());
                        assert(assign(cur, as_before.len() as int, av, st_before).1 == Some(e));
                        assert(want.1 == Some(e));
                        assert(want.0 == m.assigned@) by {
                            assert(m.assigned@ + Seq::<ViewId>::empty() =~= m.assigned@);
                        }
                        assert forall|q: int| 0 <= q < reps0.len() implies #[trigger] self.replacements@[q] == (Replacement {
                            id: if reps0[q].content is Widget {
                                handle_at(want.0, rep_rank(reps0, q), reps0[q].id)
                            } else {
                                reps0[q].id
                            },
                            ..reps0[q]
                        }) by {
                            lemma_block_rank_mono(reps0, blocks0, 0, j as int);
                        }
                        assert forall|q: int| 0 <= q < blocks0.len() implies #[trigger] self.blocks@[q] == (BlockView {
                            id: if blocks0[q].widget is Some {
                                handle_at(want.0, block_rank(reps0, blocks0, q), blocks0[q].id)
                            } else {
                                blocks0[q].id
                            },
                            ..blocks0[q]
                        }) by {
                            if q >= j {
                                lemma_block_rank_mono(reps0, blocks0, j as int, q);
                            }
                        }
                    }
                    return Err(e);
                },
                Some(Ok(id)) => {
                    self.blocks[j].id = id;
                    proof {
                        assert(m.assigned@ + assign(cur, m.assigned@.len() as int, av, m.state()).0 =~= want.0);
                    }
                },
                None => {},
            }
            j = j + 1;
        }
        proof {
            lemma_block_rank_mono(reps0, blocks0, j as int, j as int);
            assert(blocks0.take(blocks0.len() as int) =~= blocks0);
            assert(m.assigned@.len() == cur.len());
            assert(want.0 =~= m.assigned@);
            assert forall|q: int| 0 <= q < reps0.len() implies #[trigger] self.replacements@[q] == (Replacement {
                id: if reps0[q].content is Widget {
                    handle_at(want.0, rep_rank(reps0, q), reps0[q].id)
                } else {
                    reps0[q].id
                },
                ..reps0[q]
            }) by {
                lemma_block_rank_mono(reps0, blocks0, 0, j as int);
            }
        }
        Ok(())
    }
}

/// `c` with its widget, if any, attributed to `scope`.
pub open spec fn scoped_content(c: ReplacementContent, scope: ViewId) -> ReplacementContent {
    match c {
        ReplacementContent::Widget(w) => ReplacementContent::Widget(WidgetSpec { scope: Some(scope), ..w }),
        other => other,
    }
}

/// `w` attributed to `scope`, if present.
pub open spec fn scoped_widget(w: Option<WidgetSpec>, scope: ViewId) -> Option<WidgetSpec> {
    match w {
        Some(w) => Some(WidgetSpec { scope: Some(scope), ..w }),
        None => None,
    }
}

impl Projection {
    /// Attributes every described widget to the extension `scope`, so keys
    /// only need to be unique within it.
    pub fn scope_widgets(&mut self, scope: ViewId)
        ensures
            final(self).styles == old(self).styles,
            final(self).replacements@.len() == old(self).replacements@.len(),
            forall|i: int|
                0 <= i < old(self).replacements@.len() ==> #[trigger] final(self).replacements@[i] == (Replacement {
                    content: scoped_content(old(self).replacements@[i].content, scope),
                    ..old(self).replacements@[i]
                }),
            final(self).blocks@.len() == old(self).blocks@.len(),
            forall|j: int|
                0 <= j < old(self).blocks@.len() ==> #[trigger] final(self).blocks@[j] == (BlockView {
                    widget: scoped_widget(old(self).blocks@[j].widget, scope),
                    ..old(self).blocks@[j]
                }),
    {
        let ghost reps0 = self.replacements@;
        let mut i: usize = 0;
        while i < self.replacements.len()
            invariant
                i <= self.replacements.len(),
                self.replacements@.len() == reps0.len(),
                self.styles == old(self).styles,
                self.blocks == old(self).blocks,
                reps0 == old(self).replacements@,
                forall|q: int| 0 <= q < reps0.len() ==> #[trigger] self.replacements@[q] == if q < i {
                    Replacement { content: scoped_content(reps0[q].content, scope), ..reps0[q] }
                } else {
                    reps0[q]
                },
            decreases reps0.len() - i,
        {
            let mut r = Replacement { id: ViewId(0), range: 0..0, content: ReplacementContent::Object(ViewId(0)), behavior: super::projection::EditBehavior::Atomic };
            std::mem::swap(&mut r, &mut self.replacements[i]);
            let Replacement { id, range, content, behavior } = r;
            let content = match content {
                ReplacementContent::Widget(w) => ReplacementContent::Widget(WidgetSpec { scope: Some(scope), ..w }),
                other => other,
            };
            let mut r2 = Replacement { id, range, content, behavior };
            std::mem::swap(&mut r2, &mut self.replacements[i]);
            i = i + 1;
        }
        let ghost blocks0 = self.blocks@;
        let mut j: usize = 0;
        while j < self.blocks.len()
            invariant
                j <= self.blocks.len(),
                self.blocks@.len() == blocks0.len(),
                self.styles == old(self).styles,
                blocks0 == old(self).blocks@,
                forall|q: int| 0 <= q < reps0.len() ==> #[trigger] self.replacements@[q] == (Replacement {
                    content: scoped_content(reps0[q].content, scope),
                    ..reps0[q]
                }),
                self.replacements@.len() == reps0.len(),
                reps0 == old(self).replacements@,
                forall|q: int| 0 <= q < blocks0.len() ==> #[trigger] self.blocks@[q] == if q < j {
                    BlockView { widget: scoped_widget(blocks0[q].widget, scope), ..blocks0[q] }
                } else {
                    blocks0[q]
                },
            decreases blocks0.len() - j,
        {
            let mut b = BlockView { id: ViewId(0), range: 0..0, widget: None, source_backed: false };
            std::mem::swap(&mut b, &mut self.blocks[j]);
            let BlockView { id, range, widget, source_backed } = b;
            let widget = match widget {
                Some(w) => Some(WidgetSpec { scope: Some(scope), ..w }),
                None => None,
            };
            let mut b2 = BlockView { id, range, widget, source_backed };
            std::mem::swap(&mut b2, &mut self.blocks[j]);
            j = j + 1;
        }
    }
}

} // verus!
