//! Display plans over source text. Source coordinates survive hiding,
//! replacement and inserted views; projecting never changes document bytes.
use super::buffer::{cow_into_string, valid_range, TextRead};
use super::document::{inserted_before, lemma_utf8_concat, map_spec as edit_map, str_len, total_inserted, utf8, Bias, Edit, EditError};
use super::format::{canonical, copied_style, copy_segment, end_of, first_ending_after, map_spans, mapped_style, push, style_at, style_of, StyleId, StyleSpan};
use super::selection::{Selection, SelectionSet};
use std::ops::Range;
use vstd::prelude::*;

verus! {

/// Explicit registration identity of a view, or an opaque layout-assigned handle.
#[derive(Debug, Clone, Copy, Default, PartialEq, Eq, PartialOrd, Ord, Hash, Structural)]
pub struct ViewId(pub u64);

/// How editing treats the source a replacement stands for.
#[derive(Debug, Clone, Copy, PartialEq, Eq, Structural)]
pub enum EditBehavior {
    /// Navigation and deletion treat the represented source range as one unit.
    Atomic,
    /// Reveal the original source whenever a caret or selection touches the range.
    RevealOnSelection,
}

impl Default for EditBehavior {
    fn default() -> (b: Self)
        ensures
            b == EditBehavior::Atomic,
    {
        EditBehavior::Atomic
    }
}

/// An embedded object in projected text: its display range and the source it
/// replaces.
#[derive(Debug)]
pub struct ProjectedObject {
    pub id: ViewId,
    pub range: Range<usize>,
    pub source: Range<usize>,
}

/// One piece of a projection: a source range and the display range it became.
/// Copied pieces map byte for byte; replaced ones only at their edges.
#[derive(Debug)]
pub struct MapSegment {
    pub source: Range<usize>,
    pub display: Range<usize>,
    pub copied: bool,
}

/// Ordered ranges with copied pieces of equal length on both sides.
pub open spec fn segments_wf(segs: Seq<MapSegment>) -> bool {
    forall|i: int|
        0 <= i < segs.len() ==> {
            let s = #[trigger] segs[i];
            &&& s.source.start <= s.source.end
            &&& s.display.start <= s.display.end
            &&& s.copied ==> s.source.end - s.source.start == s.display.end - s.display.start
        }
}

/// The side of a segment a position is read from.
pub open spec fn seg_from(s: MapSegment, reverse: bool) -> Range<usize> {
    if reverse {
        s.display
    } else {
        s.source
    }
}

/// The side of a segment a position is mapped to.
pub open spec fn seg_to(s: MapSegment, reverse: bool) -> Range<usize> {
    if reverse {
        s.source
    } else {
        s.display
    }
}

/// Map `byte` through the remaining segments, with `result` the position
/// reached after the segments already passed.
pub open spec fn map_from(
    segs: Seq<MapSegment>,
    byte: int,
    bias: Bias,
    reverse: bool,
    origin: int,
    end: int,
    result: int,
) -> int
    decreases segs.len(),
{
    if segs.len() == 0 {
        if byte < origin {
            0
        } else if result < end {
            result
        } else {
            end
        }
    } else {
        let from = seg_from(segs[0], reverse);
        let to = seg_to(segs[0], reverse);
        if byte < from.start {
            result
        } else if byte == from.start && from.start >= from.end {
            if bias == Bias::Before {
                to.start as int
            } else {
                map_from(segs.drop_first(), byte, bias, reverse, origin, end, to.end as int)
            }
        } else if byte == from.start {
            to.start as int
        } else if byte < from.end {
            if segs[0].copied {
                to.start + (byte - from.start)
            } else if bias == Bias::Before {
                to.start as int
            } else {
                to.end as int
            }
        } else {
            map_from(segs.drop_first(), byte, bias, reverse, origin, end, to.end as int)
        }
    }
}

/// Map a position between source and display coordinates. Positions inside a
/// copied piece move with it; positions inside a replaced piece go to the
/// edge the bias chooses; an empty piece at the position is skipped with
/// `After`. Before the origin the answer is zero, and it never passes `end`.
pub open spec fn map_spec(segs: Seq<MapSegment>, byte: int, bias: Bias, reverse: bool, origin: int, end: int) -> int {
    let init = if !reverse {
        0
    } else if segs.len() == 0 {
        end
    } else {
        segs[0].source.start as int
    };
    map_from(segs, byte, bias, reverse, origin, end, init)
}

fn map(segments: &[MapSegment], byte: usize, bias: Bias, reverse: bool, origin: usize, end: usize) -> (r: usize)
    requires
        segments_wf(segments@),
    ensures
        r == map_spec(segments@, byte as int, bias, reverse, origin as int, end as int),
{
    let ghost segs = segments@;
    let mut result: usize = if reverse {
        if segments.len() == 0 {
            end
        } else {
            segments[0].source.start
        }
    } else {
        0
    };
    let mut i: usize = 0;
    proof {
        assert(segs.skip(0) =~= segs);
    }
    while i < segments.len()
        invariant
            segs == segments@,
            segments_wf(segs),
            0 <= i <= segs.len(),
            map_spec(segs, byte as int, bias, reverse, origin as int, end as int) == map_from(
                segs.skip(i as int),
                byte as int,
                bias,
                reverse,
                origin as int,
                end as int,
                result as int,
            ),
        decreases segs.len() - i,
    {
        let s = &segments[i];
        proof {
            assert(segs.skip(i as int)[0] == segs[i as int]);
            assert(segs.skip(i as int).drop_first() =~= segs.skip(i as int + 1));
            assert(s.source.start <= s.source.end && s.display.start <= s.display.end);
        }
        let from = if reverse { &s.display } else { &s.source };
        let to = if reverse { &s.source } else { &s.display };
        if byte < from.start {
            return result;
        }
        if byte == from.start && from.start >= from.end {
            if bias == Bias::Before {
                return to.start;
            }
            result = to.end;
            i += 1;
            continue;
        }
        if byte == from.start {
            return to.start;
        }
        if byte < from.end {
            if s.copied {
                return to.start + (byte - from.start);
            }
            return if bias == Bias::Before {
                to.start
            } else {
                to.end
            };
        }
        result = to.end;
        i += 1;
    }
    proof {
        assert(segs.skip(i as int).len() == 0);
    }
    if byte < origin {
        0
    } else if result < end {
        result
    } else {
        end
    }
}

/// Maps positions between a source range and its projected display text.
#[derive(Debug)]
pub struct PositionMap {
    source: Range<usize>,
    display_len: usize,
    segments: Vec<MapSegment>,
}

impl PositionMap {
    pub closed spec fn source_view(&self) -> Range<usize> {
        self.source
    }

    pub closed spec fn display_len_view(&self) -> usize {
        self.display_len
    }

    pub closed spec fn segments_view(&self) -> Seq<MapSegment> {
        self.segments@
    }

    pub open spec fn wf(&self) -> bool {
        segments_wf(self.segments_view())
    }

    /// A map of the projection of `source` to an empty display.
    pub fn new(source: Range<usize>) -> (m: Self)
        ensures
            m.wf(),
            m.source_view() == source,
            m.display_len_view() == 0,
            m.segments_view().len() == 0,
    {
        PositionMap { source, display_len: 0, segments: Vec::new() }
    }

    /// Source byte to display byte.
    pub fn to_display(&self, byte: usize, bias: Bias) -> (r: usize)
        requires
            self.wf(),
        ensures
            r == map_spec(
                self.segments_view(),
                byte as int,
                bias,
                false,
                self.source_view().start as int,
                self.display_len_view() as int,
            ),
    {
        map(self.segments.as_slice(), byte, bias, false, self.source.start, self.display_len)
    }

    /// Display byte to source byte.
    pub fn to_source(&self, byte: usize, bias: Bias) -> (r: usize)
        requires
            self.wf(),
        ensures
            r == map_spec(self.segments_view(), byte as int, bias, true, 0, self.source_view().end as int),
    {
        map(self.segments.as_slice(), byte, bias, true, 0, self.source.end)
    }

    /// A display selection in source coordinates. The anchor maps toward the
    /// selection's inside; the head follows its affinity.
    pub fn selection_to_source(&self, s: Selection) -> (r: Selection)
        requires
            self.wf(),
        ensures
            r == (Selection {
                anchor: map_spec(
                    self.segments_view(),
                    s.anchor as int,
                    if s.anchor <= s.head {
                        Bias::Before
                    } else {
                        Bias::After
                    },
                    true,
                    0,
                    self.source_view().end as int,
                ) as usize,
                head: map_spec(self.segments_view(), s.head as int, s.affinity, true, 0, self.source_view().end as int) as usize,
                ..s
            }),
    {
        Selection {
            anchor: self.to_source(
                s.anchor,
                if s.anchor <= s.head {
                    Bias::Before
                } else {
                    Bias::After
                },
            ),
            head: self.to_source(s.head, s.affinity),
            ..s
        }
    }
}

/// Display text projected from a source range, with its formatting, its
/// position map and the objects embedded in it.
#[derive(Debug)]
pub struct ProjectedText {
    pub source: Range<usize>,
    pub text: String,
    pub spans: Vec<StyleSpan>,
    pub map: PositionMap,
    pub objects: Vec<ProjectedObject>,
}

impl ProjectedText {
    /// The projection of `source` before anything is copied into it.
    pub fn empty(source: Range<usize>) -> (p: Self)
        ensures
            p.source == source,
            p.text@.len() == 0,
            p.spans@.len() == 0,
            p.objects@.len() == 0,
            p.map.wf(),
            p.map.source_view() == source,
            p.map.display_len_view() == 0,
            p.map.segments_view().len() == 0,
    {
        ProjectedText {
            source: source.start..source.end,
            text: String::new(),
            spans: Vec::new(),
            objects: Vec::new(),
            map: PositionMap::new(source),
        }
    }

    /// Append the source text of `range` unchanged, with its formatting from
    /// `base`, as a copied piece of the position map.
    pub fn copy<S: TextRead + ?Sized>(&mut self, source: &S, range: Range<usize>, base: &[StyleSpan]) -> (r: Result<(), EditError>)
        requires
            old(self).map.wf(),
            canonical(old(self).spans@),
            end_of(old(self).spans@) <= utf8(old(self).text@).len(),
            canonical(base@),
            valid_range(utf8(source.text()), range.start as int, range.end as int) ==> utf8(old(self).text@).len() + (
            range.end - range.start) <= usize::MAX,
        ensures
            r is Ok <==> valid_range(utf8(source.text()), range.start as int, range.end as int),
            r is Err ==> r == Err::<(), EditError>(EditError::InvalidRange(range)) && *final(self) == *old(self),
            r is Ok ==> {
                &&& utf8(final(self).text@) == utf8(old(self).text@) + utf8(source.text()).subrange(
                    range.start as int,
                    range.end as int,
                )
                &&& canonical(final(self).spans@)
                &&& end_of(final(self).spans@) <= utf8(final(self).text@).len()
                &&& forall|p: int| #[trigger] style_of(final(self).spans@, p) == copied_style(
                    old(self).spans@,
                    base@,
                    range.start as int,
                    range.end as int,
                    utf8(old(self).text@).len() as int,
                    p,
                )
                &&& final(self).map.wf()
                &&& final(self).map.source_view() == old(self).map.source_view()
                &&& final(self).map.display_len_view() == old(self).map.display_len_view()
                &&& final(self).map.segments_view() == old(self).map.segments_view().push(
                    MapSegment {
                        source: range,
                        display: utf8(old(self).text@).len() as usize..utf8(final(self).text@).len() as usize,
                        copied: true,
                    },
                )
                &&& final(self).source == old(self).source
                &&& final(self).objects == old(self).objects
            },
    {
        let piece = match source.read(range.start..range.end) {
            Some(t) => cow_into_string(t),
            None => return Err(EditError::InvalidRange(range)),
        };
        let start = str_len(self.text.as_str());
        proof {
            lemma_utf8_concat(self.text@, piece@);
            vstd::utf8::encode_utf8_valid_utf8(source.text());
            super::buffer::lemma_boundary_in_bounds(source.text(), range.end as int);
        }
        self.text.append(piece.as_str());
        let end = str_len(self.text.as_str());
        let mut index = first_ending_after(base, range.start);
        copy_segment(&mut self.spans, base, &mut index, range.start..range.end, start);
        let ghost segs = self.map.segments@;
        self.map.segments.push(MapSegment { source: range, display: start..end, copied: true });
        proof {
            assert forall|i: int| 0 <= i < self.map.segments@.len() implies {
                let s = #[trigger] self.map.segments@[i];
                &&& s.source.start <= s.source.end
                &&& s.display.start <= s.display.end
                &&& s.copied ==> s.source.end - s.source.start == s.display.end - s.display.start
            } by {
                if i < segs.len() {
                    assert(self.map.segments@[i] == segs[i]);
                }
            }
        }
        Ok(())
    }
}

/// A described widget as the projection compares it: which kind of
/// description it is, the description's value as that kind compares its
/// values, an optional key that keeps its identity when it moves, and the
/// extension scope that produced it.
#[derive(Debug)]
pub struct WidgetSpec {
    pub kind: u64,
    pub description: u64,
    pub key: Option<String>,
    pub scope: Option<ViewId>,
}

/// Whether two keys are the same text.
pub open spec fn same_key(a: Option<String>, b: Option<String>) -> bool {
    match (a, b) {
        (Some(x), Some(y)) => x@ == y@,
        (None, None) => true,
        _ => false,
    }
}

/// Whether two widget descriptions are equal.
pub open spec fn same_widget(a: WidgetSpec, b: WidgetSpec) -> bool {
    &&& a.kind == b.kind
    &&& a.description == b.description
    &&& same_key(a.key, b.key)
    &&& a.scope == b.scope
}

impl WidgetSpec {
    /// An unkeyed description of the given kind and value.
    pub fn new(kind: u64, description: u64) -> (w: Self)
        ensures
            w.kind == kind,
            w.description == description,
            w.key is None,
            w.scope is None,
    {
        WidgetSpec { kind, description, key: None, scope: None }
    }

    pub fn duplicate(&self) -> (w: Self)
        ensures
            same_widget(w, *self),
    {
        let key = match &self.key {
            Some(k) => Some(k.clone()),
            None => None,
        };
        WidgetSpec { kind: self.kind, description: self.description, key, scope: self.scope }
    }
}

/// What a replacement shows in place of its source.
#[derive(Debug)]
pub enum ReplacementContent {
    /// Display text; empty text hides the source.
    Text(String),
    /// A registered embedded object, shown as one object character.
    Object(ViewId),
    /// A described widget, shown as one object character.
    Widget(WidgetSpec),
}

/// A source range shown as something else.
#[derive(Debug)]
pub struct Replacement {
    pub id: ViewId,
    pub range: Range<usize>,
    pub content: ReplacementContent,
    pub behavior: EditBehavior,
}

impl Replacement {
    /// Hide a source range.
    pub fn hidden(id: ViewId, range: Range<usize>) -> (r: Self)
        ensures
            r.id == id,
            r.range == range,
            r.content matches ReplacementContent::Text(t) && t@.len() == 0,
            r.behavior == EditBehavior::Atomic,
    {
        Self::text(id, range, String::new())
    }

    /// Show `text` in place of a source range.
    pub fn text(id: ViewId, range: Range<usize>, text: String) -> (r: Self)
        ensures
            r.id == id,
            r.range == range,
            r.content matches ReplacementContent::Text(t) && t@ == text@,
            r.behavior == EditBehavior::Atomic,
    {
        Replacement { id, range, content: ReplacementContent::Text(text), behavior: EditBehavior::Atomic }
    }

    /// Show the registered object `id` in place of a source range.
    pub fn object(id: ViewId, range: Range<usize>) -> (r: Self)
        ensures
            r.id == id,
            r.range == range,
            r.content == ReplacementContent::Object(id),
            r.behavior == EditBehavior::Atomic,
    {
        Replacement { id, range, content: ReplacementContent::Object(id), behavior: EditBehavior::Atomic }
    }

    /// Show a described widget in place of a source range; the editor
    /// assigns its handle.
    pub fn widget(range: Range<usize>, description: WidgetSpec) -> (r: Self)
        ensures
            r.id == ViewId(0),
            r.range == range,
            r.content == ReplacementContent::Widget(description),
            r.behavior == EditBehavior::Atomic,
    {
        Replacement { id: ViewId(0), range, content: ReplacementContent::Widget(description), behavior: EditBehavior::Atomic }
    }

    /// Keep this widget's identity when it moves within its producer.
    pub fn key(self, key: String) -> (r: Self)
        requires
            self.content is Widget,
        ensures
            r.id == self.id,
            r.range == self.range,
            r.behavior == self.behavior,
            r.content matches ReplacementContent::Widget(w) && w.key == Some(key) && w.kind
                == self.content->Widget_0.kind && w.description == self.content->Widget_0.description && w.scope
                == self.content->Widget_0.scope,
    {
        let Replacement { id, range, content, behavior } = self;
        let content = match content {
            ReplacementContent::Widget(w) => ReplacementContent::Widget(WidgetSpec { key: Some(key), ..w }),
            other => other,
        };
        Replacement { id, range, content, behavior }
    }

    /// Reveal the source whenever a selection touches it.
    pub fn reveal_on_selection(self) -> (r: Self)
        ensures
            r.id == self.id,
            r.range == self.range,
            r.content == self.content,
            r.behavior == EditBehavior::RevealOnSelection,
    {
        Replacement { behavior: EditBehavior::RevealOnSelection, ..self }
    }

    fn duplicate(&self) -> (r: Self)
        ensures
            r.id == self.id,
            r.range == self.range,
            r.behavior == self.behavior,
            same_content(r.content, self.content),
    {
        let content = match &self.content {
            ReplacementContent::Text(t) => ReplacementContent::Text(t.clone()),
            ReplacementContent::Object(o) => ReplacementContent::Object(*o),
            ReplacementContent::Widget(w) => ReplacementContent::Widget(w.duplicate()),
        };
        Replacement { id: self.id, range: self.range.start..self.range.end, content, behavior: self.behavior }
    }
}

/// A block view replacing a source range with a registered view.
#[derive(Debug)]
pub struct BlockView {
    pub id: ViewId,
    pub range: Range<usize>,
    /// A described widget, or `None` for a registered view.
    pub widget: Option<WidgetSpec>,
    /// Source-backed blocks keep their arrangement while IME edits their cells.
    pub source_backed: bool,
}

impl BlockView {
    /// A block backed by a registered view.
    pub fn new(id: ViewId, range: Range<usize>) -> (b: Self)
        ensures
            b.id == id,
            b.range == range,
            b.widget is None,
            !b.source_backed,
    {
        BlockView { id, range, widget: None, source_backed: false }
    }

    /// Keep this block's layout during composition.
    pub fn source_backed(self) -> (b: Self)
        ensures
            b.id == self.id,
            b.range == self.range,
            b.widget == self.widget,
            b.source_backed,
    {
        BlockView { source_backed: true, ..self }
    }

    /// A block backed by a described widget; the editor assigns its handle.
    pub fn widget(range: Range<usize>, description: WidgetSpec) -> (b: Self)
        ensures
            b.id == ViewId(0),
            b.range == range,
            b.widget == Some(description),
            !b.source_backed,
    {
        BlockView { id: ViewId(0), range, widget: Some(description), source_backed: false }
    }

    /// Keep this widget's identity when it moves within its producer.
    pub fn key(self, key: String) -> (b: Self)
        requires
            self.widget is Some,
        ensures
            b.id == self.id,
            b.range == self.range,
            b.source_backed == self.source_backed,
            b.widget matches Some(w) && w.key == Some(key) && w.kind == self.widget->Some_0.kind && w.description
                == self.widget->Some_0.description && w.scope == self.widget->Some_0.scope,
    {
        let BlockView { id, range, widget, source_backed } = self;
        let widget = match widget {
            Some(w) => Some(WidgetSpec { key: Some(key), ..w }),
            None => None,
        };
        BlockView { id, range, widget, source_backed }
    }
}

/// A display plan: derived styles, inline replacements and block views over
/// committed source coordinates.
#[derive(Debug)]
pub struct Projection {
    pub styles: Vec<StyleSpan>,
    pub replacements: Vec<Replacement>,
    pub blocks: Vec<BlockView>,
}

/// Where composition maps a position: before the preedit range it stays,
/// after it shifts by the change in length, inside it goes to the start, or
/// past the preedit with `After`.
pub open spec fn compose_map(range: Range<usize>, length: int, p: int, bias: Bias) -> int {
    if p < range.start || (p == range.start && bias == Bias::Before) {
        p
    } else if p >= range.end {
        p - (range.end - range.start) + length
    } else {
        range.start + if bias == Bias::After {
            length
        } else {
            0
        }
    }
}

/// The committed byte a composed display byte shows: preedit bytes show none.
pub open spec fn composed_source(range: Range<usize>, length: int, q: int) -> Option<int> {
    if q < range.start {
        Some(q)
    } else if q < range.start + length {
        None
    } else {
        Some(q - length + (range.end - range.start))
    }
}

/// A block that survives composition over `range`.
pub open spec fn block_survives(b: BlockView, range: Range<usize>) -> bool {
    b.source_backed || b.range.end <= range.start || b.range.start >= range.end
}

/// The blocks that survive composition over `range`, mapped through it.
pub open spec fn composed_blocks(blocks: Seq<BlockView>, range: Range<usize>, length: int) -> Seq<BlockView>
    decreases blocks.len(),
{
    if blocks.len() == 0 {
        Seq::empty()
    } else {
        let prev = composed_blocks(blocks.drop_last(), range, length);
        let b = blocks.last();
        if block_survives(b, range) {
            prev.push(
                BlockView {
                    id: b.id,
                    range: compose_map(range, length, b.range.start as int, Bias::Before) as usize..compose_map(
                        range,
                        length,
                        b.range.end as int,
                        Bias::After,
                    ) as usize,
                    widget: b.widget,
                    source_backed: b.source_backed,
                },
            )
        } else {
            prev
        }
    }
}

/// A replacement's range after composition: empty ranges stay empty after the
/// preedit, others map outward-in.
pub open spec fn composed_range(r: Range<usize>, range: Range<usize>, length: int) -> Range<usize> {
    if r.start >= r.end {
        let p = compose_map(range, length, r.start as int, Bias::After) as usize;
        p..p
    } else {
        compose_map(range, length, r.start as int, Bias::After) as usize..compose_map(
            range,
            length,
            r.end as int,
            Bias::Before,
        ) as usize
    }
}

fn compose_position(range: &Range<usize>, length: usize, p: usize, bias: Bias) -> (r: usize)
    requires
        range.start <= range.end,
        p + length <= usize::MAX,
    ensures
        r == compose_map(*range, length as int, p as int, bias),
{
    if p < range.start || (p == range.start && bias == Bias::Before) {
        p
    } else if p >= range.end {
        p - (range.end - range.start) + length
    } else {
        range.start + if bias == Bias::After {
            length
        } else {
            0
        }
    }
}

/// `n` spaces.
fn spaces(n: usize) -> (s: String)
    ensures
        utf8(s@).len() == n,
{
    let mut s = String::new();
    let mut i: usize = 0;
    proof {
        reveal_strlit(" ");
        assert(utf8(s@) =~= Seq::<u8>::empty());
    }
    while i < n
        invariant
            0 <= i <= n,
            utf8(s@).len() == i,
            " "@ == seq![' '],
        decreases n - i,
    {
        proof {
            lemma_utf8_concat(s@, " "@);
            assert(utf8(seq![' ']).len() == 1) by {
                assert(vstd::utf8::is_ascii_chars(seq![' ']));
                vstd::utf8::is_ascii_chars_encode_utf8(seq![' ']);
            }
        }
        s.append(" ");
        i += 1;
    }
    s
}

impl Projection {
    pub fn new() -> (p: Self)
        ensures
            p.styles@.len() == 0,
            p.replacements@.len() == 0,
            p.blocks@.len() == 0,
    {
        Projection { styles: Vec::new(), replacements: Vec::new(), blocks: Vec::new() }
    }

    /// Add an inline replacement.
    pub fn replace(self, r: Replacement) -> (p: Self)
        ensures
            p.styles == self.styles,
            p.blocks == self.blocks,
            p.replacements@ == self.replacements@.push(r),
    {
        let mut p = self;
        p.replacements.push(r);
        p
    }

    /// Add a block backed by a registered view.
    pub fn block(self, id: ViewId, range: Range<usize>) -> (p: Self)
        ensures
            p.styles == self.styles,
            p.replacements == self.replacements,
            p.blocks@ == self.blocks@.push(BlockView { id, range, widget: None, source_backed: false }),
    {
        self.block_view(BlockView::new(id, range))
    }

    /// Add a block view.
    pub fn block_view(self, block: BlockView) -> (p: Self)
        ensures
            p.styles == self.styles,
            p.replacements == self.replacements,
            p.blocks@ == self.blocks@.push(block),
    {
        let mut p = self;
        p.blocks.push(block);
        p
    }

    /// Whether every position in the plan can shift by `length` more bytes.
    pub open spec fn fits_composition(&self, length: int) -> bool {
        &&& forall|i: int| 0 <= i < self.replacements@.len() ==> (#[trigger] self.replacements@[i]).range.start + length <= usize::MAX
            && self.replacements@[i].range.end + length <= usize::MAX
        &&& forall|i: int| 0 <= i < self.blocks@.len() ==> (#[trigger] self.blocks@[i]).range.start + length <= usize::MAX
            && self.blocks@[i].range.end + length <= usize::MAX
        &&& end_of(self.styles@) + length <= usize::MAX
    }

    /// Map the plan through IME preedit of `length` bytes over `range`. Opaque
    /// blocks the preedit touches are dropped so their source shows.
    pub fn compose(&mut self, range: Range<usize>, length: usize)
        requires
            range.start <= range.end,
            range.end + length <= usize::MAX,
            canonical(old(self).styles@),
            old(self).fits_composition(length as int),
        ensures
            final(self).blocks@ == composed_blocks(old(self).blocks@, range, length as int),
            final(self).replacements@.len() == old(self).replacements@.len(),
            forall|i: int|
                0 <= i < old(self).replacements@.len() ==> (#[trigger] final(self).replacements@[i]).range == composed_range(
                    old(self).replacements@[i].range,
                    range,
                    length as int,
                ) && final(self).replacements@[i].id == old(self).replacements@[i].id && final(self).replacements@[i].content
                    == old(self).replacements@[i].content && final(self).replacements@[i].behavior
                    == old(self).replacements@[i].behavior,
            canonical(final(self).styles@),
            forall|q: int| #[trigger] style_of(final(self).styles@, q) == match composed_source(range, length as int, q) {
                Some(p) => style_of(old(self).styles@, p),
                None => super::format::StyleId(0),
            },
    {
        let ghost b0 = self.blocks@;
        let mut kept: Vec<BlockView> = Vec::new();
        let mut i: usize = 0;
        let mut blocks: Vec<BlockView> = Vec::new();
        std::mem::swap(&mut blocks, &mut self.blocks);
        proof {
            assert(b0.take(0) =~= Seq::<BlockView>::empty());
        }
        while i < blocks.len()
            invariant
                range.start <= range.end,
                self.styles == old(self).styles,
                blocks.len() == b0.len(),
                forall|k: int| i <= k < b0.len() ==> #[trigger] blocks@[k] == b0[k],
                0 <= i <= b0.len(),
                forall|k: int| 0 <= k < b0.len() ==> (#[trigger] b0[k]).range.start + length <= usize::MAX && b0[k].range.end
                    + length <= usize::MAX,
                kept@ == composed_blocks(b0.take(i as int), range, length as int),
            decreases b0.len() - i,
        {
            let mut b = BlockView { id: ViewId(0), range: 0..0, widget: None, source_backed: false };
            std::mem::swap(&mut b, &mut blocks[i]);
            proof {
                assert(b == b0[i as int]);
                assert(b0.take(i + 1).drop_last() =~= b0.take(i as int));
                assert(b0.take(i + 1).last() == b0[i as int]);
            }
            if b.source_backed || b.range.end <= range.start || b.range.start >= range.end {
                let start = compose_position(&range, length, b.range.start, Bias::Before);
                let end = compose_position(&range, length, b.range.end, Bias::After);
                kept.push(BlockView { id: b.id, range: start..end, widget: b.widget, source_backed: b.source_backed });
                proof {
                    assert(kept@ =~= composed_blocks(b0.take(i + 1), range, length as int));
                }
            } else {
                proof {
                    assert(kept@ =~= composed_blocks(b0.take(i + 1), range, length as int));
                }
            }
            i += 1;
        }
        proof {
            assert(b0.take(b0.len() as int) =~= b0);
        }
        self.blocks = kept;
        let n = self.replacements.len();
        let ghost r0 = self.replacements@;
        let mut j: usize = 0;
        while j < n
            invariant
                range.start <= range.end,
                self.styles == old(self).styles,
                self.blocks@ == composed_blocks(old(self).blocks@, range, length as int),
                n == r0.len(),
                self.replacements@.len() == n,
                0 <= j <= n,
                forall|k: int| 0 <= k < n ==> (#[trigger] r0[k]).range.start + length <= usize::MAX && r0[k].range.end + length
                    <= usize::MAX,
                forall|k: int| j <= k < n ==> (#[trigger] self.replacements@[k]) == r0[k],
                forall|k: int|
                    0 <= k < j ==> (#[trigger] self.replacements@[k]).range == composed_range(r0[k].range, range, length as int)
                        && self.replacements@[k].id == r0[k].id && self.replacements@[k].content == r0[k].content
                        && self.replacements@[k].behavior == r0[k].behavior,
            decreases n - j,
        {
            let start = self.replacements[j].range.start;
            let end = self.replacements[j].range.end;
            let mapped = if start >= end {
                let p = compose_position(&range, length, start, Bias::After);
                p..p
            } else {
                compose_position(&range, length, start, Bias::After)..compose_position(&range, length, end, Bias::Before)
            };
            let mut r = self.replacements.remove(j);
            r.range = mapped;
            self.replacements.insert(j, r);
            j += 1;
        }
        let fill = spaces(length);
        let edit = Edit::new(range.start..range.end, fill);
        let mut edits: Vec<Edit> = Vec::new();
        edits.push(edit);
        proof {
            assert(inserted_before(edits@, 1) == inserted_before(edits@, 0) + edits@[0].ins_len());
        }
        let ghost e = edits@;
        self.styles = map_spans(self.styles.as_slice(), edits.as_slice());
        proof {
            assert forall|q: int| #[trigger] style_of(self.styles@, q) == match composed_source(range, length as int, q) {
                Some(p) => style_of(old(self).styles@, p),
                None => super::format::StyleId(0),
            } by {
                assert(e.drop_first().len() == 0);
                assert(e[0].range == range);
                assert(e[0].ins_len() == length);
                assert(e[0].del_len() == range.end - range.start);
                assert(super::document::source_of(e.drop_first(), q - e[0].ins_len() + e[0].del_len()) == Some(
                    q - e[0].ins_len() + e[0].del_len(),
                ));
                assert(super::document::source_of(e, q) == composed_source(range, length as int, q));
                assert(mapped_style(old(self).styles@, e, q) == style_of(self.styles@, q));
            }
        }
    }
}

/// `a` carries the same replacement as `b`.
pub open spec fn same_replacement(a: Replacement, b: Replacement) -> bool {
    &&& a.id == b.id
    &&& a.range == b.range
    &&& a.behavior == b.behavior
    &&& same_content(a.content, b.content)
}

/// Whether two replacements show the same thing.
pub open spec fn same_content(a: ReplacementContent, b: ReplacementContent) -> bool {
    match (a, b) {
        (ReplacementContent::Text(x), ReplacementContent::Text(y)) => x@ == y@,
        (ReplacementContent::Object(x), ReplacementContent::Object(y)) => x == y,
        (ReplacementContent::Widget(x), ReplacementContent::Widget(y)) => same_widget(x, y),
        _ => false,
    }
}

/// `a` is the same block view as `b`.
pub open spec fn same_block(a: BlockView, b: BlockView) -> bool {
    &&& a.id == b.id
    &&& a.range == b.range
    &&& a.source_backed == b.source_backed
    &&& match (a.widget, b.widget) {
        (Some(x), Some(y)) => same_widget(x, y),
        (None, None) => true,
        _ => false,
    }
}

/// A replacement stays active unless the preedit edits inside it, or it
/// reveals its source on selection and an unstructured selection touches it.
pub open spec fn stays_active(r: Replacement, sels: Seq<Selection>, structured: bool, composition: Option<Range<usize>>) -> bool {
    &&& !(composition matches Some(c) && if c.start >= c.end {
        r.range.start < c.start && c.start < r.range.end
    } else {
        r.range.start < c.end && c.start < r.range.end
    })
    &&& (r.behavior != EditBehavior::RevealOnSelection || structured || !(exists|i: int|
        0 <= i < sels.len() && (#[trigger] sels[i]).start() <= r.range.end && sels[i].end() >= r.range.start))
}

/// The replacements that stay active, in order.
pub open spec fn active_replacements(
    reps: Seq<Replacement>,
    sels: Seq<Selection>,
    structured: bool,
    composition: Option<Range<usize>>,
) -> Seq<Replacement>
    decreases reps.len(),
{
    if reps.len() == 0 {
        Seq::empty()
    } else {
        let prev = active_replacements(reps.drop_last(), sels, structured, composition);
        if stays_active(reps.last(), sels, structured, composition) {
            prev.push(reps.last())
        } else {
            prev
        }
    }
}

impl Projection {
    /// The plan as shown with these selections and this preedit: replacements
    /// the preedit edits inside, and revealing ones a selection touches, drop
    /// out so their source shows.
    pub fn active(&self, selections: &SelectionSet, composition: Option<Range<usize>>) -> (out: Self)
        ensures
            out.styles@ == self.styles@,
            out.blocks@.len() == self.blocks@.len(),
            forall|i: int| 0 <= i < self.blocks@.len() ==> same_block(#[trigger] out.blocks@[i], self.blocks@[i]),
            out.replacements@.len() == active_replacements(
                self.replacements@,
                selections@,
                selections.structured_spec(),
                composition,
            ).len(),
            forall|i: int|
                0 <= i < out.replacements@.len() ==> same_replacement(
                    #[trigger] out.replacements@[i],
                    active_replacements(self.replacements@, selections@, selections.structured_spec(), composition)[i],
                ),
    {
        let sels = selections.iter();
        let structured = selections.is_structured();
        let ghost reps = self.replacements@;
        let ghost want = |k: int| active_replacements(reps.take(k), sels@, structured, composition);
        let mut kept: Vec<Replacement> = Vec::new();
        let mut i: usize = 0;
        proof {
            assert(reps.take(0) =~= Seq::<Replacement>::empty());
        }
        while i < self.replacements.len()
            invariant
                reps == self.replacements@,
                sels@ == selections@,
                structured == selections.structured_spec(),
                0 <= i <= reps.len(),
                kept@.len() == active_replacements(reps.take(i as int), sels@, structured, composition).len(),
                forall|k: int|
                    0 <= k < kept@.len() ==> same_replacement(
                        #[trigger] kept@[k],
                        active_replacements(reps.take(i as int), sels@, structured, composition)[k],
                    ),
            decreases reps.len() - i,
        {
            let r = &self.replacements[i];
            let hit = match &composition {
                Some(c) => if c.start >= c.end {
                    r.range.start < c.start && c.start < r.range.end
                } else {
                    r.range.start < c.end && c.start < r.range.end
                },
                None => false,
            };
            let mut revealed = false;
            if r.behavior == EditBehavior::RevealOnSelection && !structured {
                let mut k: usize = 0;
                while k < sels.len() && !revealed
                    invariant
                        0 <= k <= sels@.len(),
                        revealed ==> exists|t: int| 0 <= t < sels@.len() && (#[trigger] sels@[t]).start() <= r.range.end
                            && sels@[t].end() >= r.range.start,
                        !revealed ==> forall|t: int|
                            0 <= t < k ==> !((#[trigger] sels@[t]).start() <= r.range.end && sels@[t].end() >= r.range.start),
                    decreases sels@.len() - k,
                {
                    let t = sels[k].text_range();
                    if t.start <= r.range.end && t.end >= r.range.start {
                        revealed = true;
                        proof {
                            assert(sels@[k as int].start() <= r.range.end && sels@[k as int].end() >= r.range.start);
                        }
                    }
                    k += 1;
                }
            }
            let ghost prev = kept@;
            proof {
                assert(reps.take(i + 1).drop_last() =~= reps.take(i as int));
                assert(reps.take(i + 1).last() == reps[i as int]);
            }
            if !hit && !revealed {
                kept.push(r.duplicate());
                proof {
                    assert(stays_active(reps[i as int], sels@, structured, composition));
                    assert forall|k: int| 0 <= k < kept@.len() implies same_replacement(
                        #[trigger] kept@[k],
                        active_replacements(reps.take(i + 1), sels@, structured, composition)[k],
                    ) by {
                        if k < prev.len() {
                            assert(kept@[k] == prev[k]);
                        }
                    }
                }
            } else {
                proof {
                    assert(!stays_active(reps[i as int], sels@, structured, composition));
                }
            }
            i += 1;
        }
        proof {
            assert(reps.take(reps.len() as int) =~= reps);
        }
        let styles = self.styles.clone();
        let mut blocks: Vec<BlockView> = Vec::new();
        let mut j: usize = 0;
        while j < self.blocks.len()
            invariant
                0 <= j <= self.blocks@.len(),
                blocks@.len() == j,
                forall|t: int| 0 <= t < j ==> same_block(#[trigger] blocks@[t], self.blocks@[t]),
            decreases self.blocks@.len() - j,
        {
            let b = &self.blocks[j];
            let widget = match &b.widget {
                Some(w) => Some(w.duplicate()),
                None => None,
            };
            blocks.push(BlockView { id: b.id, range: b.range.start..b.range.end, widget, source_backed: b.source_backed });
            j += 1;
        }
        proof {
            assert(styles@ =~= self.styles@);
        }
        Projection { styles, replacements: kept, blocks }
    }
}

/// `range` grown, replacement by replacement in order, over every
/// replacement it overlaps.
pub open spec fn atomic_grow(reps: Seq<Replacement>, range: Range<usize>) -> Range<usize>
    decreases reps.len(),
{
    if reps.len() == 0 {
        range
    } else {
        let prev = atomic_grow(reps.drop_last(), range);
        let r = reps.last().range;
        if r.start < prev.end && r.end > prev.start {
            (if r.start < prev.start {
                r.start
            } else {
                prev.start
            })..(if r.end > prev.end {
                r.end
            } else {
                prev.end
            })
        } else {
            prev
        }
    }
}

impl Projection {
    /// Expand a deletion to whole atomic replacements, so no half marker or
    /// half embedded object survives a visual deletion.
    pub fn atomic_range(&self, range: Range<usize>) -> (r: Range<usize>)
        ensures
            r == atomic_grow(self.replacements@, range),
    {
        let ghost reps = self.replacements@;
        let mut out = range.start..range.end;
        let mut i: usize = 0;
        proof {
            assert(reps.take(0) =~= Seq::<Replacement>::empty());
        }
        while i < self.replacements.len()
            invariant
                reps == self.replacements@,
                0 <= i <= reps.len(),
                out == atomic_grow(reps.take(i as int), range),
            decreases reps.len() - i,
        {
            proof {
                assert(reps.take(i + 1).drop_last() =~= reps.take(i as int));
                assert(reps.take(i + 1).last() == reps[i as int]);
            }
            let r = &self.replacements[i].range;
            if r.start < out.end && r.end > out.start {
                let start = if r.start < out.start { r.start } else { out.start };
                let end = if r.end > out.end { r.end } else { out.end };
                out = start..end;
            }
            i += 1;
        }
        proof {
            assert(reps.take(reps.len() as int) =~= reps);
        }
        out
    }
}

/// The bytes a replacement shows.
pub open spec fn content_bytes(r: Replacement) -> Seq<u8> {
    match r.content {
        ReplacementContent::Text(t) => utf8(t@),
        _ => utf8(seq!['\u{fffc}']),
    }
}

/// Display bytes the replacements add, all of them counted.
pub open spec fn content_total(reps: Seq<Replacement>) -> int
    decreases reps.len(),
{
    if reps.len() == 0 {
        0
    } else {
        content_total(reps.drop_last()) + content_bytes(reps.last()).len()
    }
}

/// Whether replacement `r` lies inside `range` and so is projected.
pub open spec fn projected_inside(r: Replacement, range: Range<usize>) -> bool {
    range.start <= r.range.start && r.range.end <= range.end
}

/// Display bytes of `range` projected from `src`, from replacement `i` on with
/// the source copied up to `cursor`: source gaps are copied, replacements
/// inside the range show their content, others are skipped; the first
/// replacement starting past the range ends the walk.
pub open spec fn projected_from(src: Seq<u8>, reps: Seq<Replacement>, i: int, cursor: int, range: Range<usize>) -> Seq<u8>
    decreases reps.len() - i,
{
    if i < 0 || i >= reps.len() || reps[i].range.start > range.end {
        if cursor < range.end {
            src.subrange(cursor, range.end as int)
        } else {
            Seq::empty()
        }
    } else if !projected_inside(reps[i], range) {
        projected_from(src, reps, i + 1, cursor, range)
    } else {
        (if cursor < reps[i].range.start {
            src.subrange(cursor, reps[i].range.start as int)
        } else {
            Seq::empty()
        }) + content_bytes(reps[i]) + projected_from(src, reps, i + 1, reps[i].range.end as int, range)
    }
}

/// Source bytes copied before replacement `r` when the copy has reached `cursor`.
pub open spec fn gap_len(cursor: int, r: Replacement) -> int {
    if cursor < r.range.start {
        r.range.start - cursor
    } else {
        0
    }
}

/// Position-map pieces of the same walk, with display offsets counted from
/// `d`: each copied gap maps byte for byte, each projected replacement maps
/// its source range to the display range of its content.
pub open spec fn projected_segments(reps: Seq<Replacement>, i: int, cursor: int, range: Range<usize>, d: int) -> Seq<MapSegment>
    decreases reps.len() - i,
{
    if i < 0 || i >= reps.len() || reps[i].range.start > range.end {
        if cursor < range.end {
            seq![MapSegment { source: cursor as usize..range.end, display: d as usize..(d + (range.end - cursor)) as usize, copied: true }]
        } else {
            Seq::empty()
        }
    } else if !projected_inside(reps[i], range) {
        projected_segments(reps, i + 1, cursor, range, d)
    } else {
        let g = gap_len(cursor, reps[i]);
        let c = content_bytes(reps[i]).len();
        (if cursor < reps[i].range.start {
            seq![MapSegment { source: cursor as usize..reps[i].range.start, display: d as usize..(d + g) as usize, copied: true }]
        } else {
            Seq::empty()
        }) + seq![MapSegment { source: reps[i].range, display: (d + g) as usize..(d + g + c) as usize, copied: false }]
            + projected_segments(reps, i + 1, reps[i].range.end as int, range, d + g + c)
    }
}

/// Embedded objects of the same walk: one for each projected object or widget
/// replacement, at the display range of its object character.
pub open spec fn projected_objects(reps: Seq<Replacement>, i: int, cursor: int, range: Range<usize>, d: int) -> Seq<ProjectedObject>
    decreases reps.len() - i,
{
    if i < 0 || i >= reps.len() || reps[i].range.start > range.end {
        Seq::empty()
    } else if !projected_inside(reps[i], range) {
        projected_objects(reps, i + 1, cursor, range, d)
    } else {
        let g = gap_len(cursor, reps[i]);
        let c = content_bytes(reps[i]).len();
        (match reps[i].content {
            ReplacementContent::Text(_) => Seq::empty(),
            _ => seq![ProjectedObject { id: reps[i].id, range: (d + g) as usize..(d + g + c) as usize, source: reps[i].range }],
        }) + projected_objects(reps, i + 1, reps[i].range.end as int, range, d + g + c)
    }
}

/// Style of display byte `q` in the same walk: copied text keeps its style in
/// `base`, replacement content takes the style at its source start.
pub open spec fn projected_style(
    reps: Seq<Replacement>,
    base: Seq<StyleSpan>,
    i: int,
    cursor: int,
    range: Range<usize>,
    d: int,
    q: int,
) -> StyleId
    decreases reps.len() - i,
{
    if i < 0 || i >= reps.len() || reps[i].range.start > range.end {
        if cursor < range.end && d <= q < d + (range.end - cursor) {
            style_of(base, cursor + q - d)
        } else {
            StyleId(0)
        }
    } else if !projected_inside(reps[i], range) {
        projected_style(reps, base, i + 1, cursor, range, d, q)
    } else {
        let g = gap_len(cursor, reps[i]);
        let c = content_bytes(reps[i]).len();
        if d <= q < d + g {
            style_of(base, cursor + q - d)
        } else if d + g <= q < d + g + c {
            style_of(base, reps[i].range.start as int)
        } else {
            projected_style(reps, base, i + 1, reps[i].range.end as int, range, d + g + c, q)
        }
    }
}

/// Without replacements a projection copies its range, and a source position
/// in it goes to display and back unchanged, whatever the bias.
pub proof fn lemma_plain_round_trip(range: Range<usize>, b: int, bias: Bias)
    requires
        range.start <= b <= range.end,
    ensures
        map_spec(
            projected_segments(Seq::empty(), 0, range.start as int, range, 0),
            b,
            bias,
            false,
            range.start as int,
            range.end - range.start,
        ) == b - range.start,
        map_spec(
            projected_segments(Seq::empty(), 0, range.start as int, range, 0),
            b - range.start,
            bias,
            true,
            0,
            range.end as int,
        ) == b,
{
    let segs = projected_segments(Seq::empty(), 0, range.start as int, range, 0);
    let len = range.end - range.start;
    if range.start < range.end {
        let s0 = MapSegment { source: range.start..range.end, display: 0..len as usize, copied: true };
        assert(segs == seq![s0]);
        let rest = segs.drop_first();
        assert(rest =~= Seq::<MapSegment>::empty());
        assert(map_from(rest, b, bias, false, range.start as int, len, len) == len);
        assert(map_from(rest, b - range.start, bias, true, 0, range.end as int, range.end as int) == range.end);
        assert(map_spec(segs, b, bias, false, range.start as int, len) == map_from(segs, b, bias, false, range.start as int, len, 0));
        assert(map_spec(segs, b - range.start, bias, true, 0, range.end as int) == map_from(
            segs,
            b - range.start,
            bias,
            true,
            0,
            range.end as int,
            range.start as int,
        ));
    } else {
        assert(segs =~= Seq::<MapSegment>::empty());
    }
}

/// The copy that fails first in the same walk, if any.
pub open spec fn projection_error(src: Seq<u8>, reps: Seq<Replacement>, i: int, cursor: int, range: Range<usize>) -> Option<
    EditError,
>
    decreases reps.len() - i,
{
    if i < 0 || i >= reps.len() || reps[i].range.start > range.end {
        if cursor < range.end && !valid_range(src, cursor, range.end as int) {
            Some(EditError::InvalidRange(cursor as usize..range.end))
        } else {
            None
        }
    } else if !projected_inside(reps[i], range) {
        projection_error(src, reps, i + 1, cursor, range)
    } else if cursor < reps[i].range.start && !valid_range(src, cursor, reps[i].range.start as int) {
        Some(EditError::InvalidRange(cursor as usize..reps[i].range.start))
    } else {
        projection_error(src, reps, i + 1, reps[i].range.end as int, range)
    }
}

/// Replacements in order and apart, as validation leaves them.
pub open spec fn replacements_sorted(reps: Seq<Replacement>) -> bool {
    &&& forall|i: int| 0 <= i < reps.len() ==> (#[trigger] reps[i]).range.start <= reps[i].range.end
    &&& forall|i: int, j: int| 0 <= i < j < reps.len() ==> (#[trigger] reps[i]).range.end <= (#[trigger] reps[j]).range.start
}

/// Index of the first replacement ending at or after `x`.
fn first_reaching(reps: &[Replacement], x: usize) -> (k: usize)
    requires
        replacements_sorted(reps@),
    ensures
        k <= reps@.len(),
        forall|t: int| 0 <= t < k ==> (#[trigger] reps@[t]).range.end < x,
        forall|t: int| k <= t < reps@.len() ==> (#[trigger] reps@[t]).range.end >= x,
{
    let mut lo: usize = 0;
    let mut hi: usize = reps.len();
    while lo < hi
        invariant
            lo <= hi <= reps@.len(),
            replacements_sorted(reps@),
            forall|t: int| 0 <= t < lo ==> (#[trigger] reps@[t]).range.end < x,
            forall|t: int| hi <= t < reps@.len() ==> (#[trigger] reps@[t]).range.end >= x,
        decreases hi - lo,
    {
        let mid = lo + (hi - lo) / 2;
        if reps[mid].range.end < x {
            proof {
                assert forall|t: int| 0 <= t <= mid implies (#[trigger] reps@[t]).range.end < x by {
                    if t < mid {
                        assert(reps@[t].range.end <= reps@[mid as int].range.start);
                        assert(reps@[mid as int].range.start <= reps@[mid as int].range.end);
                    }
                }
            }
            lo = mid + 1;
        } else {
            proof {
                assert forall|t: int| mid <= t < reps@.len() implies (#[trigger] reps@[t]).range.end >= x by {
                    if t > mid {
                        assert(reps@[mid as int].range.end <= reps@[t].range.start);
                        assert(reps@[t].range.start <= reps@[t].range.end);
                    }
                }
            }
            hi = mid;
        }
    }
    lo
}

/// Skipping replacements that end before the range changes nothing.
proof fn lemma_projection_skip(src: Seq<u8>, reps: Seq<Replacement>, k: int, range: Range<usize>)
    requires
        0 <= k <= reps.len(),
        range.start <= range.end,
        replacements_sorted(reps),
        forall|t: int| 0 <= t < k ==> (#[trigger] reps[t]).range.end < range.start,
    ensures
        projected_from(src, reps, 0, range.start as int, range) == projected_from(src, reps, k, range.start as int, range),
        projection_error(src, reps, 0, range.start as int, range) == projection_error(src, reps, k, range.start as int, range),
        projected_segments(reps, 0, range.start as int, range, 0) == projected_segments(reps, k, range.start as int, range, 0),
        projected_objects(reps, 0, range.start as int, range, 0) == projected_objects(reps, k, range.start as int, range, 0),
        forall|base: Seq<StyleSpan>, q: int| #[trigger] projected_style(reps, base, 0, range.start as int, range, 0, q)
            == projected_style(reps, base, k, range.start as int, range, 0, q),
    decreases k,
{
    if k > 0 {
        lemma_projection_skip(src, reps, k - 1, range);
        assert(reps[k - 1].range.end < range.start);
        assert(!projected_inside(reps[k - 1], range));
    }
}

proof fn lemma_content_total_nonneg(reps: Seq<Replacement>)
    ensures
        content_total(reps) >= 0,
    decreases reps.len(),
{
    if reps.len() > 0 {
        lemma_content_total_nonneg(reps.drop_last());
    }
}

proof fn lemma_content_total_prefix(reps: Seq<Replacement>, i: int)
    requires
        0 <= i < reps.len(),
    ensures
        content_total(reps.take(i + 1)) == content_total(reps.take(i)) + content_bytes(reps[i]).len(),
        content_total(reps.take(i)) <= content_total(reps),
    decreases reps.len() - i,
{
    assert(reps.take(i + 1).drop_last() =~= reps.take(i));
    if i + 1 < reps.len() {
        lemma_content_total_prefix(reps, i + 1);
    } else {
        assert(reps.take(i + 1) =~= reps);
    }
}

impl Projection {
    /// Project the source `range` into display text: gaps are copied with
    /// their base formatting, replacements inside the range show their text or
    /// an object character styled as the source they replace. The position map
    /// relates both coordinates. Replacements must be sorted and apart, as
    /// validation leaves them.
    #[verifier::rlimit(100)]
    #[verifier::spinoff_prover]
    pub fn project<S: TextRead + ?Sized>(&self, source: &S, range: Range<usize>, base: &[StyleSpan]) -> (r: Result<
        ProjectedText,
        EditError,
    >)
        requires
            replacements_sorted(self.replacements@),
            canonical(base@),
            utf8(source.text()).len() + content_total(self.replacements@) <= usize::MAX,
        ensures
            !valid_range(utf8(source.text()), range.start as int, range.end as int) ==> r == Err::<ProjectedText, EditError>(
                EditError::InvalidRange(range),
            ),
            valid_range(utf8(source.text()), range.start as int, range.end as int) ==> match projection_error(
                utf8(source.text()),
                self.replacements@,
                0,
                range.start as int,
                range,
            ) {
                Some(e) => r == Err::<ProjectedText, EditError>(e),
                None => r is Ok,
            },
            r matches Ok(out) ==> {
                &&& utf8(out.text@) == projected_from(utf8(source.text()), self.replacements@, 0, range.start as int, range)
                &&& out.source == range
                &&& out.map.wf()
                &&& out.map.source_view() == range
                &&& out.map.display_len_view() == utf8(out.text@).len()
                &&& canonical(out.spans@)
                &&& end_of(out.spans@) <= utf8(out.text@).len()
                &&& out.map.segments_view() == projected_segments(self.replacements@, 0, range.start as int, range, 0)
                &&& out.objects@ == projected_objects(self.replacements@, 0, range.start as int, range, 0)
                &&& forall|q: int| 0 <= q ==> #[trigger] style_of(out.spans@, q) == projected_style(
                    self.replacements@,
                    base@,
                    0,
                    range.start as int,
                    range,
                    0,
                    q,
                )
            },
    {
        if range.start > range.end || !source.is_char_boundary(range.start) || !source.is_char_boundary(range.end) {
            return Err(EditError::InvalidRange(range));
        }
        let ghost src = utf8(source.text());
        let ghost reps = self.replacements@;
        proof {
            vstd::utf8::encode_utf8_valid_utf8(source.text());
            super::buffer::lemma_boundary_in_bounds(source.text(), range.end as int);
        }
        let mut out = ProjectedText::empty(range.start..range.end);
        let first = first_reaching(self.replacements.as_slice(), range.start);
        proof {
            lemma_projection_skip(src, reps, first as int, range);
        }
        let mut cursor = range.start;
        let mut i = first;
        let ghost mut done: Seq<u8> = Seq::empty();
        proof {
            assert(utf8(out.text@) =~= Seq::<u8>::empty());
            if first < reps.len() {
                lemma_content_total_prefix(reps, first as int);
            } else {
                assert(reps.take(first as int) =~= reps);
            }
            lemma_content_total_nonneg(reps.take(first as int));
            super::document::lemma_utf8_concat(Seq::empty(), Seq::empty());
        }
        let ghost full = projected_from(src, reps, first as int, range.start as int, range);
        let ghost segs_full = projected_segments(reps, first as int, range.start as int, range, 0);
        let ghost objs_full = projected_objects(reps, first as int, range.start as int, range, 0);
        proof {
            assert(out.map.segments_view() + segs_full =~= segs_full);
            assert(out.objects@ + objs_full =~= objs_full);
        }
        let ghost err = projection_error(src, reps, first as int, range.start as int, range);
        while i < self.replacements.len()
            invariant_except_break
                full == utf8(out.text@) + projected_from(src, reps, i as int, cursor as int, range),
                err == projection_error(src, reps, i as int, cursor as int, range),
            invariant
                reps == self.replacements@,
                src == utf8(source.text()),
                replacements_sorted(reps),
                canonical(base@),
                first <= i <= reps.len(),
                projection_error(src, reps, 0, range.start as int, range) == err,
                projected_from(src, reps, 0, range.start as int, range) == full,
                forall|t: int| i <= t < reps.len() ==> cursor == range.start || cursor <= (#[trigger] reps[t]).range.start,
                range.start <= cursor <= range.end,
                valid_range(src, range.start as int, range.end as int),
                src.len() + content_total(reps) <= usize::MAX,
                utf8(out.text@).len() <= (cursor - range.start) + content_total(reps.take(i as int)),
                out.map.wf(),
                out.source == range,
                out.map.source_view() == range,
                out.map.display_len_view() == 0,
                canonical(out.spans@),
                end_of(out.spans@) <= utf8(out.text@).len(),
                segs_full == projected_segments(reps, first as int, range.start as int, range, 0),
                objs_full == projected_objects(reps, first as int, range.start as int, range, 0),
                segs_full == out.map.segments_view() + projected_segments(reps, i as int, cursor as int, range, utf8(out.text@).len() as int),
                objs_full == out.objects@ + projected_objects(reps, i as int, cursor as int, range, utf8(out.text@).len() as int),
                forall|q: int| 0 <= q ==> #[trigger] projected_style(reps, base@, first as int, range.start as int, range, 0, q)
                    == if q < utf8(out.text@).len() {
                    style_of(out.spans@, q)
                } else {
                    projected_style(reps, base@, i as int, cursor as int, range, utf8(out.text@).len() as int, q)
                },
            ensures
                full == utf8(out.text@) + projected_from(src, reps, i as int, cursor as int, range),
                err == projection_error(src, reps, i as int, cursor as int, range),
                i >= reps.len() || reps[i as int].range.start > range.end,
            decreases reps.len() - i,
        {
            let r = &self.replacements[i];
            if r.range.start > range.end {
                break;
            }
            if r.range.start < range.start || r.range.end > range.end {
                proof {
                    lemma_content_total_prefix(reps, i as int);
                }
                i += 1;
                continue;
            }
            proof {
                lemma_content_total_prefix(reps, i as int);
                super::buffer::lemma_boundary_in_bounds(source.text(), range.end as int);
            }
            let ghost before = utf8(out.text@);
            let ghost segs0 = out.map.segments_view();
            let ghost objs0 = out.objects@;
            let ghost spans0 = out.spans@;
            let ghost l0 = utf8(out.text@).len() as int;
            let ghost cur0 = cursor as int;
            let ghost i0 = i as int;
            let ghost gap = if cursor < r.range.start {
                src.subrange(cursor as int, r.range.start as int)
            } else {
                Seq::<u8>::empty()
            };
            if cursor < r.range.start {
                match out.copy(source, cursor..r.range.start, base) {
                    Ok(()) => {},
                    Err(e) => {
                        proof {
                            assert(projection_error(src, reps, i as int, cursor as int, range) == Some(e));
                            assert(projection_error(src, reps, 0, range.start as int, range) == Some(e));
                        }
                        return Err(e);
                    },
                }
            }
            let ghost mid = utf8(out.text@);
            proof {
                assert(mid =~= before + gap);
            }
            let start = str_len(out.text.as_str());
            match &r.content {
                ReplacementContent::Text(text) => {
                    let ghost pre = out.text@;
                    proof {
                        super::document::lemma_utf8_concat(pre, text@);
                    }
                    let piece = text.as_str();
                    out.text.append(piece);
                    proof {
                        assert(piece@ == text@);
                        assert(out.text@ == pre + text@);
                        assert(content_bytes(reps[i as int]) == utf8(text@));
                        assert(utf8(out.text@) == mid + content_bytes(reps[i as int]));
                    }
                },
                ReplacementContent::Object(_) | ReplacementContent::Widget(_) => {
                    proof {
                        reveal_strlit("\u{fffc}");
                        super::document::lemma_utf8_concat(out.text@, "\u{fffc}"@);
                        assert('\u{fffc}' as u32 == 0xfffc);
                        assert(utf8(seq!['\u{fffc}']).len() == 3) by {
                            assert(seq!['\u{fffc}'].drop_first() =~= Seq::<char>::empty());
                            assert(seq!['\u{fffc}'][0] == '\u{fffc}');
                            assert(utf8(seq!['\u{fffc}']) == vstd::utf8::encode_scalar(0xfffcu32) + utf8(Seq::<char>::empty()));
                            assert(vstd::utf8::has_width_3_encoding(0xfffcu32));
                            assert(!vstd::utf8::has_width_1_encoding(0xfffcu32));
                            assert(!vstd::utf8::has_width_2_encoding(0xfffcu32));
                        }
                    }
                    out.text.append("\u{fffc}");
                    let obj_end = str_len(out.text.as_str());
                    out.objects.push(ProjectedObject { id: r.id, range: start..obj_end, source: r.range.start..r.range.end });
                    proof {
                        reveal_strlit("\u{fffc}");
                        assert("\u{fffc}"@ =~= seq!['\u{fffc}']);
                        assert(utf8(out.text@) == mid + content_bytes(reps[i as int]));
                    }
                },
            }
            let end = str_len(out.text.as_str());
            proof {
                reveal_strlit("\u{fffc}");
                assert(utf8(out.text@) =~= before + gap + content_bytes(reps[i as int]));
                assert(full =~= utf8(out.text@) + projected_from(src, reps, i + 1, r.range.end as int, range));
            }
            if start < end {
                let style = style_at(base, r.range.start, false);
                push(&mut out.spans, start..end, style);
            }
            let ghost segs = out.map.segments_view();
            out.map.push_segment(MapSegment { source: r.range.start..r.range.end, display: start..end, copied: false });
            cursor = r.range.end;
            i += 1;
            proof {
                let g = gap_len(cur0, reps[i0]);
                let c = content_bytes(reps[i0]).len() as int;
                assert(start == l0 + g);
                assert(end == l0 + g + c);
                let gs = if cur0 < reps[i0].range.start {
                    seq![MapSegment { source: cur0 as usize..reps[i0].range.start, display: l0 as usize..(l0 + g) as usize, copied: true }]
                } else {
                    Seq::<MapSegment>::empty()
                };
                let rs = MapSegment { source: reps[i0].range, display: (l0 + g) as usize..(l0 + g + c) as usize, copied: false };
                assert(segs =~= segs0 + gs);
                assert(out.map.segments_view() =~= segs0 + gs + seq![rs]);
                assert(projected_segments(reps, i0, cur0, range, l0) == gs + seq![rs] + projected_segments(reps, i as int, cursor as int, range, end as int));
                assert(segs_full =~= out.map.segments_view() + projected_segments(reps, i as int, cursor as int, range, end as int));
                let os = match reps[i0].content {
                    ReplacementContent::Text(_) => Seq::<ProjectedObject>::empty(),
                    _ => seq![ProjectedObject { id: reps[i0].id, range: (l0 + g) as usize..(l0 + g + c) as usize, source: reps[i0].range }],
                };
                assert(out.objects@ =~= objs0 + os);
                assert(projected_objects(reps, i0, cur0, range, l0) == os + projected_objects(reps, i as int, cursor as int, range, end as int));
                assert(objs_full =~= out.objects@ + projected_objects(reps, i as int, cursor as int, range, end as int));
                assert forall|q: int| 0 <= q implies #[trigger] projected_style(reps, base@, first as int, range.start as int, range, 0, q)
                    == if q < utf8(out.text@).len() {
                    style_of(out.spans@, q)
                } else {
                    projected_style(reps, base@, i as int, cursor as int, range, utf8(out.text@).len() as int, q)
                } by {
                    assert(utf8(out.text@).len() == end);
                    if q < l0 {
                        assert(style_of(out.spans@, q) == style_of(spans0, q));
                    }
                }
            }
        }
        proof {
            if i < reps.len() {
                lemma_content_total_prefix(reps, i as int);
            } else {
                assert(reps.take(i as int) =~= reps);
            }
        }
        let ghost segs1 = out.map.segments_view();
        let ghost spans1 = out.spans@;
        let ghost l1 = utf8(out.text@).len() as int;
        if cursor < range.end {
            match out.copy(source, cursor..range.end, base) {
                Ok(()) => {},
                Err(e) => return Err(e),
            }
        }
        out.map.finish(range.start..range.end, str_len(out.text.as_str()));
        proof {
            assert(out.map.segments_view() =~= segs_full);
            assert(out.objects@ =~= objs_full);
            assert forall|q: int| 0 <= q implies #[trigger] style_of(out.spans@, q) == projected_style(reps, base@, 0, range.start as int, range, 0, q) by {
                assert(projected_style(reps, base@, 0, range.start as int, range, 0, q) == projected_style(reps, base@, first as int, range.start as int, range, 0, q));
                if q < l1 {
                    assert(style_of(out.spans@, q) == style_of(spans1, q));
                } else {
                    super::format::lemma_style_of(out.spans@, q);
                    super::format::lemma_style_of(spans1, q);
                }
            }
        }
        Ok(out)
    }
}

impl PositionMap {
    fn push_segment(&mut self, segment: MapSegment)
        requires
            old(self).wf(),
            segment.source.start <= segment.source.end,
            segment.display.start <= segment.display.end,
            segment.copied ==> segment.source.end - segment.source.start == segment.display.end - segment.display.start,
        ensures
            final(self).wf(),
            final(self).segments_view() == old(self).segments_view().push(segment),
            final(self).source_view() == old(self).source_view(),
            final(self).display_len_view() == old(self).display_len_view(),
    {
        let ghost segs = self.segments@;
        self.segments.push(segment);
        proof {
            assert forall|i: int| 0 <= i < self.segments@.len() implies {
                let s = #[trigger] self.segments@[i];
                &&& s.source.start <= s.source.end
                &&& s.display.start <= s.display.end
                &&& s.copied ==> s.source.end - s.source.start == s.display.end - s.display.start
            } by {
                if i < segs.len() {
                    assert(self.segments@[i] == segs[i]);
                }
            }
        }
    }

    fn finish(&mut self, source: Range<usize>, display_len: usize)
        ensures
            final(self).segments_view() == old(self).segments_view(),
            final(self).source_view() == source,
            final(self).display_len_view() == display_len,
    {
        self.source = source;
        self.display_len = display_len;
    }
}

} // verus!
