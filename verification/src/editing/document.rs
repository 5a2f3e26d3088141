//! Versioned UTF-8 text and atomic edits. Offsets always address the input
//! revision; callers never need to adjust later edits after an earlier insertion.
use super::buffer::{cow_into_string, saturated, saturating_product, string_capacity, vec_capacity, lemma_boundary_char, lemma_boundary_in_bounds, lemma_splice_valid, splice, valid_range, BufferOptions, TextBuffer, TextRead, TextSnapshot};
use super::format::{
    canonical, lemma_canonical_elem, lemma_canonical_unique, change_at, change_covers, change_runs, changes_end, covers, end_of, lemma_change_at,
    lemma_style_of, map_spans, apply_changes, changed_style, diff, mapped_style, on_boundaries, push, slice, sorted_changes, validate_spans, spans_fit, style_at, style_of, RichText, StyleChange, StyleId,
    StyleSpan,
};
use std::borrow::Cow;
use vstd::utf8::{is_char_boundary, valid_utf8};
use std::ops::Range;
use vstd::prelude::*;
use vstd::utf8::encode_utf8;

verus! {

/// UTF-8 bytes of a string's characters.
pub open spec fn utf8(s: Seq<char>) -> Seq<u8> {
    encode_utf8(s)
}

/// Encoding distributes over concatenation.
pub proof fn lemma_utf8_concat(a: Seq<char>, b: Seq<char>)
    ensures
        utf8(a + b) == utf8(a) + utf8(b),
    decreases a.len(),
{
    if a.len() == 0 {
        assert(a + b =~= b);
    } else {
        lemma_utf8_concat(a.drop_first(), b);
        assert((a + b).drop_first() =~= a.drop_first() + b);
        assert((a + b)[0] == a[0]);
        assert(utf8(a) + utf8(b) =~= vstd::utf8::encode_scalar(a[0] as u32) + (utf8(a.drop_first()) + utf8(b)));
    }
}

/// Byte length of a string slice, `str::len`. A Rust string occupies at most
/// `isize::MAX` bytes, so the length of its UTF-8 encoding is exact in `usize`.
#[verifier::external_body]
pub(crate) fn str_len(s: &str) -> (n: usize)
    ensures
        n == utf8(s@).len(),
{
    s.len()
}

/// Which side of an edited range a position sticks to.
#[derive(Debug, Clone, Copy, PartialEq, Eq, Structural)]
pub enum Bias {
    Before,
    After,
}

impl Default for Bias {
    fn default() -> (b: Self)
        ensures
            b == Bias::After,
    {
        Bias::After
    }
}

/// One replacement of an input byte range.
#[derive(Debug)]
pub struct Edit {
    pub range: Range<usize>,
    pub insert: String,
    /// None inherits insertion-point formatting; Some (including empty) is exact.
    pub spans: Option<Vec<StyleSpan>>,
}

impl Clone for Edit {
    fn clone(&self) -> (e: Self)
        ensures
            e.range == self.range,
            e.insert@ == self.insert@,
            e.rich_spans() == self.rich_spans(),
    {
        let spans = match &self.spans {
            Some(v) => {
                let c = v.clone();
                proof {
                    assert(c@ =~= v@);
                }
                Some(c)
            },
            None => None,
        };
        Edit { range: self.range.start..self.range.end, insert: self.insert.clone(), spans }
    }
}

impl Edit {
    /// Byte length of the inserted text.
    pub open spec fn ins_len(self) -> int {
        utf8(self.insert@).len() as int
    }

    /// Byte length of the replaced range.
    pub open spec fn del_len(self) -> int {
        self.range.end - self.range.start
    }

    /// Exact styles of the inserted text, when it has them.
    pub open spec fn rich_spans(self) -> Option<Seq<StyleSpan>> {
        match self.spans {
            Some(v) => Some(v@),
            None => None,
        }
    }

    /// Insert text that inherits the formatting at the insertion point.
    pub fn new(range: Range<usize>, insert: String) -> (e: Self)
        ensures
            e.range == range,
            e.insert@ == insert@,
            e.rich_spans() is None,
            rich_fits(e),
    {
        Edit { range, insert, spans: None }
    }

    /// Insert an exact rich fragment. Unstyled gaps explicitly use base typography.
    pub fn rich(range: Range<usize>, content: RichText) -> (e: Self)
        ensures
            e.range == range,
            e.insert@ == content.text@,
            e.rich_spans() == Some(content.spans@),
    {
        Edit { range, insert: content.text, spans: Some(content.spans) }
    }

    /// Insert with an exact style, including explicitly unformatted text.
    pub fn styled(range: Range<usize>, text: String, style: StyleId) -> (e: Self)
        ensures
            e.range == range,
            e.insert@ == text@,
            e.rich_spans() == Some(if style.is_default() {
                Seq::<StyleSpan>::empty()
            } else {
                seq![StyleSpan { range: 0..utf8(text@).len() as usize, style }]
            }),
            rich_fits(e),
    {
        let len = str_len(text.as_str());
        let mut spans = Vec::new();
        if style.0 != 0 {
            spans.push(StyleSpan { range: 0..len, style });
        }
        proof {
            vstd::utf8::encode_utf8_valid_utf8(text@);
            lemma_boundary_char(utf8(text@), 0);
            lemma_boundary_char(utf8(text@), len as int);
            if style.is_default() {
                assert(spans@ =~= Seq::<StyleSpan>::empty());
            } else {
                assert(spans@ =~= seq![StyleSpan { range: 0..len, style }]);
            }
        }
        Edit { range, insert: text, spans: Some(spans) }
    }

    pub fn spans(&self) -> (r: Option<&[StyleSpan]>)
        ensures
            r matches Some(v) ==> self.rich_spans() == Some(v@),
            r is None <==> self.rich_spans() is None,
    {
        match &self.spans {
            Some(v) => Some(v.as_slice()),
            None => None,
        }
    }

    pub fn insert_len(&self) -> (n: usize)
        ensures
            n == self.ins_len(),
    {
        str_len(self.insert.as_str())
    }
}

/// Edits sorted by input position, each well formed, none overlapping.
/// Several insertions may share one position.
pub open spec fn sorted_edits(edits: Seq<Edit>) -> bool {
    &&& forall|i: int| 0 <= i < edits.len() ==> edits[i].range.start <= edits[i].range.end
    &&& forall|i: int, j: int|
        0 <= i < j < edits.len() ==> edits[i].range.end <= edits[j].range.start
}

/// Where an input position lands after the edits, which are in input order.
/// A position before an edit is unaffected by it; a position inside a replaced
/// range moves to the chosen edge of the inserted text; at an insertion point,
/// `Before` stays ahead of the insertion and `After` passes it.
pub open spec fn map_spec(edits: Seq<Edit>, pos: int, bias: Bias) -> int
    decreases edits.len(),
{
    if edits.len() == 0 {
        pos
    } else {
        let e = edits[0];
        let rest = edits.drop_first();
        if pos < e.range.start {
            pos
        } else if pos == e.range.start && e.range.start == e.range.end {
            if bias == Bias::Before {
                pos
            } else {
                map_spec(rest, pos, bias) + e.ins_len()
            }
        } else if pos < e.range.end {
            e.range.start + if bias == Bias::After {
                e.ins_len()
            } else {
                0
            }
        } else {
            map_spec(rest, pos, bias) + e.ins_len() - e.del_len()
        }
    }
}

/// Net change in length made by the edits.
pub open spec fn net_delta(edits: Seq<Edit>) -> int
    decreases edits.len(),
{
    if edits.len() == 0 {
        0
    } else {
        edits[0].ins_len() - edits[0].del_len() + net_delta(edits.drop_first())
    }
}

/// Bytes inserted by the first `i` edits.
pub open spec fn inserted_before(edits: Seq<Edit>, i: int) -> int
    decreases i,
{
    if i <= 0 {
        0
    } else {
        inserted_before(edits, i - 1) + edits[i - 1].ins_len()
    }
}

/// Net change in length made by the first `i` edits.
pub open spec fn delta_before(edits: Seq<Edit>, i: int) -> int
    decreases i,
{
    if i <= 0 {
        0
    } else {
        delta_before(edits, i - 1) + edits[i - 1].ins_len() - edits[i - 1].del_len()
    }
}

/// Total inserted bytes.
pub open spec fn total_inserted(edits: Seq<Edit>) -> int {
    inserted_before(edits, edits.len() as int)
}

/// Where an output byte comes from: `Some` input byte for surviving text,
/// `None` for inserted text. Positions past the edits keep their offset.
pub open spec fn source_of(edits: Seq<Edit>, q: int) -> Option<int>
    decreases edits.len(),
{
    if edits.len() == 0 {
        Some(q)
    } else {
        let e = edits[0];
        if q < e.range.start {
            Some(q)
        } else if q < e.range.start + e.ins_len() {
            None
        } else {
            source_of(edits.drop_first(), q - e.ins_len() + e.del_len())
        }
    }
}

/// Inserted bytes only accumulate.
pub proof fn lemma_inserted_before_mono(edits: Seq<Edit>, i: int, j: int)
    requires
        0 <= i <= j <= edits.len(),
    ensures
        0 <= inserted_before(edits, i) <= inserted_before(edits, j),
    decreases j,
{
    if j > i {
        lemma_inserted_before_mono(edits, i, j - 1);
    } else {
        lemma_inserted_before_nonneg(edits, i);
    }
}

proof fn lemma_inserted_before_nonneg(edits: Seq<Edit>, i: int)
    ensures
        inserted_before(edits, i) >= 0,
    decreases i,
{
    if i > 0 {
        lemma_inserted_before_nonneg(edits, i - 1);
    }
}

/// The net shift before edit `i` never exceeds the insertions before it, and
/// never removes more than the input up to the previous edit's end.
pub proof fn lemma_delta_before_bounds(edits: Seq<Edit>, i: int)
    requires
        sorted_edits(edits),
        0 <= i <= edits.len(),
    ensures
        delta_before(edits, i) <= inserted_before(edits, i),
        i > 0 ==> delta_before(edits, i) + edits[i - 1].range.end >= inserted_before(edits, i),
        i > 0 ==> delta_before(edits, i) + edits[i - 1].range.end >= edits[0].range.start + inserted_before(edits, i),
        i > 0 ==> delta_before(edits, i) + edits[i - 1].range.end >= 0,
    decreases i,
{
    if i > 0 {
        lemma_delta_before_bounds(edits, i - 1);
        lemma_inserted_before_mono(edits, 0, i - 1);
        if i > 1 {
            assert(edits[i - 2].range.end <= edits[i - 1].range.start);
        }
    }
}

/// An output byte at or after the end of edit `i - 1` in output coordinates
/// has the source that the remaining edits give it, shifted back.
pub proof fn lemma_source_of_skip(edits: Seq<Edit>, i: int, q: int)
    requires
        sorted_edits(edits),
        0 <= i <= edits.len(),
        i > 0 ==> q >= edits[i - 1].range.end + delta_before(edits, i),
    ensures
        source_of(edits, q) == source_of(edits.skip(i), q - delta_before(edits, i)),
    decreases i,
{
    if i == 0 {
        assert(edits.skip(0) =~= edits);
    } else {
        let e = edits[i - 1];
        if i > 1 {
            assert(edits[i - 2].range.end <= e.range.start);
        }
        lemma_source_of_skip(edits, i - 1, q);
        let s = edits.skip(i - 1);
        assert(s[0] == e);
        assert(s.drop_first() =~= edits.skip(i));
    }
}

/// A validated, sorted set of changes. Also maps decorations and selections
/// across a transaction. Positions inside replaced text map to the chosen edge.
#[derive(Debug)]
pub struct ChangeSet {
    pub(crate) edits: Vec<Edit>,
    pub(crate) styles: Vec<StyleChange>,
}

impl Default for ChangeSet {
    fn default() -> (c: Self)
        ensures
            c@.len() == 0,
            c.styles_view().len() == 0,
            c.wf(),
    {
        ChangeSet::empty()
    }
}

impl View for ChangeSet {
    type V = Seq<Edit>;

    closed spec fn view(&self) -> Seq<Edit> {
        self.edits@
    }
}

impl ChangeSet {
    /// Exact style deltas, in output coordinates.
    pub closed spec fn styles_view(&self) -> Seq<StyleChange> {
        self.styles@
    }

    pub open spec fn wf(&self) -> bool {
        sorted_edits(self@) && change_runs(self.styles_view())
    }

    /// No text and no style change.
    pub fn empty() -> (c: Self)
        ensures
            c@.len() == 0,
            c.styles_view().len() == 0,
            c.wf(),
    {
        ChangeSet { edits: Vec::new(), styles: Vec::new() }
    }

    /// Exact style deltas use output coordinates; text edits use input coordinates.
    pub fn style_changes(&self) -> (r: &[StyleChange])
        ensures
            r@ == self.styles_view(),
    {
        self.styles.as_slice()
    }

    pub open spec fn map_spec(&self, pos: int, bias: Bias) -> int {
        map_spec(self@, pos, bias)
    }

    pub fn edits(&self) -> (r: &[Edit])
        ensures
            r@ == self@,
    {
        self.edits.as_slice()
    }

    pub fn is_empty(&self) -> (b: bool)
        ensures
            b == (self@.len() == 0 && self.styles_view().len() == 0),
    {
        self.edits.len() == 0 && self.styles.len() == 0
    }

    /// A copy with the same edits and style changes.
    pub fn duplicate(&self) -> (r: Self)
        ensures
            r@.len() == self@.len(),
            forall|i: int|
                0 <= i < self@.len() ==> (#[trigger] r@[i]).range == self@[i].range && r@[i].insert@ == self@[i].insert@
                    && r@[i].rich_spans() == self@[i].rich_spans(),
            r.styles_view() == self.styles_view(),
            self.wf() ==> r.wf(),
    {
        let mut edits: Vec<Edit> = Vec::new();
        let mut i: usize = 0;
        while i < self.edits.len()
            invariant
                0 <= i <= self.edits@.len(),
                edits@.len() == i,
                forall|k: int|
                    0 <= k < i ==> (#[trigger] edits@[k]).range == self.edits@[k].range && edits@[k].insert@
                        == self.edits@[k].insert@ && edits@[k].rich_spans() == self.edits@[k].rich_spans(),
            decreases self.edits@.len() - i,
        {
            edits.push(self.edits[i].clone());
            i += 1;
        }
        let mut styles: Vec<StyleChange> = Vec::new();
        let mut j: usize = 0;
        while j < self.styles.len()
            invariant
                0 <= j <= self.styles@.len(),
                styles@ == self.styles@.take(j as int),
            decreases self.styles@.len() - j,
        {
            styles.push(self.styles[j].clone());
            j += 1;
            proof {
                assert(styles@ =~= self.styles@.take(j as int));
            }
        }
        proof {
            assert(self.styles@.take(self.styles@.len() as int) =~= self.styles@);
        }
        ChangeSet { edits, styles }
    }

    /// Map a range outward: its start with `Before`, its end with `After`.
    pub fn map_range(&self, range: Range<usize>) -> (r: Range<usize>)
        requires
            self.wf(),
            range.start + total_inserted(self@) <= usize::MAX,
            range.end + total_inserted(self@) <= usize::MAX,
        ensures
            r.start == self.map_spec(range.start as int, Bias::Before),
            r.end == self.map_spec(range.end as int, Bias::After),
    {
        self.map(range.start, Bias::Before)..self.map(range.end, Bias::After)
    }

    /// Heap bytes this change set keeps alive: its edit and style arrays and
    /// the inserted strings, by capacity. Style identities own no heap memory.
    /// The allocator decides the capacities, so only a floor is known: the
    /// bytes the edits, the inserted text and the style changes occupy,
    /// saturated at `usize::MAX`.
    pub fn retained_bytes(&self) -> (r: usize)
        ensures
            r >= saturated(
                self@.len() * vstd::layout::size_of::<Edit>() + total_inserted(self@) + self.styles_view().len()
                    * vstd::layout::size_of::<StyleChange>(),
            ),
    {
        let se = std::mem::size_of::<Edit>();
        let ce = vec_capacity(&self.edits);
        let mut total = saturating_product(ce, se);
        proof {
            assert(ce * se >= self.edits@.len() * se) by (nonlinear_arith)
                requires
                    ce >= self.edits@.len(),
            ;
        }
        let mut i: usize = 0;
        while i < self.edits.len()
            invariant
                0 <= i <= self.edits@.len(),
                se as nat == vstd::layout::size_of::<Edit>(),
                total >= saturated(self.edits@.len() * se + inserted_before(self.edits@, i as int)),
            decreases self.edits@.len() - i,
        {
            let c = string_capacity(&self.edits[i].insert);
            proof {
                assert(inserted_before(self.edits@, i + 1) == inserted_before(self.edits@, i as int)
                    + self.edits@[i as int].ins_len());
                lemma_inserted_before_nonneg(self.edits@, i as int);
            }
            total = total.saturating_add(c);
            i += 1;
        }
        let ss = std::mem::size_of::<StyleChange>();
        let cs = vec_capacity(&self.styles);
        proof {
            assert(cs * ss >= self.styles@.len() * ss) by (nonlinear_arith)
                requires
                    cs >= self.styles@.len(),
            ;
        }
        total.saturating_add(saturating_product(cs, ss))
    }

    pub fn map(&self, position: usize, bias: Bias) -> (r: usize)
        requires
            self.wf(),
            position + total_inserted(self@) <= usize::MAX,
        ensures
            r == self.map_spec(position as int, bias),
    {
        let mut removed: usize = 0;
        let mut added: usize = 0;
        let mut i: usize = 0;
        proof {
            assert(self.edits@.skip(0) =~= self.edits@);
        }
        while i < self.edits.len()
            invariant
                self.wf(),
                0 <= i <= self.edits@.len(),
                position + total_inserted(self.edits@) <= usize::MAX,
                removed <= position,
                i == 0 ==> removed == 0,
                i > 0 ==> removed <= self.edits@[i - 1].range.end,
                added == inserted_before(self.edits@, i as int),
                i > 0 ==> self.edits@[i - 1].range.end <= position,
                map_spec(self.edits@, position as int, bias) == map_spec(
                    self.edits@.skip(i as int),
                    position as int,
                    bias,
                ) + added - removed,
            ensures
                i < self.edits@.len() ==> position < self.edits@[i as int].range.start,
            decreases self.edits@.len() - i,
        {
            let edit = &self.edits[i];
            proof {
                let s = self.edits@.skip(i as int);
                assert(s[0] == self.edits@[i as int]);
                assert(s.drop_first() =~= self.edits@.skip(i + 1));
                lemma_inserted_before_mono(self.edits@, i + 1, self.edits@.len() as int);
            }
            if position < edit.range.start {
                break;
            }
            if position == edit.range.start && edit.range.start == edit.range.end {
                if bias == Bias::Before {
                    return position - removed + added;
                }
                added += edit.insert_len();
                i += 1;
                continue;
            }
            if position < edit.range.end {
                let extra = if bias == Bias::After { edit.insert_len() } else { 0 };
                return edit.range.start - removed + added + extra;
            }
            removed += edit.range.end - edit.range.start;
            added += edit.insert_len();
            i += 1;
        }
        proof {
            let s = self.edits@.skip(i as int);
            lemma_inserted_before_mono(self.edits@, i as int, self.edits@.len() as int);
            if i < self.edits@.len() {
                assert(s[0] == self.edits@[i as int]);
            } else {
                assert(s.len() == 0);
            }
        }
        position - removed + added
    }
}

proof fn lemma_sorted_drop_first(edits: Seq<Edit>)
    requires
        sorted_edits(edits),
        edits.len() > 0,
    ensures
        sorted_edits(edits.drop_first()),
        forall|j: int|
            0 <= j < edits.len() - 1 ==> edits[0].range.end <= #[trigger] edits.drop_first()[j].range.start,
{
    assert forall|j: int| 0 <= j < edits.len() - 1 implies edits[0].range.end <= #[trigger] edits.drop_first()[j].range.start by {
        assert(edits.drop_first()[j] == edits[j + 1]);
    }
    assert forall|i: int, j: int| 0 <= i < j < edits.len() - 1 implies edits.drop_first()[i].range.end <= edits.drop_first()[j].range.start by {
        assert(edits.drop_first()[i] == edits[i + 1]);
        assert(edits.drop_first()[j] == edits[j + 1]);
    }
}

/// Edits that all start at or after `floor` never map a position at or after
/// `floor` below it.
proof fn lemma_map_floor(edits: Seq<Edit>, p: int, bias: Bias, floor: int)
    requires
        sorted_edits(edits),
        p >= floor,
        forall|j: int| 0 <= j < edits.len() ==> floor <= #[trigger] edits[j].range.start,
    ensures
        map_spec(edits, p, bias) >= floor,
    decreases edits.len(),
{
    if edits.len() > 0 {
        let e = edits[0];
        let rest = edits.drop_first();
        lemma_sorted_drop_first(edits);
        if p < e.range.start {
        } else if p == e.range.start && e.range.start == e.range.end {
            if bias == Bias::After {
                lemma_map_floor(rest, p, bias, e.range.end as int);
            }
        } else if p < e.range.end {
        } else {
            lemma_map_floor(rest, p, bias, e.range.end as int);
        }
    }
}

proof fn lemma_sorted_floor(edits: Seq<Edit>)
    requires
        sorted_edits(edits),
        edits.len() > 0,
    ensures
        forall|j: int| 0 <= j < edits.len() ==> edits[0].range.start <= #[trigger] edits[j].range.start,
{
    assert forall|j: int| 0 <= j < edits.len() implies edits[0].range.start <= #[trigger] edits[j].range.start by {
        if j > 0 {
            assert(edits[0].range.end <= edits[j].range.start);
        }
    }
}

/// Mapping preserves order: a later input position never maps before an
/// earlier one, for either bias.
pub proof fn lemma_map_monotonic(edits: Seq<Edit>, p: int, q: int, bias: Bias)
    requires
        sorted_edits(edits),
        p <= q,
    ensures
        map_spec(edits, p, bias) <= map_spec(edits, q, bias),
    decreases edits.len(),
{
    if edits.len() > 0 {
        let e = edits[0];
        let rest = edits.drop_first();
        lemma_sorted_drop_first(edits);
        lemma_sorted_floor(edits);
        if p < e.range.start {
            if q >= e.range.start {
                lemma_map_floor(edits, q, bias, e.range.start as int);
            }
        } else if p == e.range.start && e.range.start == e.range.end {
            if bias == Bias::Before {
                lemma_map_floor(edits, q, bias, e.range.start as int);
            } else {
                lemma_map_monotonic(rest, p, q, bias);
            }
        } else if p < e.range.end {
            if q >= e.range.end {
                lemma_map_floor(rest, q, bias, e.range.end as int);
            }
        } else {
            lemma_map_monotonic(rest, p, q, bias);
        }
    }
}

/// At any position, `Before` never maps past `After`.
pub proof fn lemma_map_bias_order(edits: Seq<Edit>, p: int)
    requires
        sorted_edits(edits),
    ensures
        map_spec(edits, p, Bias::Before) <= map_spec(edits, p, Bias::After),
    decreases edits.len(),
{
    if edits.len() > 0 {
        let e = edits[0];
        let rest = edits.drop_first();
        lemma_sorted_drop_first(edits);
        if p < e.range.start {
        } else if p == e.range.start && e.range.start == e.range.end {
            lemma_map_floor(rest, p, Bias::After, e.range.end as int);
        } else if p < e.range.end {
        } else {
            lemma_map_bias_order(rest, p);
        }
    }
}

} // verus!

verus! {

/// Why a transaction was refused.
#[derive(Debug, PartialEq, Eq)]
pub enum EditError {
    StaleRevision { expected: u64, actual: u64 },
    InvalidRange(Range<usize>),
    OverlappingEdits,
    InvalidSelection,
    CompositionActive,
    Rejected(&'static str),
}

impl Clone for EditError {
    fn clone(&self) -> (e: Self)
        ensures
            e == *self,
    {
        match self {
            EditError::StaleRevision { expected, actual } => EditError::StaleRevision {
                expected: *expected,
                actual: *actual,
            },
            EditError::InvalidRange(r) => EditError::InvalidRange(r.start..r.end),
            EditError::OverlappingEdits => EditError::OverlappingEdits,
            EditError::InvalidSelection => EditError::InvalidSelection,
            EditError::CompositionActive => EditError::CompositionActive,
            EditError::Rejected(m) => EditError::Rejected(m),
        }
    }
}

/// Edit `a` sorts before or together with `b`: by start, then by end.
pub open spec fn key_le(a: Edit, b: Edit) -> bool {
    a.range.start < b.range.start || (a.range.start == b.range.start && a.range.end <= b.range.end)
}

/// Insert `e` before the first edit that it sorts before or together with.
pub open spec fn insert_front(t: Seq<Edit>, e: Edit) -> Seq<Edit>
    decreases t.len(),
{
    if t.len() == 0 {
        seq![e]
    } else if key_le(e, t[0]) {
        seq![e] + t
    } else {
        seq![t[0]] + insert_front(t.drop_first(), e)
    }
}

/// The edits stably sorted by `(start, end)`.
pub open spec fn sort_by_range(s: Seq<Edit>) -> Seq<Edit>
    decreases s.len(),
{
    if s.len() == 0 {
        s
    } else {
        insert_front(sort_by_range(s.drop_first()), s[0])
    }
}

proof fn lemma_insert_front_at(t: Seq<Edit>, e: Edit, p: int)
    requires
        0 <= p <= t.len(),
        forall|j: int| 0 <= j < p ==> !key_le(e, #[trigger] t[j]),
        p < t.len() ==> key_le(e, t[p]),
    ensures
        insert_front(t, e) == t.take(p) + seq![e] + t.skip(p),
    decreases p,
{
    if p == 0 {
        if t.len() > 0 {
            assert(seq![e] + t =~= t.take(0) + seq![e] + t.skip(0));
        } else {
            assert(seq![e] =~= t.take(0) + seq![e] + t.skip(0));
        }
    } else {
        let r = t.drop_first();
        assert(!key_le(e, t[0]));
        assert forall|j: int| 0 <= j < p - 1 implies !key_le(e, #[trigger] r[j]) by {
            assert(r[j] == t[j + 1]);
        }
        if p - 1 < r.len() {
            assert(r[p - 1] == t[p]);
        }
        lemma_insert_front_at(r, e, p - 1);
        assert(seq![t[0]] + (r.take(p - 1) + seq![e] + r.skip(p - 1)) =~= t.take(p) + seq![e] + t.skip(p));
    }
}

fn key_le_exec(a: &Edit, b: &Edit) -> (r: bool)
    ensures
        r == key_le(*a, *b),
{
    a.range.start < b.range.start || (a.range.start == b.range.start && a.range.end <= b.range.end)
}

/// Stable sort by `(start, end)`.
fn sort_edits(edits: Vec<Edit>) -> (r: Vec<Edit>)
    ensures
        r@ == sort_by_range(edits@),
{
    let ghost orig = edits@;
    let mut edits = edits;
    let mut out: Vec<Edit> = Vec::new();
    proof {
        assert(orig.skip(orig.len() as int) =~= Seq::<Edit>::empty());
        assert(orig.take(orig.len() as int) =~= orig);
    }
    while edits.len() > 0
        invariant
            edits@ == orig.take(edits@.len() as int),
            edits@.len() <= orig.len(),
            out@ == sort_by_range(orig.skip(edits@.len() as int)),
        decreases edits@.len(),
    {
        let ghost k = edits@.len() as int;
        let e = edits.pop().unwrap();
        proof {
            assert(e == orig[k - 1]);
            assert(edits@ =~= orig.take(k - 1));
            assert(orig.skip(k - 1).drop_first() =~= orig.skip(k));
            assert(orig.skip(k - 1)[0] == orig[k - 1]);
        }
        let mut p: usize = 0;
        while p < out.len() && !key_le_exec(&e, &out[p])
            invariant
                p <= out@.len(),
                forall|j: int| 0 <= j < p ==> !key_le(e, #[trigger] out@[j]),
            decreases out@.len() - p,
        {
            p += 1;
        }
        proof {
            lemma_insert_front_at(out@, e, p as int);
        }
        let ghost before = out@;
        out.insert(p, e);
        proof {
            assert(out@ =~= before.take(p as int) + seq![e] + before.skip(p as int));
        }
    }
    proof {
        assert(orig.skip(0) =~= orig);
    }
    out
}

} // verus!

verus! {

/// Versioned text with canonical formatting. Storage is private so a chunked
/// implementation serves large documents without changing transactions.
#[derive(Debug)]
pub struct Document {
    text: TextBuffer,
    spans: Vec<StyleSpan>,
    id: u64,
    revision: u64,
}

impl View for Document {
    type V = Seq<char>;

    closed spec fn view(&self) -> Seq<char> {
        self.text@
    }
}

impl Document {
    /// Formatting of the text.
    pub closed spec fn spans_view(&self) -> Seq<StyleSpan> {
        self.spans@
    }

    pub closed spec fn revision_spec(&self) -> u64 {
        self.revision
    }

    pub closed spec fn id_spec(&self) -> u64 {
        self.id
    }

    pub closed spec fn options_spec(&self) -> BufferOptions {
        self.text.options()
    }

    /// The formatting is canonical and ends within the text.
    pub open spec fn wf(&self) -> bool {
        canonical(self.spans_view()) && end_of(self.spans_view()) <= utf8(self@).len()
    }

    /// A document with identity `id`; each document takes a fresh one.
    pub fn new(text: String, id: u64) -> (d: Self)
        ensures
            d.wf(),
            d@ == text@,
            d.spans_view().len() == 0,
            d.id_spec() == id,
            d.revision_spec() == 0,
    {
        Document { text: TextBuffer::new(text, BufferOptions::default()), spans: Vec::new(), id, revision: 0 }
    }

    pub fn with_buffer_options(text: String, options: BufferOptions, id: u64) -> (d: Self)
        ensures
            d.wf(),
            d@ == text@,
            d.spans_view().len() == 0,
            d.id_spec() == id,
            d.revision_spec() == 0,
            d.options_spec() == options,
    {
        Document { text: TextBuffer::new(text, options), spans: Vec::new(), id, revision: 0 }
    }

    pub fn from_rich(content: RichText, id: u64) -> (d: Self)
        requires
            spans_fit(utf8(content.text@), content.spans@),
        ensures
            d.wf(),
            d@ == content.text@,
            d.spans_view() == content.spans@,
            d.id_spec() == id,
            d.revision_spec() == 0,
    {
        proof {
            lemma_spans_fit_end(content.text@, content.spans@);
        }
        Document {
            text: TextBuffer::new(content.text, BufferOptions::default()),
            spans: content.spans,
            id,
            revision: 0,
        }
    }

    pub fn id(&self) -> (r: u64)
        ensures
            r == self.id_spec(),
    {
        self.id
    }

    /// A copy of the formatting for readers that outlive this revision.
    pub fn style_snapshot(&self) -> (r: Vec<StyleSpan>)
        ensures
            r@ == self.spans_view(),
    {
        let r = self.spans.clone();
        proof {
            assert(r@ =~= self.spans@);
        }
        r
    }

    pub fn snapshot(&self) -> (r: TextSnapshot)
        ensures
            r@ == self@,
    {
        self.text.snapshot()
    }

    pub fn buffer(&self) -> (r: &TextBuffer)
        ensures
            r@ == self@,
    {
        &self.text
    }

    pub fn spans(&self) -> (r: &[StyleSpan])
        ensures
            r@ == self.spans_view(),
    {
        self.spans.as_slice()
    }

    /// Explicit snapshot of text and formatting together.
    pub fn rich_text(&self) -> (r: RichText)
        requires
            self.wf(),
        ensures
            r.text@ == self@,
            r.spans@ == self.spans_view(),
    {
        let s = cow_into_string(self.text.as_str());
        let spans = self.spans.clone();
        proof {
            assert(spans@ =~= self.spans@);
        }
        RichText { text: s, spans }
    }

    /// Text and formatting of a valid range, rebased to start at zero.
    pub fn rich_slice(&self, range: Range<usize>) -> (r: Option<RichText>)
        requires
            self.wf(),
        ensures
            r is Some ==> valid_range(utf8(self@), range.start as int, range.end as int),
            r matches Some(r) ==> utf8(r.text@) == utf8(self@).subrange(range.start as int, range.end as int)
                && spans_fit(utf8(r.text@), r.spans@)
                && forall|q: int| #[trigger] style_of(r.spans@, q) == if 0 <= q < range.end - range.start {
                    style_of(self.spans_view(), range.start + q)
                } else {
                    StyleId(0)
                },
            r is None <==> !valid_range(utf8(self@), range.start as int, range.end as int) || exists|t: Seq<StyleSpan>|
                canonical(t) && !spans_fit(utf8(self@).subrange(range.start as int, range.end as int), t)
                && forall|q: int| #[trigger] style_of(t, q) == if 0 <= q < range.end - range.start {
                    style_of(self.spans_view(), range.start + q)
                } else {
                    StyleId(0)
                },
    {
        let text = match self.text.read(range.start..range.end) {
            Some(t) => t,
            None => return None,
        };
        let spans = slice(self.spans.as_slice(), range.start..range.end);
        let ghost sv = spans@;
        let r = RichText::from_spans(cow_into_string(text), spans);
        proof {
            if r is None {
                assert(canonical(sv) && !spans_fit(utf8(self@).subrange(range.start as int, range.end as int), sv));
            } else {
                let out = r->0.spans@;
                assert forall|t: Seq<StyleSpan>| canonical(t) && (forall|q: int| #[trigger] style_of(t, q) == if 0 <= q
                    < range.end - range.start {
                    style_of(self.spans_view(), range.start + q)
                } else {
                    StyleId(0)
                }) implies spans_fit(utf8(self@).subrange(range.start as int, range.end as int), t) by {
                    assert forall|q: int| #[trigger] style_of(t, q) == style_of(out, q) by {}
                    super::format::lemma_canonical_unique(t, out);
                }
            }
        }
        r
    }

    /// Before selects the preceding character's style at a boundary. At zero,
    /// both biases select the following character; gaps have no overrides.
    pub fn style_at(&self, position: usize, bias: Bias) -> (r: Option<StyleId>)
        requires
            self.wf(),
        ensures
            r is Some <==> is_char_boundary(utf8(self@), position as int),
            r matches Some(s) ==> s == inherited_style(self.spans_view(), position as int, bias),
    {
        if self.text.is_char_boundary(position) {
            Some(style_at(self.spans.as_slice(), position, bias == Bias::Before))
        } else {
            None
        }
    }

    pub fn read(&self, range: Range<usize>) -> (r: Option<Cow<'_, str>>)
        ensures
            r is Some <==> valid_range(utf8(self@), range.start as int, range.end as int),
            r matches Some(t) ==> utf8(t@) == utf8(self@).subrange(range.start as int, range.end as int),
    {
        self.text.read(range)
    }

    pub fn is_char_boundary(&self, p: usize) -> (b: bool)
        ensures
            b == is_char_boundary(utf8(self@), p as int),
    {
        self.text.is_char_boundary(p)
    }

    pub fn text(&self) -> (r: Cow<'_, str>)
        ensures
            r@ == self@,
    {
        self.text.as_str()
    }

    pub fn revision(&self) -> (r: u64)
        ensures
            r == self.revision_spec(),
    {
        self.revision
    }

    pub fn len(&self) -> (n: usize)
        ensures
            n == utf8(self@).len(),
    {
        self.text.len()
    }

    pub fn is_empty(&self) -> (b: bool)
        ensures
            b == (utf8(self@).len() == 0),
    {
        self.text.len() == 0
    }

    /// The text of a valid range.
    pub fn slice(&self, range: Range<usize>) -> (r: Option<Cow<'_, str>>)
        ensures
            r is Some <==> valid_range(utf8(self@), range.start as int, range.end as int),
            r matches Some(t) ==> utf8(t@) == utf8(self@).subrange(range.start as int, range.end as int),
    {
        self.text.read(range)
    }

    pub fn capacity(&self) -> (n: usize)
        ensures
            n >= utf8(self@).len(),
    {
        self.text.capacity()
    }

    /// Copy for checking constraints against intermediate history revisions
    /// without touching live state; keeps identity and revision.
    pub fn history_probe(&self) -> (d: Self)
        ensures
            d@ == self@,
            d.spans_view() == self.spans_view(),
            d.id_spec() == self.id_spec(),
            d.revision_spec() == self.revision_spec(),
            d.options_spec() == self.options_spec(),
    {
        let spans = self.spans.clone();
        proof {
            assert(spans@ =~= self.spans@);
        }
        Document { text: self.text.clone(), spans, id: self.id, revision: self.revision }
    }
}

/// The style new text takes at `position`: the preceding character's with
/// `Before` (except at zero), the following character's otherwise.
pub open spec fn inherited_style(spans: Seq<StyleSpan>, position: int, bias: Bias) -> StyleId {
    if bias == Bias::Before && position > 0 {
        style_of(spans, position - 1)
    } else {
        style_of(spans, position)
    }
}

} // verus!

verus! {

/// The edit with its formatting request dropped.
pub open spec fn strip(e: Edit) -> Edit {
    Edit { range: e.range, insert: e.insert, spans: None }
}

/// The edit would write back exactly the bytes it replaces.
pub open spec fn unchanged(bytes: Seq<u8>, e: Edit) -> bool {
    valid_range(bytes, e.range.start as int, e.range.end as int) && bytes.subrange(
        e.range.start as int,
        e.range.end as int,
    ) == utf8(e.insert@)
}

/// The edits that change text, without formatting requests, in order.
pub open spec fn changed_edits(bytes: Seq<u8>, s: Seq<Edit>) -> Seq<Edit>
    decreases s.len(),
{
    if s.len() == 0 {
        s
    } else if unchanged(bytes, s.last()) {
        changed_edits(bytes, s.drop_last())
    } else {
        changed_edits(bytes, s.drop_last()).push(strip(s.last()))
    }
}

/// The first problem with sorted edits from index `i` on: a range that is
/// reversed or off a char boundary, or a range overlapping (or starting with)
/// its predecessor.
pub open spec fn check_edits(bytes: Seq<u8>, s: Seq<Edit>, i: int) -> Option<EditError>
    decreases s.len() - i,
{
    if i < 0 || i >= s.len() {
        None
    } else if !valid_range(bytes, s[i].range.start as int, s[i].range.end as int) {
        Some(EditError::InvalidRange(s[i].range))
    } else if i > 0 && (s[i - 1].range.end > s[i].range.start || s[i - 1].range.start
        == s[i].range.start) {
        Some(EditError::OverlappingEdits)
    } else {
        check_edits(bytes, s, i + 1)
    }
}

/// Exact formatting requests fit their inserted text.
pub open spec fn rich_fits(e: Edit) -> bool {
    e.rich_spans() matches Some(sp) ==> spans_fit(utf8(e.insert@), sp) || empty_request(utf8(e.insert@), sp)
}

/// Formatting asked for an empty insertion, every span empty: it styles
/// nothing.
pub open spec fn empty_request(bytes: Seq<u8>, sp: Seq<StyleSpan>) -> bool {
    &&& bytes.len() == 0
    &&& forall|j: int| 0 <= j < sp.len() ==> (#[trigger] sp[j]).range.start == 0 && sp[j].range.end == 0
}

/// Formatting requests that set no style at all.
pub open spec fn plain(e: Edit) -> bool {
    e.rich_spans() matches Some(sp) ==> forall|j: int| 0 <= j < sp.len() ==> (#[trigger] sp[j]).style.is_default()
}

/// Why `prepare` refuses, if it does.
pub open spec fn prepare_error(bytes: Seq<u8>, revision: u64, current: u64, s: Seq<Edit>) -> Option<EditError> {
    if revision != current {
        Some(EditError::StaleRevision { expected: revision, actual: current })
    } else if check_edits(bytes, s, 0) is Some {
        check_edits(bytes, s, 0)
    } else if exists|i: int| 0 <= i < s.len() && !rich_fits(#[trigger] s[i]) {
        Some(EditError::Rejected("invalid rich insertion"))
    } else {
        None
    }
}

/// The formatting an edit gives its inserted text: its exact spans, or the
/// style inherited at the insertion point over the whole insertion.
pub open spec fn edit_styles(doc: Seq<StyleSpan>, e: Edit) -> Seq<StyleSpan> {
    match e.rich_spans() {
        Some(sp) => sp,
        None => {
            let st = inherited_style(
                doc,
                e.range.start as int,
                if e.range.start == e.range.end {
                    Bias::Before
                } else {
                    Bias::After
                },
            );
            if st.is_default() || e.ins_len() == 0 {
                Seq::empty()
            } else {
                seq![StyleSpan { range: 0..e.ins_len() as usize, style: st }]
            }
        },
    }
}

/// An edit whose inserted text receives exact formatting.
pub open spec fn restyled(bytes: Seq<u8>, e: Edit) -> bool {
    e.rich_spans() is Some || !unchanged(bytes, e)
}

/// Output offset where sorted edit `i` inserts.
pub open spec fn out_start(s: Seq<Edit>, i: int) -> int {
    s[i].range.start + delta_before(s, i)
}

/// The formatting that the first `n` sorted edits give output byte `q`.
pub open spec fn inserted_style(bytes: Seq<u8>, doc: Seq<StyleSpan>, s: Seq<Edit>, n: int, q: int) -> Option<StyleId>
    decreases n,
{
    if n <= 0 {
        None
    } else if restyled(bytes, s[n - 1]) && out_start(s, n - 1) <= q < out_start(s, n - 1) + s[n - 1].ins_len() {
        Some(style_of(edit_styles(doc, s[n - 1]), q - out_start(s, n - 1)))
    } else {
        inserted_style(bytes, doc, s, n - 1, q)
    }
}

/// The style of output byte `q` after the sorted edits apply to the document.
pub open spec fn target_style(bytes: Seq<u8>, doc: Seq<StyleSpan>, s: Seq<Edit>, q: int) -> StyleId {
    match inserted_style(bytes, doc, s, s.len() as int, q) {
        Some(st) => st,
        None => mapped_style(doc, changed_edits(bytes, s), q),
    }
}

} // verus!

verus! {

pub proof fn lemma_total_concat(a: Seq<Edit>, b: Seq<Edit>)
    ensures
        total_inserted(a + b) == total_inserted(a) + total_inserted(b),
    decreases b.len(),
{
    if b.len() == 0 {
        assert(a + b =~= a);
    } else {
        lemma_total_concat(a, b.drop_last());
        assert((a + b).drop_last() =~= a + b.drop_last());
        assert(inserted_before(a + b, (a + b).len() as int) == inserted_before(a + b, (a + b).len() - 1) + b.last().ins_len());
        lemma_inserted_before_prefix(a + b, (a + b).len() - 1);
        lemma_inserted_before_prefix(b, b.len() - 1);
    }
}

/// The insertions before index `i` depend only on the first `i` edits.
pub proof fn lemma_inserted_before_prefix(s: Seq<Edit>, i: int)
    requires
        0 <= i <= s.len(),
    ensures
        inserted_before(s, i) == total_inserted(s.take(i)),
    decreases i,
{
    if i > 0 {
        lemma_inserted_before_prefix(s, i - 1);
        assert(s.take(i).take(i - 1) =~= s.take(i - 1));
        lemma_inserted_before_prefix(s.take(i), i - 1);
    } else {
        assert(s.take(0).len() == 0);
    }
}

proof fn lemma_total_insert_front(t: Seq<Edit>, e: Edit)
    ensures
        total_inserted(insert_front(t, e)) == total_inserted(t) + e.ins_len(),
    decreases t.len(),
{
    if t.len() == 0 {
        assert(inserted_before(seq![e], 1) == inserted_before(seq![e], 0) + e.ins_len());
    } else if key_le(e, t[0]) {
        lemma_total_concat(seq![e], t);
        assert(inserted_before(seq![e], 1) == inserted_before(seq![e], 0) + e.ins_len());
    } else {
        lemma_total_insert_front(t.drop_first(), e);
        lemma_total_concat(seq![t[0]], insert_front(t.drop_first(), e));
        lemma_total_concat(seq![t[0]], t.drop_first());
        assert(seq![t[0]] + t.drop_first() =~= t);
    }
}

/// Sorting keeps the total inserted bytes.
pub proof fn lemma_total_sorted(s: Seq<Edit>)
    ensures
        total_inserted(sort_by_range(s)) == total_inserted(s),
    decreases s.len(),
{
    if s.len() > 0 {
        lemma_total_sorted(s.drop_first());
        lemma_total_insert_front(sort_by_range(s.drop_first()), s[0]);
        lemma_total_concat(seq![s[0]], s.drop_first());
        assert(seq![s[0]] + s.drop_first() =~= s);
        assert(inserted_before(seq![s[0]], 1) == inserted_before(seq![s[0]], 0) + s[0].ins_len());
    }
}

/// Keeping only changing edits keeps them sorted and inserts no more.
pub proof fn lemma_changed_edits(bytes: Seq<u8>, s: Seq<Edit>)
    requires
        sorted_edits(s),
    ensures
        sorted_edits(changed_edits(bytes, s)),
        total_inserted(changed_edits(bytes, s)) <= total_inserted(s),
        forall|j: int| 0 <= j < changed_edits(bytes, s).len() ==> exists|k: int| 0 <= k < s.len() && (#[trigger] changed_edits(bytes, s)[j]).range == s[k].range,
        forall|j: int| 0 <= j < changed_edits(bytes, s).len() ==> (#[trigger] changed_edits(bytes, s)[j]).rich_spans() is None,
    decreases s.len(),
{
    if s.len() > 0 {
        let d = s.drop_last();
        assert(sorted_edits(d)) by {
            assert forall|i: int, j: int| 0 <= i < j < d.len() implies d[i].range.end <= d[j].range.start by {
                assert(s[i].range.end <= s[j].range.start);
            }
        }
        lemma_changed_edits(bytes, d);
        let c = changed_edits(bytes, d);
        lemma_total_concat(d, seq![s.last()]);
        assert(d + seq![s.last()] =~= s);
        assert(inserted_before(seq![s.last()], 1) == inserted_before(seq![s.last()], 0) + s.last().ins_len());
        if !unchanged(bytes, s.last()) {
            let n = c.push(strip(s.last()));
            assert(n == changed_edits(bytes, s));
            lemma_total_concat(c, seq![strip(s.last())]);
            assert(c + seq![strip(s.last())] =~= n);
            assert(inserted_before(seq![strip(s.last())], 1) == inserted_before(seq![strip(s.last())], 0) + strip(s.last()).ins_len());
            assert forall|j: int| 0 <= j < n.len() implies exists|k: int| 0 <= k < s.len() && (#[trigger] n[j]).range == s[k].range by {
                if j < c.len() {
                    let k = choose|k: int| 0 <= k < d.len() && c[j].range == d[k].range;
                    assert(n[j].range == s[k].range);
                } else {
                    assert(n[j].range == s[s.len() - 1].range);
                }
            }
            assert(sorted_edits(n)) by {
                assert forall|i: int, j: int| 0 <= i < j < n.len() implies n[i].range.end <= n[j].range.start by {
                    let ki = choose|k: int| 0 <= k < d.len() && c[i].range == d[k].range;
                    if j < c.len() {
                    } else {
                        assert(s[ki].range.end <= s[s.len() - 1].range.start);
                    }
                }
                assert forall|i: int| 0 <= i < n.len() implies n[i].range.start <= n[i].range.end by {
                    if i < c.len() {
                    } else {
                        assert(s[s.len() - 1].range.start <= s[s.len() - 1].range.end);
                    }
                }
            }
        } else {
            assert(c == changed_edits(bytes, s));
            assert forall|j: int| 0 <= j < c.len() implies exists|k: int| 0 <= k < s.len() && (#[trigger] c[j]).range == s[k].range by {
                let k = choose|k: int| 0 <= k < d.len() && c[j].range == d[k].range;
                assert(c[j].range == s[k].range);
            }
        }
    }
}

} // verus!

verus! {

/// Sorted when each edit is well formed and ends by the next one's start.
proof fn lemma_consecutive_sorted(s: Seq<Edit>)
    requires
        forall|t: int| 0 <= t < s.len() ==> (#[trigger] s[t]).range.start <= s[t].range.end,
        forall|t: int| 0 < t < s.len() ==> s[t - 1].range.end <= (#[trigger] s[t]).range.start,
    ensures
        sorted_edits(s),
{
    assert forall|i: int, j: int| 0 <= i < j < s.len() implies s[i].range.end <= s[j].range.start by {
        lemma_consecutive_pair(s, i, j);
    }
}

proof fn lemma_consecutive_pair(s: Seq<Edit>, i: int, j: int)
    requires
        forall|t: int| 0 <= t < s.len() ==> (#[trigger] s[t]).range.start <= s[t].range.end,
        forall|t: int| 0 < t < s.len() ==> s[t - 1].range.end <= (#[trigger] s[t]).range.start,
        0 <= i < j < s.len(),
    ensures
        s[i].range.end <= s[j].range.start,
    decreases j - i,
{
    if j > i + 1 {
        lemma_consecutive_pair(s, i, j - 1);
        assert(s[j - 1].range.start <= s[j - 1].range.end);
        assert(s[j - 1].range.end <= s[j].range.start);
    } else {
        assert(s[j - 1].range.end <= s[j].range.start);
    }
}

impl Document {
    /// Check sorted edits in order; the first problem wins.
    fn check_sorted(&self, edits: &Vec<Edit>) -> (r: Option<EditError>)
        ensures
            r == check_edits(utf8(self@), edits@, 0),
            r is None ==> sorted_edits(edits@),
            r is None ==> forall|t: int| 0 <= t < edits@.len() ==> valid_range(utf8(self@), (#[trigger] edits@[t]).range.start as int, edits@[t].range.end as int),
    {
        let ghost b = utf8(self@);
        let ghost s = edits@;
        let mut i: usize = 0;
        while i < edits.len()
            invariant
                s == edits@,
                b == utf8(self@),
                0 <= i <= s.len(),
                check_edits(b, s, 0) == check_edits(b, s, i as int),
                forall|t: int| 0 <= t < i ==> valid_range(b, (#[trigger] s[t]).range.start as int, s[t].range.end as int),
                forall|t: int| 0 < t < i ==> s[t - 1].range.end <= (#[trigger] s[t]).range.start,
            decreases s.len() - i,
        {
            let edit = &edits[i];
            if edit.range.start > edit.range.end || !self.text.is_char_boundary(edit.range.start)
                || !self.text.is_char_boundary(edit.range.end) {
                return Some(EditError::InvalidRange(edit.range.start..edit.range.end));
            }
            if i > 0 {
                let previous = &edits[i - 1];
                if previous.range.end > edit.range.start || previous.range.start == edit.range.start {
                    return Some(EditError::OverlappingEdits);
                }
            }
            i += 1;
        }
        proof {
            assert forall|t: int| 0 <= t < s.len() implies (#[trigger] s[t]).range.start <= s[t].range.end by {
                assert(valid_range(b, s[t].range.start as int, s[t].range.end as int));
            }
            lemma_consecutive_sorted(s);
        }
        None
    }
}

/// Whether every span is empty at zero.
fn all_empty(spans: &[StyleSpan]) -> (ok: bool)
    ensures
        ok == forall|j: int| 0 <= j < spans@.len() ==> (#[trigger] spans@[j]).range.start == 0 && spans@[j].range.end == 0,
{
    let mut i: usize = 0;
    while i < spans.len()
        invariant
            0 <= i <= spans@.len(),
            forall|j: int| 0 <= j < i ==> (#[trigger] spans@[j]).range.start == 0 && spans@[j].range.end == 0,
        decreases spans@.len() - i,
    {
        if spans[i].range.start != 0 || spans[i].range.end != 0 {
            return false;
        }
        i += 1;
    }
    true
}

/// Whether every exact formatting request fits its inserted text.
fn check_rich(edits: &Vec<Edit>) -> (ok: bool)
    ensures
        ok == forall|i: int| 0 <= i < edits@.len() ==> rich_fits(#[trigger] edits@[i]),
{
    let ghost s = edits@;
    let mut i: usize = 0;
    while i < edits.len()
        invariant
            s == edits@,
            0 <= i <= s.len(),
            forall|t: int| 0 <= t < i ==> rich_fits(#[trigger] s[t]),
        decreases s.len() - i,
    {
        match &edits[i].spans {
            Some(spans) => {
                if !validate_spans(edits[i].insert.as_str(), spans.as_slice()) && !(str_len(edits[i].insert.as_str()) == 0
                    && all_empty(spans.as_slice())) {
                    proof {
                        assert(!rich_fits(s[i as int]));
                    }
                    return false;
                }
            },
            None => {},
        }
        proof {
            assert(rich_fits(s[i as int]));
        }
        i += 1;
    }
    true
}

/// Whether no edit requests any style.
fn all_plain(edits: &Vec<Edit>) -> (ok: bool)
    ensures
        ok == forall|i: int| 0 <= i < edits@.len() ==> plain(#[trigger] edits@[i]),
{
    let ghost s = edits@;
    let mut i: usize = 0;
    while i < edits.len()
        invariant
            s == edits@,
            0 <= i <= s.len(),
            forall|t: int| 0 <= t < i ==> plain(#[trigger] s[t]),
        decreases s.len() - i,
    {
        match &edits[i].spans {
            Some(spans) => {
                let mut j: usize = 0;
                while j < spans.len()
                    invariant
                        s == edits@,
                        0 <= i < s.len(),
                        s[i as int].rich_spans() == Some(spans@),
                        forall|t: int| 0 <= t < i ==> plain(#[trigger] s[t]),
                        0 <= j <= spans@.len(),
                        forall|u: int| 0 <= u < j ==> (#[trigger] spans@[u]).style.is_default(),
                    decreases spans@.len() - j,
                {
                    if spans[j].style.0 != 0 {
                        proof {
                            let sp = s[i as int].rich_spans()->0;
                            assert(sp[j as int] == spans@[j as int]);
                            assert(!(sp[j as int]).style.is_default());
                            assert(!plain(s[i as int]));
                        }
                        return false;
                    }
                    j += 1;
                }
            },
            None => {},
        }
        proof {
            assert(plain(s[i as int]));
        }
        i += 1;
    }
    true
}

impl Document {
    /// The edits that change text, without formatting requests, in order.
    fn keep_changed(&self, edits: &Vec<Edit>) -> (r: Vec<Edit>)
        ensures
            r@ == changed_edits(utf8(self@), edits@),
    {
        let ghost b = utf8(self@);
        let ghost s = edits@;
        let mut out: Vec<Edit> = Vec::new();
        let mut i: usize = 0;
        proof {
            assert(s.take(0) =~= Seq::<Edit>::empty());
        }
        while i < edits.len()
            invariant
                s == edits@,
                b == utf8(self@),
                0 <= i <= s.len(),
                out@ == changed_edits(b, s.take(i as int)),
            decreases s.len() - i,
        {
            let edit = &edits[i];
            let same = self.text.equals(edit.range.start..edit.range.end, edit.insert.as_str());
            proof {
                assert(s.take(i + 1).drop_last() =~= s.take(i as int));
                assert(s.take(i + 1).last() == s[i as int]);
            }
            if !same {
                out.push(Edit { range: edit.range.start..edit.range.end, insert: edit.insert.clone(), spans: None });
            }
            i += 1;
        }
        proof {
            assert(s.take(s.len() as int) =~= s);
        }
        out
    }
}

} // verus!

verus! {

/// Append changes covering `start..start + len` with the styles of `spans`,
/// gaps explicitly unformatted.
fn push_edit_styles(inserted: &mut Vec<StyleChange>, start: usize, len: usize, spans: &[StyleSpan])
    requires
        sorted_changes(old(inserted)@),
        changes_end(old(inserted)@) <= start,
        canonical(spans@),
        end_of(spans@) <= len,
        start + len <= usize::MAX,
    ensures
        sorted_changes(final(inserted)@),
        changes_end(final(inserted)@) <= start + len,
        forall|q: int| #[trigger] change_at(final(inserted)@, q) == if start <= q < start + len {
            Some(style_of(spans@, q - start))
        } else {
            change_at(old(inserted)@, q)
        },
{
    let ghost s = spans@;
    let ghost before = inserted@;
    let mut cursor: usize = 0;
    let mut k: usize = 0;
    proof {
        assert forall|q: int| #[trigger] change_at(inserted@, q) == if start <= q < start + cursor {
            Some(style_of(s, q - start))
        } else {
            change_at(before, q)
        } by {}
    }
    while k < spans.len()
        invariant
            s == spans@,
            canonical(s),
            end_of(s) <= len,
            start + len <= usize::MAX,
            0 <= k <= s.len(),
            cursor <= len,
            k > 0 ==> cursor == s[k - 1].range.end,
            k == 0 ==> cursor == 0,
            changes_end(before) <= start,
            sorted_changes(before),
            sorted_changes(inserted@),
            changes_end(inserted@) <= start + cursor,
            forall|q: int| #[trigger] change_at(inserted@, q) == if start <= q < start + cursor {
                Some(style_of(s, q - start))
            } else {
                change_at(before, q)
            },
        decreases s.len() - k,
    {
        let span = &spans[k];
        proof {
            assert(s[k as int].range.start < s[k as int].range.end);
            if k > 0 {
                assert(s[k - 1].range.end <= s[k as int].range.start);
            }
            if k < s.len() - 1 {
                assert(s[k as int].range.end <= s[s.len() - 1].range.start);
                assert(s[s.len() - 1].range.start < s[s.len() - 1].range.end);
            }
        }
        if cursor < span.range.start {
            let ghost prev = inserted@;
            inserted.push(StyleChange { range: start + cursor..start + span.range.start, style: StyleId(0) });
            proof {
                lemma_push_change(prev, StyleChange { range: (start + cursor) as usize..(start + span.range.start) as usize, style: StyleId(0) });
            }
        }
        let ghost mid = inserted@;
        inserted.push(StyleChange { range: start + span.range.start..start + span.range.end, style: span.style });
        proof {
            lemma_push_change(mid, StyleChange { range: (start + span.range.start) as usize..(start + span.range.end) as usize, style: s[k as int].style });
            let nc = s[k as int].range.end;
            assert forall|q: int| #[trigger] change_at(inserted@, q) == if start <= q < start + nc {
                Some(style_of(s, q - start))
            } else {
                change_at(before, q)
            } by {
                lemma_style_of(s, q - start);
                if start + cursor <= q < start + s[k as int].range.start {
                    assert forall|t: int| 0 <= t < s.len() implies !#[trigger] covers(s[t], q - start) by {
                        if t < k {
                            if t < k - 1 {
                                assert(s[t].range.end <= s[k - 1].range.start);
                                assert(s[k - 1].range.start < s[k - 1].range.end);
                            }
                        } else if t > k {
                            assert(s[k as int].range.end <= s[t].range.start);
                        }
                    }
                } else if start + s[k as int].range.start <= q < start + nc {
                    assert(covers(s[k as int], q - start));
                }
            }
        }
        cursor = span.range.end;
        k += 1;
    }
    if cursor < len {
        let ghost prev = inserted@;
        inserted.push(StyleChange { range: start + cursor..start + len, style: StyleId(0) });
        proof {
            lemma_push_change(prev, StyleChange { range: (start + cursor) as usize..(start + len) as usize, style: StyleId(0) });
        }
    }
    proof {
        assert forall|q: int| #[trigger] change_at(inserted@, q) == if start <= q < start + len {
            Some(style_of(s, q - start))
        } else {
            change_at(before, q)
        } by {
            if start + cursor <= q < start + len {
                lemma_style_of(s, q - start);
                assert forall|t: int| 0 <= t < s.len() implies !#[trigger] covers(s[t], q - start) by {
                    if t < s.len() - 1 {
                        assert(s[t].range.end <= s[s.len() - 1].range.start);
                        assert(s[s.len() - 1].range.start < s[s.len() - 1].range.end);
                    }
                }
            }
        }
    }
}

/// Appending a change after all others keeps the list sorted and only adds
/// the new change's range.
proof fn lemma_push_change(prev: Seq<StyleChange>, c: StyleChange)
    requires
        sorted_changes(prev),
        changes_end(prev) <= c.range.start,
        c.range.start <= c.range.end,
    ensures
        sorted_changes(prev.push(c)),
        changes_end(prev.push(c)) == c.range.end,
        forall|q: int| #[trigger] change_at(prev.push(c), q) == if c.range.start <= q < c.range.end {
            Some(c.style)
        } else {
            change_at(prev, q)
        },
{
    let cur = prev.push(c);
    assert forall|i: int, j: int| 0 <= i < j < cur.len() implies #[trigger] cur[i].range.end <= #[trigger] cur[j].range.start by {
        if j == prev.len() {
            if i < prev.len() - 1 {
                assert(prev[i].range.end <= prev[prev.len() - 1].range.start);
                assert(prev[prev.len() - 1].range.start <= prev[prev.len() - 1].range.end);
            }
        } else {
            assert(prev[i].range.end <= prev[j].range.start);
        }
    }
    assert forall|i: int| 0 <= i < cur.len() implies #[trigger] cur[i].range.start <= cur[i].range.end by {
        if i < prev.len() {
            assert(prev[i].range.start <= prev[i].range.end);
        }
    }
    assert forall|q: int| #[trigger] change_at(cur, q) == if c.range.start <= q < c.range.end {
        Some(c.style)
    } else {
        change_at(prev, q)
    } by {
        lemma_change_at(prev, q);
        lemma_change_at(cur, q);
        if c.range.start <= q < c.range.end {
            assert(change_covers(cur[prev.len() as int], q));
        } else if exists|t: int| 0 <= t < cur.len() && #[trigger] change_covers(cur[t], q) {
            let t = choose|t: int| 0 <= t < cur.len() && #[trigger] change_covers(cur[t], q);
            assert(change_covers(prev[t], q));
        } else {
            assert forall|t: int| 0 <= t < prev.len() implies !#[trigger] change_covers(prev[t], q) by {
                assert(!change_covers(cur[t], q));
            }
        }
    }
}

} // verus!

verus! {

/// Spans that fit a text end within it.
proof fn lemma_spans_fit_end(text: Seq<char>, sp: Seq<StyleSpan>)
    requires
        spans_fit(utf8(text), sp),
    ensures
        end_of(sp) <= utf8(text).len(),
{
    if sp.len() > 0 {
        assert(on_boundaries(utf8(text), sp[sp.len() - 1]));
        lemma_boundary_in_bounds(text, sp.last().range.end as int);
    }
}

impl Document {
    /// Exact output formatting for the inserted text of each restyled edit.
    fn inserted_changes(&self, edits: &Vec<Edit>) -> (r: Vec<StyleChange>)
        requires
            self.wf(),
            sorted_edits(edits@),
            forall|t: int| 0 <= t < edits@.len() ==> valid_range(utf8(self@), (#[trigger] edits@[t]).range.start as int, edits@[t].range.end as int),
            forall|t: int| 0 <= t < edits@.len() ==> rich_fits(#[trigger] edits@[t]),
            utf8(self@).len() + total_inserted(edits@) <= usize::MAX,
        ensures
            sorted_changes(r@),
            forall|q: int| #[trigger] change_at(r@, q) == inserted_style(
                utf8(self@),
                self.spans_view(),
                edits@,
                edits@.len() as int,
                q,
            ),
    {
        let ghost b = utf8(self@);
        let ghost s = edits@;
        let ghost doc = self.spans_view();
        let mut inserted: Vec<StyleChange> = Vec::new();
        let mut removed: usize = 0;
        let mut added: usize = 0;
        let mut i: usize = 0;
        while i < edits.len()
            invariant
                s == edits@,
                b == utf8(self@),
                doc == self.spans_view(),
                self.wf(),
                sorted_edits(s),
                forall|t: int| 0 <= t < s.len() ==> valid_range(b, (#[trigger] s[t]).range.start as int, s[t].range.end as int),
                forall|t: int| 0 <= t < s.len() ==> rich_fits(#[trigger] s[t]),
                b.len() + total_inserted(s) <= usize::MAX,
                0 <= i <= s.len(),
                added == inserted_before(s, i as int),
                added - removed == delta_before(s, i as int),
                sorted_changes(inserted@),
                changes_end(inserted@) <= if i == 0 { 0 } else { s[i - 1].range.end + delta_before(s, i as int) },
                forall|q: int| #[trigger] change_at(inserted@, q) == inserted_style(b, doc, s, i as int, q),
            decreases s.len() - i,
        {
            let edit = &edits[i];
            proof {
                lemma_delta_before_bounds(s, i as int);
                lemma_delta_before_bounds(s, i + 1);
                lemma_inserted_before_mono(s, i + 1, s.len() as int);
                lemma_boundary_in_bounds(self@, s[i as int].range.start as int);
                lemma_boundary_in_bounds(self@, s[i as int].range.end as int);
                if i > 0 {
                    assert(s[i - 1].range.end <= s[i as int].range.start);
                }
            }
            let ins = edit.insert_len();
            let start = edit.range.start - removed + added;
            let restyle = match &edit.spans {
                Some(_) => true,
                None => !self.text.equals(edit.range.start..edit.range.end, edit.insert.as_str()),
            };
            let ghost before = inserted@;
            if restyle {
                match &edit.spans {
                    Some(sp) => {
                        if ins > 0 {
                            proof {
                                lemma_spans_fit_end(s[i as int].insert@, sp@);
                            }
                            push_edit_styles(&mut inserted, start, ins, sp.as_slice());
                        }
                    },
                    None => {
                        let bias = if edit.range.start == edit.range.end { Bias::Before } else { Bias::After };
                        let inherited = match self.style_at(edit.range.start, bias) {
                            Some(st) => st,
                            None => StyleId(0),
                        };
                        let mut sp: Vec<StyleSpan> = Vec::new();
                        push(&mut sp, 0..ins, inherited);
                        proof {
                            assert forall|k: int| #[trigger] style_of(sp@, k) == style_of(edit_styles(doc, s[i as int]), k) by {
                                let es = edit_styles(doc, s[i as int]);
                                if !(inherited.is_default() || ins == 0) {
                                    assert(es == seq![StyleSpan { range: 0..ins, style: inherited }]);
                                    assert(style_of(es, k) == if 0 <= k < ins { inherited } else { style_of(es.drop_first(), k) });
                                }
                            }
                        }
                        push_edit_styles(&mut inserted, start, ins, sp.as_slice());
                    },
                }
            }
            proof {
                assert(restyle == restyled(b, s[i as int]));
                assert(out_start(s, i as int) == start);
                assert forall|q: int| #[trigger] change_at(inserted@, q) == inserted_style(b, doc, s, i + 1, q) by {
                    lemma_change_at(before, q);
                }
            }
            removed = removed + (edit.range.end - edit.range.start);
            added = added + ins;
            i += 1;
        }
        inserted
    }
}

} // verus!

verus! {

/// A plain edit sets no style, and an exact request that fits its text is
/// canonical, so such an edit brings no formatting.
proof fn lemma_plain_no_styles(bytes: Seq<u8>, doc: Seq<StyleSpan>, s: Seq<Edit>, n: int, q: int)
    requires
        doc.len() == 0,
        0 <= n <= s.len(),
        forall|t: int| 0 <= t < s.len() ==> plain(#[trigger] s[t]),
        forall|t: int| 0 <= t < s.len() ==> rich_fits(#[trigger] s[t]),
    ensures
        inserted_style(bytes, doc, s, n, q) matches Some(st) ==> st == StyleId(0),
    decreases n,
{
    if n > 0 {
        lemma_plain_no_styles(bytes, doc, s, n - 1, q);
        let e = s[n - 1];
        assert(plain(e));
        assert(rich_fits(e));
        match e.rich_spans() {
            Some(sp) => {
                if sp.len() > 0 && e.ins_len() > 0 {
                    assert(spans_fit(utf8(e.insert@), sp));
                    assert(canonical(sp));
                    lemma_canonical_elem(sp, 0);
                }
            },
            None => {},
        }
    }
}

impl Document {
    /// Validate and normalize a transaction against this revision: sort the
    /// edits, reject malformed or overlapping ranges and ill-fitting formatting,
    /// drop edits that change nothing, and derive exact output style deltas.
    pub(crate) fn prepare(&self, revision: u64, edits: Vec<Edit>) -> (r: Result<ChangeSet, EditError>)
        requires
            self.wf(),
            utf8(self@).len() + total_inserted(edits@) <= usize::MAX,
        ensures
            r is Err <==> prepare_error(utf8(self@), revision, self.revision_spec(), sort_by_range(edits@)) is Some,
            r matches Err(e) ==> prepare_error(utf8(self@), revision, self.revision_spec(), sort_by_range(edits@)) == Some(e),
            r matches Ok(c) ==> {
                &&& c.wf()
                &&& c@ == changed_edits(utf8(self@), sort_by_range(edits@))
                &&& edits_fit(utf8(self@), c@)
                &&& changes_end(c.styles_view()) <= out_len(utf8(self@), c@)
                &&& forall|q: int| #[trigger] change_at(c.styles_view(), q) == delta_of(
                    mapped_style(self.spans_view(), c@, q),
                    target_style(utf8(self@), self.spans_view(), sort_by_range(edits@), q),
                )
            },
    {
        if revision != self.revision {
            return Err(EditError::StaleRevision { expected: revision, actual: self.revision });
        }
        let ghost orig = edits@;
        let edits = sort_edits(edits);
        let ghost b = utf8(self@);
        let ghost s = edits@;
        proof {
            lemma_total_sorted(orig);
        }
        match self.check_sorted(&edits) {
            Some(e) => return Err(e),
            None => {},
        }
        if !check_rich(&edits) {
            return Err(EditError::Rejected("invalid rich insertion"));
        }
        proof {
            assert(!(exists|i: int| 0 <= i < s.len() && !rich_fits(#[trigger] s[i])));
            lemma_changed_edits(b, s);
        }
        if self.spans.len() == 0 && all_plain(&edits) {
            let kept = self.keep_changed(&edits);
            let c = ChangeSet { edits: kept, styles: Vec::new() };
            proof {
                assert forall|q: int| #[trigger] change_at(c.styles_view(), q) == delta_of(
                    mapped_style(self.spans_view(), c@, q),
                    target_style(b, self.spans_view(), s, q),
                ) by {
                    lemma_plain_no_styles(b, self.spans_view(), s, s.len() as int, q);
                    lemma_style_of(self.spans_view(), q);
                    match source_of(c@, q) {
                        Some(p) => lemma_style_of(self.spans_view(), p),
                        None => {},
                    }
                }
            }
            proof {
                self.lemma_prepared_fits(s, &c);
            }
            return Ok(c);
        }
        let inserted = self.inserted_changes(&edits);
        let kept = self.keep_changed(&edits);
        let ghost kv = kept@;
        proof {
            assert forall|j: int| 0 <= j < kv.len() implies #[trigger] kv[j].range.end + total_inserted(kv) <= usize::MAX by {
                let k = choose|k: int| 0 <= k < s.len() && kv[j].range == s[k].range;
                assert(valid_range(b, s[k].range.start as int, s[k].range.end as int));
                lemma_boundary_in_bounds(self@, s[k].range.end as int);
            }
        }
        let mapped = map_spans(self.spans.as_slice(), kept.as_slice());
        let copy = mapped.clone();
        proof {
            assert(copy@ =~= mapped@);
        }
        let styled = apply_changes(copy, inserted.as_slice());
        let styles = diff(mapped.as_slice(), styled.as_slice());
        let c = ChangeSet { edits: kept, styles };
        proof {
            assert forall|q: int| #[trigger] change_at(c.styles_view(), q) == delta_of(
                mapped_style(self.spans_view(), c@, q),
                target_style(b, self.spans_view(), s, q),
            ) by {
                assert(style_of(mapped@, q) == mapped_style(self.spans_view(), kv, q));
                assert(style_of(styled@, q) == changed_style(mapped@, inserted@, q));
            }
            self.lemma_prepared_fits(s, &c);
        }
        Ok(c)
    }
}

impl Document {
    /// A prepared change set fits this document and stays within the output.
    proof fn lemma_prepared_fits(&self, s: Seq<Edit>, c: &ChangeSet)
        requires
            self.wf(),
            edits_fit(utf8(self@), s),
            c.wf(),
            c@ == changed_edits(utf8(self@), s),
            forall|q: int| #[trigger] change_at(c.styles_view(), q) == delta_of(
                mapped_style(self.spans_view(), c@, q),
                target_style(utf8(self@), self.spans_view(), s, q),
            ),
        ensures
            edits_fit(utf8(self@), c@),
            changes_end(c.styles_view()) <= out_len(utf8(self@), c@),
    {
        let b = utf8(self@);
        vstd::utf8::encode_utf8_valid_utf8(self@);
        lemma_changed_edits(b, s);
        assert forall|j: int| 0 <= j < c@.len() implies valid_range(b, (#[trigger] c@[j]).range.start as int, c@[j].range.end as int) by {
            let k = choose|k: int| 0 <= k < s.len() && c@[j].range == s[k].range;
            assert(valid_range(b, s[k].range.start as int, s[k].range.end as int));
        }
        lemma_delta_changed(b, s);
        let x = out_len(b, c@);
        let m = c@.len() as int;
        assert forall|q: int| q >= x implies (#[trigger] change_at(c.styles_view(), q)) is None by {
            lemma_inserted_style_end(b, self.spans_view(), s, s.len() as int, q);
            if m > 0 {
                lemma_valid_range_bounds(b, c@[m - 1]);
            }
            lemma_source_of_skip(c@, m, q);
            assert(c@.skip(m).len() == 0);
            lemma_style_of(self.spans_view(), q - delta_before(c@, m));
        }
        lemma_apply_from_len(b, c@, 0);
        lemma_changes_end_bound(c.styles_view(), x);
    }
}

/// The change that turns style `a` into style `b`, if any.
pub open spec fn delta_of(a: StyleId, b: StyleId) -> Option<StyleId> {
    if a != b {
        Some(b)
    } else {
        None
    }
}

} // verus!

verus! {

/// The text from byte `from` on once sorted `edits` (all at or after `from`)
/// replace their ranges.
pub open spec fn apply_from(b: Seq<u8>, s: Seq<Edit>, from: int) -> Seq<u8>
    decreases s.len(),
{
    if s.len() == 0 {
        b.subrange(from, b.len() as int)
    } else {
        b.subrange(from, s[0].range.start as int) + utf8(s[0].insert@) + apply_from(
            b,
            s.drop_first(),
            s[0].range.end as int,
        )
    }
}

/// The text once sorted `edits` replace their ranges.
pub open spec fn apply_edits(b: Seq<u8>, s: Seq<Edit>) -> Seq<u8> {
    apply_from(b, s, 0)
}

/// Sorted edits whose ranges are valid in `b`.
pub open spec fn edits_fit(b: Seq<u8>, s: Seq<Edit>) -> bool {
    &&& sorted_edits(s)
    &&& forall|i: int| 0 <= i < s.len() ==> valid_range(b, (#[trigger] s[i]).range.start as int, s[i].range.end as int)
}

/// Length of the text once the edits apply.
pub open spec fn out_len(b: Seq<u8>, s: Seq<Edit>) -> int {
    b.len() + delta_before(s, s.len() as int)
}

/// Unchanged text between two positions can be split off the front.
proof fn lemma_apply_from_shift(b: Seq<u8>, s: Seq<Edit>, f1: int, f2: int)
    requires
        0 <= f1 <= f2 <= b.len(),
        s.len() > 0 ==> f2 <= s[0].range.start,
        valid_utf8(b),
        edits_fit(b, s),
    ensures
        apply_from(b, s, f1) == b.subrange(f1, f2) + apply_from(b, s, f2),
{
    if s.len() == 0 {
        assert(b.subrange(f1, b.len() as int) =~= b.subrange(f1, f2) + b.subrange(f2, b.len() as int));
    } else {
        lemma_valid_range_bounds(b, s[0]);
        assert(b.subrange(f1, s[0].range.start as int) =~= b.subrange(f1, f2) + b.subrange(f2, s[0].range.start as int));
    }
}

pub proof fn lemma_valid_range_bounds(b: Seq<u8>, e: Edit)
    requires
        valid_utf8(b),
        valid_range(b, e.range.start as int, e.range.end as int),
    ensures
        e.range.start <= e.range.end <= b.len(),
{
    lemma_boundary_char(b, e.range.end as int);
}

} // verus!

verus! {

proof fn lemma_delta_drop_first(s: Seq<Edit>, i: int)
    requires
        1 <= i <= s.len(),
    ensures
        delta_before(s, i) == s[0].ins_len() - s[0].del_len() + delta_before(s.drop_first(), i - 1),
    decreases i,
{
    let r = s.drop_first();
    if i > 1 {
        lemma_delta_drop_first(s, i - 1);
        assert(r[i - 2] == s[i - 1]);
        assert(delta_before(r, i - 1) == delta_before(r, i - 2) + r[i - 2].ins_len() - r[i - 2].del_len());
    } else {
        assert(delta_before(r, 0) == 0);
        assert(delta_before(s, 0) == 0);
    }
}

/// Length of the edited text.
pub proof fn lemma_apply_from_len(b: Seq<u8>, s: Seq<Edit>, f: int)
    requires
        0 <= f <= b.len(),
        s.len() > 0 ==> f <= s[0].range.start,
        valid_utf8(b),
        edits_fit(b, s),
    ensures
        apply_from(b, s, f).len() == b.len() - f + delta_before(s, s.len() as int),
    decreases s.len(),
{
    if s.len() > 0 {
        let r = s.drop_first();
        lemma_valid_range_bounds(b, s[0]);
        assert(edits_fit(b, r)) by {
            assert forall|i: int, j: int| 0 <= i < j < r.len() implies r[i].range.end <= r[j].range.start by {
                assert(s[i + 1].range.end <= s[j + 1].range.start);
            }
            assert forall|i: int| 0 <= i < r.len() implies valid_range(b, (#[trigger] r[i]).range.start as int, r[i].range.end as int) by {
                assert(r[i] == s[i + 1]);
            }
            assert forall|i: int| 0 <= i < r.len() implies (#[trigger] r[i]).range.start <= r[i].range.end by {
                assert(r[i] == s[i + 1]);
            }
        }
        if r.len() > 0 {
            assert(s[0].range.end <= s[1].range.start);
        }
        lemma_apply_from_len(b, r, s[0].range.end as int);
        lemma_delta_drop_first(s, s.len() as int);
    }
}

/// Canonical spans with no style from `x` on end by `x`.
proof fn lemma_end_bound(spans: Seq<StyleSpan>, x: int)
    requires
        x >= 0,
        canonical(spans),
        forall|q: int| q >= x ==> #[trigger] style_of(spans, q) == StyleId(0),
    ensures
        end_of(spans) <= x,
{
    if spans.len() > 0 {
        let l = spans.len() - 1;
        lemma_canonical_elem(spans, l);
        lemma_style_of(spans, spans[l].range.end - 1);
        assert(covers(spans[l], spans[l].range.end - 1));
        assert(style_of(spans, spans[l].range.end - 1) != StyleId(0));
        if spans[l].range.end > x {
            assert(style_of(spans, spans[l].range.end - 1) == StyleId(0));
        }
        assert(end_of(spans) == spans[l].range.end);
    }
}

/// One descending replacement extends the edited suffix to the previous edit.
proof fn lemma_apply_step(b: Seq<u8>, e: Seq<Edit>, k: int, cur: Seq<u8>, next: Seq<u8>)
    requires
        valid_utf8(b),
        edits_fit(b, e),
        0 < k <= e.len(),
        cur == b.subrange(0, if k < e.len() { e[k].range.start as int } else { b.len() as int })
            + apply_from(b, e.skip(k), if k < e.len() { e[k].range.start as int } else { b.len() as int }),
        valid_utf8(cur),
        valid_range(cur, e[k - 1].range.start as int, e[k - 1].range.end as int),
        next == splice(cur, e[k - 1].range.start as int, e[k - 1].range.end as int, utf8(e[k - 1].insert@)),
    ensures
        next == b.subrange(0, e[k - 1].range.start as int) + apply_from(b, e.skip(k - 1), e[k - 1].range.start as int),
        is_char_boundary(next, e[k - 1].range.start as int),
        next.len() == cur.len() - e[k - 1].del_len() + e[k - 1].ins_len(),
{
    let n = e.len() as int;
    let pos: int = if k < n { e[k].range.start as int } else { b.len() as int };
    let ed = e[k - 1];
    let s0 = ed.range.start as int;
    let e0 = ed.range.end as int;
    lemma_valid_range_bounds(b, ed);
    if k < n {
        assert(ed.range.end <= e[k].range.start);
        lemma_valid_range_bounds(b, e[k]);
    }
    vstd::utf8::encode_utf8_valid_utf8(ed.insert@);
    lemma_splice_valid(cur, s0, e0, utf8(ed.insert@));
    let x = apply_from(b, e.skip(k), pos);
    assert(cur.subrange(e0, cur.len() as int) =~= b.subrange(e0, pos) + x);
    assert(cur.subrange(0, s0) =~= b.subrange(0, s0));
    assert(e.skip(k - 1).drop_first() =~= e.skip(k));
    assert(e.skip(k - 1)[0] == ed);
    assert(edits_fit(b, e.skip(k))) by {
        assert forall|i: int, j: int| 0 <= i < j < e.skip(k).len() implies e.skip(k)[i].range.end <= e.skip(k)[j].range.start by {
            assert(e[i + k].range.end <= e[j + k].range.start);
        }
        assert forall|i: int| 0 <= i < e.skip(k).len() implies valid_range(b, (#[trigger] e.skip(k)[i]).range.start as int, e.skip(k)[i].range.end as int) by {
            assert(e.skip(k)[i] == e[i + k]);
        }
        assert forall|i: int| 0 <= i < e.skip(k).len() implies (#[trigger] e.skip(k)[i]).range.start <= e.skip(k)[i].range.end by {
            assert(e.skip(k)[i] == e[i + k]);
        }
    }
    if k < n {
        assert(e.skip(k)[0] == e[k]);
    }
    lemma_apply_from_shift(b, e.skip(k), e0, pos);
    assert(next =~= b.subrange(0, s0) + apply_from(b, e.skip(k - 1), s0));
}

/// The style of output byte `q` after a change set applies: its exact style
/// delta where it has one, the mapped document style elsewhere.
pub open spec fn applied_style(spans: Seq<StyleSpan>, edits: Seq<Edit>, styles: Seq<StyleChange>, q: int) -> StyleId {
    match change_at(styles, q) {
        Some(s) => s,
        None => mapped_style(spans, edits, q),
    }
}

impl Document {
    /// Apply a change set prepared against this revision.
    pub(crate) fn apply(&mut self, changes: &ChangeSet)
        requires
            old(self).wf(),
            changes.wf(),
            edits_fit(utf8(old(self)@), changes@),
            changes_end(changes.styles_view()) <= out_len(utf8(old(self)@), changes@),
            utf8(old(self)@).len() + total_inserted(changes@) <= usize::MAX,
            old(self).revision_spec() < u64::MAX,
        ensures
            final(self).wf(),
            utf8(final(self)@) == apply_edits(utf8(old(self)@), changes@),
            forall|q: int| #[trigger] style_of(final(self).spans_view(), q) == applied_style(
                old(self).spans_view(),
                changes@,
                changes.styles_view(),
                q,
            ),
            final(self).revision_spec() == if changes@.len() == 0 && changes.styles_view().len() == 0 {
                old(self).revision_spec()
            } else {
                (old(self).revision_spec() + 1) as u64
            },
            final(self).id_spec() == old(self).id_spec(),
            final(self).options_spec() == old(self).options_spec(),
    {
        let ghost b = utf8(self@);
        let ghost e = changes@;
        let ghost n = e.len() as int;
        let ghost old_spans = self.spans_view();
        proof {
            vstd::utf8::encode_utf8_valid_utf8(self@);
            lemma_apply_from_len(b, e, 0);
        }
        if changes.is_empty() {
            proof {
                assert(b.subrange(0, b.len() as int) =~= b);
                assert forall|q: int| #[trigger] style_of(self.spans_view(), q) == applied_style(old_spans, e, changes.styles_view(), q) by {}
            }
            return;
        }
        proof {
            assert forall|j: int| 0 <= j < e.len() implies #[trigger] e[j].range.end + total_inserted(e) <= usize::MAX by {
                lemma_valid_range_bounds(b, e[j]);
            }
        }
        let mapped = map_spans(self.spans.as_slice(), changes.edits.as_slice());
        let spans = apply_changes(mapped, changes.styles.as_slice());
        proof {
            let ol = out_len(b, e);
            assert forall|q: int| q >= ol implies #[trigger] style_of(spans@, q) == StyleId(0) by {
                lemma_change_at(changes.styles_view(), q);
                if n > 0 {
                    lemma_valid_range_bounds(b, e[n - 1]);
                }
                lemma_source_of_skip(e, n, q);
                assert(e.skip(n).len() == 0);
                lemma_style_of(old_spans, q - delta_before(e, n));
            }
            lemma_end_bound(spans@, ol);
        }
        self.spans = spans;
        let mut k = changes.edits.len();
        proof {
            assert(e.skip(n) =~= Seq::<Edit>::empty());
            assert(b.subrange(0, b.len() as int) + b.subrange(b.len() as int, b.len() as int) =~= b);
            lemma_boundary_char(b, b.len() as int);
            lemma_inserted_before_mono(e, n, n);
        }
        while k > 0
            invariant
                b == utf8(old(self)@),
                valid_utf8(b),
                e == changes@,
                n == e.len(),
                edits_fit(b, e),
                b.len() + total_inserted(e) <= usize::MAX,
                0 <= k <= n,
                utf8(self@) == b.subrange(0, if k < n { e[k as int].range.start as int } else { b.len() as int })
                    + apply_from(b, e.skip(k as int), if k < n { e[k as int].range.start as int } else { b.len() as int }),
                is_char_boundary(utf8(self@), if k < n { e[k as int].range.start as int } else { b.len() as int }),
                utf8(self@).len() <= b.len() + (inserted_before(e, n) - inserted_before(e, k as int)),
                self.spans_view() == spans@,
                self.revision_spec() == old(self).revision_spec(),
                self.id_spec() == old(self).id_spec(),
                self.options_spec() == old(self).options_spec(),
            decreases k,
        {
            let edit = &changes.edits[k - 1];
            let ghost pos: int = if k < n { e[k as int].range.start as int } else { b.len() as int };
            let ghost cur = utf8(self@);
            proof {
                let ed = e[k - 1];
                lemma_valid_range_bounds(b, ed);
                if k < n {
                    assert(ed.range.end <= e[k as int].range.start);
                    lemma_valid_range_bounds(b, e[k as int]);
                }
                vstd::utf8::encode_utf8_valid_utf8(self@);
                assert(cur.subrange(0, pos) =~= b.subrange(0, pos));
                assert forall|p: int| 0 <= p <= pos implies is_char_boundary(cur, p) == is_char_boundary(b, p) by {
                    lemma_boundary_char(cur, p);
                    lemma_boundary_char(b, p);
                    if p < pos {
                        assert(cur[p] == cur.subrange(0, pos)[p]);
                        assert(b[p] == b.subrange(0, pos)[p]);
                    }
                }
                assert(valid_range(cur, ed.range.start as int, ed.range.end as int));
                lemma_inserted_before_mono(e, k - 1, k as int);
                lemma_inserted_before_mono(e, k as int, n);
                lemma_inserted_before_mono(e, n, n);
            }
            self.text.replace(edit.range.start..edit.range.end, edit.insert.as_str());
            proof {
                lemma_apply_step(b, e, k as int, cur, utf8(self@));
            }
            k = k - 1;
        }
        proof {
            assert(e.skip(0) =~= e);
            if n > 0 {
                lemma_valid_range_bounds(b, e[0]);
                lemma_apply_from_shift(b, e, 0, e[0].range.start as int);
            }
            assert(b.subrange(0, 0) =~= Seq::<u8>::empty());
            lemma_apply_from_len(b, e, 0);
        }
        self.revision = self.revision + 1;
    }
}

} // verus!

verus! {

/// The shift before index `i` only depends on the edits before it.
proof fn lemma_delta_prefix(s: Seq<Edit>, t: Seq<Edit>, i: int)
    requires
        0 <= i <= s.len(),
        i <= t.len(),
        forall|j: int| 0 <= j < i ==> s[j] == t[j],
    ensures
        delta_before(s, i) == delta_before(t, i),
    decreases i,
{
    if i > 0 {
        lemma_delta_prefix(s, t, i - 1);
    }
}

/// Dropping edits that rewrite their own bytes keeps the total shift.
proof fn lemma_delta_changed(b: Seq<u8>, s: Seq<Edit>)
    requires
        valid_utf8(b),
        forall|i: int| 0 <= i < s.len() ==> valid_range(b, (#[trigger] s[i]).range.start as int, s[i].range.end as int),
    ensures
        delta_before(changed_edits(b, s), changed_edits(b, s).len() as int) == delta_before(s, s.len() as int),
    decreases s.len(),
{
    if s.len() > 0 {
        let d = s.drop_last();
        let l = s.last();
        lemma_delta_changed(b, d);
        lemma_delta_prefix(s, d, d.len() as int);
        let c = changed_edits(b, d);
        lemma_valid_range_bounds(b, l);
        if unchanged(b, l) {
            assert(b.subrange(l.range.start as int, l.range.end as int).len() == l.ins_len());
        } else {
            let c2 = c.push(strip(l));
            lemma_delta_prefix(c2, c, c.len() as int);
        }
    }
}

/// Each edit's inserted region ends by the end of the edited text.
proof fn lemma_region_end(b: Seq<u8>, s: Seq<Edit>, i: int, j: int)
    requires
        valid_utf8(b),
        edits_fit(b, s),
        0 <= i <= j < s.len(),
    ensures
        s[i].range.end + delta_before(s, i + 1) <= s[j].range.end + delta_before(s, j + 1),
        s[j].range.end + delta_before(s, j + 1) <= b.len() + delta_before(s, s.len() as int),
    decreases s.len() - i,
{
    if i < j {
        lemma_region_end(b, s, i + 1, j);
        assert(s[i].range.end <= s[i + 1].range.start);
    } else if j < s.len() - 1 {
        lemma_region_end(b, s, j + 1, s.len() - 1);
        assert(s[j].range.end <= s[j + 1].range.start);
    } else {
        lemma_valid_range_bounds(b, s[j]);
    }
}

/// No inserted formatting reaches past the end of the edited text.
proof fn lemma_inserted_style_end(b: Seq<u8>, doc: Seq<StyleSpan>, s: Seq<Edit>, n: int, q: int)
    requires
        valid_utf8(b),
        edits_fit(b, s),
        0 <= n <= s.len(),
        q >= b.len() + delta_before(s, s.len() as int),
    ensures
        inserted_style(b, doc, s, n, q) is None,
    decreases n,
{
    if n > 0 {
        lemma_inserted_style_end(b, doc, s, n - 1, q);
        lemma_region_end(b, s, n - 1, n - 1);
    }
}

/// Change runs with no change from `x` on end by `x`.
proof fn lemma_changes_end_bound(changes: Seq<StyleChange>, x: int)
    requires
        x >= 0,
        change_runs(changes),
        forall|q: int| q >= x ==> (#[trigger] change_at(changes, q)) is None,
    ensures
        changes_end(changes) <= x,
{
    if changes.len() > 0 {
        let l = changes.len() - 1;
        assert(changes[l].range.start < changes[l].range.end);
        lemma_change_at(changes, changes[l].range.end - 1);
        assert(change_covers(changes[l], changes[l].range.end - 1));
        if changes[l].range.end > x {
            assert(change_at(changes, changes[l].range.end - 1) is None);
        }
        assert(changes_end(changes) == changes[l].range.end);
    }
}

} // verus!

verus! {

/// `inv` undoes the sorted `edits` applied to `b` from byte `f` on: each
/// inverse edit covers an inserted text, relative to byte `f` of the output,
/// and writes back the bytes that the edit replaced.
pub open spec fn inverse_from(b: Seq<u8>, s: Seq<Edit>, inv: Seq<Edit>, f: int) -> bool {
    &&& inv.len() == s.len()
    &&& forall|i: int|
        0 <= i < s.len() ==> (#[trigger] inv[i]).range.start == s[i].range.start + delta_before(s, i) - f
            && inv[i].range.end == inv[i].range.start + s[i].ins_len()
            && utf8(inv[i].insert@) == b.subrange(s[i].range.start as int, s[i].range.end as int)
}

/// The edits moved `k` bytes towards the start.
pub open spec fn shift_edits(s: Seq<Edit>, k: int) -> Seq<Edit> {
    s.map_values(|e: Edit| Edit { range: (e.range.start - k) as usize..(e.range.end - k) as usize, insert: e.insert, spans: e.spans })
}

/// Boundaries in the second half of a concatenation of valid UTF-8 are those
/// of the second half.
pub proof fn lemma_boundary_concat(p: Seq<u8>, t: Seq<u8>, x: int)
    requires
        valid_utf8(p),
        valid_utf8(t),
        0 <= x,
    ensures
        valid_utf8(p + t),
        is_char_boundary(p + t, p.len() + x) == is_char_boundary(t, x),
        x <= p.len() ==> is_char_boundary(p + t, x) == is_char_boundary(p, x),
{
    vstd::utf8::valid_utf8_concat(p, t);
    lemma_boundary_char(p + t, p.len() + x);
    lemma_boundary_char(t, x);
    lemma_boundary_char(p + t, x);
    lemma_boundary_char(p, x);
    lemma_boundary_char(t, 0);
    if x < t.len() {
        assert((p + t)[p.len() + x] == t[x]);
    }
    if x < p.len() {
        assert((p + t)[x] == p[x]);
    }
    if x == p.len() && t.len() > 0 {
        assert((p + t)[x] == t[0]);
    }
}

/// Applying edits to a text with a prefix, from past the prefix, is applying
/// the shifted edits to the rest.
proof fn lemma_apply_shift(p: Seq<u8>, t: Seq<u8>, j: Seq<Edit>, f: int)
    requires
        sorted_edits(j),
        p.len() <= f <= p.len() + t.len(),
        j.len() > 0 ==> f <= j[0].range.start,
        forall|i: int| 0 <= i < j.len() ==> (#[trigger] j[i]).range.end <= p.len() + t.len(),
    ensures
        apply_from(p + t, j, f) == apply_from(t, shift_edits(j, p.len() as int), f - p.len()),
    decreases j.len(),
{
    let k = p.len() as int;
    let sj = shift_edits(j, k);
    if j.len() == 0 {
        assert((p + t).subrange(f, (p + t).len() as int) =~= t.subrange(f - k, t.len() as int));
    } else {
        let r = j.drop_first();
        assert(sorted_edits(r)) by {
            assert forall|a: int, b: int| 0 <= a < b < r.len() implies r[a].range.end <= r[b].range.start by {
                assert(j[a + 1].range.end <= j[b + 1].range.start);
            }
            assert forall|a: int| 0 <= a < r.len() implies (#[trigger] r[a]).range.start <= r[a].range.end by {
                assert(r[a] == j[a + 1]);
            }
        }
        assert(j[0].range.start <= j[0].range.end);
        if r.len() > 0 {
            assert(j[0].range.end <= j[1].range.start);
        }
        assert forall|i: int| 0 <= i < r.len() implies (#[trigger] r[i]).range.end <= p.len() + t.len() by {
            assert(r[i] == j[i + 1]);
        }
        lemma_apply_shift(p, t, r, j[0].range.end as int);
        assert(shift_edits(r, k) =~= sj.drop_first());
        assert(sj[0].range.start == j[0].range.start - k);
        assert(sj[0].range.end == j[0].range.end - k);
        assert((p + t).subrange(f, j[0].range.start as int) =~= t.subrange(f - k, j[0].range.start - k));
    }
}

} // verus!

verus! {

pub proof fn lemma_valid_piece(b: Seq<u8>, f: int, t: int)
    requires
        valid_utf8(b),
        0 <= f <= t <= b.len(),
        is_char_boundary(b, f),
        is_char_boundary(b, t),
    ensures
        valid_utf8(b.subrange(f, t)),
{
    vstd::utf8::valid_utf8_split(b, t);
    let pre = b.subrange(0, t);
    lemma_boundary_char(b, f);
    lemma_boundary_char(pre, f);
    if f < t {
        assert(pre[f] == b[f]);
    }
    vstd::utf8::valid_utf8_split(pre, f);
    assert(pre.subrange(f, t) =~= b.subrange(f, t));
}

proof fn lemma_edits_fit_drop_first(b: Seq<u8>, s: Seq<Edit>)
    requires
        edits_fit(b, s),
        s.len() > 0,
    ensures
        edits_fit(b, s.drop_first()),
        s.len() > 1 ==> s[0].range.end <= s[1].range.start,
{
    let r = s.drop_first();
    assert forall|i: int, j: int| 0 <= i < j < r.len() implies r[i].range.end <= r[j].range.start by {
        assert(s[i + 1].range.end <= s[j + 1].range.start);
    }
    assert forall|i: int| 0 <= i < r.len() implies valid_range(b, (#[trigger] r[i]).range.start as int, r[i].range.end as int) by {
        assert(r[i] == s[i + 1]);
    }
    assert forall|i: int| 0 <= i < r.len() implies (#[trigger] r[i]).range.start <= r[i].range.end by {
        assert(r[i] == s[i + 1]);
    }
}

/// Applying the inverse edits to the edited text restores the original bytes
/// from `f` on; the inverse edits fit the edited text.
#[verifier::rlimit(80)]
#[verifier::spinoff_prover]
proof fn lemma_inverse_from(b: Seq<u8>, s: Seq<Edit>, inv: Seq<Edit>, f: int)
    requires
        valid_utf8(b),
        edits_fit(b, s),
        0 <= f <= b.len(),
        is_char_boundary(b, f),
        s.len() > 0 ==> f <= s[0].range.start,
        inverse_from(b, s, inv, f),
    ensures
        valid_utf8(apply_from(b, s, f)),
        edits_fit(apply_from(b, s, f), inv),
        apply_from(apply_from(b, s, f), inv, 0) == b.subrange(f, b.len() as int),
    decreases s.len(),
{
    if s.len() == 0 {
        lemma_boundary_char(b, b.len() as int);
        lemma_valid_piece(b, f, b.len() as int);
        let t = b.subrange(f, b.len() as int);
        assert(t.subrange(0, t.len() as int) =~= t);
    } else {
        let e0 = s[0];
        let r = s.drop_first();
        let s0 = e0.range.start as int;
        let d0 = e0.range.end as int;
        lemma_valid_range_bounds(b, e0);
        lemma_edits_fit_drop_first(b, s);
        let tail = apply_from(b, r, d0);
        let ins = utf8(e0.insert@);
        let head = b.subrange(f, s0);
        let p = head + ins;
        let k = p.len() as int;
        let ir = shift_edits(inv.drop_first(), k);
        assert forall|i: int| 0 <= i < r.len() implies (#[trigger] ir[i]).range.start == r[i].range.start + delta_before(r, i) - d0
                && ir[i].range.end == ir[i].range.start + r[i].ins_len()
                && utf8(ir[i].insert@) == b.subrange(r[i].range.start as int, r[i].range.end as int)
                && ir[i].range.start == inv[i + 1].range.start - k
                && ir[i].range.end == inv[i + 1].range.end - k by {
                assert(inv[i + 1].range.start == s[i + 1].range.start + delta_before(s, i + 1) - f);
                lemma_delta_drop_first(s, i + 1);
                assert(r[i] == s[i + 1]);
                lemma_edits_sorted_gap(b, s, 0, i + 1);
                if i > 0 {
                    lemma_delta_before_bounds(r, i);
                    assert(r[i - 1].range.end <= r[i].range.start);
                    lemma_inserted_before_mono(r, 0, i);
                }
                let a = inv[i + 1].range.start as int;
                assert(a - k >= 0);
                assert(ir[i] == Edit { range: (a - k) as usize..(inv[i + 1].range.end - k) as usize, insert: inv[i + 1].insert, spans: inv[i + 1].spans });
        }
        assert(inverse_from(b, r, ir, d0));
        if r.len() > 0 {
            assert(d0 <= r[0].range.start);
        }
        assert forall|i: int| 0 < i < inv.len() implies ir[i - 1].range.start == (#[trigger] inv[i]).range.start - k
            && ir[i - 1].range.end == inv[i].range.end - k by {
            assert(ir[(i - 1)].range.start == inv[i - 1 + 1].range.start - k);
        }
        lemma_inverse_from(b, r, ir, d0);
        lemma_valid_piece(b, f, s0);
        vstd::utf8::encode_utf8_valid_utf8(e0.insert@);
        lemma_boundary_concat(head, ins, 0);
        lemma_boundary_concat(p, tail, 0);
        let t = apply_from(b, s, f);
        assert(t =~= p + tail);
        // the inverse edits are sorted and fit the edited text
        assert forall|i: int| 0 <= i < inv.len() implies (#[trigger] inv[i]).range.start <= inv[i].range.end && valid_range(t, inv[i].range.start as int, inv[i].range.end as int) by {
            if i == 0 {
                assert(inv[0].range.start == s0 - f);
                lemma_boundary_concat(head, ins, 0);
                lemma_boundary_concat(p, tail, s0 - f);
                assert(is_char_boundary(p + tail, s0 - f) == is_char_boundary(p, s0 - f));
                lemma_boundary_char(tail, 0);
            } else {
                assert(ir[i - 1].range.start == inv[i].range.start - k);
                assert(valid_range(tail, ir[i - 1].range.start as int, ir[i - 1].range.end as int));
                lemma_boundary_concat(p, tail, ir[i - 1].range.start as int);
                lemma_boundary_concat(p, tail, ir[i - 1].range.end as int);
            }
        }
        assert forall|i: int, j: int| 0 <= i < j < inv.len() implies inv[i].range.end <= inv[j].range.start by {
            if i == 0 {
                assert(ir[j - 1].range.start == inv[j].range.start - k);
            } else {
                assert(ir[i - 1].range.end <= ir[j - 1].range.start);
            }
        }
        // undoing: the first inverse edit restores the replaced bytes, the
        // rest restore the tail
        let inv_rest = inv.drop_first();
        assert(shift_edits(inv_rest, k) =~= ir);
        assert forall|i: int| 0 <= i < inv_rest.len() implies (#[trigger] inv_rest[i]).range.end <= p.len() + tail.len() by {
            assert(inv_rest[i] == inv[i + 1]);
            assert(valid_range(tail, ir[i].range.start as int, ir[i].range.end as int));
            lemma_boundary_char(tail, ir[i].range.end as int);
        }
        assert(sorted_edits(inv_rest)) by {
            assert forall|a: int, c: int| 0 <= a < c < inv_rest.len() implies inv_rest[a].range.end <= inv_rest[c].range.start by {
                assert(inv[a + 1].range.end <= inv[c + 1].range.start);
            }
            assert forall|a: int| 0 <= a < inv_rest.len() implies (#[trigger] inv_rest[a]).range.start <= inv_rest[a].range.end by {
                assert(inv_rest[a] == inv[a + 1]);
            }
        }
        if inv_rest.len() > 0 {
            assert(inv_rest[0] == inv[1]);
            assert(ir[0].range.start == inv[1].range.start - k);
        }
        lemma_boundary_char(tail, tail.len() as int);
        lemma_apply_shift(p, tail, inv_rest, k);
        assert(t.subrange(0, s0 - f) =~= head);
        assert(b.subrange(f, b.len() as int) =~= head + b.subrange(s0, d0) + b.subrange(d0, b.len() as int));
    }
}

/// A sorted edit starts after the shifted end of any earlier one.
proof fn lemma_edits_sorted_gap(b: Seq<u8>, s: Seq<Edit>, i: int, j: int)
    requires
        edits_fit(b, s),
        0 <= i < j < s.len(),
    ensures
        s[i].range.end <= s[j].range.start,
{
}

/// Undoing a change restores the text: the inverse edits fit the edited text,
/// and applying them to it gives back the original bytes.
pub proof fn lemma_inverse_restores_text(b: Seq<u8>, s: Seq<Edit>, inv: Seq<Edit>)
    requires
        valid_utf8(b),
        edits_fit(b, s),
        inverse_from(b, s, inv, 0),
    ensures
        edits_fit(apply_edits(b, s), inv),
        apply_edits(apply_edits(b, s), inv) == b,
{
    lemma_boundary_char(b, 0);
    if s.len() > 0 {
        lemma_valid_range_bounds(b, s[0]);
    }
    lemma_inverse_from(b, s, inv, 0);
    assert(b.subrange(0, b.len() as int) =~= b);
}

} // verus!

verus! {

/// Bytes replaced by the first `i` edits.
pub open spec fn deleted_before(edits: Seq<Edit>, i: int) -> int
    decreases i,
{
    if i <= 0 {
        0
    } else {
        deleted_before(edits, i - 1) + edits[i - 1].del_len()
    }
}

/// The style that undoing gives an output byte before its exact deltas:
/// surviving bytes keep the style they had after the change, restored bytes
/// start unformatted.
pub open spec fn undo_base(
    spans: Seq<StyleSpan>,
    edits: Seq<Edit>,
    styles: Seq<StyleChange>,
    inv: Seq<Edit>,
    q: int,
) -> StyleId {
    match source_of(inv, q) {
        Some(p) => applied_style(spans, edits, styles, p),
        None => StyleId(0),
    }
}

pub proof fn lemma_deleted_before_bound(b: Seq<u8>, s: Seq<Edit>, i: int)
    requires
        valid_utf8(b),
        edits_fit(b, s),
        0 < i <= s.len(),
    ensures
        0 <= deleted_before(s, i) <= s[i - 1].range.end,
        delta_before(s, i) == inserted_before(s, i) - deleted_before(s, i),
    decreases i,
{
    if i > 1 {
        lemma_deleted_before_bound(b, s, i - 1);
        assert(s[i - 2].range.end <= s[i - 1].range.start);
    } else {
        assert(deleted_before(s, 0) == 0);
        assert(inserted_before(s, 0) == 0);
        assert(delta_before(s, 0) == 0);
    }
    assert(s[i - 1].range.start <= s[i - 1].range.end);
    assert(deleted_before(s, i) == deleted_before(s, i - 1) + s[i - 1].del_len());
    assert(inserted_before(s, i) == inserted_before(s, i - 1) + s[i - 1].ins_len());
    assert(delta_before(s, i) == delta_before(s, i - 1) + s[i - 1].ins_len() - s[i - 1].del_len());
}

impl Document {
    /// The change set that undoes `changes` once they are applied: inverse
    /// edits in output coordinates writing back the replaced text, and exact
    /// style deltas restoring this revision's formatting.
    pub(crate) fn inverse(&self, changes: &ChangeSet) -> (r: ChangeSet)
        requires
            self.wf(),
            changes.wf(),
            edits_fit(utf8(self@), changes@),
            changes_end(changes.styles_view()) <= out_len(utf8(self@), changes@),
            utf8(self@).len() + total_inserted(changes@) <= usize::MAX,
        ensures
            r.wf(),
            inverse_from(utf8(self@), changes@, r@, 0),
            forall|i: int| 0 <= i < r@.len() ==> (#[trigger] r@[i]).rich_spans() is None,
            edits_fit(apply_edits(utf8(self@), changes@), r@),
            changes_end(r.styles_view()) <= out_len(apply_edits(utf8(self@), changes@), r@),
            out_len(apply_edits(utf8(self@), changes@), r@) == utf8(self@).len(),
            forall|q: int| #[trigger] change_at(r.styles_view(), q) == delta_of(
                undo_base(self.spans_view(), changes@, changes.styles_view(), r@, q),
                style_of(self.spans_view(), q),
            ),
    {
        let ghost b = utf8(self@);
        let ghost e = changes@;
        let ghost n = e.len() as int;
        proof {
            vstd::utf8::encode_utf8_valid_utf8(self@);
        }
        let mut removed: usize = 0;
        let mut added: usize = 0;
        let mut edits: Vec<Edit> = Vec::new();
        let mut i: usize = 0;
        while i < changes.edits.len()
            invariant
                b == utf8(self@),
                valid_utf8(b),
                e == changes@,
                n == e.len(),
                edits_fit(b, e),
                b.len() + total_inserted(e) <= usize::MAX,
                0 <= i <= n,
                added == inserted_before(e, i as int),
                removed == deleted_before(e, i as int),
                added - removed == delta_before(e, i as int),
                edits@.len() == i,
                forall|t: int| 0 <= t < i ==> (#[trigger] edits@[t]).range.start == e[t].range.start + delta_before(e, t)
                    && edits@[t].range.end == edits@[t].range.start + e[t].ins_len()
                    && utf8(edits@[t].insert@) == b.subrange(e[t].range.start as int, e[t].range.end as int)
                    && edits@[t].rich_spans() is None,
            decreases n - i,
        {
            let edit = &changes.edits[i];
            proof {
                lemma_valid_range_bounds(b, e[i as int]);
                if i > 0 {
                    lemma_deleted_before_bound(b, e, i as int);
                    assert(e[i - 1].range.end <= e[i as int].range.start);
                }
                lemma_inserted_before_mono(e, i + 1, n);
            }
            let ins = edit.insert_len();
            let start = edit.range.start - removed + added;
            let text = match self.text.read(edit.range.start..edit.range.end) {
                Some(t) => cow_into_string(t),
                None => String::new(),
            };
            edits.push(Edit::new(start..start + ins, text));
            removed = removed + (edit.range.end - edit.range.start);
            added = added + ins;
            i += 1;
        }
        proof {
            assert(inverse_from(b, e, edits@, 0));
            lemma_inverse_restores_text(b, e, edits@);
            assert forall|j: int| 0 <= j < e.len() implies #[trigger] e[j].range.end + total_inserted(e) <= usize::MAX by {
                lemma_valid_range_bounds(b, e[j]);
            }
        }
        let mapped = map_spans(self.spans.as_slice(), changes.edits.as_slice());
        let after = apply_changes(mapped, changes.styles.as_slice());
        let ghost t = apply_edits(b, e);
        proof {
            lemma_apply_from_len(b, e, 0);
            let ol = out_len(b, e);
            assert forall|q: int| q >= ol implies #[trigger] style_of(after@, q) == StyleId(0) by {
                lemma_change_at(changes.styles_view(), q);
                if n > 0 {
                    lemma_valid_range_bounds(b, e[n - 1]);
                }
                lemma_source_of_skip(e, n, q);
                assert(e.skip(n).len() == 0);
                lemma_style_of(self.spans_view(), q - delta_before(e, n));
            }
            lemma_end_bound(after@, ol);
            lemma_inverse_from(b, e, edits@, 0);
            assert(t.len() == ol);
            lemma_total_inverse(b, e, edits@);
            assert forall|j: int| 0 <= j < edits@.len() implies #[trigger] edits@[j].range.end + total_inserted(edits@) <= usize::MAX by {
                lemma_valid_range_bounds(t, edits@[j]);
            }
        }
        let mapped_back = map_spans(after.as_slice(), edits.as_slice());
        let styles = diff(mapped_back.as_slice(), self.spans.as_slice());
        let r = ChangeSet { edits, styles };
        proof {
            lemma_apply_from_len(t, r@, 0);
            assert(b.len() == out_len(t, r@));
            assert forall|q: int| #[trigger] change_at(r.styles_view(), q) == delta_of(
                undo_base(self.spans_view(), e, changes.styles_view(), r@, q),
                style_of(self.spans_view(), q),
            ) by {
                assert(style_of(mapped_back@, q) == mapped_style(after@, r@, q));
                match source_of(r@, q) {
                    Some(p) => {
                        assert(style_of(after@, p) == applied_style(self.spans_view(), e, changes.styles_view(), p));
                    },
                    None => {},
                }
            }
            let x = b.len() as int;
            assert forall|q: int| q >= x implies (#[trigger] change_at(r.styles_view(), q)) is None by {
                lemma_style_of(self.spans_view(), q);
                let m = r@.len() as int;
                if m > 0 {
                    lemma_valid_range_bounds(t, r@[m - 1]);
                }
                lemma_source_of_skip(r@, m, q);
                assert(r@.skip(m).len() == 0);
                assert(style_of(mapped_back@, q) == mapped_style(after@, r@, q));
                lemma_style_of(after@, q - delta_before(r@, m));
            }
            lemma_changes_end_bound(r.styles_view(), x);
        }
        r
    }
}

/// The inverse inserts exactly the bytes that the change removed, and the
/// change inserts no more than the text it edits plus its insertions.
pub proof fn lemma_total_inverse(b: Seq<u8>, s: Seq<Edit>, inv: Seq<Edit>)
    requires
        valid_utf8(b),
        edits_fit(b, s),
        inverse_from(b, s, inv, 0),
    ensures
        total_inserted(inv) == deleted_before(s, s.len() as int),
        deleted_before(s, s.len() as int) <= b.len(),
{
    lemma_total_inverse_prefix(b, s, inv, s.len() as int);
    if s.len() > 0 {
        lemma_deleted_before_bound(b, s, s.len() as int);
        lemma_valid_range_bounds(b, s[s.len() - 1]);
    }
}

proof fn lemma_total_inverse_prefix(b: Seq<u8>, s: Seq<Edit>, inv: Seq<Edit>, i: int)
    requires
        valid_utf8(b),
        edits_fit(b, s),
        inverse_from(b, s, inv, 0),
        0 <= i <= s.len(),
    ensures
        inserted_before(inv, i) == deleted_before(s, i),
    decreases i,
{
    if i > 0 {
        lemma_total_inverse_prefix(b, s, inv, i - 1);
        lemma_valid_range_bounds(b, s[i - 1]);
        assert(utf8(inv[i - 1].insert@) == b.subrange(s[i - 1].range.start as int, s[i - 1].range.end as int));
    }
}

} // verus!

verus! {

/// Undo restores a document: applying a change set and then the inverse
/// computed for it against the original gives back the original text and
/// formatting exactly.
pub proof fn lemma_undo_restores(d0: Document, c: ChangeSet, inv: ChangeSet, d1: Document, d2: Document)
    requires
        d0.wf(),
        c.wf(),
        edits_fit(utf8(d0@), c@),
        d1.wf(),
        utf8(d1@) == apply_edits(utf8(d0@), c@),
        forall|q: int| #[trigger] style_of(d1.spans_view(), q) == applied_style(d0.spans_view(), c@, c.styles_view(), q),
        inverse_from(utf8(d0@), c@, inv@, 0),
        forall|q: int| #[trigger] change_at(inv.styles_view(), q) == delta_of(
            undo_base(d0.spans_view(), c@, c.styles_view(), inv@, q),
            style_of(d0.spans_view(), q),
        ),
        d2.wf(),
        utf8(d2@) == apply_edits(utf8(d1@), inv@),
        forall|q: int| #[trigger] style_of(d2.spans_view(), q) == applied_style(d1.spans_view(), inv@, inv.styles_view(), q),
    ensures
        d2@ == d0@,
        d2.spans_view() == d0.spans_view(),
{
    vstd::utf8::encode_utf8_valid_utf8(d0@);
    lemma_inverse_restores_text(utf8(d0@), c@, inv@);
    vstd::utf8::encode_utf8_decode_utf8(d0@);
    vstd::utf8::encode_utf8_decode_utf8(d2@);
    assert forall|q: int| #[trigger] style_of(d2.spans_view(), q) == style_of(d0.spans_view(), q) by {
        assert(change_at(inv.styles_view(), q) == delta_of(
            undo_base(d0.spans_view(), c@, c.styles_view(), inv@, q),
            style_of(d0.spans_view(), q),
        ));
        match source_of(inv@, q) {
            Some(p) => {
                assert(style_of(d1.spans_view(), p) == applied_style(d0.spans_view(), c@, c.styles_view(), p));
            },
            None => {},
        }
    }
    lemma_canonical_unique(d2.spans_view(), d0.spans_view());
}

} // verus!

verus! {

/// A char boundary of a valid piece of text is a boundary of the whole text,
/// shifted by the piece's start.
proof fn lemma_boundary_sub(b: Seq<u8>, f: int, t: int, x: int)
    requires
        valid_utf8(b),
        0 <= f <= t <= b.len(),
        is_char_boundary(b, f),
        is_char_boundary(b, t),
    ensures
        valid_utf8(b.subrange(f, t)),
        is_char_boundary(b.subrange(f, t), x) == (0 <= x <= t - f && is_char_boundary(b, f + x)),
{
    lemma_valid_piece(b, f, t);
    let sub = b.subrange(f, t);
    lemma_boundary_char(sub, x);
    lemma_boundary_char(b, f + x);
    if 0 <= x < t - f {
        assert(sub[x] == b[f + x]);
    }
}

/// Applying sorted valid edits from a boundary yields valid UTF-8.
proof fn lemma_apply_from_valid(b: Seq<u8>, s: Seq<Edit>, f: int)
    requires
        valid_utf8(b),
        edits_fit(b, s),
        0 <= f <= b.len(),
        is_char_boundary(b, f),
        s.len() > 0 ==> f <= s[0].range.start,
    ensures
        valid_utf8(apply_from(b, s, f)),
    decreases s.len(),
{
    lemma_boundary_char(b, b.len() as int);
    if s.len() == 0 {
        lemma_valid_piece(b, f, b.len() as int);
    } else {
        let r = s.drop_first();
        lemma_valid_range_bounds(b, s[0]);
        assert(edits_fit(b, r)) by {
            assert forall|i: int, j: int| 0 <= i < j < r.len() implies r[i].range.end <= r[j].range.start by {
                assert(s[i + 1].range.end <= s[j + 1].range.start);
            }
            assert forall|i: int| 0 <= i < r.len() implies valid_range(b, (#[trigger] r[i]).range.start as int, r[i].range.end as int) by {
                assert(r[i] == s[i + 1]);
            }
        }
        if r.len() > 0 {
            assert(s[0].range.end <= s[1].range.start);
        }
        lemma_apply_from_valid(b, r, s[0].range.end as int);
        lemma_valid_piece(b, f, s[0].range.start as int);
        vstd::utf8::encode_utf8_valid_utf8(s[0].insert@);
        vstd::utf8::valid_utf8_concat(b.subrange(f, s[0].range.start as int), utf8(s[0].insert@));
        vstd::utf8::valid_utf8_concat(
            b.subrange(f, s[0].range.start as int) + utf8(s[0].insert@),
            apply_from(b, r, s[0].range.end as int),
        );
    }
}

proof fn lemma_edits_fit_skip(b: Seq<u8>, s: Seq<Edit>, k: int)
    requires
        edits_fit(b, s),
        0 <= k <= s.len(),
    ensures
        edits_fit(b, s.skip(k)),
{
    let rest = s.skip(k);
    assert forall|x: int, y: int| 0 <= x < y < rest.len() implies rest[x].range.end <= rest[y].range.start by {
        assert(s[k + x].range.end <= s[k + y].range.start);
    }
    assert forall|x: int| 0 <= x < rest.len() implies valid_range(b, (#[trigger] rest[x]).range.start as int, rest[x].range.end as int) by {
        assert(rest[x] == s[k + x]);
    }
}

/// Whether an output position lands on a char boundary of the changed text,
/// checked against the edit pieces without building that text. Transactions
/// validate their resulting selections this way before anything mutates.
#[verifier::rlimit(100)]
#[verifier::spinoff_prover]
pub fn boundary_after<T: TextRead + ?Sized>(text: &T, changes: &ChangeSet, position: usize) -> (r: bool)
    requires
        changes.wf(),
        edits_fit(utf8(text.text()), changes@),
        utf8(text.text()).len() + total_inserted(changes@) <= usize::MAX,
    ensures
        r == is_char_boundary(apply_edits(utf8(text.text()), changes@), position as int),
{
    let ghost b = utf8(text.text());
    let ghost s = changes@;
    let ghost out = apply_edits(b, s);
    proof {
        vstd::utf8::encode_utf8_valid_utf8(text.text());
        lemma_boundary_char(b, 0);
        lemma_boundary_char(b, b.len() as int);
        lemma_apply_from_valid(b, s, 0);
        assert(s.skip(0) =~= s);
        assert(out =~= Seq::<u8>::empty() + apply_from(b, s.skip(0), 0));
        lemma_apply_from_len(b, s, 0);
        lemma_delta_before_bounds(s, s.len() as int);
        lemma_inserted_before_mono(s, 0, s.len() as int);
    }
    let mut old: usize = 0;
    let mut new: usize = 0;
    let mut i: usize = 0;
    let ghost mut pre: Seq<u8> = Seq::empty();
    while i < changes.edits.len()
        invariant
            b == utf8(text.text()),
            s == changes@,
            out == apply_edits(b, s),
            valid_utf8(b),
            edits_fit(b, s),
            b.len() + total_inserted(s) <= usize::MAX,
            0 <= i <= s.len(),
            old <= b.len(),
            is_char_boundary(b, old as int),
            i < s.len() ==> old <= s[i as int].range.start,
            i > 0 ==> old == s[i - 1].range.end,
            i == 0 ==> old == 0,
            new == pre.len(),
            valid_utf8(pre),
            valid_utf8(apply_from(b, s.skip(i as int), old as int)),
            out == pre + apply_from(b, s.skip(i as int), old as int),
            out.len() <= b.len() + total_inserted(s),
            position >= new,
        decreases s.len() - i,
    {
        let edit = &changes.edits[i];
        let ghost e = s[i as int];
        let ghost rest = s.skip(i as int + 1);
        proof {
            lemma_valid_range_bounds(b, e);
            assert(s.skip(i as int)[0] == e);
            assert(s.skip(i as int).drop_first() =~= rest);
            lemma_edits_fit_skip(b, s, i as int + 1);
            if rest.len() > 0 {
                assert(rest[0] == s[i + 1]);
                assert(e.range.end <= s[i + 1].range.start);
            }
            lemma_apply_from_valid(b, rest, e.range.end as int);
            lemma_valid_piece(b, old as int, e.range.start as int);
            vstd::utf8::encode_utf8_valid_utf8(e.insert@);
        }
        let ghost u = b.subrange(old as int, e.range.start as int);
        let ghost ins = utf8(e.insert@);
        let ghost tail = apply_from(b, rest, e.range.end as int);
        proof {
            assert(apply_from(b, s.skip(i as int), old as int) == u + ins + tail);
            assert(u + ins + tail =~= u + (ins + tail));
            vstd::utf8::valid_utf8_concat(ins, tail);
            lemma_boundary_concat(pre, u + (ins + tail), position - new);
        }
        let unchanged = edit.range.start - old;
        if position < new + unchanged {
            let r = text.is_char_boundary(old + (position - new));
            proof {
                lemma_boundary_concat(u, ins + tail, position - new);
                lemma_boundary_sub(b, old as int, e.range.start as int, position - new);
            }
            return r;
        }
        let ilen = str_len(edit.insert.as_str());
        proof {
            assert(out.len() == pre.len() + u.len() + ins.len() + tail.len());
        }
        if position <= new + unchanged + ilen {
            let r = TextRead::is_char_boundary(edit.insert.as_str(), position - new - unchanged);
            proof {
                lemma_boundary_concat(u, ins + tail, position - new - unchanged);
                lemma_boundary_concat(ins, tail, position - new - unchanged);
            }
            return r;
        }
        proof {
            vstd::utf8::valid_utf8_concat(pre, u);
            vstd::utf8::valid_utf8_concat(pre + u, ins);
            assert(out =~= (pre + u + ins) + tail);
            pre = pre + u + ins;
        }
        new = new + unchanged + ilen;
        old = edit.range.end;
        i += 1;
    }
    proof {
        assert(s.skip(i as int).len() == 0);
        assert(apply_from(b, s.skip(i as int), old as int) == b.subrange(old as int, b.len() as int));
        lemma_boundary_concat(pre, b.subrange(old as int, b.len() as int), position - new);
        lemma_boundary_sub(b, old as int, b.len() as int, position - new);
    }
    let x = position - new;
    if old > usize::MAX - x {
        proof {
            lemma_boundary_char(b, old + x);
        }
        return false;
    }
    text.is_char_boundary(old + x)
}

} // verus!

verus! {

/// The inverse's style changes, applied to the changed formatting, give back
/// the formatting from before the change.
pub proof fn lemma_inverse_styles(s0: Seq<StyleSpan>, c: ChangeSet, inv: ChangeSet, s1: Seq<StyleSpan>)
    requires
        forall|q: int| #[trigger] style_of(s1, q) == applied_style(s0, c@, c.styles_view(), q),
        forall|q: int| #[trigger] change_at(inv.styles_view(), q) == delta_of(
            undo_base(s0, c@, c.styles_view(), inv@, q),
            style_of(s0, q),
        ),
    ensures
        forall|q: int| #[trigger] applied_style(s1, inv@, inv.styles_view(), q) == style_of(s0, q),
{
    assert forall|q: int| #[trigger] applied_style(s1, inv@, inv.styles_view(), q) == style_of(s0, q) by {
        assert(change_at(inv.styles_view(), q) == delta_of(
            undo_base(s0, c@, c.styles_view(), inv@, q),
            style_of(s0, q),
        ));
        match source_of(inv@, q) {
            Some(p) => {
                assert(style_of(s1, p) == applied_style(s0, c@, c.styles_view(), p));
            },
            None => {},
        }
    }
}

} // verus!

verus! {

proof fn lemma_delta_floor(s: Seq<Edit>, floor: int, limit: int)
    requires
        sorted_edits(s),
        floor <= limit,
        forall|j: int| 0 <= j < s.len() ==> floor <= (#[trigger] s[j]).range.start <= s[j].range.end <= limit,
    ensures
        limit + delta_before(s, s.len() as int) >= floor,
        s.len() > 0 ==> limit + delta_before(s, s.len() as int) >= s[0].range.start + s[0].ins_len(),
    decreases s.len(),
{
    if s.len() > 0 {
        let r = s.drop_first();
        assert(sorted_edits(r)) by {
            assert forall|i: int, j: int| 0 <= i < j < r.len() implies r[i].range.end <= r[j].range.start by {
                assert(s[i + 1].range.end <= s[j + 1].range.start);
            }
        }
        assert forall|j: int| 0 <= j < r.len() implies s[0].range.end <= (#[trigger] r[j]).range.start <= r[j].range.end <= limit by {
            assert(r[j] == s[j + 1]);
            assert(s[0].range.end <= s[j + 1].range.start);
        }
        assert(s[0].range.start <= s[0].range.end <= limit);
        lemma_delta_floor(r, s[0].range.end as int, limit);
        lemma_delta_drop_first(s, s.len() as int);
    }
}

proof fn lemma_map_upper(s: Seq<Edit>, pos: int, bias: Bias, limit: int)
    requires
        sorted_edits(s),
        0 <= pos <= limit,
        forall|j: int| 0 <= j < s.len() ==> 0 <= (#[trigger] s[j]).range.start <= s[j].range.end <= limit,
    ensures
        map_spec(s, pos, bias) <= limit + delta_before(s, s.len() as int),
    decreases s.len(),
{
    if s.len() > 0 {
        let e = s[0];
        let r = s.drop_first();
        assert(sorted_edits(r)) by {
            assert forall|i: int, j: int| 0 <= i < j < r.len() implies r[i].range.end <= r[j].range.start by {
                assert(s[i + 1].range.end <= s[j + 1].range.start);
            }
        }
        assert forall|j: int| 0 <= j < r.len() implies 0 <= (#[trigger] r[j]).range.start <= r[j].range.end <= limit by {
            assert(r[j] == s[j + 1]);
        }
        assert forall|j: int| 0 <= j < s.len() implies 0 <= (#[trigger] s[j]).range.start <= s[j].range.end <= limit by {}
        lemma_delta_floor(s, 0, limit);
        lemma_delta_drop_first(s, s.len() as int);
        if pos >= e.range.start && !(pos < e.range.end) {
            lemma_map_upper(r, pos, bias, limit);
        }
    }
}

/// A position inside the text maps inside the changed text.
/// The end of the text maps, with `After`, to the end of the changed text:
/// every insertion is passed and every deletion closed up.
pub proof fn lemma_map_end(s: Seq<Edit>, n: int)
    requires
        sorted_edits(s),
        forall|j: int| 0 <= j < s.len() ==> (#[trigger] s[j]).range.end <= n,
    ensures
        map_spec(s, n, Bias::After) == n + delta_before(s, s.len() as int),
    decreases s.len(),
{
    if s.len() > 0 {
        let rest = s.drop_first();
        assert(sorted_edits(rest)) by {
            assert forall|i: int, j: int| 0 <= i < j < rest.len() implies rest[i].range.end <= rest[j].range.start by {
                assert(rest[i] == s[i + 1] && rest[j] == s[j + 1]);
            }
            assert forall|i: int| 0 <= i < rest.len() implies rest[i].range.start <= rest[i].range.end by {
                assert(rest[i] == s[i + 1]);
            }
        }
        assert forall|j: int| 0 <= j < rest.len() implies (#[trigger] rest[j]).range.end <= n by {
            assert(rest[j] == s[j + 1]);
        }
        lemma_map_end(rest, n);
        lemma_delta_drop_first(s, s.len() as int);
        assert(s[0].range.end <= n);
        assert(s[0].range.start <= s[0].range.end);
    }
}

pub proof fn lemma_map_within(b: Seq<u8>, s: Seq<Edit>, p: int, bias: Bias)
    requires
        valid_utf8(b),
        edits_fit(b, s),
        0 <= p <= b.len(),
    ensures
        0 <= map_spec(s, p, bias) <= out_len(b, s),
{
    assert forall|j: int| 0 <= j < s.len() implies 0 <= (#[trigger] s[j]).range.start <= s[j].range.end <= b.len() by {
        lemma_valid_range_bounds(b, s[j]);
    }
    lemma_map_upper(s, p, bias, b.len() as int);
    lemma_map_floor(s, p, bias, 0);
}

} // verus!

verus! {

proof fn lemma_check_suffix(b: Seq<u8>, s: Seq<Edit>, i: int)
    requires
        0 <= i <= s.len(),
        check_edits(b, s, i) is None,
    ensures
        forall|t: int| i <= t < s.len() ==> valid_range(b, (#[trigger] s[t]).range.start as int, s[t].range.end as int),
        forall|t: int| i < t < s.len() ==> s[t - 1].range.end <= (#[trigger] s[t]).range.start,
    decreases s.len() - i,
{
    if i < s.len() {
        lemma_check_suffix(b, s, i + 1);
    }
}

/// Edits that pass the checks are sorted and valid.
pub proof fn lemma_checked_edits(b: Seq<u8>, s: Seq<Edit>)
    requires
        check_edits(b, s, 0) is None,
    ensures
        sorted_edits(s),
        edits_fit(b, s),
{
    lemma_check_suffix(b, s, 0);
    assert forall|t: int| 0 <= t < s.len() implies (#[trigger] s[t]).range.start <= s[t].range.end by {
        assert(valid_range(b, s[t].range.start as int, s[t].range.end as int));
    }
    lemma_consecutive_sorted(s);
}

} // verus!

verus! {

impl TextRead for Document {
    open spec fn text(&self) -> Seq<char> {
        self@
    }

    fn len(&self) -> (n: usize) {
        self.text.len()
    }

    fn is_char_boundary(&self, p: usize) -> (b: bool) {
        self.text.is_char_boundary(p)
    }

    fn read(&self, range: Range<usize>) -> (r: Option<Cow<'_, str>>) {
        self.text.read(range)
    }

    fn chunk(&self, p: usize) -> (c: (&str, usize)) {
        self.text.chunk(p)
    }
}

} // verus!
