//! Canonical style spans and the span operations used by transactions. A style
//! is an interned handle; the default handle carries no overrides.
use super::document::{
    utf8,
    delta_before, inserted_before, lemma_delta_before_bounds, lemma_inserted_before_mono,
    lemma_source_of_skip, sorted_edits, source_of, total_inserted, Edit,
};
use std::ops::Range;
use vstd::prelude::*;
use vstd::utf8::is_char_boundary;

verus! {

/// An interned inline style. `StyleId(0)` is the default style: no overrides.
#[derive(Debug, Clone, Copy, PartialEq, Eq, Structural)]
pub struct StyleId(pub u64);

impl StyleId {
    pub open spec fn is_default(self) -> bool {
        self.0 == 0
    }

    pub fn default_style() -> (s: Self)
        ensures
            s.is_default(),
    {
        StyleId(0)
    }
}

/// A styled byte range of a text.
#[derive(Debug, PartialEq, Eq)]
pub struct StyleSpan {
    pub range: Range<usize>,
    pub style: StyleId,
}

impl Clone for StyleSpan {
    fn clone(&self) -> (s: Self)
        ensures
            s == *self,
    {
        StyleSpan { range: self.range.start..self.range.end, style: self.style }
    }
}

/// An exact style replacement in the resulting revision. Default style clears
/// overrides. These deltas also describe formatting-only undo and redo.
#[derive(Debug, PartialEq, Eq)]
pub struct StyleChange {
    pub range: Range<usize>,
    pub style: StyleId,
}

impl Clone for StyleChange {
    fn clone(&self) -> (s: Self)
        ensures
            s == *self,
    {
        StyleChange { range: self.range.start..self.range.end, style: self.style }
    }
}

/// Whether a span covers byte `p`.
pub open spec fn covers(s: StyleSpan, p: int) -> bool {
    s.range.start <= p < s.range.end
}

/// Style of the byte at `p`: the first span covering it, else the default.
pub open spec fn style_of(spans: Seq<StyleSpan>, p: int) -> StyleId
    decreases spans.len(),
{
    if spans.len() == 0 {
        StyleId(0)
    } else if covers(spans[0], p) {
        spans[0].style
    } else {
        style_of(spans.drop_first(), p)
    }
}

/// Sorted, nonempty, non-default spans with no overlap, where touching spans
/// always differ in style.
pub open spec fn canonical(spans: Seq<StyleSpan>) -> bool {
    &&& forall|i: int|
        0 <= i < spans.len() ==> (#[trigger] spans[i]).range.start < spans[i].range.end
            && !spans[i].style.is_default()
    &&& forall|i: int, j: int|
        0 <= i < j < spans.len() ==> #[trigger] spans[i].range.end <= #[trigger] spans[j].range.start
    &&& forall|i: int|
        0 <= i < spans.len() - 1 ==> #[trigger] spans[i].range.end == spans[i + 1].range.start
            ==> spans[i].style != spans[i + 1].style
}

/// Every span of a canonical list is nonempty and styled.
pub proof fn lemma_canonical_elem(spans: Seq<StyleSpan>, i: int)
    requires
        canonical(spans),
        0 <= i < spans.len(),
    ensures
        spans[i].range.start < spans[i].range.end,
        !spans[i].style.is_default(),
{
}

/// End of the last span, or zero.
pub open spec fn end_of(spans: Seq<StyleSpan>) -> int {
    if spans.len() == 0 {
        0
    } else {
        spans.last().range.end as int
    }
}

/// In sorted disjoint spans, the style at `p` is that of the span containing
/// it, and the default where none does.
pub proof fn lemma_style_of(spans: Seq<StyleSpan>, p: int)
    requires
        canonical(spans),
    ensures
        forall|i: int|
            0 <= i < spans.len() && #[trigger] covers(spans[i], p)
                ==> style_of(spans, p) == spans[i].style,
        (forall|i: int|
            0 <= i < spans.len() ==> !#[trigger] covers(spans[i], p))
            ==> style_of(spans, p) == StyleId(0),
        p >= end_of(spans) ==> style_of(spans, p) == StyleId(0),
    decreases spans.len(),
{
    if spans.len() > 0 {
        let rest = spans.drop_first();
        assert(canonical(rest)) by {
            assert forall|i: int| 0 <= i < rest.len() implies #[trigger] rest[i].range.start < rest[i].range.end && !rest[i].style.is_default() by {
                assert(rest[i] == spans[i + 1]);
            }
            assert forall|i: int, j: int| 0 <= i < j < rest.len() implies #[trigger] rest[i].range.end <= #[trigger] rest[j].range.start by {
                assert(rest[i] == spans[i + 1]);
                assert(rest[j] == spans[j + 1]);
            }
            assert forall|i: int| 0 <= i < rest.len() - 1 implies (#[trigger] rest[i].range.end == rest[i + 1].range.start ==> rest[i].style != rest[i + 1].style) by {
                assert(rest[i] == spans[i + 1]);
                assert(rest[i + 1] == spans[i + 2]);
            }
        }
        lemma_style_of(rest, p);
        assert forall|i: int|
            0 <= i < spans.len() && #[trigger] covers(spans[i], p) implies style_of(spans, p) == spans[i].style by {
            if i > 0 {
                assert(spans[0].range.end <= spans[i].range.start);
                assert(rest[i - 1] == spans[i]);
            }
        }
        if (forall|i: int| 0 <= i < spans.len() ==> !#[trigger] covers(spans[i], p)) {
            assert forall|i: int| 0 <= i < rest.len() implies !#[trigger] covers(rest[i], p) by {
                assert(rest[i] == spans[i + 1]);
            }
        }
        if p >= end_of(spans) {
            assert forall|i: int| 0 <= i < spans.len() implies !#[trigger] covers(spans[i], p) by {
                if i < spans.len() - 1 {
                    assert(spans[i].range.end <= spans[spans.len() - 1].range.start);
                }
            }
            assert forall|i: int| 0 <= i < rest.len() implies !#[trigger] covers(rest[i], p) by {
                assert(rest[i] == spans[i + 1]);
            }
        }
    }
}

/// Append a styled range after every existing span, merging with an equal
/// neighbor. Empty or reversed ranges and the default style add nothing.
#[verifier::rlimit(40)]
pub fn push(spans: &mut Vec<StyleSpan>, range: Range<usize>, style: StyleId)
    requires
        canonical(old(spans)@),
        end_of(old(spans)@) <= range.start,
    ensures
        canonical(final(spans)@),
        forall|p: int| #[trigger] style_of(final(spans)@, p) == if range.start <= p < range.end {
            style
        } else {
            style_of(old(spans)@, p)
        },
        end_of(final(spans)@) == if range.start < range.end && !style.is_default() {
            range.end as int
        } else {
            end_of(old(spans)@)
        },
        final(spans)@ == if range.start >= range.end || style.is_default() {
            old(spans)@
        } else if old(spans)@.len() > 0 && old(spans)@.last().range.end == range.start && old(spans)@.last().style
            == style {
            old(spans)@.drop_last().push(StyleSpan { range: old(spans)@.last().range.start..range.end, style })
        } else {
            old(spans)@.push(StyleSpan { range, style })
        },
{
    let ghost before = spans@;
    proof {
        lemma_style_of(before, 0);
    }
    if range.start >= range.end || style.0 == 0 {
        proof {
            assert forall|p: int| #[trigger] style_of(spans@, p) == if range.start <= p < range.end {
                style
            } else {
                style_of(before, p)
            } by {
                lemma_style_of(before, p);
            }
        }
        return;
    }
    let n = spans.len();
    if n > 0 && spans[n - 1].range.end == range.start && spans[n - 1].style.0 == style.0 {
        let last_start = spans[n - 1].range.start;
        spans.set(n - 1, StyleSpan { range: last_start..range.end, style });
        proof {
            let after = spans@;
            assert(after =~= before.drop_last().push(StyleSpan { range: last_start..range.end, style }));
            assert(canonical(after)) by {
                assert forall|i: int, j: int| 0 <= i < j < after.len() implies #[trigger] after[i].range.end <= #[trigger] after[j].range.start by {
                    assert(before[i].range.end <= before[j].range.start);
                    if j == n - 1 {
                        assert(before[i].range.end <= before[j].range.start);
                    }
                }
                assert forall|i: int| 0 <= i < after.len() - 1 implies (#[trigger] after[i].range.end == after[i + 1].range.start ==> after[i].style != after[i + 1].style) by {
                    assert(before[i].range.end == before[i + 1].range.start ==> before[i].style != before[i + 1].style);
                }
            }
            assert forall|p: int| #[trigger] style_of(spans@, p) == if range.start <= p < range.end {
                style
            } else {
                style_of(before, p)
            } by {
                lemma_style_of(before, p);
                lemma_style_of(after, p);
                if last_start <= p < range.end {
                    assert(covers(after[n - 1], p));
                    if p < range.start {
                        assert(covers(before[n - 1], p));
                    }
                } else {
                    if exists|i: int| 0 <= i < after.len() && #[trigger] covers(after[i], p) {
                        let i = choose|i: int| 0 <= i < after.len() && covers(after[i], p);
                        assert(covers(before[i], p));
                    } else {
                        assert forall|i: int| 0 <= i < before.len() implies !#[trigger] covers(before[i], p) by {
                            assert(!(covers(after[i], p)));
                        }
                    }
                }
            }
        }
        return;
    }
    spans.push(StyleSpan { range, style });
    proof {
        let after = spans@;
        assert(canonical(after)) by {
            assert forall|i: int, j: int| 0 <= i < j < after.len() implies #[trigger] after[i].range.end <= #[trigger] after[j].range.start by {
                if j == n {
                    if i < n - 1 {
                        assert(before[i].range.end <= before[n - 1].range.start);
                    }
                } else {
                    assert(before[i].range.end <= before[j].range.start);
                }
            }
            assert forall|i: int| 0 <= i < after.len() - 1 implies (#[trigger] after[i].range.end == after[i + 1].range.start ==> after[i].style != after[i + 1].style) by {
                if i < n - 1 {
                    assert(before[i].range.end == before[i + 1].range.start ==> before[i].style != before[i + 1].style);
                }
            }
        }
        assert forall|p: int| #[trigger] style_of(spans@, p) == if range.start <= p < range.end {
            style
        } else {
            style_of(before, p)
        } by {
            lemma_style_of(before, p);
            lemma_style_of(after, p);
            if range.start <= p < range.end {
                assert(covers(after[n as int], p));
            } else {
                if exists|i: int| 0 <= i < after.len() && #[trigger] covers(after[i], p) {
                    let i = choose|i: int| 0 <= i < after.len() && covers(after[i], p);
                    assert(covers(before[i], p));
                } else {
                    assert forall|i: int| 0 <= i < before.len() implies !#[trigger] covers(before[i], p) by {
                        assert(!(covers(after[i], p)));
                    }
                }
            }
        }
    }
}

} // verus!

verus! {

/// What `copy_segment` leaves at output byte `p`: the old output before
/// `destination`, the source styles of `range` shifted to `destination`, and
/// nothing after.
pub open spec fn copied_style(
    out: Seq<StyleSpan>,
    spans: Seq<StyleSpan>,
    start: int,
    end: int,
    destination: int,
    p: int,
) -> StyleId {
    if p < destination {
        style_of(out, p)
    } else if p < destination + (end - start) {
        style_of(spans, start + p - destination)
    } else {
        StyleId(0)
    }
}

/// Copy surviving source intervals with a monotonic cursor. A span crossing
/// several edits is visited only for its surviving pieces; no temporary slices.
pub(crate) fn copy_segment(
    out: &mut Vec<StyleSpan>,
    spans: &[StyleSpan],
    index: &mut usize,
    range: Range<usize>,
    destination: usize,
)
    requires
        canonical(spans@),
        canonical(old(out)@),
        end_of(old(out)@) <= destination,
        range.start <= range.end,
        *old(index) <= spans@.len(),
        forall|j: int| 0 <= j < *old(index) ==> #[trigger] spans@[j].range.end <= range.start,
        destination + (range.end - range.start) <= usize::MAX,
    ensures
        canonical(final(out)@),
        end_of(final(out)@) <= destination + (range.end - range.start),
        forall|p: int| #[trigger] style_of(final(out)@, p) == copied_style(
            old(out)@,
            spans@,
            range.start as int,
            range.end as int,
            destination as int,
            p,
        ),
        *old(index) <= *final(index) <= spans@.len(),
        forall|j: int| 0 <= j < *final(index) ==> #[trigger] spans@[j].range.end <= range.end,
{
    let ghost out0 = out@;
    let ghost s = spans@;
    while *index < spans.len() && spans[*index].range.end <= range.start
        invariant
            *old(index) <= *index <= s.len(),
            s == spans@,
            forall|j: int| 0 <= j < *index ==> #[trigger] s[j].range.end <= range.start,
        decreases s.len() - *index,
    {
        *index += 1;
    }
    let ghost mut c: int = range.start as int;
    proof {
        assert forall|p: int| #[trigger] style_of(out@, p) == copied_style(out0, s, range.start as int, c, destination as int, p) by {
            lemma_style_of(out0, p);
        }
    }
    while *index < spans.len()
        invariant_except_break
            c > range.start ==> *index > 0 && s[*index - 1].range.end == c,
        invariant
            *old(index) <= *index <= s.len(),
            s == spans@,
            canonical(s),
            canonical(out@),
            range.start <= c <= range.end,
            destination + (range.end - range.start) <= usize::MAX,
            end_of(out0) <= destination,
            end_of(out@) <= destination + (c - range.start),
            forall|j: int| 0 <= j < *index ==> #[trigger] s[j].range.end <= c,
            *index < s.len() ==> s[*index as int].range.end > c,

            forall|p: int| #[trigger] style_of(out@, p) == copied_style(
                out0,
                s,
                range.start as int,
                c,
                destination as int,
                p,
            ),
        ensures
            range.start <= c <= range.end,
            forall|j: int| 0 <= j < *index ==> #[trigger] s[j].range.end <= c,
            c < range.end ==> (*index == s.len() || s[*index as int].range.start >= range.end),
            canonical(out@),
            end_of(out@) <= destination + (c - range.start),
            forall|p: int| #[trigger] style_of(out@, p) == copied_style(
                out0,
                s,
                range.start as int,
                c,
                destination as int,
                p,
            ),
        decreases s.len() - *index,
    {
        let span_start = spans[*index].range.start;
        let span_end = spans[*index].range.end;
        let span_style = spans[*index].style;
        if span_start >= range.end {
            break;
        }
        let start = if span_start > range.start { span_start } else { range.start };
        let end = if span_end < range.end { span_end } else { range.end };
        let ghost i = *index as int;
        let ghost prev = out@;
        proof {
            assert(s[i].range.start < s[i].range.end);
            if c > range.start {
                // the previous span ended at c, so this one starts at or after it
                assert(i > 0);
                assert(s[i - 1].range.end <= s[i].range.start);
            }
        }
        if start < end {
            push(out, destination + (start - range.start)..destination + (end - range.start), span_style);
        }
        proof {
            let nc = end as int;
            assert forall|p: int| #[trigger] style_of(out@, p) == copied_style(out0, s, range.start as int, nc, destination as int, p) by {
                let q = range.start + p - destination;
                lemma_style_of(s, q);
                if destination + (c - range.start) <= p < destination + (nc - range.start) {
                    if q >= start {
                        assert(covers(s[i], q));
                    } else {
                        // the gap between the previous output and this span
                        assert forall|j: int| 0 <= j < s.len() implies !#[trigger] covers(s[j], q) by {
                            if j < i {
                                assert(s[j].range.end <= c);
                            } else if j > i {
                                assert(s[i].range.end <= s[j].range.start);
                            }
                        }
                    }
                }
            }
            c = nc;
        }
        if span_end > range.end {
            break;
        }
        *index += 1;
        proof {
            if *index < s.len() {
                assert(s[i].range.end <= s[i + 1].range.start);
                assert(s[i + 1].range.start < s[i + 1].range.end);
            }
        }
    }
    proof {
        let cc = c;
        assert forall|p: int| #[trigger] style_of(out@, p) == copied_style(out0, s, range.start as int, range.end as int, destination as int, p) by {
            let q = range.start + p - destination;
            if destination + (cc - range.start) <= p < destination + (range.end - range.start) {
                lemma_style_of(s, q);
                assert forall|j: int| 0 <= j < s.len() implies !#[trigger] covers(s[j], q) by {
                    if j < *index {
                        assert(s[j].range.end <= cc);
                    } else if j > *index {
                        assert(s[*index as int].range.end <= s[j].range.start);
                    }
                }
            }
        }
        assert forall|j: int| 0 <= j < *index implies #[trigger] s[j].range.end <= range.end by {
            assert(s[j].range.end <= cc);
        }
    }
}

} // verus!

verus! {

/// The style an output byte receives when `edits` map `spans`: surviving text
/// keeps its source style, inserted text has none.
pub open spec fn mapped_style(spans: Seq<StyleSpan>, edits: Seq<Edit>, q: int) -> StyleId {
    match source_of(edits, q) {
        Some(p) => style_of(spans, p),
        None => StyleId(0),
    }
}

/// Preserve only surviving text's styles. Insertions start without overrides;
/// exact output deltas subsequently supply their formatting. O(spans + edits).
pub fn map_spans(spans: &[StyleSpan], edits: &[Edit]) -> (result: Vec<StyleSpan>)
    requires
        canonical(spans@),
        sorted_edits(edits@),
        end_of(spans@) + total_inserted(edits@) <= usize::MAX,
        forall|j: int| 0 <= j < edits@.len() ==> #[trigger] edits@[j].range.end + total_inserted(edits@) <= usize::MAX,
    ensures
        canonical(result@),
        forall|q: int| #[trigger] style_of(result@, q) == mapped_style(spans@, edits@, q),
{
    let mut result: Vec<StyleSpan> = Vec::new();
    if spans.len() == 0 {
        proof {
            assert forall|q: int| #[trigger] style_of(result@, q) == mapped_style(spans@, edits@, q) by {}
        }
        return result;
    }
    let ghost e = edits@;
    let ghost s = spans@;
    let mut old: usize = 0;
    let mut new: usize = 0;
    let mut index: usize = 0;
    let mut i: usize = 0;
    proof {
        assert forall|q: int| #[trigger] style_of(result@, q) == if q < new {
            mapped_style(s, e, q)
        } else {
            StyleId(0)
        } by {
            if q < 0 {
                lemma_style_of(s, q);
            }
        }
    }
    while i < edits.len()
        invariant
            e == edits@,
            s == spans@,
            sorted_edits(e),
            canonical(s),
            end_of(s) + total_inserted(e) <= usize::MAX,
            forall|j: int| 0 <= j < e.len() ==> #[trigger] e[j].range.end + total_inserted(e) <= usize::MAX,
            0 <= i <= e.len(),
            old == if i == 0 { 0 } else { e[i - 1].range.end as int },
            new == old + delta_before(e, i as int),
            index <= s.len(),
            forall|j: int| 0 <= j < index ==> #[trigger] s[j].range.end <= old,
            canonical(result@),
            end_of(result@) <= new,
            forall|q: int| #[trigger] style_of(result@, q) == if q < new {
                mapped_style(s, e, q)
            } else {
                StyleId(0)
            },
        decreases e.len() - i,
    {
        let edit = &edits[i];
        proof {
            if i > 0 {
                assert(e[i - 1].range.end <= e[i as int].range.start);
            }
            lemma_delta_before_bounds(e, i as int);
            lemma_delta_before_bounds(e, i + 1);
            lemma_inserted_before_mono(e, i + 1, e.len() as int);
            assert(e[i as int].range.start <= e[i as int].range.end);
        }
        let ghost before = result@;
        copy_segment(&mut result, spans, &mut index, old..edit.range.start, new);
        let ins = edit.insert_len();
        proof {
            let nn = new + (edit.range.start - old) + ins;
            assert(nn == e[i as int].range.end + delta_before(e, i + 1));
            assert forall|q: int| #[trigger] style_of(result@, q) == if q < nn {
                mapped_style(s, e, q)
            } else {
                StyleId(0)
            } by {
                if new <= q {
                    lemma_source_of_skip(e, i as int, q);
                    let rest = e.skip(i as int);
                    assert(rest[0] == e[i as int]);
                }
            }
        }
        new = new + (edit.range.start - old) + ins;
        old = edit.range.end;
        proof {
            assert forall|j: int| 0 <= j < index implies #[trigger] s[j].range.end <= old by {
                assert(s[j].range.end <= e[i as int].range.start);
            }
        }
        i += 1;
    }
    let last_end = spans[spans.len() - 1].range.end;
    let end = if last_end > old { last_end } else { old };
    proof {
        lemma_delta_before_bounds(e, i as int);
        if i > 0 {
            assert(e[i - 1].range.end + total_inserted(e) <= usize::MAX);
        }
    }
    copy_segment(&mut result, spans, &mut index, old..end, new);
    proof {
        assert forall|q: int| #[trigger] style_of(result@, q) == mapped_style(s, e, q) by {
            if new <= q {
                lemma_source_of_skip(e, i as int, q);
                assert(e.skip(i as int).len() == 0);
                lemma_style_of(s, q - delta_before(e, i as int));
            }
        }
    }
    result
}

} // verus!

verus! {

pub open spec fn change_covers(c: StyleChange, p: int) -> bool {
    c.range.start <= p < c.range.end
}

/// The replacement style of the first change covering byte `p`.
pub open spec fn change_at(changes: Seq<StyleChange>, p: int) -> Option<StyleId>
    decreases changes.len(),
{
    if changes.len() == 0 {
        None
    } else if change_covers(changes[0], p) {
        Some(changes[0].style)
    } else {
        change_at(changes.drop_first(), p)
    }
}

/// Well-formed ranges in order, none overlapping.
pub open spec fn sorted_changes(changes: Seq<StyleChange>) -> bool {
    &&& forall|i: int| 0 <= i < changes.len() ==> #[trigger] changes[i].range.start <= changes[i].range.end
    &&& forall|i: int, j: int|
        0 <= i < j < changes.len() ==> #[trigger] changes[i].range.end <= #[trigger] changes[j].range.start
}

/// Sorted nonempty changes where touching changes differ in style: the unique
/// shortest description of a change function.
pub open spec fn change_runs(changes: Seq<StyleChange>) -> bool {
    &&& sorted_changes(changes)
    &&& forall|i: int| 0 <= i < changes.len() ==> #[trigger] changes[i].range.start < changes[i].range.end
    &&& forall|i: int|
        0 <= i < changes.len() - 1 ==> (#[trigger] changes[i].range.end == changes[i + 1].range.start
            ==> changes[i].style != changes[i + 1].style)
}

pub open spec fn changes_end(changes: Seq<StyleChange>) -> int {
    if changes.len() == 0 {
        0
    } else {
        changes.last().range.end as int
    }
}

/// The style at `p` once `changes` replace parts of `spans`.
pub open spec fn changed_style(spans: Seq<StyleSpan>, changes: Seq<StyleChange>, p: int) -> StyleId {
    match change_at(changes, p) {
        Some(s) => s,
        None => style_of(spans, p),
    }
}

pub proof fn lemma_change_at(changes: Seq<StyleChange>, p: int)
    requires
        sorted_changes(changes),
    ensures
        forall|i: int|
            0 <= i < changes.len() && #[trigger] change_covers(changes[i], p) ==> change_at(changes, p)
                == Some(changes[i].style),
        (forall|i: int| 0 <= i < changes.len() ==> !#[trigger] change_covers(changes[i], p))
            ==> change_at(changes, p) is None,
        p >= changes_end(changes) ==> change_at(changes, p) is None,
    decreases changes.len(),
{
    if changes.len() > 0 {
        let rest = changes.drop_first();
        assert(sorted_changes(rest)) by {
            assert forall|i: int| 0 <= i < rest.len() implies #[trigger] rest[i].range.start <= rest[i].range.end by {
                assert(rest[i] == changes[i + 1]);
            }
            assert forall|i: int, j: int| 0 <= i < j < rest.len() implies #[trigger] rest[i].range.end <= #[trigger] rest[j].range.start by {
                assert(rest[i] == changes[i + 1]);
                assert(rest[j] == changes[j + 1]);
            }
        }
        lemma_change_at(rest, p);
        assert forall|i: int|
            0 <= i < changes.len() && #[trigger] change_covers(changes[i], p) implies change_at(changes, p) == Some(changes[i].style) by {
            if i > 0 {
                assert(changes[0].range.end <= changes[i].range.start);
                assert(rest[i - 1] == changes[i]);
            }
        }
        if (forall|i: int| 0 <= i < changes.len() ==> !#[trigger] change_covers(changes[i], p)) {
            assert forall|i: int| 0 <= i < rest.len() implies !#[trigger] change_covers(rest[i], p) by {
                assert(rest[i] == changes[i + 1]);
            }
        }
        if p >= changes_end(changes) {
            assert forall|i: int| 0 <= i < changes.len() implies !#[trigger] change_covers(changes[i], p) by {
                if i < changes.len() - 1 {
                    assert(changes[i].range.end <= changes[changes.len() - 1].range.start);
                }
            }
            assert forall|i: int| 0 <= i < rest.len() implies !#[trigger] change_covers(rest[i], p) by {
                assert(rest[i] == changes[i + 1]);
            }
        }
    }
}

/// Apply disjoint sorted replacements with one sweep. This is shared by rich
/// paste, undo and redo; each source span and delta is visited once.
pub fn apply_changes(spans: Vec<StyleSpan>, changes: &[StyleChange]) -> (result: Vec<StyleSpan>)
    requires
        canonical(spans@),
        sorted_changes(changes@),
    ensures
        canonical(result@),
        forall|p: int| #[trigger] style_of(result@, p) == changed_style(spans@, changes@, p),
{
    if changes.len() == 0 {
        proof {
            assert forall|p: int| #[trigger] style_of(spans@, p) == changed_style(spans@, changes@, p) by {}
        }
        return spans;
    }
    let ghost s = spans@;
    let ghost c = changes@;
    let mut result: Vec<StyleSpan> = Vec::new();
    let mut index: usize = 0;
    let mut position: usize = 0;
    let mut k: usize = 0;
    proof {
        assert forall|q: int| #[trigger] style_of(result@, q) == if q < position {
            changed_style(s, c, q)
        } else {
            StyleId(0)
        } by {
            if q < 0 {
                lemma_style_of(s, q);
                lemma_change_at(c, q);
            }
        }
    }
    while k < changes.len()
        invariant
            s == spans@,
            c == changes@,
            canonical(s),
            sorted_changes(c),
            0 <= k <= c.len(),
            position == if k == 0 { 0 } else { c[k - 1].range.end as int },
            index <= s.len(),
            forall|j: int| 0 <= j < index ==> #[trigger] s[j].range.end <= position,
            canonical(result@),
            end_of(result@) <= position,
            forall|q: int| #[trigger] style_of(result@, q) == if q < position {
                changed_style(s, c, q)
            } else {
                StyleId(0)
            },
        decreases c.len() - k,
    {
        let change = &changes[k];
        proof {
            if k > 0 {
                assert(c[k - 1].range.end <= c[k as int].range.start);
            }
        }
        copy_segment(&mut result, spans.as_slice(), &mut index, position..change.range.start, position);
        let ghost mid = result@;
        push(&mut result, change.range.start..change.range.end, change.style);
        proof {
            assert forall|q: int| #[trigger] style_of(result@, q) == if q < c[k as int].range.end {
                changed_style(s, c, q)
            } else {
                StyleId(0)
            } by {
                lemma_change_at(c, q);
                if position <= q < c[k as int].range.end {
                    if q >= c[k as int].range.start {
                        assert(change_covers(c[k as int], q));
                    } else {
                        assert forall|t: int| 0 <= t < c.len() implies !#[trigger] change_covers(c[t], q) by {
                            if t < k {
                                if t < k - 1 {
                                    assert(c[t].range.end <= c[k - 1].range.start);
                                }
                                assert(c[t].range.end <= position);
                            } else if t > k {
                                assert(c[k as int].range.end <= c[t].range.start);
                            }
                        }
                    }
                }
            }
            assert forall|j: int| 0 <= j < index implies #[trigger] s[j].range.end <= c[k as int].range.end by {
                assert(s[j].range.end <= c[k as int].range.start);
            }
        }
        position = change.range.end;
        k += 1;
    }
    let end = if spans.len() > 0 && spans[spans.len() - 1].range.end > position {
        spans[spans.len() - 1].range.end
    } else {
        position
    };
    copy_segment(&mut result, spans.as_slice(), &mut index, position..end, position);
    proof {
        assert forall|q: int| #[trigger] style_of(result@, q) == changed_style(s, c, q) by {
            lemma_change_at(c, q);
            lemma_style_of(s, q);
        }
    }
    result
}

} // verus!

verus! {

/// Boundary `k` of a span list: the start of span `k / 2` for even `k`, its end
/// for odd `k`.
pub open spec fn bound(spans: Seq<StyleSpan>, k: int) -> int {
    if k % 2 == 0 {
        spans[k / 2].range.start as int
    } else {
        spans[k / 2].range.end as int
    }
}

/// Where `before` and `after` disagree, the style that `after` has there.
pub open spec fn style_delta(before: Seq<StyleSpan>, after: Seq<StyleSpan>, q: int) -> Option<StyleId> {
    if style_of(before, q) != style_of(after, q) {
        Some(style_of(after, q))
    } else {
        None
    }
}

proof fn lemma_bound_sorted(spans: Seq<StyleSpan>, k: int, l: int)
    requires
        canonical(spans),
        0 <= k <= l < 2 * spans.len(),
    ensures
        bound(spans, k) <= bound(spans, l),
{
    let a = k / 2;
    let b = l / 2;
    assert(spans[a].range.start < spans[a].range.end);
    if a < b {
        assert(spans[a].range.end <= spans[b].range.start);
        assert(spans[b].range.start < spans[b].range.end);
    }
}

/// The style is constant between consecutive boundaries of a span list.
proof fn lemma_style_constant(spans: Seq<StyleSpan>, a: int, b: int, q: int)
    requires
        canonical(spans),
        a <= q < b,
        forall|k: int| 0 <= k < 2 * spans.len() ==> bound(spans, k) <= a || bound(spans, k) >= b,
    ensures
        style_of(spans, q) == style_of(spans, a),
{
    lemma_style_of(spans, q);
    lemma_style_of(spans, a);
    assert forall|t: int| 0 <= t < spans.len() implies (#[trigger] covers(spans[t], q) <==> covers(spans[t], a)) by {
        assert(bound(spans, 2 * t) == spans[t].range.start);
        assert(bound(spans, 2 * t + 1) == spans[t].range.end);
    }
    if exists|t: int| 0 <= t < spans.len() && #[trigger] covers(spans[t], q) {
        let t = choose|t: int| 0 <= t < spans.len() && #[trigger] covers(spans[t], q);
        assert(covers(spans[t], a));
    } else {
        assert forall|t: int| 0 <= t < spans.len() implies !#[trigger] covers(spans[t], a) by {
            assert(!covers(spans[t], q));
        }
    }
}

fn bound_at(spans: &[StyleSpan], t: usize, at_end: bool) -> (b: usize)
    requires
        t < spans@.len(),
    ensures
        b == bound(spans@, 2 * t + if at_end { 1int } else { 0 }),
{
    if at_end {
        spans[t].range.end
    } else {
        spans[t].range.start
    }
}

/// Style at `start`, advancing a monotonic cursor past spans that end by it.
fn style_from(spans: &[StyleSpan], i: &mut usize, start: usize) -> (s: StyleId)
    requires
        canonical(spans@),
        *old(i) <= spans@.len(),
        forall|t: int| 0 <= t < *old(i) ==> #[trigger] spans@[t].range.end <= start,
    ensures
        *old(i) <= *final(i) <= spans@.len(),
        forall|t: int| 0 <= t < *final(i) ==> #[trigger] spans@[t].range.end <= start,
        s == style_of(spans@, start as int),
{
    while *i < spans.len() && spans[*i].range.end <= start
        invariant
            *old(i) <= *i <= spans@.len(),
            forall|t: int| 0 <= t < *i ==> #[trigger] spans@[t].range.end <= start,
        decreases spans@.len() - *i,
    {
        *i += 1;
    }
    proof {
        lemma_style_of(spans@, start as int);
        if *i < spans@.len() && !covers(spans@[*i as int], start as int) {
            assert forall|t: int| 0 <= t < spans@.len() implies !#[trigger] covers(spans@[t], start as int) by {
                if t > *i {
                    assert(spans@[*i as int].range.end <= spans@[t].range.start);
                }
            }
        }
    }
    if *i < spans.len() && spans[*i].range.start <= start {
        spans[*i].style
    } else {
        StyleId(0)
    }
}

/// Append a change after every existing one, merging with an equal neighbor.
fn record_change(result: &mut Vec<StyleChange>, start: usize, end: usize, new: StyleId)
    requires
        change_runs(old(result)@),
        changes_end(old(result)@) <= start,
        start < end,
    ensures
        change_runs(final(result)@),
        changes_end(final(result)@) == end,
        forall|q: int| #[trigger] change_at(final(result)@, q) == if start <= q < end {
            Some(new)
        } else {
            change_at(old(result)@, q)
        },
{
    let ghost prev = result@;
    let n = result.len();
    if n > 0 && result[n - 1].range.end == start && result[n - 1].style.0 == new.0 {
        let last_start = result[n - 1].range.start;
        result.set(n - 1, StyleChange { range: last_start..end, style: new });
        proof {
            let cur = result@;
            assert(change_runs(cur)) by {
                assert forall|x: int, y: int| 0 <= x < y < cur.len() implies #[trigger] cur[x].range.end <= #[trigger] cur[y].range.start by {
                    assert(prev[x].range.end <= prev[y].range.start);
                }
                assert forall|x: int| 0 <= x < cur.len() - 1 implies (#[trigger] cur[x].range.end == cur[x + 1].range.start ==> cur[x].style != cur[x + 1].style) by {
                    assert(prev[x].range.end == prev[x + 1].range.start ==> prev[x].style != prev[x + 1].style);
                }
            }
            assert forall|q: int| #[trigger] change_at(cur, q) == if start <= q < end {
                Some(new)
            } else {
                change_at(prev, q)
            } by {
                lemma_change_at(prev, q);
                lemma_change_at(cur, q);
                if last_start <= q < end {
                    assert(change_covers(cur[n - 1], q));
                    if q < start {
                        assert(change_covers(prev[n - 1], q));
                    }
                } else if exists|t: int| 0 <= t < cur.len() && #[trigger] change_covers(cur[t], q) {
                    let t = choose|t: int| 0 <= t < cur.len() && #[trigger] change_covers(cur[t], q);
                    assert(change_covers(prev[t], q));
                } else {
                    assert forall|t: int| 0 <= t < prev.len() implies !#[trigger] change_covers(prev[t], q) by {
                        assert(!change_covers(cur[t], q));
                    }
                }
            }
        }
    } else {
        result.push(StyleChange { range: start..end, style: new });
        proof {
            let cur = result@;
            assert(change_runs(cur)) by {
                assert forall|x: int, y: int| 0 <= x < y < cur.len() implies #[trigger] cur[x].range.end <= #[trigger] cur[y].range.start by {
                    if y == n {
                        if x < n - 1 {
                            assert(prev[x].range.end <= prev[n - 1].range.start);
                        }
                    } else {
                        assert(prev[x].range.end <= prev[y].range.start);
                    }
                }
                assert forall|x: int| 0 <= x < cur.len() - 1 implies (#[trigger] cur[x].range.end == cur[x + 1].range.start ==> cur[x].style != cur[x + 1].style) by {
                    if x < n - 1 {
                        assert(prev[x].range.end == prev[x + 1].range.start ==> prev[x].style != prev[x + 1].style);
                    }
                }
            }
            assert forall|q: int| #[trigger] change_at(cur, q) == if start <= q < end {
                Some(new)
            } else {
                change_at(prev, q)
            } by {
                lemma_change_at(prev, q);
                lemma_change_at(cur, q);
                if start <= q < end {
                    assert(change_covers(cur[n as int], q));
                } else if exists|t: int| 0 <= t < cur.len() && #[trigger] change_covers(cur[t], q) {
                    let t = choose|t: int| 0 <= t < cur.len() && #[trigger] change_covers(cur[t], q);
                    assert(change_covers(prev[t], q));
                } else {
                    assert forall|t: int| 0 <= t < prev.len() implies !#[trigger] change_covers(prev[t], q) by {
                        assert(!change_covers(cur[t], q));
                    }
                }
            }
        }
    }
}

/// Compare ordered interval boundaries in linear time. Only changed portions
/// enter history; default style is an explicit clearing delta.
#[verifier::rlimit(60)]
pub fn diff(before: &[StyleSpan], after: &[StyleSpan]) -> (result: Vec<StyleChange>)
    requires
        canonical(before@),
        canonical(after@),
    ensures
        change_runs(result@),
        forall|q: int| #[trigger] change_at(result@, q) == style_delta(before@, after@, q),
{
    let ghost b = before@;
    let ghost a = after@;
    let mut result: Vec<StyleChange> = Vec::new();
    let (mut tl, mut el) = (0usize, false);
    let (mut tr, mut er) = (0usize, false);
    let (mut i, mut j) = (0usize, 0usize);
    let mut previous: Option<usize> = None;
    while tl < before.len() || tr < after.len()
        invariant
            b == before@,
            a == after@,
            canonical(b),
            canonical(a),
            tl <= b.len(),
            tr <= a.len(),
            tl == b.len() ==> !el,
            tr == a.len() ==> !er,
            i <= b.len(),
            j <= a.len(),
            change_runs(result@),
            previous is None ==> tl == 0 && !el && tr == 0 && !er && result@.len() == 0 && i == 0 && j == 0,
            previous matches Some(pv) ==> {
                &&& (forall|k: int| 0 <= k < 2 * tl + (if el { 1int } else { 0 }) ==> bound(b, k) <= pv)
                &&& (forall|k: int| 0 <= k < 2 * tr + (if er { 1int } else { 0 }) ==> bound(a, k) <= pv)
                &&& (tl < b.len() ==> bound(b, 2 * tl + (if el { 1int } else { 0 })) > pv)
                &&& (tr < a.len() ==> bound(a, 2 * tr + (if er { 1int } else { 0 })) > pv)
                &&& (forall|t: int| 0 <= t < i ==> #[trigger] b[t].range.end <= pv)
                &&& (forall|t: int| 0 <= t < j ==> #[trigger] a[t].range.end <= pv)
                &&& changes_end(result@) <= pv
                &&& forall|q: int| #[trigger] change_at(result@, q) == if q < pv {
                    style_delta(b, a, q)
                } else {
                    None
                }
            },
        decreases 2 * (b.len() - tl) + 2 * (a.len() - tr) - (if el { 1int } else { 0 }) - (if er { 1int } else { 0 }),
    {
        let ghost kl0 = 2 * tl + (if el { 1int } else { 0 });
        let ghost kr0 = 2 * tr + (if er { 1int } else { 0 });
        let end = if tl < before.len() && tr < after.len() {
            let x = bound_at(before, tl, el);
            let y = bound_at(after, tr, er);
            if x < y { x } else { y }
        } else if tl < before.len() {
            bound_at(before, tl, el)
        } else {
            bound_at(after, tr, er)
        };
        proof {
            // every unconsumed boundary lies at or after `end`
            assert forall|k: int| kl0 <= k < 2 * b.len() implies bound(b, k) >= end by {
                lemma_bound_sorted(b, kl0, k);
            }
            assert forall|k: int| kr0 <= k < 2 * a.len() implies bound(a, k) >= end by {
                lemma_bound_sorted(a, kr0, k);
            }
            if previous is Some {
                assert(end > previous->0);
            }
        }
        while tl < before.len() && bound_at(before, tl, el) == end
            invariant
                b == before@,
                canonical(b),
                tl <= b.len(),
                tl == b.len() ==> !el,
                kl0 <= 2 * tl + (if el { 1int } else { 0 }),
                forall|k: int| kl0 <= k < 2 * tl + (if el { 1int } else { 0 }) ==> bound(b, k) == end,
                forall|k: int| kl0 <= k < 2 * b.len() ==> bound(b, k) >= end,
            decreases 2 * (b.len() - tl) - (if el { 1int } else { 0 }),
        {
            if el {
                tl += 1;
                el = false;
            } else {
                el = true;
            }
        }
        while tr < after.len() && bound_at(after, tr, er) == end
            invariant
                a == after@,
                canonical(a),
                tr <= a.len(),
                tr == a.len() ==> !er,
                kr0 <= 2 * tr + (if er { 1int } else { 0 }),
                forall|k: int| kr0 <= k < 2 * tr + (if er { 1int } else { 0 }) ==> bound(a, k) == end,
                forall|k: int| kr0 <= k < 2 * a.len() ==> bound(a, k) >= end,
            decreases 2 * (a.len() - tr) - (if er { 1int } else { 0 }),
        {
            if er {
                tr += 1;
                er = false;
            } else {
                er = true;
            }
        }
        let ghost kl1 = 2 * tl + (if el { 1int } else { 0 });
        let ghost kr1 = 2 * tr + (if er { 1int } else { 0 });
        proof {
            assert(kl1 > kl0 || kr1 > kr0);
        }
        match previous {
            None => {
                proof {
                    assert forall|q: int| #[trigger] change_at(result@, q) == if q < end {
                        style_delta(b, a, q)
                    } else {
                        None
                    } by {
                        if q < end {
                            lemma_style_of(b, q);
                            lemma_style_of(a, q);
                            assert forall|t: int| 0 <= t < b.len() implies !#[trigger] covers(b[t], q) by {
                                assert(bound(b, 2 * t) == b[t].range.start);
                            }
                            assert forall|t: int| 0 <= t < a.len() implies !#[trigger] covers(a[t], q) by {
                                assert(bound(a, 2 * t) == a[t].range.start);
                            }
                        }
                    }
                }
            },
            Some(start) => {
                let old = style_from(before, &mut i, start);
                let new = style_from(after, &mut j, start);
                let ghost prev = result@;
                proof {
                    assert forall|q: int| start <= q < end implies style_delta(b, a, q) == (if old != new { Some(new) } else { None }) by {
                        lemma_style_constant(b, start as int, end as int, q);
                        lemma_style_constant(a, start as int, end as int, q);
                    }
                }
                if old.0 != new.0 {
                    record_change(&mut result, start, end, new);
                    proof {
                        assert forall|q: int| #[trigger] change_at(result@, q) == if q < end {
                            style_delta(b, a, q)
                        } else {
                            None
                        } by {
                            if start <= q < end {
                            } else {
                                assert(change_at(prev, q) == if q < start { style_delta(b, a, q) } else { None });
                            }
                        }
                    }
                } else {
                    proof {
                        assert forall|q: int| #[trigger] change_at(result@, q) == if q < end {
                            style_delta(b, a, q)
                        } else {
                            None
                        } by {
                            lemma_change_at(prev, q);
                        }
                    }
                }
                proof {
                    assert forall|t: int| 0 <= t < i implies #[trigger] b[t].range.end <= end by {}
                    assert forall|t: int| 0 <= t < j implies #[trigger] a[t].range.end <= end by {}
                }
            },
        }
        proof {
            assert forall|k: int| 0 <= k < kl1 implies bound(b, k) <= end by {}
            assert forall|k: int| 0 <= k < kr1 implies bound(a, k) <= end by {}
            assert(tl < b.len() ==> bound(b, kl1) > end);
            assert(tr < a.len() ==> bound(a, kr1) > end);
            assert(forall|t: int| 0 <= t < i ==> #[trigger] b[t].range.end <= end);
            assert(forall|t: int| 0 <= t < j ==> #[trigger] a[t].range.end <= end);
            assert(changes_end(result@) <= end);
        }
        previous = Some(end);
    }
    proof {
        assert forall|q: int| #[trigger] change_at(result@, q) == style_delta(b, a, q) by {
            match previous {
                None => {
                    lemma_style_of(b, q);
                    lemma_style_of(a, q);
                },
                Some(pv) => {
                    if q >= pv {
                        lemma_style_of(b, q);
                        lemma_style_of(a, q);
                        assert forall|t: int| 0 <= t < b.len() implies !#[trigger] covers(b[t], q) by {
                            assert(bound(b, 2 * t + 1) == b[t].range.end);
                        }
                        assert forall|t: int| 0 <= t < a.len() implies !#[trigger] covers(a[t], q) by {
                            assert(bound(a, 2 * t + 1) == a[t].range.end);
                        }
                    }
                },
            }
        }
    }
    result
}

} // verus!

verus! {

proof fn lemma_canonical_drop_first(spans: Seq<StyleSpan>)
    requires
        canonical(spans),
        spans.len() > 0,
    ensures
        canonical(spans.drop_first()),
        forall|q: int| q < spans[0].range.end ==> style_of(spans.drop_first(), q) == StyleId(0),
{
    let rest = spans.drop_first();
    assert forall|i: int| 0 <= i < rest.len() implies #[trigger] rest[i].range.start < rest[i].range.end && !rest[i].style.is_default() by {
        assert(rest[i] == spans[i + 1]);
        assert(spans[i + 1].range.start < spans[i + 1].range.end && !spans[i + 1].style.is_default());
    }
    assert forall|i: int, j: int| 0 <= i < j < rest.len() implies #[trigger] rest[i].range.end <= #[trigger] rest[j].range.start by {
        assert(rest[i] == spans[i + 1]);
        assert(rest[j] == spans[j + 1]);
    }
    assert forall|i: int| 0 <= i < rest.len() - 1 implies (#[trigger] rest[i].range.end == rest[i + 1].range.start ==> rest[i].style != rest[i + 1].style) by {
        assert(rest[i] == spans[i + 1]);
        assert(rest[i + 1] == spans[i + 2]);
    }
    assert forall|q: int| q < spans[0].range.end implies style_of(rest, q) == StyleId(0) by {
        lemma_style_of(rest, q);
        assert forall|i: int| 0 <= i < rest.len() implies !#[trigger] covers(rest[i], q) by {
            assert(rest[i] == spans[i + 1]);
            assert(spans[0].range.end <= spans[i + 1].range.start);
        }
    }
}

/// A canonical span list is determined by the style of every byte.
pub proof fn lemma_canonical_unique(x: Seq<StyleSpan>, y: Seq<StyleSpan>)
    requires
        canonical(x),
        canonical(y),
        forall|q: int| #[trigger] style_of(x, q) == style_of(y, q),
    ensures
        x == y,
    decreases x.len() + y.len(),
{
    if x.len() == 0 || y.len() == 0 {
        if x.len() > 0 {
            assert(style_of(x, x[0].range.start as int) == x[0].style);
            lemma_style_of(y, x[0].range.start as int);
        }
        if y.len() > 0 {
            assert(style_of(y, y[0].range.start as int) == y[0].style);
            lemma_style_of(x, y[0].range.start as int);
        }
        assert(x =~= y);
    } else {
        let a = x[0];
        let b = y[0];
        lemma_style_of(x, a.range.start as int);
        lemma_style_of(y, a.range.start as int);
        lemma_style_of(x, b.range.start as int);
        lemma_style_of(y, b.range.start as int);
        assert(covers(a, a.range.start as int));
        assert(covers(b, b.range.start as int));
        if a.range.start < b.range.start {
            assert forall|i: int| 0 <= i < y.len() implies !#[trigger] covers(y[i], a.range.start as int) by {
                if i > 0 {
                    assert(y[0].range.end <= y[i].range.start);
                }
            }
            assert(false);
        }
        if b.range.start < a.range.start {
            assert forall|i: int| 0 <= i < x.len() implies !#[trigger] covers(x[i], b.range.start as int) by {
                if i > 0 {
                    assert(x[0].range.end <= x[i].range.start);
                }
            }
            assert(false);
        }
        assert(a.style == b.style);
        if a.range.end < b.range.end {
            lemma_end_witness(x, y);
        }
        if b.range.end < a.range.end {
            lemma_end_witness(y, x);
        }
        assert(a == b);
        let xs = x.drop_first();
        let ys = y.drop_first();
        lemma_canonical_drop_first(x);
        lemma_canonical_drop_first(y);
        assert forall|q: int| #[trigger] style_of(xs, q) == style_of(ys, q) by {
            if !covers(a, q) {
                assert(style_of(x, q) == style_of(y, q));
            }
        }
        lemma_canonical_unique(xs, ys);
        assert(x =~= seq![a] + xs);
        assert(y =~= seq![b] + ys);
    }
}

/// Two canonical lists that agree everywhere and whose first spans share a
/// start and a style: the first span of `x` ends no earlier than that of `y`.
proof fn lemma_end_witness(x: Seq<StyleSpan>, y: Seq<StyleSpan>)
    requires
        canonical(x),
        canonical(y),
        x.len() > 0,
        y.len() > 0,
        x[0].range.start == y[0].range.start,
        x[0].style == y[0].style,
        forall|q: int| #[trigger] style_of(x, q) == style_of(y, q),
    ensures
        x[0].range.end >= y[0].range.end,
{
    if x[0].range.end >= y[0].range.end {
        return;
    }
    let q = x[0].range.end as int;
    lemma_style_of(x, q);
    lemma_style_of(y, q);
    assert(covers(y[0], q));
    assert(style_of(y, q) == y[0].style);
    if x.len() > 1 && covers(x[1], q) {
        assert(x[0].range.end == x[1].range.start);
    } else {
        assert forall|i: int| 0 <= i < x.len() implies !#[trigger] covers(x[i], q) by {
            if i > 1 {
                assert(x[1].range.end <= x[i].range.start);
                assert(x[0].range.end <= x[1].range.start);
                assert(x[1].range.start < x[1].range.end);
            }
        }
    }
}

/// Replaying the difference between two canonical span lists onto the first
/// reproduces the second exactly.
pub proof fn lemma_diff_then_apply(
    before: Seq<StyleSpan>,
    after: Seq<StyleSpan>,
    changes: Seq<StyleChange>,
    result: Seq<StyleSpan>,
)
    requires
        canonical(before),
        canonical(after),
        forall|q: int| #[trigger] change_at(changes, q) == style_delta(before, after, q),
        canonical(result),
        forall|q: int| #[trigger] style_of(result, q) == changed_style(before, changes, q),
    ensures
        result == after,
{
    assert forall|q: int| #[trigger] style_of(result, q) == style_of(after, q) by {
        assert(change_at(changes, q) == style_delta(before, after, q));
    }
    lemma_canonical_unique(result, after);
}

} // verus!

verus! {

/// Index of the first span ending after byte `x`; all earlier spans end by `x`.
pub(crate) fn first_ending_after(spans: &[StyleSpan], x: usize) -> (k: usize)
    requires
        canonical(spans@),
    ensures
        k <= spans@.len(),
        forall|t: int| 0 <= t < k ==> #[trigger] spans@[t].range.end <= x,
        forall|t: int| k <= t < spans@.len() ==> #[trigger] spans@[t].range.end > x,
{
    let mut lo: usize = 0;
    let mut hi: usize = spans.len();
    while lo < hi
        invariant
            lo <= hi <= spans@.len(),
            canonical(spans@),
            forall|t: int| 0 <= t < lo ==> #[trigger] spans@[t].range.end <= x,
            forall|t: int| hi <= t < spans@.len() ==> #[trigger] spans@[t].range.end > x,
        decreases hi - lo,
    {
        let mid = lo + (hi - lo) / 2;
        if spans[mid].range.end <= x {
            proof {
                assert forall|t: int| 0 <= t <= mid implies #[trigger] spans@[t].range.end <= x by {
                    if t < mid {
                        assert(spans@[t].range.end <= spans@[mid as int].range.start);
                        assert(spans@[mid as int].range.start < spans@[mid as int].range.end);
                    }
                }
            }
            lo = mid + 1;
        } else {
            proof {
                assert forall|t: int| mid <= t < spans@.len() implies #[trigger] spans@[t].range.end > x by {
                    if t > mid {
                        assert(spans@[mid as int].range.end <= spans@[t].range.start);
                        assert(spans@[t].range.start < spans@[t].range.end);
                    }
                }
            }
            hi = mid;
        }
    }
    lo
}

/// The styles of `range`, rebased so that the range starts at zero.
pub fn slice(spans: &[StyleSpan], range: Range<usize>) -> (result: Vec<StyleSpan>)
    requires
        canonical(spans@),
        range.start <= range.end,
    ensures
        canonical(result@),
        forall|q: int| #[trigger] style_of(result@, q) == if 0 <= q < range.end - range.start {
            style_of(spans@, range.start + q)
        } else {
            StyleId(0)
        },
{
    let ghost s = spans@;
    let mut out = Vec::new();
    let mut out_index = first_ending_after(spans, range.start);
    copy_segment(&mut out, spans, &mut out_index, range.start..range.end, 0);
    proof {
        assert forall|q: int| #[trigger] style_of(out@, q) == if 0 <= q < range.end - range.start {
            style_of(s, range.start + q)
        } else {
            StyleId(0)
        } by {
            if q < 0 {
                lemma_style_of(out@, q);
            }
        }
    }
    out
}

/// Before selects the preceding character's style at a boundary. At zero,
/// both biases select the following character; gaps have no overrides.
pub fn style_at(spans: &[StyleSpan], position: usize, before: bool) -> (r: StyleId)
    requires
        canonical(spans@),
    ensures
        r == if before && position > 0 {
            style_of(spans@, position - 1)
        } else {
            style_of(spans@, position as int)
        },
{
    let byte = if before && position > 0 { position - 1 } else { position };
    let index = first_ending_after(spans, byte);
    proof {
        lemma_style_of(spans@, byte as int);
        if index < spans@.len() && !covers(spans@[index as int], byte as int) {
            assert forall|t: int| 0 <= t < spans@.len() implies !#[trigger] covers(spans@[t], byte as int) by {
                if t > index {
                    assert(spans@[index as int].range.end <= spans@[t].range.start);
                }
            }
        }
        if index == spans@.len() {
            assert forall|t: int| 0 <= t < spans@.len() implies !#[trigger] covers(spans@[t], byte as int) by {}
        }
    }
    if index < spans.len() && spans[index].range.start <= byte {
        spans[index].style
    } else {
        StyleId(0)
    }
}

} // verus!

verus! {

/// A nonempty span with a style other than the default.
pub open spec fn span_ok(span: StyleSpan) -> bool {
    span.range.start < span.range.end && !span.style.is_default()
}

/// A span that starts and ends on char boundaries of `bytes`.
pub open spec fn on_boundaries(bytes: Seq<u8>, span: StyleSpan) -> bool {
    is_char_boundary(bytes, span.range.start as int) && is_char_boundary(bytes, span.range.end as int)
}

/// Spans that are canonical and start and end on char boundaries of `bytes`.
pub open spec fn spans_fit(bytes: Seq<u8>, spans: Seq<StyleSpan>) -> bool {
    &&& canonical(spans)
    &&& forall|i: int| 0 <= i < spans.len() ==> #[trigger] on_boundaries(bytes, spans[i])
}

/// Whether `spans` are a valid formatting of `text`.
pub fn validate_spans(text: &str, spans: &[StyleSpan]) -> (ok: bool)
    ensures
        ok == spans_fit(utf8(text@), spans@),
{
    let ghost s = spans@;
    let mut i: usize = 0;
    while i < spans.len()
        invariant
            s == spans@,
            0 <= i <= s.len(),
            forall|t: int| 0 <= t < i ==> #[trigger] span_ok(s[t]),
            forall|t: int, u: int| 0 <= t < u < i ==> #[trigger] s[t].range.end <= #[trigger] s[u].range.start,
            forall|t: int| 0 <= t < i - 1 ==> (#[trigger] s[t].range.end == s[t + 1].range.start ==> s[t].style != s[t + 1].style),
            forall|t: int| 0 <= t < i ==> #[trigger] on_boundaries(utf8(text@), s[t]),
        decreases s.len() - i,
    {
        let span = &spans[i];
        if span.range.start >= span.range.end || span.style.0 == 0 || !text.is_char_boundary(span.range.start)
            || !text.is_char_boundary(span.range.end) {
            proof {
                if !on_boundaries(utf8(text@), s[i as int]) {
                    assert(!spans_fit(utf8(text@), s));
                } else {
                    assert(!canonical(s));
                }
            }
            return false;
        }
        if i > 0 {
            let prev = &spans[i - 1];
            if prev.range.end > span.range.start || (prev.range.end == span.range.start && prev.style.0 == span.style.0) {
                proof {
                    if prev.range.end > span.range.start {
                        assert(!(s[i - 1].range.end <= s[i as int].range.start));
                    } else {
                        assert(s[i - 1].range.end == s[i - 1 + 1].range.start);
                    }
                    assert(!canonical(s));
                }
                return false;
            }
            proof {
                assert forall|t: int| 0 <= t < i implies #[trigger] s[t].range.end <= span.range.start by {
                    if t < i - 1 {
                        assert(s[t].range.end <= s[i - 1].range.start);
                        assert(span_ok(s[i - 1]));
                    }
                }
            }
        }
        proof {
            assert(span_ok(s[i as int]));
            assert(on_boundaries(utf8(text@), s[i as int]));
        }
        i += 1;
    }
    proof {
        assert forall|t: int| 0 <= t < s.len() implies #[trigger] s[t].range.start < s[t].range.end && !s[t].style.is_default() by {
            assert(span_ok(s[t]));
        }
    }
    true
}

/// Text with exact formatting; the spans always fit the text.
#[derive(Debug)]
pub struct RichText {
    pub text: String,
    pub spans: Vec<StyleSpan>,
}

impl RichText {
    /// Plain text with no overrides.
    pub fn plain(text: String) -> (r: Self)
        ensures
            r.text@ == text@,
            r.spans@.len() == 0,
    {
        RichText { text, spans: Vec::new() }
    }

    /// Text with spans, when the spans are a valid formatting of it.
    pub fn from_spans(text: String, spans: Vec<StyleSpan>) -> (r: Option<Self>)
        ensures
            r is Some <==> spans_fit(utf8(text@), spans@),
            r matches Some(r) ==> r.text@ == text@ && r.spans@ == spans@,
    {
        if validate_spans(text.as_str(), spans.as_slice()) {
            Some(RichText { text, spans })
        } else {
            None
        }
    }
}

impl Clone for RichText {
    fn clone(&self) -> (r: Self)
        ensures
            r.text@ == self.text@,
            r.spans@ == self.spans@,
    {
        let spans = self.spans.clone();
        proof {
            assert(spans@ =~= self.spans@);
        }
        RichText { text: self.text.clone(), spans }
    }
}

} // verus!
