//! Checking a display plan against its source before use: lists sorted by
//! source range, ranges on character boundaries, no conflicting handles or
//! overlaps, and every described widget given a handle.
use super::buffer::{valid_range, TextRead};
use super::document::{utf8, EditError};
use super::format::StyleSpan;
use super::projection::{BlockView, Projection, Replacement, ReplacementContent, ViewId};
use super::view_matching::{block_rank, handle_at, matched_handles, rep_rank};
use crate::ui::order::{lemma_insert_at, sort_by};
use std::ops::Range;
use vstd::prelude::*;

verus! {

/// Something placed over a source range.
pub trait SourceRanged {
    spec fn source_key(&self) -> (usize, usize);

    fn key(&self) -> (k: (usize, usize))
        ensures
            k == self.source_key(),
    ;
}

impl SourceRanged for Replacement {
    open spec fn source_key(&self) -> (usize, usize) {
        (self.range.start, self.range.end)
    }

    fn key(&self) -> (k: (usize, usize)) {
        (self.range.start, self.range.end)
    }
}

impl SourceRanged for StyleSpan {
    open spec fn source_key(&self) -> (usize, usize) {
        (self.range.start, self.range.end)
    }

    fn key(&self) -> (k: (usize, usize)) {
        (self.range.start, self.range.end)
    }
}

impl SourceRanged for BlockView {
    open spec fn source_key(&self) -> (usize, usize) {
        (self.range.start, self.range.end)
    }

    fn key(&self) -> (k: (usize, usize)) {
        (self.range.start, self.range.end)
    }
}

/// By start, then by end.
pub open spec fn range_order<T: SourceRanged>() -> spec_fn(T, T) -> bool {
    |a: T, b: T| a.source_key().0 < b.source_key().0 || (a.source_key().0 == b.source_key().0 && a.source_key().1
        <= b.source_key().1)
}

/// Sorts stably by source range.
fn sort_by_range<T: SourceRanged>(v: &mut Vec<T>)
    ensures
        final(v)@ == sort_by(old(v)@, range_order::<T>()),
{
    let ghost s = v@;
    assert(s.len() == v.len());
    let mut out: Vec<T> = Vec::new();
    let mut k: usize = 0;
    while v.len() > 0
        invariant
            k <= s.len(),
            s.len() <= usize::MAX,
            v@ == s.skip(k as int),
            out@ == sort_by(s.take(k as int), range_order::<T>()),
        decreases v.len(),
    {
        let x = v.remove(0);
        proof {
            assert(x == s[k as int]);
            assert(s.take(k + 1).drop_last() =~= s.take(k as int));
            assert(s.take(k + 1).last() == x);
            assert(v@ =~= s.skip(k + 1));
        }
        let kx = x.key();
        let mut j: usize = out.len();
        while j > 0
            invariant
                j <= out.len(),
                kx == x.source_key(),
                forall|m: int| j <= m < out.len() ==> !range_order::<T>()(#[trigger] out@[m], x),
            ensures
                j <= out.len(),
                forall|m: int| j <= m < out.len() ==> !range_order::<T>()(#[trigger] out@[m], x),
                j == 0 || range_order::<T>()(out@[j - 1], x),
            decreases j,
        {
            let kj = out[j - 1].key();
            if kj.0 < kx.0 || (kj.0 == kx.0 && kj.1 <= kx.1) {
                break;
            }
            j = j - 1;
        }
        proof {
            lemma_insert_at(out@, x, range_order::<T>(), j as int);
        }
        out.insert(j, x);
        assert(out@ =~= sort_by(s.take(k + 1), range_order::<T>()));
        k = k + 1;
    }
    assert(s.take(k as int) =~= s);
    *v = out;
}

/// The first problem with the replacements from the `k`th on, where the one
/// before ended at `end` and `ids` are the handles taken; and the handles
/// taken once all pass.
pub open spec fn replacement_error(bytes: Seq<u8>, reps: Seq<Replacement>, k: int, end: int, ids: Set<ViewId>) -> (
    Option<EditError>,
    Set<ViewId>,
)
    decreases reps.len() - k,
{
    if k < 0 || k >= reps.len() {
        (None, ids)
    } else {
        let r = reps[k];
        if !valid_range(bytes, r.range.start as int, r.range.end as int) {
            (Some(EditError::InvalidRange(r.range)), ids)
        } else if r.content matches ReplacementContent::Object(o) && o != r.id {
            (Some(EditError::Rejected("object identity must match replacement identity")), ids)
        } else if r.range.start < end || (!(r.content is Widget) && ids.contains(r.id)) {
            (Some(EditError::Rejected("conflicting projection replacements")), ids)
        } else {
            replacement_error(
                bytes,
                reps,
                k + 1,
                r.range.end as int,
                if r.content is Widget {
                    ids
                } else {
                    ids.insert(r.id)
                },
            )
        }
    }
}

/// The first problem with the styles from the `k`th on.
pub open spec fn style_error(bytes: Seq<u8>, styles: Seq<StyleSpan>, k: int, end: int) -> Option<EditError>
    decreases styles.len() - k,
{
    if k < 0 || k >= styles.len() {
        None
    } else {
        let s = styles[k];
        if !valid_range(bytes, s.range.start as int, s.range.end as int) {
            Some(EditError::InvalidRange(s.range))
        } else if s.range.start < end {
            Some(EditError::Rejected("overlapping projected styles"))
        } else {
            style_error(bytes, styles, k + 1, s.range.end as int)
        }
    }
}

/// Whether a replacement straddles the edge of `block`.
pub open spec fn straddles(reps: Seq<Replacement>, block: Range<usize>) -> bool {
    exists|i: int|
        0 <= i < reps.len() && (#[trigger] reps[i]).range.start < block.end && reps[i].range.end > block.start && !(
        reps[i].range.start >= block.start && reps[i].range.end <= block.end)
}

/// The first problem with the blocks from the `k`th on.
pub open spec fn block_error(
    bytes: Seq<u8>,
    blocks: Seq<BlockView>,
    reps: Seq<Replacement>,
    k: int,
    end: int,
    ids: Set<ViewId>,
) -> Option<EditError>
    decreases blocks.len() - k,
{
    if k < 0 || k >= blocks.len() {
        None
    } else {
        let b = blocks[k];
        if !valid_range(bytes, b.range.start as int, b.range.end as int) {
            Some(EditError::InvalidRange(b.range))
        } else if b.range.start >= b.range.end || b.range.start < end || (b.widget is None && ids.contains(b.id)) {
            Some(EditError::Rejected("conflicting block views"))
        } else if straddles(reps, b.range) {
            Some(EditError::Rejected("inline replacement overlaps block view"))
        } else {
            block_error(
                bytes,
                blocks,
                reps,
                k + 1,
                b.range.end as int,
                if b.widget is None {
                    ids.insert(b.id)
                } else {
                    ids
                },
            )
        }
    }
}

/// The first problem with sorted lists, checked in order: replacements,
/// styles, blocks.
pub open spec fn plan_error(bytes: Seq<u8>, reps: Seq<Replacement>, styles: Seq<StyleSpan>, blocks: Seq<BlockView>) -> Option<
    EditError,
> {
    let (e, ids) = replacement_error(bytes, reps, 0, 0, Set::empty());
    if e is Some {
        e
    } else if style_error(bytes, styles, 0, 0) is Some {
        style_error(bytes, styles, 0, 0)
    } else {
        block_error(bytes, blocks, reps, 0, 0, ids)
    }
}

fn has_handle(v: &Vec<ViewId>, id: ViewId) -> (r: bool)
    ensures
        r == v@.contains(id),
{
    let mut i: usize = 0;
    while i < v.len()
        invariant
            i <= v.len(),
            forall|k: int| 0 <= k < i ==> v@[k] != id,
        decreases v.len() - i,
    {
        if v[i] == id {
            return true;
        }
        i = i + 1;
    }
    false
}

proof fn lemma_push_set(v: Seq<ViewId>, x: ViewId)
    ensures
        Set::new(|id: ViewId| v.push(x).contains(id)) == Set::new(|id: ViewId| v.contains(id)).insert(x),
{
    let a = Set::new(|id: ViewId| v.push(x).contains(id));
    let b = Set::new(|id: ViewId| v.contains(id)).insert(x);
    assert forall|id: ViewId| #[trigger] a.contains(id) == b.contains(id) by {
        if v.push(x).contains(id) {
            let w = choose|w: int| 0 <= w < v.push(x).len() && v.push(x)[w] == id;
            if w < v.len() {
                assert(v[w] == id);
            }
        }
        if v.contains(id) {
            let w = choose|w: int| 0 <= w < v.len() && v[w] == id;
            assert(v.push(x)[w] == id);
        }
        if id == x {
            assert(v.push(x)[v.len() as int] == id);
        }
    }
    assert(a =~= b);
}

impl Projection {
    /// Sorts the lists by source range, checks them against `source`, and
    /// gives every described widget a handle.
    pub fn validate<S: TextRead + ?Sized>(&mut self, source: &S) -> (r: Result<(), EditError>)
        ensures
            ({
                let bytes = utf8(source.text());
                let reps = sort_by(old(self).replacements@, range_order::<Replacement>());
                let styles = sort_by(old(self).styles@, range_order::<StyleSpan>());
                let blocks = sort_by(old(self).blocks@, range_order::<BlockView>());
                &&& final(self).styles@ == styles
                &&& match plan_error(bytes, reps, styles, blocks) {
                    Some(e) => {
                        &&& r == Err::<(), EditError>(e)
                        &&& final(self).replacements@ == reps
                        &&& final(self).blocks@ == blocks
                    },
                    None => {
                        let (ids, err) = matched_handles(reps, blocks, None, None, false, false);
                        &&& r == match err {
                            Some(e) => Err::<(), EditError>(e),
                            None => Ok(()),
                        }
                        &&& final(self).replacements@.len() == reps.len()
                        &&& forall|i: int|
                            0 <= i < reps.len() ==> #[trigger] final(self).replacements@[i] == (Replacement {
                                id: if reps[i].content is Widget {
                                    handle_at(ids, rep_rank(reps, i), reps[i].id)
                                } else {
                                    reps[i].id
                                },
                                ..reps[i]
                            })
                        &&& final(self).blocks@.len() == blocks.len()
                        &&& forall|j: int|
                            0 <= j < blocks.len() ==> #[trigger] final(self).blocks@[j] == (BlockView {
                                id: if blocks[j].widget is Some {
                                    handle_at(ids, block_rank(reps, blocks, j), blocks[j].id)
                                } else {
                                    blocks[j].id
                                },
                                ..blocks[j]
                            })
                    },
                }
            }),
    {
        sort_by_range(&mut self.replacements);
        sort_by_range(&mut self.styles);
        sort_by_range(&mut self.blocks);
        let ghost bytes = utf8(source.text());
        let ghost reps = self.replacements@;
        let ghost styles = self.styles@;
        let ghost blocks = self.blocks@;
        let mut ids: Vec<ViewId> = Vec::new();
        assert(Set::new(|id: ViewId| ids@.contains(id)) =~= Set::<ViewId>::empty());
        let mut end: usize = 0;
        let mut i: usize = 0;
        while i < self.replacements.len()
            invariant
                i <= self.replacements.len(),
                self.replacements@ == reps,
                self.styles@ == styles,
                self.blocks@ == blocks,
                reps == sort_by(old(self).replacements@, range_order::<Replacement>()),
                styles == sort_by(old(self).styles@, range_order::<StyleSpan>()),
                blocks == sort_by(old(self).blocks@, range_order::<BlockView>()),
                bytes == utf8(source.text()),
                replacement_error(bytes, reps, 0, 0, Set::empty()) == replacement_error(
                    bytes,
                    reps,
                    i as int,
                    end as int,
                    Set::new(|id: ViewId| ids@.contains(id)),
                ),
            decreases reps.len() - i,
        {
            let r = &self.replacements[i];
            if r.range.start > r.range.end || !source.is_char_boundary(r.range.start) || !source.is_char_boundary(r.range.end) {
                return Err(EditError::InvalidRange(r.range.start..r.range.end));
            }
            let object_mismatch = match &r.content {
                ReplacementContent::Object(o) => *o != r.id,
                _ => false,
            };
            if object_mismatch {
                return Err(EditError::Rejected("object identity must match replacement identity"));
            }
            let widget = match &r.content {
                ReplacementContent::Widget(_) => true,
                _ => false,
            };
            if r.range.start < end || (!widget && has_handle(&ids, r.id)) {
                return Err(EditError::Rejected("conflicting projection replacements"));
            }
            if !widget {
                proof {
                    lemma_push_set(ids@, r.id);
                }
                ids.push(r.id);
            }
            end = r.range.end;
            i = i + 1;
        }
        let ghost taken = Set::new(|id: ViewId| ids@.contains(id));
        assert(replacement_error(bytes, reps, 0, 0, Set::empty()) == (None::<EditError>, taken));
        let mut end: usize = 0;
        let mut k: usize = 0;
        while k < self.styles.len()
            invariant
                k <= self.styles.len(),
                self.replacements@ == reps,
                self.styles@ == styles,
                self.blocks@ == blocks,
                reps == sort_by(old(self).replacements@, range_order::<Replacement>()),
                styles == sort_by(old(self).styles@, range_order::<StyleSpan>()),
                blocks == sort_by(old(self).blocks@, range_order::<BlockView>()),
                bytes == utf8(source.text()),
                style_error(bytes, styles, 0, 0) == style_error(bytes, styles, k as int, end as int),
                replacement_error(bytes, reps, 0, 0, Set::empty()) == (None::<EditError>, taken),
            decreases styles.len() - k,
        {
            let st = &self.styles[k];
            if st.range.start > st.range.end || !source.is_char_boundary(st.range.start) || !source.is_char_boundary(
                st.range.end,
            ) {
                return Err(EditError::InvalidRange(st.range.start..st.range.end));
            }
            if st.range.start < end {
                return Err(EditError::Rejected("overlapping projected styles"));
            }
            end = st.range.end;
            k = k + 1;
        }
        assert(style_error(bytes, styles, 0, 0) is None);
        assert(Set::new(|id: ViewId| ids@.contains(id)) == taken);
        let mut end: usize = 0;
        let mut j: usize = 0;
        while j < self.blocks.len()
            invariant
                j <= self.blocks.len(),
                self.replacements@ == reps,
                self.styles@ == styles,
                self.blocks@ == blocks,
                reps == sort_by(old(self).replacements@, range_order::<Replacement>()),
                styles == sort_by(old(self).styles@, range_order::<StyleSpan>()),
                blocks == sort_by(old(self).blocks@, range_order::<BlockView>()),
                bytes == utf8(source.text()),
                replacement_error(bytes, reps, 0, 0, Set::empty()) == (None::<EditError>, taken),
                style_error(bytes, styles, 0, 0) is None,
                block_error(bytes, blocks, reps, 0, 0, taken) == block_error(
                    bytes,
                    blocks,
                    reps,
                    j as int,
                    end as int,
                    Set::new(|id: ViewId| ids@.contains(id)),
                ),
            decreases blocks.len() - j,
        {
            let b = &self.blocks[j];
            if b.range.start > b.range.end || !source.is_char_boundary(b.range.start) || !source.is_char_boundary(
                b.range.end,
            ) {
                return Err(EditError::InvalidRange(b.range.start..b.range.end));
            }
            let registered = b.widget.is_none();
            if b.range.start >= b.range.end || b.range.start < end || (registered && has_handle(&ids, b.id)) {
                return Err(EditError::Rejected("conflicting block views"));
            }
            let mut q: usize = 0;
            while q < self.replacements.len()
                invariant
                    q <= self.replacements.len(),
                    self.replacements@ == reps,
                    self.styles@ == styles,
                    self.blocks@ == blocks,
                    reps == sort_by(old(self).replacements@, range_order::<Replacement>()),
                    styles == sort_by(old(self).styles@, range_order::<StyleSpan>()),
                    blocks == sort_by(old(self).blocks@, range_order::<BlockView>()),
                    bytes == utf8(source.text()),
                    replacement_error(bytes, reps, 0, 0, Set::empty()) == (None::<EditError>, taken),
                    style_error(bytes, styles, 0, 0) is None,
                    block_error(bytes, blocks, reps, 0, 0, taken) == block_error(
                        bytes,
                        blocks,
                        reps,
                        j as int,
                        end as int,
                        Set::new(|id: ViewId| ids@.contains(id)),
                    ),
                    j < blocks.len(),
                    b == &blocks[j as int],
                    valid_range(bytes, b.range.start as int, b.range.end as int),
                    !(b.range.start >= b.range.end || b.range.start < end || (b.widget is None && Set::new(|id: ViewId| ids@.contains(id)).contains(b.id))),
                    b.range.start < b.range.end,
                    forall|t: int|
                        0 <= t < q ==> !((#[trigger] reps[t]).range.start < b.range.end && reps[t].range.end > b.range.start
                            && !(reps[t].range.start >= b.range.start && reps[t].range.end <= b.range.end)),
                decreases reps.len() - q,
            {
                let rr = &self.replacements[q].range;
                if rr.start < b.range.end && rr.end > b.range.start && !(rr.start >= b.range.start && rr.end <= b.range.end) {
                    proof {
                        assert(reps[q as int].range == *rr);
                        assert(straddles(reps, b.range));
                    }
                    return Err(EditError::Rejected("inline replacement overlaps block view"));
                }
                q = q + 1;
            }
            if registered {
                proof {
                    lemma_push_set(ids@, b.id);
                }
                ids.push(b.id);
            }
            end = b.range.end;
            j = j + 1;
        }
        self.match_widgets(None, None, false, false)
    }
}

} // verus!
