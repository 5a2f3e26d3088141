//! Logical editing commands, reusable by alternative keymaps and custom views.
use super::buffer::{cow_into_string, lemma_boundary_char, lemma_boundary_in_bounds, str_slice, valid_range, TextRead};
use super::document::{
    apply_edits, changed_edits, inserted_before, lemma_apply_from_len, lemma_changed_edits, lemma_checked_edits,
    lemma_delta_before_bounds, lemma_inserted_before_prefix, lemma_total_sorted, sort_by_range, str_len, total_inserted,
    utf8, Edit, EditError,
};
use super::selection::{normalized, sel_valid, untagged, Selection, SelectionSet};
use super::state::{rejects, replaces_each, Change, EditKind, EditorState, Transaction};
use unicode_segmentation::{GraphemeCursor, UnicodeSegmentation};
use vstd::prelude::*;
use vstd::utf8::{decode_utf8, is_char_boundary};

verus! {

/// The pieces `split_word_bounds` cuts `text` into at UAX #29 word boundaries.
pub uninterp spec fn word_pieces(text: Seq<char>) -> Seq<Seq<char>>;

/// Unicode `White_Space`, the property `char::is_whitespace` reports.
pub open spec fn white_space(c: char) -> bool {
    let v = c as u32;
    (0x9 <= v <= 0xd) || v == 0x20 || v == 0x85 || v == 0xa0 || v == 0x1680 || (0x2000 <= v <= 0x200a)
        || v == 0x2028 || v == 0x2029 || v == 0x202f || v == 0x205f || v == 0x3000
}

/// A piece made of white space only.
pub open spec fn all_white(s: Seq<char>) -> bool {
    forall|i: int| 0 <= i < s.len() ==> white_space(#[trigger] s[i])
}

/// UTF-8 length of the first `i` pieces.
pub open spec fn bytes_before(p: Seq<Seq<char>>, i: int) -> int
    decreases i,
{
    if i <= 0 || p.len() == 0 {
        0
    } else if i > p.len() {
        bytes_before(p, p.len() as int)
    } else {
        bytes_before(p, i - 1) + utf8(p[i - 1]).len()
    }
}

/// Offset, from the start of the pieces, of the end of the first piece at or
/// after `i` that is not white space; the end of all pieces if none is.
pub open spec fn forward_edge(p: Seq<Seq<char>>, i: int) -> int
    decreases p.len() - i,
{
    if i >= p.len() || i < 0 {
        bytes_before(p, p.len() as int)
    } else if !all_white(p[i]) {
        bytes_before(p, i + 1)
    } else {
        forward_edge(p, i + 1)
    }
}

/// Offset of the start of the last piece before index `j` that is not white
/// space; zero if there is none.
pub open spec fn backward_edge(p: Seq<Seq<char>>, j: int) -> int
    decreases j,
{
    if j <= 0 || j > p.len() {
        0
    } else if !all_white(p[j - 1]) {
        bytes_before(p, j - 1)
    } else {
        backward_edge(p, j - 1)
    }
}

/// The characters of the text between two byte offsets.
pub open spec fn chars_between(text: Seq<char>, start: int, end: int) -> Seq<char> {
    decode_utf8(utf8(text).subrange(start, end))
}

/// Where a word motion from `position` stops: forward, past white space to the
/// end of the next word; backward, past white space to the start of the
/// previous word.
pub open spec fn word_edge(text: Seq<char>, position: int, forward: bool) -> int {
    if forward {
        position + forward_edge(word_pieces(chars_between(text, position, utf8(text).len() as int)), 0)
    } else {
        backward_edge(
            word_pieces(chars_between(text, 0, position)),
            word_pieces(chars_between(text, 0, position)).len() as int,
        )
    }
}

pub proof fn lemma_bytes_before_mono(p: Seq<Seq<char>>, i: int, j: int)
    requires
        0 <= i <= j <= p.len(),
    ensures
        0 <= bytes_before(p, i) <= bytes_before(p, j),
    decreases j,
{
    if j > i {
        lemma_bytes_before_mono(p, i, j - 1);
    } else if j > 0 {
        lemma_bytes_before_mono(p, j - 1, j - 1);
    }
}

proof fn lemma_forward_edge_bounds(p: Seq<Seq<char>>, i: int)
    requires
        0 <= i <= p.len(),
    ensures
        bytes_before(p, i) <= forward_edge(p, i) <= bytes_before(p, p.len() as int),
    decreases p.len() - i,
{
    if i < p.len() {
        lemma_bytes_before_mono(p, i + 1, p.len() as int);
        if all_white(p[i]) {
            lemma_forward_edge_bounds(p, i + 1);
        }
    } else {
        lemma_bytes_before_mono(p, i, i);
    }
}

proof fn lemma_backward_edge_bounds(p: Seq<Seq<char>>, j: int)
    requires
        0 <= j <= p.len(),
    ensures
        0 <= backward_edge(p, j) <= bytes_before(p, j),
    decreases j,
{
    if j > 0 {
        lemma_bytes_before_mono(p, j - 1, j);
        if all_white(p[j - 1]) {
            lemma_backward_edge_bounds(p, j - 1);
        } else {
            lemma_bytes_before_mono(p, 0, j - 1);
        }
    }
}

/// The first `i` pieces, concatenated.
pub open spec fn joined(p: Seq<Seq<char>>, i: int) -> Seq<char>
    decreases i,
{
    if i <= 0 {
        Seq::empty()
    } else {
        joined(p, i - 1) + p[i - 1]
    }
}

/// The pieces encode to as many bytes as their offsets count.
proof fn lemma_joined_len(p: Seq<Seq<char>>, i: int)
    requires
        0 <= i <= p.len(),
    ensures
        utf8(joined(p, i)).len() == bytes_before(p, i),
    decreases i,
{
    if i > 0 {
        lemma_joined_len(p, i - 1);
        super::document::lemma_utf8_concat(joined(p, i - 1), p[i - 1]);
    }
}

/// The first `i` pieces begin the first `n`.
proof fn lemma_joined_prefix(p: Seq<Seq<char>>, i: int, n: int) -> (rest: Seq<char>)
    requires
        0 <= i <= n <= p.len(),
    ensures
        joined(p, n) == joined(p, i) + rest,
    decreases n,
{
    if n == i {
        assert(joined(p, n) =~= joined(p, i) + Seq::<char>::empty());
        Seq::empty()
    } else {
        let r = lemma_joined_prefix(p, i, n - 1);
        assert(joined(p, n) =~= joined(p, i) + (r + p[n - 1]));
        r + p[n - 1]
    }
}

/// Where the encoding of a character prefix ends, a character starts.
proof fn lemma_prefix_boundary(a: Seq<char>, b: Seq<char>)
    ensures
        is_char_boundary(utf8(a + b), utf8(a).len() as int),
{
    super::document::lemma_utf8_concat(a, b);
    vstd::utf8::encode_utf8_valid_utf8(a);
    vstd::utf8::encode_utf8_valid_utf8(b);
    vstd::utf8::is_char_boundary_start_end_of_seq(utf8(b));
    super::document::lemma_boundary_concat(utf8(a), utf8(b), 0);
}

/// A nonempty piece takes at least one byte.
proof fn lemma_piece_bytes(p: Seq<Seq<char>>, i: int)
    requires
        0 <= i < p.len(),
        p[i].len() > 0,
    ensures
        bytes_before(p, i) < bytes_before(p, i + 1),
{
    assert(utf8(p[i]) == vstd::utf8::encode_scalar(p[i][0] as u32) + utf8(p[i].drop_first()));
}

/// The forward stop lies at the end of some piece, past the first piece.
proof fn lemma_forward_edge_piece(p: Seq<Seq<char>>, i: int) -> (k: int)
    requires
        0 <= i <= p.len(),
    ensures
        i <= k <= p.len(),
        forward_edge(p, i) == bytes_before(p, k),
        i < p.len() ==> i < k,
    decreases p.len() - i,
{
    if i >= p.len() {
        p.len() as int
    } else if !all_white(p[i]) {
        i + 1
    } else {
        lemma_forward_edge_piece(p, i + 1)
    }
}

/// The backward stop lies at the start of some piece before `j`.
proof fn lemma_backward_edge_piece(p: Seq<Seq<char>>, j: int) -> (k: int)
    requires
        0 <= j <= p.len(),
    ensures
        0 <= k <= j,
        backward_edge(p, j) == bytes_before(p, k),
        j > 0 ==> k < j,
    decreases j,
{
    if j <= 0 {
        assert(bytes_before(p, 0) == 0);
        0
    } else if !all_white(p[j - 1]) {
        j - 1
    } else {
        lemma_backward_edge_piece(p, j - 1)
    }
}

/// `str::split_word_bound_indices`: the word-boundary pieces of `text` with the
/// byte offset of each. The pieces are those `word_pieces` names; as the crate
/// documents, none is empty and they concatenate to `text`.
#[verifier::external_body]
fn split_word_bound_indices<'a>(text: &'a str) -> (r: Vec<(usize, &'a str)>)
    ensures
        r@.len() == word_pieces(text@).len(),
        forall|i: int| 0 <= i < r@.len() ==> (#[trigger] r@[i]).1@.len() > 0,
        joined(word_pieces(text@), r@.len() as int) == text@,
        forall|i: int| 0 <= i < r@.len() ==> (#[trigger] r@[i]).1@ == word_pieces(text@)[i],
        forall|i: int| 0 <= i < r@.len() ==> (#[trigger] r@[i]).0 == bytes_before(word_pieces(text@), i),
        bytes_before(word_pieces(text@), r@.len() as int) == utf8(text@).len(),
{
    text.split_word_bound_indices().collect()
}

/// The Unicode `White_Space` property, as `char::is_whitespace` reports it.
fn char_is_whitespace(c: char) -> (b: bool)
    ensures
        b == white_space(c),
{
    let v = c as u32;
    (0x9 <= v && v <= 0xd) || v == 0x20 || v == 0x85 || v == 0xa0 || v == 0x1680 || (0x2000 <= v && v <= 0x200a)
        || v == 0x2028 || v == 0x2029 || v == 0x202f || v == 0x205f || v == 0x3000
}

fn is_all_white(s: &str) -> (b: bool)
    ensures
        b == all_white(s@),
{
    let n = s.unicode_len();
    let mut i: usize = 0;
    while i < n
        invariant
            n == s@.len(),
            0 <= i <= n,
            forall|k: int| 0 <= k < i ==> white_space(#[trigger] s@[k]),
        decreases n - i,
    {
        if !char_is_whitespace(s.get_char(i)) {
            return false;
        }
        i += 1;
    }
    true
}

/// Word motion from a byte position: forward to the end of the next word,
/// backward to the start of the previous one, skipping white space between.
pub fn word_boundary(text: &str, position: usize, forward: bool) -> (r: usize)
    requires
        is_char_boundary(utf8(text@), position as int),
    ensures
        r == word_edge(text@, position as int, forward),
        is_char_boundary(utf8(text@), r as int),
        forward ==> position <= r <= utf8(text@).len(),
        forward && position < utf8(text@).len() ==> position < r,
        !forward ==> r <= position,
        !forward && position > 0 ==> r < position,
{
    let len = str_len(text);
    proof {
        vstd::utf8::encode_utf8_valid_utf8(text@);
        lemma_boundary_in_bounds(text@, position as int);
        lemma_boundary_char(utf8(text@), 0);
        lemma_boundary_char(utf8(text@), len as int);
    }
    if forward {
        let tail = str_slice(text, position, len);
        let pieces = split_word_bound_indices(tail);
        let ghost p = word_pieces(tail@);
        proof {
            vstd::utf8::encode_utf8_decode_utf8(tail@);
            assert(tail@ == chars_between(text@, position as int, len as int));
        }
        let mut boundary = len;
        let mut i: usize = 0;
        while i < pieces.len()
            invariant_except_break
                forward_edge(p, 0) == forward_edge(p, i as int),
            invariant
                0 <= i <= pieces@.len(),
                pieces@.len() == p.len(),
                forall|k: int| 0 <= k < pieces@.len() ==> (#[trigger] pieces@[k]).1@ == p[k],
                forall|k: int| 0 <= k < pieces@.len() ==> (#[trigger] pieces@[k]).0 == bytes_before(p, k),
                bytes_before(p, p.len() as int) == len - position,
                position <= len,
                boundary == if i == 0 { len as int } else { position + bytes_before(p, i as int) },
            ensures
                boundary == position + forward_edge(p, 0),
            decreases pieces@.len() - i,
        {
            let (at, word) = pieces[i];
            let wlen = str_len(word);
            proof {
                lemma_bytes_before_mono(p, i as int + 1, p.len() as int);
                assert(bytes_before(p, i as int + 1) == at + wlen);
            }
            boundary = position + at + wlen;
            i += 1;
            if !is_all_white(word) {
                break;
            }
        }
        proof {
            if p.len() == 0 {
                assert(bytes_before(p, 0) == 0);
            }
            lemma_forward_edge_bounds(p, 0);
            let k = lemma_forward_edge_piece(p, 0);
            let rest = lemma_joined_prefix(p, k, p.len() as int);
            lemma_joined_len(p, k);
            lemma_prefix_boundary(joined(p, k), rest);
            let tb = utf8(tail@);
            let pre = utf8(text@).subrange(0, position as int);
            assert(utf8(text@) =~= pre + tb);
            vstd::utf8::encode_utf8_valid_utf8(tail@);
            super::document::lemma_valid_piece(utf8(text@), 0, position as int);
            super::document::lemma_boundary_concat(pre, tb, bytes_before(p, k));
            if position < len {
                assert(tail@.len() > 0) by {
                    if tail@.len() == 0 {
                        assert(tb.len() == 0);
                    }
                }
                if p.len() == 0 {
                    assert(joined(p, 0).len() == 0);
                }
                lemma_bytes_before_mono(p, 1, k);
                assert(pieces@[0].1@ == p[0]);
                assert(p[0].len() > 0);
                lemma_piece_bytes(p, 0);
                assert(bytes_before(p, 0) == 0);
            }
        }
        boundary
    } else {
        let head = str_slice(text, 0, position);
        let pieces = split_word_bound_indices(head);
        let ghost p = word_pieces(head@);
        proof {
            vstd::utf8::encode_utf8_decode_utf8(head@);
            assert(head@ == chars_between(text@, 0, position as int));
        }
        let mut boundary: usize = 0;
        let mut j: usize = pieces.len();
        while j > 0
            invariant_except_break
                backward_edge(p, p.len() as int) == backward_edge(p, j as int),
                boundary == if j == pieces@.len() { 0 } else { bytes_before(p, j as int) },
            invariant
                0 <= j <= pieces@.len(),
                pieces@.len() == p.len(),
                forall|k: int| 0 <= k < pieces@.len() ==> (#[trigger] pieces@[k]).1@ == p[k],
                forall|k: int| 0 <= k < pieces@.len() ==> (#[trigger] pieces@[k]).0 == bytes_before(p, k),
            ensures
                boundary == backward_edge(p, p.len() as int),
            decreases j,
        {
            let (at, word) = pieces[j - 1];
            boundary = at;
            j -= 1;
            if !is_all_white(word) {
                break;
            }
        }
        proof {
            lemma_backward_edge_bounds(p, p.len() as int);
            let n = p.len() as int;
            let k = lemma_backward_edge_piece(p, n);
            let rest = lemma_joined_prefix(p, k, n);
            lemma_joined_len(p, k);
            lemma_joined_len(p, n);
            lemma_prefix_boundary(joined(p, k), rest);
            let hb = utf8(head@);
            let post = utf8(text@).subrange(position as int, len as int);
            assert(utf8(text@) =~= hb + post);
            vstd::utf8::encode_utf8_valid_utf8(head@);
            super::document::lemma_valid_piece(utf8(text@), position as int, len as int);
            super::document::lemma_boundary_concat(hb, post, bytes_before(p, k));
            if position > 0 {
                assert(n > 0) by {
                    if n == 0 {
                        assert(joined(p, 0).len() == 0);
                        assert(hb.len() == 0);
                    }
                }
                lemma_bytes_before_mono(p, k + 1, n);
                assert(pieces@[k].1@ == p[k]);
                assert(p[k].len() > 0);
                lemma_piece_bytes(p, k);
            }
        }
        boundary
    }
}

} // verus!

verus! {

/// Where a word motion stops when only the window `a..b` of the text is
/// consulted.
pub open spec fn window_edge(text: Seq<char>, a: int, b: int, position: int, forward: bool) -> int {
    a + word_edge(chars_between(text, a, b), position - a, forward)
}

/// The window `a..b` around `position` answers a word motion: the motion
/// stops inside it, or it reaches the end of the text in that direction.
pub open spec fn settled_window(text: Seq<char>, a: int, b: int, position: int, forward: bool, r: int) -> bool {
    &&& valid_range(utf8(text), a, b)
    &&& a <= position <= b
    &&& r == window_edge(text, a, b, position, forward)
    &&& forward ==> (r < b || b == utf8(text).len())
    &&& !forward ==> (r > a || a == 0)
}

/// Word motion over chunked storage. It segments the stored chunk around
/// `position` and widens the window one chunk at a time while the motion runs
/// into the window's edge, so no whole-document string is built.
pub(crate) fn source_word_boundary<S: TextRead + ?Sized>(source: &S, position: usize, forward: bool) -> (r: usize)
    requires
        is_char_boundary(utf8(source.text()), position as int),
    ensures
        exists|a: int, b: int| settled_window(source.text(), a, b, position as int, forward, r as int),
        forward ==> position <= r <= utf8(source.text()).len(),
        !forward ==> r <= position,
{
    let ghost bytes = utf8(source.text());
    proof {
        vstd::utf8::encode_utf8_valid_utf8(source.text());
        lemma_boundary_in_bounds(source.text(), position as int);
        lemma_boundary_char(bytes, position as int);
    }
    let len = source.len();
    let (chunk, start) = source.chunk(position);
    let mut a = start;
    let mut b = start + str_len(chunk);
    loop
        invariant
            bytes == utf8(source.text()),
            vstd::utf8::valid_utf8(bytes),
            len == bytes.len(),
            a <= position <= b <= len,
            is_char_boundary(bytes, a as int),
            is_char_boundary(bytes, b as int),
            is_char_boundary(bytes, position as int),
            position == len || !vstd::utf8::is_continuation_byte(bytes[position as int]),
        decreases (len - b) + a,
    {
        let window = cow_into_string(source.read(a..b).unwrap());
        let ghost sub = bytes.subrange(a as int, b as int);
        proof {
            assert(utf8(window@) == sub);
            vstd::utf8::encode_utf8_valid_utf8(window@);
            vstd::utf8::encode_utf8_decode_utf8(window@);
            lemma_boundary_char(sub, (position - a) as int);
            assert(window@ == chars_between(source.text(), a as int, b as int));
        }
        let edge = a + word_boundary(window.as_str(), position - a, forward);
        if forward && edge == b && b < len {
            let (c, at) = source.chunk(b);
            b = at + str_len(c);
        } else if !forward && edge == a && a > 0 {
            let (_c, at) = source.chunk(a - 1);
            a = at;
        } else {
            proof {
                assert(settled_window(source.text(), a as int, b as int, position as int, forward, edge as int));
            }
            return edge;
        }
    }
}

} // verus!

verus! {

/// The extended grapheme cluster boundary after byte `position` of `text`,
/// if any.
pub uninterp spec fn grapheme_after(text: Seq<char>, position: int) -> Option<usize>;

/// The extended grapheme cluster boundary before byte `position` of `text`,
/// if any.
pub uninterp spec fn grapheme_before(text: Seq<char>, position: int) -> Option<usize>;

/// `GraphemeCursor::next_boundary` from `position` over the whole text: the
/// next extended grapheme boundary, a char boundary past `position`, or `None`
/// at the end. With the whole text supplied the cursor never asks for more
/// context, so its `Err` case does not occur.
#[verifier::external_body]
fn next_grapheme_boundary(text: &str, position: usize) -> (r: Option<usize>)
    requires
        is_char_boundary(utf8(text@), position as int),
    ensures
        r == grapheme_after(text@, position as int),
        r is None <==> position == utf8(text@).len(),
        r matches Some(b) ==> position < b <= utf8(text@).len() && is_char_boundary(utf8(text@), b as int),
{
    match GraphemeCursor::new(position, text.len(), true).next_boundary(text, 0) {
        Ok(b) => b,
        Err(_) => None,
    }
}

/// `GraphemeCursor::prev_boundary` from `position` over the whole text: the
/// previous extended grapheme boundary, a char boundary before `position`, or
/// `None` at the start. With the whole text supplied the cursor never asks for
/// more context, so its `Err` case does not occur.
#[verifier::external_body]
fn prev_grapheme_boundary(text: &str, position: usize) -> (r: Option<usize>)
    requires
        is_char_boundary(utf8(text@), position as int),
    ensures
        r == grapheme_before(text@, position as int),
        r is None <==> position == 0,
        r matches Some(b) ==> b < position && is_char_boundary(utf8(text@), b as int),
{
    match GraphemeCursor::new(position, text.len(), true).prev_boundary(text, 0) {
        Ok(b) => b,
        Err(_) => None,
    }
}

/// Where a one-character motion from `position` stops: the next extended
/// grapheme boundary or the end going forward, the previous one or zero
/// going backward.
pub open spec fn grapheme_edge(text: Seq<char>, position: int, forward: bool) -> int {
    if forward {
        match grapheme_after(text, position) {
            Some(b) => b as int,
            None => utf8(text).len() as int,
        }
    } else {
        match grapheme_before(text, position) {
            Some(b) => b as int,
            None => 0,
        }
    }
}

/// Where a deletion from the caret at `position` reaches: one grapheme, or
/// the word motion's stop as a window around `position` settles it.
pub open spec fn deletion_edge(text: Seq<char>, position: int, forward: bool, word: bool, r: int) -> bool {
    if word {
        exists|a: int, b: int| settled_window(text, a, b, position, forward, r)
    } else {
        r == grapheme_edge(text, position, forward)
    }
}

/// `out` is `sels` with each caret widened to the deletion edge and each
/// range kept.
pub open spec fn deletion_ranges(text: Seq<char>, sels: Seq<Selection>, forward: bool, word: bool, out: Seq<Selection>) -> bool {
    &&& out.len() == sels.len()
    &&& forall|i: int| 0 <= i < sels.len() ==> if (#[trigger] sels[i]).anchor != sels[i].head {
        out[i] == sels[i]
    } else {
        &&& out[i] == (Selection {
            anchor: sels[i].head,
            head: out[i].head,
            affinity: super::document::Bias::After,
            preferred_x: None,
        })
        &&& deletion_edge(text, sels[i].head as int, forward, word, out[i].head as int)
    }
}

/// The user-perceived character boundary next to `position`: forward the next
/// extended grapheme boundary or the end, backward the previous one or zero.
pub fn grapheme_boundary(text: &str, position: usize, forward: bool) -> (r: usize)
    requires
        is_char_boundary(utf8(text@), position as int),
    ensures
        r == grapheme_edge(text@, position as int, forward),
        is_char_boundary(utf8(text@), r as int),
        forward ==> position <= r <= utf8(text@).len(),
        !forward ==> r <= position,
{
    proof {
        vstd::utf8::encode_utf8_valid_utf8(text@);
        lemma_boundary_char(utf8(text@), 0);
        lemma_boundary_char(utf8(text@), utf8(text@).len() as int);
        lemma_boundary_in_bounds(text@, position as int);
    }
    if forward {
        match next_grapheme_boundary(text, position) {
            Some(b) => b,
            None => str_len(text),
        }
    } else {
        match prev_grapheme_boundary(text, position) {
            Some(b) => b,
            None => 0,
        }
    }
}

impl EditorState {
    /// Delete each selection; a caret first extends by one word or one
    /// user-perceived character in the given direction. One undo step, which
    /// continues a run of deletions.
    pub fn delete(&mut self, forward: bool, word: bool) -> (r: Result<Option<Change>, EditError>)
        requires
            old(self).wf(),
            old(self).document_view().revision_spec() < u64::MAX,
        ensures
            r matches Ok(Some(_)) && old(self).may_merge(EditKind::Delete) && final(self).within_merge_interval()
                ==> final(self).undo_depth() <= old(self).undo_depth() && (final(self).undo_depth() > 0 ==> final(self).undo_target()
                == old(self).undo_target() && final(self).undo_steps() == old(self).undo_steps() + 1),
            final(self).wf(),
            old(self).composing() ==> r == Err::<Option<Change>, EditError>(EditError::CompositionActive),
            r is Err ==> *final(self) == *old(self),
            r is Ok ==> utf8(final(self).document_view()@).len() <= utf8(old(self).document_view()@).len(),
            exists|rs: Seq<Selection>, e: Seq<Edit>|
                #![trigger deletion_ranges(old(self).document_view()@, old(self).selection_view()@, forward, word, rs), replaces_each(untagged(normalized(rs, old(self).selection_view().primary_spec() as int)), Seq::empty(), e)]
                {
                &&& deletion_ranges(old(self).document_view()@, old(self).selection_view()@, forward, word, rs)
                &&& replaces_each(untagged(normalized(rs, old(self).selection_view().primary_spec() as int)), Seq::empty(), e)
                &&& r is Err <==> (old(self).composing() || rejects(
                    old(self).document_view()@,
                    old(self).document_view().revision_spec(),
                    old(self).selection_view()@,
                    old(self).selection_view().primary_spec(),
                    old(self).document_view().revision_spec(),
                    e,
                    None,
                ))
                &&& r is Ok ==> utf8(final(self).document_view()@) == apply_edits(
                    utf8(old(self).document_view()@),
                    changed_edits(utf8(old(self).document_view()@), sort_by_range(e)),
                )
            },
            r matches Ok(Some(ch)) ==> ch.kind == EditKind::Delete && final(self).redo_depth() == 0,
            r matches Ok(Some(_)) && final(self).undo_depth() > 0 && !old(self).may_merge(EditKind::Delete) ==> final(self).undo_target()
                == old(self).current() && final(self).undo_selection() == old(self).selection_view(),
    {
        let all = self.selections().iter();
        let ghost doc = self.document_view()@;
        let doc_len = self.document().len();
        proof {
            super::state::lemma_session_parts(*self);
        }
        let whole = if word { String::new() } else { cow_into_string(self.document().text()) };
        let mut ranges: Vec<Selection> = Vec::new();
        let mut i: usize = 0;
        while i < all.len()
            invariant
                self.wf(),
                doc == self.document_view()@,
                all@ == self.selection_view()@,
                super::state::selections_valid(doc, self.selection_view()),
                !word ==> whole@ == doc,
                0 <= i <= all@.len(),
                ranges@.len() == i,
                forall|j: int| 0 <= j < i ==> if (#[trigger] all@[j]).anchor != all@[j].head {
                    ranges@[j] == all@[j]
                } else {
                    &&& ranges@[j] == (Selection {
                        anchor: all@[j].head,
                        head: ranges@[j].head,
                        affinity: super::document::Bias::After,
                        preferred_x: None,
                    })
                    &&& deletion_edge(doc, all@[j].head as int, forward, word, ranges@[j].head as int)
                },
            decreases all@.len() - i,
        {
            let s = all[i];
            proof {
                assert(sel_valid(utf8(doc), all@[i as int]));
            }
            if !s.is_caret() {
                ranges.push(s);
            } else {
                let edge = if word {
                    source_word_boundary(self.document().buffer(), s.head, forward)
                } else {
                    grapheme_boundary(whole.as_str(), s.head, forward)
                };
                ranges.push(Selection::range(s.head, edge));
            }
            i += 1;
        }
        let ghost ranges_view = ranges@;
        let ranges = match SelectionSet::new(ranges, self.selections().primary_index()) {
            Ok(set) => set,
            Err(e) => return Err(e),
        };
        let spans = ranges.iter();
        let mut edits: Vec<Edit> = Vec::new();
        let mut k: usize = 0;
        while k < spans.len()
            invariant
                0 <= k <= spans@.len(),
                edits@.len() == k,
                forall|j: int| 0 <= j < k ==> (#[trigger] edits@[j]).range.start == spans@[j].start() && edits@[j].range.end
                    == spans@[j].end() && edits@[j].insert@ == Seq::<char>::empty() && super::document::rich_fits(edits@[j]),
                inserted_before(edits@, k as int) == 0,
            decreases spans@.len() - k,
        {
            let ghost before = edits@;
            edits.push(Edit::new(spans[k].text_range(), String::new()));
            proof {
                assert(edits@.take(k as int) =~= before);
                lemma_inserted_before_prefix(edits@, k as int);
                lemma_inserted_before_prefix(before, k as int);
                assert(before.take(k as int) =~= before);
                assert(edits@[k as int].ins_len() == 0);
            }
            k += 1;
        }
        let mut transaction = Transaction::new(self.revision(), edits);
        transaction.kind = EditKind::Delete;
        let ghost es = transaction.edits@;
        proof {
            vstd::utf8::encode_utf8_valid_utf8(doc);
        }
        proof {
            assert(deletion_ranges(doc, all@, forward, word, ranges_view));
            assert(replaces_each(spans@, Seq::empty(), es));
        }
        let r = self.transact(transaction);
        proof {
            if r is Ok {
                let b = utf8(doc);
                let sorted = sort_by_range(es);
                lemma_total_sorted(es);
                lemma_checked_edits(b, sorted);
                lemma_changed_edits(b, sorted);
                let c = changed_edits(b, sorted);
                lemma_checked_edits(b, sorted);
                assert(super::document::edits_fit(b, c)) by {
                    assert forall|j: int| 0 <= j < c.len() implies super::buffer::valid_range(b, (#[trigger] c[j]).range.start as int, c[j].range.end as int) by {
                        let t = choose|t: int| 0 <= t < sorted.len() && c[j].range == sorted[t].range;
                        assert(super::buffer::valid_range(b, sorted[t].range.start as int, sorted[t].range.end as int));
                    }
                }
                lemma_apply_from_len(b, c, 0);
                lemma_delta_before_bounds(c, c.len() as int);
                super::buffer::lemma_boundary_char(b, 0);
                if c.len() > 0 {
                    super::document::lemma_valid_range_bounds(b, c[0]);
                }
            }
        }
        r
    }
}

} // verus!
