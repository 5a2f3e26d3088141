//! Byte-addressed storage and cheap immutable snapshots. Short controls keep a
//! String; larger documents use a shared rope. Rendering reads only its ranges.
use super::document::{str_len, utf8};
use ropey::{LineType, Rope, RopeSlice};
use std::borrow::Cow;
use std::ops::Range;
use vstd::prelude::*;
use vstd::utf8::{is_char_boundary, is_continuation_byte, valid_utf8};

verus! {

#[verifier::external_type_specification]
#[verifier::external_body]
pub struct ExRope(Rope);

#[verifier::external_type_specification]
#[verifier::external_body]
pub struct ExRopeSlice<'a>(RopeSlice<'a>);

/// The characters a rope holds.
pub uninterp spec fn rope_chars(r: Rope) -> Seq<char>;

/// The characters a rope slice holds.
pub uninterp spec fn rope_slice_chars(s: RopeSlice) -> Seq<char>;

/// A byte range that lies inside `bytes` and starts and ends on char boundaries.
pub open spec fn valid_range(bytes: Seq<u8>, start: int, end: int) -> bool {
    start <= end && is_char_boundary(bytes, start) && is_char_boundary(bytes, end)
}

/// `bytes` with `start..end` replaced by `insert`.
pub open spec fn splice(bytes: Seq<u8>, start: int, end: int, insert: Seq<u8>) -> Seq<u8> {
    bytes.subrange(0, start) + insert + bytes.subrange(end, bytes.len() as int)
}

/// `ropey::Rope::from_str`: a rope holding exactly `text`.
#[verifier::external_body]
fn rope_from_str(text: &str) -> (r: Rope)
    ensures
        rope_chars(r) == text@,
{
    Rope::from_str(text)
}

/// `Rope::clone`: a rope sharing the same text.
#[verifier::external_body]
fn rope_clone(r: &Rope) -> (c: Rope)
    ensures
        rope_chars(c) == rope_chars(*r),
{
    r.clone()
}

/// `Rope::len`: the length of the text in UTF-8 bytes.
#[verifier::external_body]
fn rope_len(r: &Rope) -> (n: usize)
    ensures
        n == utf8(rope_chars(*r)).len(),
{
    r.len()
}

/// `Rope::is_char_boundary`, which panics past the end.
#[verifier::external_body]
fn rope_is_char_boundary(r: &Rope, byte_idx: usize) -> (b: bool)
    requires
        byte_idx <= utf8(rope_chars(*r)).len(),
    ensures
        b == is_char_boundary(utf8(rope_chars(*r)), byte_idx as int),
{
    r.is_char_boundary(byte_idx)
}

/// `Rope::slice`, which panics on a reversed, out-of-bounds or split range.
#[verifier::external_body]
fn rope_slice<'a>(r: &'a Rope, start: usize, end: usize) -> (s: RopeSlice<'a>)
    requires
        valid_range(utf8(rope_chars(*r)), start as int, end as int),
    ensures
        utf8(rope_slice_chars(s)) == utf8(rope_chars(*r)).subrange(start as int, end as int),
{
    r.slice(start..end)
}

/// `RopeSlice::as_str`: the slice's text when it lies in a single chunk.
#[verifier::external_body]
fn rope_slice_as_str<'a>(s: &RopeSlice<'a>) -> (t: Option<&'a str>)
    ensures
        t matches Some(t) ==> t@ == rope_slice_chars(*s),
{
    s.as_str()
}

/// `RopeSlice::to_string`: the slice's text copied into one string.
#[verifier::external_body]
fn rope_slice_to_string(s: &RopeSlice) -> (t: String)
    ensures
        t@ == rope_slice_chars(*s),
{
    s.to_string()
}

/// `Rope::to_string`: the whole text copied into one string.
#[verifier::external_body]
fn rope_to_string(r: &Rope) -> (t: String)
    ensures
        t@ == rope_chars(*r),
{
    r.to_string()
}

/// `Rope::chunk`: the stored chunk holding `byte_idx` and that chunk's start;
/// one past the end gives the last chunk. Panics past the end. Chunks are the
/// rope's `str` leaves, so both ends lie on char boundaries.
#[verifier::external_body]
fn rope_chunk(r: &Rope, byte_idx: usize) -> (c: (&str, usize))
    requires
        byte_idx <= utf8(rope_chars(*r)).len(),
    ensures
        c.1 <= byte_idx,
        c.1 + utf8(c.0@).len() <= utf8(rope_chars(*r)).len(),
        utf8(c.0@) == utf8(rope_chars(*r)).subrange(c.1 as int, c.1 + utf8(c.0@).len()),
        byte_idx < utf8(rope_chars(*r)).len() ==> byte_idx < c.1 + utf8(c.0@).len(),
        byte_idx == utf8(rope_chars(*r)).len() ==> c.1 + utf8(c.0@).len() == byte_idx,
        is_char_boundary(utf8(rope_chars(*r)), c.1 as int),
        is_char_boundary(utf8(rope_chars(*r)), c.1 + utf8(c.0@).len()),
{
    r.chunk(byte_idx)
}

/// `Rope::remove`, which panics on a reversed, out-of-bounds or split range.
#[verifier::external_body]
fn rope_remove(r: &mut Rope, start: usize, end: usize)
    requires
        valid_range(utf8(rope_chars(*old(r))), start as int, end as int),
    ensures
        utf8(rope_chars(*final(r))) == splice(utf8(rope_chars(*old(r))), start as int, end as int, Seq::empty()),
{
    r.remove(start..end)
}

/// `Rope::insert`, which panics off a char boundary or past the end.
#[verifier::external_body]
fn rope_insert(r: &mut Rope, byte_idx: usize, text: &str)
    requires
        is_char_boundary(utf8(rope_chars(*old(r))), byte_idx as int),
    ensures
        utf8(rope_chars(*final(r))) == splice(utf8(rope_chars(*old(r))), byte_idx as int, byte_idx as int, utf8(text@)),
{
    r.insert(byte_idx, text)
}

/// `String::replace_range`, which panics on a reversed, out-of-bounds or split range.
#[verifier::external_body]
fn string_replace_range(s: &mut String, start: usize, end: usize, insert: &str)
    requires
        valid_range(utf8(old(s)@), start as int, end as int),
    ensures
        utf8(final(s)@) == splice(utf8(old(s)@), start as int, end as int, utf8(insert@)),
{
    s.replace_range(start..end, insert)
}

/// `str` indexing by a byte range, which panics on a reversed, out-of-bounds or split range.
#[verifier::external_body]
pub(crate) fn str_slice(s: &str, start: usize, end: usize) -> (t: &str)
    requires
        valid_range(utf8(s@), start as int, end as int),
    ensures
        utf8(t@) == utf8(s@).subrange(start as int, end as int),
{
    &s[start..end]
}

/// `Vec::capacity`; the allocator decides it, and it never falls below the length.
#[verifier::external_body]
pub(crate) fn vec_capacity<T>(v: &Vec<T>) -> (n: usize)
    ensures
        n >= v@.len(),
{
    v.capacity()
}

/// `a * b`, or `usize::MAX` where the product does not fit.
pub(crate) fn saturating_product(a: usize, b: usize) -> (r: usize)
    ensures
        r == if a * b <= usize::MAX { a * b } else { usize::MAX as int },
{
    match a.checked_mul(b) {
        Some(x) => x,
        None => usize::MAX,
    }
}

/// `x`, or `usize::MAX` where it does not fit.
pub open spec fn saturated(x: int) -> int {
    if x <= usize::MAX {
        x
    } else {
        usize::MAX as int
    }
}

/// `String::capacity`; the allocator decides it, and it never falls below the length.
#[verifier::external_body]
pub(crate) fn string_capacity(s: &String) -> (n: usize)
    ensures
        n >= utf8(s@).len(),
{
    s.capacity()
}

/// Take ownership of possibly borrowed text.
pub fn cow_into_string(c: Cow<'_, str>) -> (s: String)
    ensures
        s@ == c@,
{
    match c {
        Cow::Borrowed(b) => b.to_owned(),
        Cow::Owned(o) => o,
    }
}

/// Implemented by buffers, snapshots and borrowed strings. All indices are UTF-8
/// bytes. `read` copies only when a requested range crosses storage chunks.
pub trait TextRead {
    /// The text, whose UTF-8 encoding the byte offsets address.
    spec fn text(&self) -> Seq<char>;

    fn len(&self) -> (n: usize)
        ensures
            n == utf8(self.text()).len(),
    ;

    fn is_char_boundary(&self, position: usize) -> (b: bool)
        ensures
            b == is_char_boundary(utf8(self.text()), position as int),
    ;

    fn read(&self, range: Range<usize>) -> (r: Option<Cow<'_, str>>)
        ensures
            r is Some <==> valid_range(utf8(self.text()), range.start as int, range.end as int),
            r matches Some(t) ==> utf8(t@) == utf8(self.text()).subrange(
                range.start as int,
                range.end as int,
            ),
    ;

    /// A nonempty chunk containing `position`, or the last chunk at EOF.
    fn chunk(&self, position: usize) -> (c: (&str, usize))
        requires
            position <= utf8(self.text()).len(),
        ensures
            c.1 <= position,
            c.1 + utf8(c.0@).len() <= utf8(self.text()).len(),
            utf8(c.0@) == utf8(self.text()).subrange(c.1 as int, c.1 + utf8(c.0@).len()),
            position < utf8(self.text()).len() ==> position < c.1 + utf8(c.0@).len(),
            position == utf8(self.text()).len() ==> c.1 + utf8(c.0@).len() == position,
            is_char_boundary(utf8(self.text()), c.1 as int),
            is_char_boundary(utf8(self.text()), c.1 + utf8(c.0@).len()),
    ;

    fn equals(&self, range: Range<usize>, other: &str) -> (b: bool)
        ensures
            b == (valid_range(utf8(self.text()), range.start as int, range.end as int) && utf8(
                self.text(),
            ).subrange(range.start as int, range.end as int) == utf8(other@)),
    {
        let other_len = str_len(other);
        proof {
            if is_char_boundary(utf8(self.text()), range.start as int) && is_char_boundary(utf8(self.text()), range.end as int) {
                lemma_boundary_in_bounds(self.text(), range.start as int);
                lemma_boundary_in_bounds(self.text(), range.end as int);
            }
        }
        if range.start > range.end || range.end - range.start != other_len || !self.is_char_boundary(
            range.start,
        ) || !self.is_char_boundary(range.end) {
            return false;
        }
        let ghost bytes = utf8(self.text());
        let ghost want = utf8(other@);
        let theirs = other.as_bytes();
        let mut at = range.start;
        let mut read: usize = 0;
        proof {
            lemma_boundary_in_bounds(self.text(), range.end as int);
        }
        while at < range.end
            invariant
                range.start <= at <= range.end <= bytes.len(),
                valid_range(bytes, range.start as int, range.end as int),
                bytes == utf8(self.text()),
                want == utf8(other@),
                theirs@ == want,
                range.end - range.start == want.len(),
                read == at - range.start,
                bytes.subrange(range.start as int, at as int) == want.subrange(0, read as int),
            decreases range.end - at,
        {
            let (chunk, start) = self.chunk(at);
            let mine = chunk.as_bytes();
            let clen = mine.len();
            let ghost c = utf8(chunk@);
            let n = if clen - (at - start) < range.end - at {
                clen - (at - start)
            } else {
                range.end - at
            };
            let mut k: usize = 0;
            while k < n
                invariant
                    range.start <= at <= range.end <= bytes.len(),
                    valid_range(bytes, range.start as int, range.end as int),
                    bytes == utf8(self.text()),
                    theirs@ == want,
                    want == utf8(other@),
                    mine@ == c,
                    start + c.len() <= bytes.len(),
                    c == bytes.subrange(start as int, start + c.len()),
                    start <= at,
                    at + n <= start + c.len(),
                    at + n <= range.end,
                    read == at - range.start,
                    range.end - range.start == want.len(),
                    0 <= k <= n,
                    bytes.subrange(range.start as int, at + k) == want.subrange(0, read + k),
                decreases n - k,
            {
                proof {
                    assert(c[at - start + k] == bytes[at + k]);
                }
                if mine[at - start + k] != theirs[read + k] {
                    proof {
                        assert(bytes.subrange(range.start as int, range.end as int)[(read + k) as int]
                            == bytes[at + k]);
                        assert(bytes.subrange(range.start as int, range.end as int)[(read + k) as int]
                            != want[(read + k) as int]);
                    }
                    return false;
                }
                proof {
                    let old_b = bytes.subrange(range.start as int, at + k);
                    let old_w = want.subrange(0, read + k);
                    assert(bytes.subrange(range.start as int, at + k + 1) =~= old_b.push(bytes[at + k]));
                    assert(want.subrange(0, read + k + 1) =~= old_w.push(want[read + k]));
                }
                k += 1;
            }
            at += n;
            read += n;
        }
        proof {
            assert(want.subrange(0, want.len() as int) =~= want);
        }
        true
    }

    fn is_empty(&self) -> (b: bool)
        ensures
            b == (utf8(self.text()).len() == 0),
    {
        self.len() == 0
    }
}

/// A boundary lies inside the text.
pub proof fn lemma_boundary_in_bounds(text: Seq<char>, p: int)
    requires
        is_char_boundary(utf8(text), p),
    ensures
        0 <= p <= utf8(text).len(),
{
    broadcast use vstd::utf8::encode_utf8_valid_utf8;

    reveal_with_fuel(is_char_boundary, 1);
}

} // verus!

verus! {

impl TextRead for str {
    open spec fn text(&self) -> Seq<char> {
        self@
    }

    fn len(&self) -> (n: usize) {
        str_len(self)
    }

    fn is_char_boundary(&self, p: usize) -> (b: bool) {
        self.is_char_boundary(p)
    }

    fn read(&self, r: Range<usize>) -> (t: Option<Cow<'_, str>>) {
        if r.start <= r.end && self.is_char_boundary(r.start) && self.is_char_boundary(r.end) {
            Some(Cow::Borrowed(str_slice(self, r.start, r.end)))
        } else {
            None
        }
    }

    fn chunk(&self, p: usize) -> (c: (&str, usize)) {
        proof {
            assert(utf8(self@).subrange(0, utf8(self@).len() as int) =~= utf8(self@));
            vstd::utf8::encode_utf8_valid_utf8(self@);
            lemma_boundary_char(utf8(self@), 0);
            lemma_boundary_char(utf8(self@), utf8(self@).len() as int);
        }
        (self, 0)
    }
}

/// Promotion threshold between contiguous and chunked storage.
#[derive(Debug, Clone, Copy)]
pub struct BufferOptions {
    /// Promote to chunked storage above this byte count. Promotion is one-way so
    /// edits around the threshold cannot repeatedly copy the whole document.
    pub inline_bytes: usize,
}

impl Default for BufferOptions {
    fn default() -> (o: Self)
        ensures
            o.inline_bytes == 4096,
    {
        BufferOptions { inline_bytes: 4096 }
    }
}

#[derive(Debug)]
enum Storage {
    Inline(String),
    Rope(Rope),
}

impl Storage {
    spec fn chars(&self) -> Seq<char> {
        match self {
            Storage::Inline(s) => s@,
            Storage::Rope(r) => rope_chars(*r),
        }
    }

    fn duplicate(&self) -> (c: Self)
        ensures
            c.chars() == self.chars(),
            (c is Rope) == (self is Rope),
    {
        match self {
            Storage::Inline(s) => Storage::Inline(s.clone()),
            Storage::Rope(r) => Storage::Rope(rope_clone(r)),
        }
    }

    fn len(&self) -> (n: usize)
        ensures
            n == utf8(self.chars()).len(),
    {
        match self {
            Storage::Inline(s) => str_len(s.as_str()),
            Storage::Rope(r) => rope_len(r),
        }
    }

    fn is_char_boundary(&self, p: usize) -> (b: bool)
        ensures
            b == is_char_boundary(utf8(self.chars()), p as int),
    {
        let n = self.len();
        if p > n {
            proof {
                if is_char_boundary(utf8(self.chars()), p as int) {
                    lemma_boundary_in_bounds(self.chars(), p as int);
                }
            }
            return false;
        }
        match self {
            Storage::Inline(s) => s.as_str().is_char_boundary(p),
            Storage::Rope(r) => rope_is_char_boundary(r, p),
        }
    }

    fn read(&self, range: Range<usize>) -> (t: Option<Cow<'_, str>>)
        ensures
            t is Some <==> valid_range(utf8(self.chars()), range.start as int, range.end as int),
            t matches Some(t) ==> utf8(t@) == utf8(self.chars()).subrange(
                range.start as int,
                range.end as int,
            ),
    {
        if range.start > range.end || !self.is_char_boundary(range.start) || !self.is_char_boundary(
            range.end,
        ) {
            return None;
        }
        match self {
            Storage::Inline(s) => Some(Cow::Borrowed(str_slice(s.as_str(), range.start, range.end))),
            Storage::Rope(r) => {
                let slice = rope_slice(r, range.start, range.end);
                match rope_slice_as_str(&slice) {
                    Some(s) => Some(Cow::Borrowed(s)),
                    None => Some(Cow::Owned(rope_slice_to_string(&slice))),
                }
            },
        }
    }

    fn chunk(&self, p: usize) -> (c: (&str, usize))
        requires
            p <= utf8(self.chars()).len(),
        ensures
            c.1 <= p,
            c.1 + utf8(c.0@).len() <= utf8(self.chars()).len(),
            utf8(c.0@) == utf8(self.chars()).subrange(c.1 as int, c.1 + utf8(c.0@).len()),
            p < utf8(self.chars()).len() ==> p < c.1 + utf8(c.0@).len(),
            p == utf8(self.chars()).len() ==> c.1 + utf8(c.0@).len() == p,
            is_char_boundary(utf8(self.chars()), c.1 as int),
            is_char_boundary(utf8(self.chars()), c.1 + utf8(c.0@).len()),
    {
        match self {
            Storage::Inline(s) => {
                proof {
                    assert(utf8(s@).subrange(0, utf8(s@).len() as int) =~= utf8(s@));
                    vstd::utf8::encode_utf8_valid_utf8(s@);
                    lemma_boundary_char(utf8(s@), 0);
                    lemma_boundary_char(utf8(s@), utf8(s@).len() as int);
                }
                (s.as_str(), 0)
            },
            Storage::Rope(r) => {
                let n = rope_len(r);
                rope_chunk(r, if p < n { p } else { n })
            },
        }
    }

    /// Replace a byte range; the range must be valid in the current text.
    fn replace(&mut self, start: usize, end: usize, insert: &str)
        requires
            valid_range(utf8(old(self).chars()), start as int, end as int),
        ensures
            utf8(final(self).chars()) == splice(utf8(old(self).chars()), start as int, end as int, utf8(insert@)),
            (*final(self) is Rope) == (*old(self) is Rope),
    {
        match self {
            Storage::Inline(s) => string_replace_range(s, start, end, insert),
            Storage::Rope(r) => {
                let ghost before_chars = rope_chars(*r);
                let ghost before = utf8(rope_chars(*r));
                rope_remove(r, start, end);
                proof {
                    vstd::utf8::encode_utf8_valid_utf8(before_chars);
                    lemma_splice_valid(before, start as int, end as int, Seq::empty());
                }
                rope_insert(r, start, insert);
                proof {
                    let mid = splice(before, start as int, end as int, Seq::empty());
                    assert(splice(mid, start as int, start as int, utf8(insert@)) =~= splice(before, start as int, end as int, utf8(insert@)));
                }
            },
        }
    }
}

/// In valid UTF-8, a char boundary is any in-range index that is the end or
/// does not address a continuation byte.
pub proof fn lemma_boundary_char(bytes: Seq<u8>, p: int)
    requires
        valid_utf8(bytes),
    ensures
        is_char_boundary(bytes, p) <==> (0 <= p <= bytes.len() && (p == bytes.len()
            || !is_continuation_byte(bytes[p]))),
{
    reveal_with_fuel(is_char_boundary, 1);
    vstd::utf8::is_char_boundary_start_end_of_seq(bytes);
    if 0 <= p < bytes.len() {
        vstd::utf8::is_char_boundary_iff_not_is_continuation_byte(bytes, p);
    }
    if bytes.len() > 0 {
        vstd::utf8::is_char_boundary_iff_not_is_continuation_byte(bytes, 0);
    }
}

/// Splicing valid UTF-8 into valid UTF-8 at char boundaries stays valid, and
/// both edges of the inserted text are char boundaries of the result.
pub proof fn lemma_splice_valid(bytes: Seq<u8>, start: int, end: int, insert: Seq<u8>)
    requires
        valid_utf8(bytes),
        valid_utf8(insert),
        valid_range(bytes, start, end),
    ensures
        valid_utf8(splice(bytes, start, end, insert)),
        is_char_boundary(splice(bytes, start, end, insert), start),
        is_char_boundary(splice(bytes, start, end, insert), start + insert.len()),
        splice(bytes, start, end, insert).len() == bytes.len() - (end - start) + insert.len(),
{
    lemma_boundary_char(bytes, start);
    lemma_boundary_char(bytes, end);
    let pre = bytes.subrange(0, start);
    let post = bytes.subrange(end, bytes.len() as int);
    vstd::utf8::valid_utf8_split(bytes, start);
    vstd::utf8::valid_utf8_split(bytes, end);
    vstd::utf8::valid_utf8_concat(pre, insert);
    vstd::utf8::valid_utf8_concat(pre + insert, post);
    let out = splice(bytes, start, end, insert);
    assert(out == (pre + insert) + post);
    lemma_boundary_char(out, start);
    lemma_boundary_char(out, start + insert.len());
    lemma_boundary_char(insert, 0);
    lemma_boundary_char(post, 0);
    if start < out.len() {
        if insert.len() > 0 {
            assert(out[start] == insert[0]);
        } else {
            assert(out[start] == post[0]);
        }
    }
    if start + insert.len() < out.len() {
        assert(out[start + insert.len()] == post[0]);
    }
}

} // verus!

verus! {

/// Mutable document storage: a `String` up to the inline threshold, then a rope.
#[derive(Debug)]
pub struct TextBuffer {
    storage: Storage,
    options: BufferOptions,
}

/// An immutable copy of a buffer's text, cheap to clone for chunked storage.
#[derive(Debug)]
pub struct TextSnapshot {
    storage: Storage,
}

impl View for TextBuffer {
    type V = Seq<char>;

    closed spec fn view(&self) -> Seq<char> {
        self.storage.chars()
    }
}

impl View for TextSnapshot {
    type V = Seq<char>;

    closed spec fn view(&self) -> Seq<char> {
        self.storage.chars()
    }
}

impl TextRead for TextBuffer {
    open spec fn text(&self) -> Seq<char> {
        self@
    }

    fn len(&self) -> (n: usize) {
        self.storage.len()
    }

    fn is_char_boundary(&self, p: usize) -> (b: bool) {
        self.storage.is_char_boundary(p)
    }

    fn read(&self, range: Range<usize>) -> (t: Option<Cow<'_, str>>) {
        self.storage.read(range)
    }

    fn chunk(&self, p: usize) -> (c: (&str, usize)) {
        self.storage.chunk(p)
    }
}

impl TextRead for TextSnapshot {
    open spec fn text(&self) -> Seq<char> {
        self@
    }

    fn len(&self) -> (n: usize) {
        self.storage.len()
    }

    fn is_char_boundary(&self, p: usize) -> (b: bool) {
        self.storage.is_char_boundary(p)
    }

    fn read(&self, range: Range<usize>) -> (t: Option<Cow<'_, str>>) {
        self.storage.read(range)
    }

    fn chunk(&self, p: usize) -> (c: (&str, usize)) {
        self.storage.chunk(p)
    }
}

impl Clone for TextBuffer {
    fn clone(&self) -> (c: Self)
        ensures
            c@ == self@,
            c.options() == self.options(),
            c.is_chunked_spec() == self.is_chunked_spec(),
    {
        TextBuffer { storage: self.storage.duplicate(), options: self.options }
    }
}

impl Clone for TextSnapshot {
    fn clone(&self) -> (c: Self)
        ensures
            c@ == self@,
    {
        TextSnapshot { storage: self.storage.duplicate() }
    }
}

impl Default for TextBuffer {
    fn default() -> (b: Self)
        ensures
            b@ == Seq::<char>::empty(),
            b.options().inline_bytes == 4096,
            !b.is_chunked_spec(),
    {
        TextBuffer::new(String::new(), BufferOptions::default())
    }
}

impl TextBuffer {
    pub closed spec fn options(&self) -> BufferOptions {
        self.options
    }

    /// Whether the text lives in chunked (rope) storage.
    pub closed spec fn is_chunked_spec(&self) -> bool {
        self.storage is Rope
    }

    /// Text longer than the inline threshold starts out chunked.
    pub fn new(text: String, options: BufferOptions) -> (b: Self)
        ensures
            b@ == text@,
            b.options() == options,
            b.is_chunked_spec() == (utf8(text@).len() > options.inline_bytes),
    {
        let storage = if str_len(text.as_str()) > options.inline_bytes {
            Storage::Rope(rope_from_str(text.as_str()))
        } else {
            Storage::Inline(text)
        };
        TextBuffer { storage, options }
    }

    pub fn snapshot(&self) -> (s: TextSnapshot)
        ensures
            s@ == self@,
    {
        TextSnapshot { storage: self.storage.duplicate() }
    }

    /// The whole text; borrowed for contiguous storage, copied out of a rope.
    pub fn as_str(&self) -> (s: Cow<'_, str>)
        ensures
            s@ == self@,
    {
        match &self.storage {
            Storage::Inline(s) => Cow::Borrowed(s.as_str()),
            Storage::Rope(r) => Cow::Owned(rope_to_string(r)),
        }
    }

    pub fn is_chunked(&self) -> (b: bool)
        ensures
            b == self.is_chunked_spec(),
    {
        match &self.storage {
            Storage::Inline(_) => false,
            Storage::Rope(_) => true,
        }
    }

    /// Allocated bytes for contiguous storage; the text length for a rope.
    pub fn capacity(&self) -> (n: usize)
        ensures
            n >= utf8(self@).len(),
            self.is_chunked_spec() ==> n == utf8(self@).len(),
    {
        match &self.storage {
            Storage::Inline(s) => string_capacity(s),
            Storage::Rope(r) => rope_len(r),
        }
    }

    /// Replace a valid byte range. Contiguous storage that would grow past the
    /// inline threshold is first promoted to a rope; a rope never demotes.
    pub fn replace(&mut self, range: Range<usize>, insert: &str)
        requires
            valid_range(utf8(old(self)@), range.start as int, range.end as int),
            utf8(old(self)@).len() + utf8(insert@).len() <= usize::MAX,
        ensures
            utf8(final(self)@) == splice(
                utf8(old(self)@),
                range.start as int,
                range.end as int,
                utf8(insert@),
            ),
            final(self).options() == old(self).options(),
            final(self).is_chunked_spec() == (old(self).is_chunked_spec() || utf8(old(self)@).len()
                - (range.end - range.start) + utf8(insert@).len() > old(self).options().inline_bytes),
    {
        proof {
            lemma_boundary_in_bounds(self@, range.start as int);
            lemma_boundary_in_bounds(self@, range.end as int);
        }
        let promote = match &self.storage {
            Storage::Inline(s) => str_len(s.as_str()) - (range.end - range.start) + str_len(insert)
                > self.options.inline_bytes,
            Storage::Rope(_) => false,
        };
        if promote {
            let rope = match &self.storage {
                Storage::Inline(s) => rope_from_str(s.as_str()),
                Storage::Rope(r) => rope_clone(r),
            };
            self.storage = Storage::Rope(rope);
        }
        self.storage.replace(range.start, range.end, insert);
    }
}

impl Default for TextSnapshot {
    fn default() -> (s: Self)
        ensures
            s@ == Seq::<char>::empty(),
    {
        TextSnapshot::from_text(String::new())
    }
}

impl TextSnapshot {
    /// Replace a valid byte range in place.
    pub fn replace(&mut self, range: Range<usize>, insert: &str)
        requires
            valid_range(utf8(old(self)@), range.start as int, range.end as int),
        ensures
            utf8(final(self)@) == splice(
                utf8(old(self)@),
                range.start as int,
                range.end as int,
                utf8(insert@),
            ),
    {
        self.storage.replace(range.start, range.end, insert);
    }

    pub fn from_text(text: String) -> (s: Self)
        ensures
            s@ == text@,
    {
        TextBuffer::new(text, BufferOptions::default()).snapshot()
    }

    /// Compare a range of this snapshot with a range of another, byte by byte.
    pub fn equal_range(&self, range: Range<usize>, other: &Self, other_range: Range<usize>) -> (b: bool)
        requires
            range.start <= range.end <= utf8(self@).len(),
            other_range.start <= other_range.end <= utf8(other@).len(),
        ensures
            b == (utf8(self@).subrange(range.start as int, range.end as int) == utf8(other@).subrange(
                other_range.start as int,
                other_range.end as int,
            )),
    {
        let ghost x_all = utf8(self@);
        let ghost y_all = utf8(other@);
        if range.end - range.start != other_range.end - other_range.start {
            proof {
                assert(x_all.subrange(range.start as int, range.end as int).len() != y_all.subrange(other_range.start as int, other_range.end as int).len());
            }
            return false;
        }
        let mut a = range.start;
        let mut b = other_range.start;
        while a < range.end
            invariant
                range.start <= a <= range.end <= x_all.len(),
                other_range.start <= b <= other_range.end <= y_all.len(),
                x_all == utf8(self@),
                y_all == utf8(other@),
                range.end - range.start == other_range.end - other_range.start,
                a - range.start == b - other_range.start,
                x_all.subrange(range.start as int, a as int) == y_all.subrange(other_range.start as int, b as int),
            decreases range.end - a,
        {
            let (x, ax) = self.chunk(a);
            let (y, by) = other.chunk(b);
            let xb = x.as_bytes();
            let yb = y.as_bytes();
            let xl = xb.len();
            let yl = yb.len();
            let mut n = xl - (a - ax);
            if yl - (b - by) < n {
                n = yl - (b - by);
            }
            if range.end - a < n {
                n = range.end - a;
            }
            let mut k: usize = 0;
            while k < n
                invariant
                    range.start <= a <= range.end <= x_all.len(),
                    other_range.start <= b <= other_range.end <= y_all.len(),
                    x_all == utf8(self@),
                    y_all == utf8(other@),
                    xb@ == utf8(x@),
                    yb@ == utf8(y@),
                    ax + xb@.len() <= x_all.len(),
                    by + yb@.len() <= y_all.len(),
                    utf8(x@) == x_all.subrange(ax as int, ax + xb@.len()),
                    utf8(y@) == y_all.subrange(by as int, by + yb@.len()),
                    ax <= a,
                    by <= b,
                    a + n <= ax + xb@.len(),
                    b + n <= by + yb@.len(),
                    a + n <= range.end,
                    range.end - range.start == other_range.end - other_range.start,
                    a - range.start == b - other_range.start,
                    0 <= k <= n,
                    x_all.subrange(range.start as int, a + k) == y_all.subrange(other_range.start as int, b + k),
                decreases n - k,
            {
                proof {
                    assert(xb@[a - ax + k] == x_all[a + k]);
                    assert(yb@[b - by + k] == y_all[b + k]);
                }
                if xb[a - ax + k] != yb[b - by + k] {
                    proof {
                        assert(x_all.subrange(range.start as int, range.end as int)[a + k - range.start] != y_all.subrange(other_range.start as int, other_range.end as int)[a + k - range.start]);
                    }
                    return false;
                }
                proof {
                    let ox = x_all.subrange(range.start as int, a + k);
                    let oy = y_all.subrange(other_range.start as int, b + k);
                    assert(x_all.subrange(range.start as int, a + k + 1) =~= ox.push(x_all[a + k]));
                    assert(y_all.subrange(other_range.start as int, b + k + 1) =~= oy.push(y_all[b + k]));
                }
                k += 1;
            }
            proof {
                if n == 0 {
                    assert(false);
                }
            }
            a += n;
            b += n;
        }
        true
    }
}

} // verus!

verus! {

/// Byte length of the line separator that starts at byte `i`, or 0. The
/// separators are CR, LF, VT, FF, NEL, LS and PS in UTF-8; CR LF counts as one.
pub open spec fn sep_len_at(b: Seq<u8>, i: int) -> int {
    if i < 0 || i >= b.len() {
        0
    } else if b[i] == 0x0D {
        if i + 1 < b.len() && b[i + 1] == 0x0A {
            2
        } else {
            1
        }
    } else if b[i] == 0x0A || b[i] == 0x0B || b[i] == 0x0C {
        1
    } else if b[i] == 0xC2 && i + 1 < b.len() && b[i + 1] == 0x85 {
        2
    } else if b[i] == 0xE2 && i + 2 < b.len() && b[i + 1] == 0x80 && (b[i + 2] == 0xA8 || b[i
        + 2] == 0xA9) {
        3
    } else {
        0
    }
}

/// The first byte at or after `i` where a separator starts, or the length.
pub open spec fn first_sep(b: Seq<u8>, i: int) -> int
    decreases b.len() - i,
{
    if i >= b.len() {
        b.len() as int
    } else if sep_len_at(b, i) > 0 {
        i
    } else {
        first_sep(b, i + 1)
    }
}

/// End offsets of the hard lines of `b` starting at byte `i`. Each line keeps
/// its terminator; text ending in a separator has a trailing empty line.
pub open spec fn line_ends(b: Seq<u8>, i: int) -> Seq<int>
    decreases b.len() - i, 1int,
{
    let k = first_sep(b, i);
    if i > b.len() || k >= b.len() {
        seq![b.len() as int]
    } else {
        proof {
            lemma_first_sep_range(b, i);
        }
        seq![k + sep_len_at(b, k)] + line_ends(b, k + sep_len_at(b, k))
    }
}

pub proof fn lemma_first_sep_range(b: Seq<u8>, i: int)
    ensures
        i <= b.len() ==> i <= first_sep(b, i) <= b.len(),
        first_sep(b, i) < b.len() ==> sep_len_at(b, first_sep(b, i)) > 0,
        forall|k: int| i <= k < first_sep(b, i) ==> sep_len_at(b, k) == 0,
    decreases b.len() - i,
{
    if i < b.len() && sep_len_at(b, i) == 0 {
        lemma_first_sep_range(b, i + 1);
    }
}

/// Byte ranges that tile `0..` line by line, ending where `ends` says.
pub open spec fn tiles(ranges: Seq<Range<usize>>, ends: Seq<int>) -> bool {
    &&& ranges.len() == ends.len()
    &&& forall|k: int| 0 <= k < ranges.len() ==> #[trigger] ranges[k].end == ends[k]
    &&& forall|k: int|
        0 <= k < ranges.len() ==> #[trigger] ranges[k].start == if k == 0 {
            0
        } else {
            ends[k - 1]
        }
}

pub open spec fn is_separator_char(c: char) -> bool {
    c == '\r' || c == '\n' || c == '\u{b}' || c == '\u{c}' || c == '\u{85}' || c == '\u{2028}'
        || c == '\u{2029}'
}

pub fn is_separator(c: char) -> (b: bool)
    ensures
        b == is_separator_char(c),
{
    c == '\r' || c == '\n' || c == '\u{b}' || c == '\u{c}' || c == '\u{85}' || c == '\u{2028}'
        || c == '\u{2029}'
}

fn separator_at(b: &[u8], i: usize) -> (n: usize)
    requires
        i < b@.len(),
    ensures
        n == sep_len_at(b@, i as int),
{
    let len = b.len();
    let x = b[i];
    if x == 0x0D {
        if i + 1 < len && b[i + 1] == 0x0A {
            2
        } else {
            1
        }
    } else if x == 0x0A || x == 0x0B || x == 0x0C {
        1
    } else if x == 0xC2 && i + 1 < len && b[i + 1] == 0x85 {
        2
    } else if x == 0xE2 && len - i > 2 && b[i + 1] == 0x80 && (b[i + 2] == 0xA8 || b[i + 2] == 0xA9) {
        3
    } else {
        0
    }
}

/// Split into hard lines, including terminators and the trailing empty line.
/// Shared by storage, projection and layout so CRLF and Unicode separators use
/// one byte policy.
pub fn hard_lines(text: &str) -> (lines: Vec<Range<usize>>)
    ensures
        tiles(lines@, line_ends(utf8(text@), 0)),
{
    let b = text.as_bytes();
    let n = b.len();
    let ghost bytes = b@;
    let mut out: Vec<Range<usize>> = Vec::new();
    let mut start: usize = 0;
    let mut i: usize = 0;
    while i < n
        invariant
            b@ == bytes,
            bytes == utf8(text@),
            n == bytes.len(),
            start <= i <= n,
            first_sep(bytes, start as int) == first_sep(bytes, i as int),
            start as int == if out@.len() == 0 { 0 } else { out@.last().end as int },
            forall|k: int| 0 <= k < out@.len() ==> #[trigger] out@[k].start == if k == 0 {
                0
            } else {
                out@[k - 1].end as int
            },
            out@.map_values(|r: Range<usize>| r.end as int) + line_ends(bytes, start as int)
                == line_ends(bytes, 0),
        decreases n - i,
    {
        let l = separator_at(b, i);
        if l > 0 {
            proof {
                lemma_first_sep_range(bytes, start as int);
                let ends = out@.map_values(|r: Range<usize>| r.end as int);
                assert(first_sep(bytes, i as int) == i);
                assert(line_ends(bytes, start as int) == seq![(i + l) as int] + line_ends(
                    bytes,
                    (i + l) as int,
                ));
            }
            let ghost before = out@;
            out.push(start..i + l);
            proof {
                let ends0 = before.map_values(|r: Range<usize>| r.end as int);
                let ends1 = out@.map_values(|r: Range<usize>| r.end as int);
                assert(ends1 =~= ends0.push((i + l) as int));
                assert(ends1 + line_ends(bytes, (i + l) as int) =~= ends0 + (seq![(i + l) as int]
                    + line_ends(bytes, (i + l) as int)));
            }
            i += l;
            start = i;
        } else {
            i += 1;
        }
    }
    proof {
        assert(first_sep(bytes, start as int) == n);
        assert(line_ends(bytes, start as int) == seq![n as int]);
    }
    let ghost before = out@;
    out.push(start..n);
    proof {
        let ends0 = before.map_values(|r: Range<usize>| r.end as int);
        let ends1 = out@.map_values(|r: Range<usize>| r.end as int);
        assert(ends1 =~= ends0.push(n as int));
        let all = line_ends(bytes, 0);
        assert(ends1 =~= all);
        assert forall|k: int| 0 <= k < out@.len() implies #[trigger] out@[k].end == all[k] by {
            assert(ends1[k] == out@[k].end as int);
        }
        assert forall|k: int| 0 <= k < out@.len() implies #[trigger] out@[k].start == if k == 0 {
            0
        } else {
            all[k - 1]
        } by {
            if k > 0 {
                assert(ends1[k - 1] == out@[k - 1].end as int);
            }
        }
    }
    out
}

/// Byte length of the separator that ends `text`: two for CR LF, the
/// separator's own length otherwise, and zero when the text does not end in one.
pub open spec fn trailing_sep_len(b: Seq<u8>) -> int {
    let n = b.len() as int;
    if n >= 2 && b[n - 2] == 0x0D && b[n - 1] == 0x0A {
        2
    } else if n >= 1 && (b[n - 1] == 0x0D || b[n - 1] == 0x0A || b[n - 1] == 0x0B || b[n - 1]
        == 0x0C) {
        1
    } else if n >= 2 && b[n - 2] == 0xC2 && b[n - 1] == 0x85 {
        2
    } else if n >= 3 && b[n - 3] == 0xE2 && b[n - 2] == 0x80 && (b[n - 1] == 0xA8 || b[n - 1]
        == 0xA9) {
        3
    } else {
        0
    }
}

pub fn separator_len(text: &str) -> (n: usize)
    ensures
        n == trailing_sep_len(utf8(text@)),
{
    let b = text.as_bytes();
    let n = b.len();
    if n >= 2 && b[n - 2] == 0x0D && b[n - 1] == 0x0A {
        2
    } else if n >= 1 && (b[n - 1] == 0x0D || b[n - 1] == 0x0A || b[n - 1] == 0x0B || b[n - 1]
        == 0x0C) {
        1
    } else if n >= 2 && b[n - 2] == 0xC2 && b[n - 1] == 0x85 {
        2
    } else if n >= 3 && b[n - 3] == 0xE2 && b[n - 2] == 0x80 && (b[n - 1] == 0xA8 || b[n - 1]
        == 0xA9) {
        3
    } else {
        0
    }
}

} // verus!

verus! {

/// Byte where line `i` of `b` starts; one past the last line, the end.
pub open spec fn line_start(b: Seq<u8>, i: int) -> int {
    if i <= 0 {
        0
    } else {
        line_ends(b, 0)[i - 1]
    }
}

/// Index of the line holding byte `byte`: the number of lines, the last one
/// excepted, that end at or before it.
pub open spec fn line_index(ends: Seq<int>, byte: int) -> int
    decreases ends.len(),
{
    if ends.len() <= 1 {
        0
    } else {
        line_index(ends.drop_last(), byte) + if ends[ends.len() - 2] <= byte {
            1int
        } else {
            0
        }
    }
}

/// `Rope::len_lines` with Unicode line breaks (LF, CR, CRLF, VT, FF, NEL, LS,
/// PS): one more than the breaks, so the hard lines of the text.
#[verifier::external_body]
fn rope_len_lines(r: &Rope) -> (n: usize)
    ensures
        n == line_ends(utf8(rope_chars(*r)), 0).len(),
{
    r.len_lines(LineType::Unicode)
}

/// `Rope::line_to_byte_idx` with Unicode line breaks: where a line starts; one
/// past the last line gives the end. Panics past that.
#[verifier::external_body]
fn rope_line_to_byte(r: &Rope, line: usize) -> (n: usize)
    requires
        line <= line_ends(utf8(rope_chars(*r)), 0).len(),
    ensures
        n == line_start(utf8(rope_chars(*r)), line as int),
{
    r.line_to_byte_idx(line, LineType::Unicode)
}

/// `Rope::byte_to_line_idx` with Unicode line breaks: the line holding a byte.
/// Panics past the end.
#[verifier::external_body]
fn rope_byte_to_line(r: &Rope, byte: usize) -> (n: usize)
    requires
        byte <= utf8(rope_chars(*r)).len(),
    ensures
        n == line_index(line_ends(utf8(rope_chars(*r)), 0), byte as int),
{
    r.byte_to_line_idx(byte, LineType::Unicode)
}

proof fn lemma_line_ends_shape(b: Seq<u8>, i: int)
    requires
        0 <= i <= b.len(),
    ensures
        line_ends(b, i).len() >= 1,
        line_ends(b, i).last() == b.len(),
        forall|k: int| 0 <= k < line_ends(b, i).len() ==> i <= #[trigger] line_ends(b, i)[k] <= b.len(),
        forall|k: int, m: int| 0 <= k < m < line_ends(b, i).len() ==> #[trigger] line_ends(b, i)[k] <= #[trigger] line_ends(b, i)[m],
    decreases b.len() - i,
{
    lemma_first_sep_range(b, i);
    let k = first_sep(b, i);
    if k < b.len() {
        let j = k + sep_len_at(b, k);
        assert(j <= b.len());
        lemma_line_ends_shape(b, j);
        let rest = line_ends(b, j);
        let all = line_ends(b, i);
        assert(all == seq![j] + rest);
        assert forall|x: int| 0 <= x < all.len() implies i <= #[trigger] all[x] <= b.len() by {
            if x > 0 {
                assert(all[x] == rest[x - 1]);
            }
        }
        assert forall|x: int, m: int| 0 <= x < m < all.len() implies #[trigger] all[x] <= #[trigger] all[m] by {
            if x > 0 {
                assert(all[x] == rest[x - 1]);
            }
            assert(all[m] == rest[m - 1]);
        }
    }
}

proof fn lemma_line_index_bound(ends: Seq<int>, byte: int)
    ensures
        0 <= line_index(ends, byte),
        ends.len() >= 1 ==> line_index(ends, byte) < ends.len(),
    decreases ends.len(),
{
    if ends.len() > 1 {
        lemma_line_index_bound(ends.drop_last(), byte);
    }
}

impl TextSnapshot {
    /// Byte ranges of the hard lines, each with its terminator, and the
    /// trailing empty line after a final separator.
    pub fn line_ranges(&self) -> (r: Vec<Range<usize>>)
        ensures
            tiles(r@, line_ends(utf8(self@), 0)),
    {
        match &self.storage {
            Storage::Inline(s) => hard_lines(s.as_str()),
            Storage::Rope(r) => {
                let ghost b = utf8(rope_chars(*r));
                let ghost ends = line_ends(b, 0);
                let n = rope_len_lines(r);
                let mut out: Vec<Range<usize>> = Vec::new();
                let mut i: usize = 0;
                while i < n
                    invariant
                        n == ends.len(),
                        b == utf8(rope_chars(*r)),
                        ends == line_ends(b, 0),
                        0 <= i <= n,
                        out@.len() == i,
                        forall|k: int| 0 <= k < i ==> (#[trigger] out@[k]).end == ends[k] && out@[k].start == line_start(b, k),
                    decreases n - i,
                {
                    let start = rope_line_to_byte(r, i);
                    let end = rope_line_to_byte(r, i + 1);
                    out.push(start..end);
                    i += 1;
                }
                out
            },
        }
    }

    /// Number of hard lines.
    pub fn line_count(&self) -> (n: usize)
        ensures
            n == line_ends(utf8(self@), 0).len(),
    {
        match &self.storage {
            Storage::Rope(r) => rope_len_lines(r),
            Storage::Inline(s) => hard_lines(s.as_str()).len(),
        }
    }

    /// Byte range of hard line `index`, terminator included.
    pub fn line_range(&self, index: usize) -> (r: Option<Range<usize>>)
        ensures
            r is Some <==> index < line_ends(utf8(self@), 0).len(),
            r matches Some(range) ==> range.start == line_start(utf8(self@), index as int) && range.end == line_ends(
                utf8(self@),
                0,
            )[index as int],
    {
        match &self.storage {
            Storage::Rope(r) => {
                if index >= rope_len_lines(r) {
                    return None;
                }
                let a = rope_line_to_byte(r, index);
                let b = rope_line_to_byte(r, index + 1);
                Some(a..b)
            },
            Storage::Inline(s) => {
                let lines = hard_lines(s.as_str());
                if index < lines.len() {
                    Some(lines[index].start..lines[index].end)
                } else {
                    None
                }
            },
        }
    }

    /// Index of the hard line holding `byte`; past the end, the last line.
    pub fn line_at(&self, byte: usize) -> (n: usize)
        ensures
            n == line_index(
                line_ends(utf8(self@), 0),
                if byte <= utf8(self@).len() {
                    byte as int
                } else {
                    utf8(self@).len() as int
                },
            ),
    {
        match &self.storage {
            Storage::Rope(r) => {
                let len = rope_len(r);
                rope_byte_to_line(r, if byte < len { byte } else { len })
            },
            Storage::Inline(s) => {
                let lines = hard_lines(s.as_str());
                let ghost b = utf8(s@);
                let ghost ends = line_ends(b, 0);
                proof {
                    lemma_line_ends_shape(b, 0);
                }
                let len = str_len(s.as_str());
                let at = if byte < len { byte } else { len };
                let mut count: usize = 0;
                let mut k: usize = 1;
                proof {
                    assert(ends.take(1).len() == 1);
                    assert(line_index(ends.take(1), at as int) == 0);
                }
                while k < lines.len() && lines[k].start <= at
                    invariant
                        tiles(lines@, ends),
                        ends == line_ends(b, 0),
                        ends.len() >= 1,
                        ends.last() == b.len(),
                        forall|x: int, m: int| 0 <= x < m < ends.len() ==> #[trigger] ends[x] <= #[trigger] ends[m],
                        at <= b.len(),
                        1 <= k <= lines@.len(),
                        count == k - 1,
                        line_index(ends.take(k as int), at as int) == count,
                    decreases lines@.len() - k,
                {
                    proof {
                        assert(ends.take(k + 1).drop_last() =~= ends.take(k as int));
                        assert(ends.take(k + 1)[k - 1] == ends[k - 1]);
                        assert(lines@[k as int].start == ends[k - 1]);
                    }
                    count += 1;
                    k += 1;
                }
                proof {
                    lemma_line_index_rest(ends, k as int, at as int);
                }
                count
            },
        }
    }
}

/// Once a line starts past `byte`, no later line counts.
proof fn lemma_line_index_rest(ends: Seq<int>, k: int, byte: int)
    requires
        1 <= k <= ends.len(),
        forall|x: int, m: int| 0 <= x < m < ends.len() ==> #[trigger] ends[x] <= #[trigger] ends[m],
        k < ends.len() ==> ends[k - 1] > byte,
    ensures
        line_index(ends, byte) == line_index(ends.take(k), byte),
    decreases ends.len() - k,
{
    if k < ends.len() {
        if k + 1 < ends.len() {
            assert(ends[k - 1] <= ends[k]);
        }
        lemma_line_index_rest_step(ends, k, byte);
    } else {
        assert(ends.take(k) =~= ends);
    }
}

proof fn lemma_line_index_rest_step(ends: Seq<int>, k: int, byte: int)
    requires
        1 <= k < ends.len(),
        forall|x: int, m: int| 0 <= x < m < ends.len() ==> #[trigger] ends[x] <= #[trigger] ends[m],
        ends[k - 1] > byte,
    ensures
        line_index(ends, byte) == line_index(ends.take(k), byte),
    decreases ends.len() - k,
{
    let d = ends.drop_last();
    if ends.len() - 1 == k {
        assert(d =~= ends.take(k));
        assert(ends[ends.len() - 2] == ends[k - 1]);
    } else {
        assert(d.take(k) =~= ends.take(k));
        assert forall|x: int, m: int| 0 <= x < m < d.len() implies #[trigger] d[x] <= #[trigger] d[m] by {
            assert(d[x] == ends[x] && d[m] == ends[m]);
        }
        lemma_line_index_rest_step(d, k, byte);
        assert(ends[k - 1] <= ends[ends.len() - 2]);
    }
}

} // verus!
