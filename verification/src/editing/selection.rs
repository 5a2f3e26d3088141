//! Logical editor selections are independent of both the widget tree and layout.
use super::document::{map_spec, sorted_edits, total_inserted, Bias, ChangeSet, EditError};
use super::buffer::{saturated, saturating_product, vec_capacity, TextRead};
use super::document::utf8;
use std::ops::Range;
use vstd::prelude::*;
use vstd::utf8::is_char_boundary;

verus! {

/// Whether the bits of an `f32` describe a finite number.
pub open spec fn finite_bits(bits: u32) -> bool {
    (bits >> 23u32) & 0xffu32 != 0xffu32
}

/// A caret or range in source bytes.
#[derive(Debug, Clone, Copy, PartialEq, Eq, Structural)]
pub struct Selection {
    pub anchor: usize,
    pub head: usize,
    pub affinity: Bias,
    /// Desired horizontal position for repeated vertical movement, in logical
    /// pixels, as the bits of an `f32`.
    pub preferred_x: Option<u32>,
}

impl Selection {
    pub open spec fn start(self) -> int {
        if self.anchor <= self.head {
            self.anchor as int
        } else {
            self.head as int
        }
    }

    pub open spec fn end(self) -> int {
        if self.anchor <= self.head {
            self.head as int
        } else {
            self.anchor as int
        }
    }

    pub fn caret(position: usize) -> (s: Self)
        ensures
            s == (Selection { anchor: position, head: position, affinity: Bias::After, preferred_x: None }),
    {
        Self::range(position, position)
    }

    pub fn range(anchor: usize, head: usize) -> (s: Self)
        ensures
            s == (Selection { anchor, head, affinity: Bias::After, preferred_x: None }),
    {
        Selection { anchor, head, affinity: Bias::After, preferred_x: None }
    }

    pub fn text_range(self) -> (r: Range<usize>)
        ensures
            r.start == self.start(),
            r.end == self.end(),
    {
        if self.anchor <= self.head {
            self.anchor..self.head
        } else {
            self.head..self.anchor
        }
    }

    pub fn is_caret(self) -> (b: bool)
        ensures
            b == (self.anchor == self.head),
    {
        self.anchor == self.head
    }

    /// Both ends move with `After` bias; the preferred column resets.
    pub fn map(self, changes: &ChangeSet) -> (s: Self)
        requires
            changes.wf(),
            self.anchor + total_inserted(changes@) <= usize::MAX,
            self.head + total_inserted(changes@) <= usize::MAX,
        ensures
            s == (Selection {
                anchor: map_spec(changes@, self.anchor as int, Bias::After) as usize,
                head: map_spec(changes@, self.head as int, Bias::After) as usize,
                affinity: self.affinity,
                preferred_x: None,
            }),
    {
        Selection {
            anchor: changes.map(self.anchor, Bias::After),
            head: changes.map(self.head, Bias::After),
            affinity: self.affinity,
            preferred_x: None,
        }
    }
}

} // verus!

verus! {

/// Selection `a` sorts before or together with `b`: by start, then by end.
pub open spec fn sel_le(a: Selection, b: Selection) -> bool {
    a.start() < b.start() || (a.start() == b.start() && a.end() <= b.end())
}

/// Insert a tagged selection before the first one it sorts before or with.
pub open spec fn sel_insert(t: Seq<(Selection, bool)>, x: (Selection, bool)) -> Seq<(Selection, bool)>
    decreases t.len(),
{
    if t.len() == 0 {
        seq![x]
    } else if sel_le(x.0, t[0].0) {
        seq![x] + t
    } else {
        seq![t[0]] + sel_insert(t.drop_first(), x)
    }
}

/// Tagged selections stably sorted by range.
pub open spec fn sel_sort(s: Seq<(Selection, bool)>) -> Seq<(Selection, bool)>
    decreases s.len(),
{
    if s.len() == 0 {
        s
    } else {
        sel_insert(sel_sort(s.drop_first()), s[0])
    }
}

/// `b`, which sorts at or after `a`, overlaps it, repeats it, or touches it
/// where either is a caret.
pub open spec fn sel_joins(a: Selection, b: Selection) -> bool {
    b.start() < a.end() || (b.start() == a.start() && b.end() == a.end()) || (b.start() == a.end()
        && (a.anchor == a.head || b.anchor == b.head))
}

/// One selection covering two joined ones, pointing the way of the primary
/// one when the later is primary, else the way of the earlier.
pub open spec fn sel_union(a: (Selection, bool), b: (Selection, bool)) -> Selection {
    let backwards = if b.1 {
        b.0.head < b.0.anchor
    } else {
        a.0.head < a.0.anchor
    };
    let end = if a.0.end() >= b.0.end() {
        a.0.end()
    } else {
        b.0.end()
    };
    if backwards {
        Selection { anchor: end as usize, head: a.0.start() as usize, affinity: Bias::After, preferred_x: None }
    } else {
        Selection { anchor: a.0.start() as usize, head: end as usize, affinity: Bias::After, preferred_x: None }
    }
}

/// Sorted tagged selections with every joining neighbor merged.
pub open spec fn sel_merge(s: Seq<(Selection, bool)>) -> Seq<(Selection, bool)>
    decreases s.len(),
{
    if s.len() == 0 {
        s
    } else {
        let m = sel_merge(s.drop_last());
        let x = s.last();
        if m.len() > 0 && sel_joins(m.last().0, x.0) {
            m.drop_last().push((sel_union(m.last(), x), m.last().1 || x.1))
        } else {
            m.push(x)
        }
    }
}

/// The selections tagged with whether each is the primary one.
pub open spec fn tagged(s: Seq<Selection>, primary: int) -> Seq<(Selection, bool)> {
    Seq::new(s.len(), |i: int| (s[i], i == primary))
}

/// Index of the first tagged entry at or after `i`, or zero when none is.
pub open spec fn first_tagged_from(s: Seq<(Selection, bool)>, i: int) -> int
    decreases s.len() - i,
{
    if i < 0 || i >= s.len() {
        0
    } else if s[i].1 {
        i
    } else {
        first_tagged_from(s, i + 1)
    }
}

/// Index of the first tagged entry, or zero.
/// The selections of a tagged sequence, tags dropped.
pub open spec fn untagged(s: Seq<(Selection, bool)>) -> Seq<Selection> {
    s.map_values(|x: (Selection, bool)| x.0)
}

pub open spec fn first_tagged(s: Seq<(Selection, bool)>) -> int {
    first_tagged_from(s, 0)
}

/// Each selection ends where or before every later one starts.
pub open spec fn sel_disjoint(s: Seq<Selection>) -> bool {
    forall|i: int, j: int| 0 <= i < j < s.len() ==> (#[trigger] s[i]).end() <= (#[trigger] s[j]).start()
}

/// Each selection starts strictly after every earlier one.
pub open spec fn sel_increasing(s: Seq<Selection>) -> bool {
    forall|i: int, j: int| 0 <= i < j < s.len() ==> (#[trigger] s[i]).start() < (#[trigger] s[j]).start()
}

/// Merging joined neighbors leaves no two selections starting together.
pub proof fn lemma_merge_increasing(s: Seq<(Selection, bool)>)
    ensures
        sel_increasing(untagged(sel_merge(s))),
    decreases s.len(),
{
    if s.len() > 0 {
        let m = sel_merge(s.drop_last());
        lemma_merge_increasing(s.drop_last());
        lemma_merge_disjoint(s.drop_last());
        let x = s.last();
        let mm = untagged(m);
        let o = untagged(sel_merge(s));
        assert(sel_disjoint(mm)) by {
            assert(mm =~= m.map_values(|y: (Selection, bool)| y.0));
        }
        if m.len() > 0 && sel_joins(m.last().0, x.0) {
            let u = sel_union(m.last(), x);
            assert(u.start() == m.last().0.start());
            assert forall|i: int, j: int| 0 <= i < j < o.len() implies (#[trigger] o[i]).start() < (#[trigger] o[j]).start() by {
                assert(o[i] == mm[i]);
                if j < o.len() - 1 {
                    assert(o[j] == mm[j]);
                } else {
                    assert(o[j] == u);
                    assert(mm[i].start() < mm[m.len() - 1].start());
                }
            }
        } else {
            assert forall|i: int, j: int| 0 <= i < j < o.len() implies (#[trigger] o[i]).start() < (#[trigger] o[j]).start() by {
                assert(o[i] == mm[i]);
                if j < o.len() - 1 {
                    assert(o[j] == mm[j]);
                } else {
                    assert(o[j] == x.0);
                    assert(mm[m.len() - 1] == m.last().0);
                    if i < m.len() - 1 {
                        assert(mm[i].start() < mm[m.len() - 1].start());
                    }
                }
            }
        }
    }
}

/// Every selection that sorting or merging produces is valid where all the
/// inputs are.
pub proof fn lemma_merge_valid(bytes: Seq<u8>, s: Seq<(Selection, bool)>)
    requires
        forall|i: int| 0 <= i < s.len() ==> sel_valid(bytes, (#[trigger] s[i]).0),
    ensures
        forall|i: int| 0 <= i < sel_merge(s).len() ==> sel_valid(bytes, (#[trigger] sel_merge(s)[i]).0),
    decreases s.len(),
{
    if s.len() > 0 {
        let m = sel_merge(s.drop_last());
        lemma_merge_valid(bytes, s.drop_last());
        let x = s.last();
        let out = sel_merge(s);
        if m.len() > 0 && sel_joins(m.last().0, x.0) {
            let u = sel_union(m.last(), x);
            assert(sel_valid(bytes, m.last().0));
            assert(sel_valid(bytes, u));
            assert forall|i: int| 0 <= i < out.len() implies sel_valid(bytes, (#[trigger] out[i]).0) by {
                if i < out.len() - 1 {
                    assert(out[i] == m[i]);
                }
            }
        } else {
            assert forall|i: int| 0 <= i < out.len() implies sel_valid(bytes, (#[trigger] out[i]).0) by {
                if i < out.len() - 1 {
                    assert(out[i] == m[i]);
                }
            }
        }
    }
}

proof fn lemma_insert_valid(bytes: Seq<u8>, t: Seq<(Selection, bool)>, x: (Selection, bool))
    requires
        forall|i: int| 0 <= i < t.len() ==> sel_valid(bytes, (#[trigger] t[i]).0),
        sel_valid(bytes, x.0),
    ensures
        forall|i: int| 0 <= i < sel_insert(t, x).len() ==> sel_valid(bytes, (#[trigger] sel_insert(t, x)[i]).0),
    decreases t.len(),
{
    if t.len() > 0 && !sel_le(x.0, t[0].0) {
        lemma_insert_valid(bytes, t.drop_first(), x);
        let r = sel_insert(t.drop_first(), x);
        assert forall|i: int| 0 <= i < sel_insert(t, x).len() implies sel_valid(bytes, (#[trigger] sel_insert(t, x)[i]).0) by {
            if i > 0 {
                assert(sel_insert(t, x)[i] == r[i - 1]);
            }
        }
    } else if t.len() > 0 {
        assert forall|i: int| 0 <= i < sel_insert(t, x).len() implies sel_valid(bytes, (#[trigger] sel_insert(t, x)[i]).0) by {
            if i > 0 {
                assert(sel_insert(t, x)[i] == t[i - 1]);
            }
        }
    }
}

proof fn lemma_sort_valid(bytes: Seq<u8>, s: Seq<(Selection, bool)>)
    requires
        forall|i: int| 0 <= i < s.len() ==> sel_valid(bytes, (#[trigger] s[i]).0),
    ensures
        forall|i: int| 0 <= i < sel_sort(s).len() ==> sel_valid(bytes, (#[trigger] sel_sort(s)[i]).0),
    decreases s.len(),
{
    if s.len() > 0 {
        assert forall|i: int| 0 <= i < s.drop_first().len() implies sel_valid(bytes, (#[trigger] s.drop_first()[i]).0) by {
            assert(s.drop_first()[i] == s[i + 1]);
        }
        lemma_sort_valid(bytes, s.drop_first());
        lemma_insert_valid(bytes, sel_sort(s.drop_first()), s[0]);
    }
}

/// Normalizing valid selections gives valid selections.
pub proof fn lemma_normalized_valid(bytes: Seq<u8>, s: Seq<Selection>, primary: int)
    requires
        forall|i: int| 0 <= i < s.len() ==> sel_valid(bytes, #[trigger] s[i]),
    ensures
        forall|i: int| 0 <= i < untagged(normalized(s, primary)).len() ==> sel_valid(bytes, #[trigger] untagged(normalized(s, primary))[i]),
{
    let t = tagged(s, primary);
    assert forall|i: int| 0 <= i < t.len() implies sel_valid(bytes, (#[trigger] t[i]).0) by {
        assert(t[i].0 == s[i]);
    }
    lemma_sort_valid(bytes, t);
    lemma_merge_valid(bytes, sel_sort(t));
}

/// Merging joined neighbors leaves selections in order and apart.
pub proof fn lemma_merge_disjoint(s: Seq<(Selection, bool)>)
    ensures
        sel_disjoint(sel_merge(s).map_values(|x: (Selection, bool)| x.0)),
    decreases s.len(),
{
    if s.len() > 0 {
        let m = sel_merge(s.drop_last());
        lemma_merge_disjoint(s.drop_last());
        let x = s.last();
        let mm = m.map_values(|y: (Selection, bool)| y.0);
        let out = sel_merge(s);
        let o = out.map_values(|y: (Selection, bool)| y.0);
        if m.len() > 0 && sel_joins(m.last().0, x.0) {
            let u = sel_union(m.last(), x);
            assert(u.start() == m.last().0.start());
            assert forall|i: int, j: int| 0 <= i < j < o.len() implies (#[trigger] o[i]).end() <= (#[trigger] o[j]).start() by {
                assert(o[i] == mm[i]);
                if j < o.len() - 1 {
                    assert(o[j] == mm[j]);
                } else {
                    assert(o[j] == u);
                    assert(mm[i].end() <= mm[m.len() - 1].start());
                }
            }
        } else {
            assert forall|i: int, j: int| 0 <= i < j < o.len() implies (#[trigger] o[i]).end() <= (#[trigger] o[j]).start() by {
                assert(o[i] == mm[i]);
                if j < o.len() - 1 {
                    assert(o[j] == mm[j]);
                } else {
                    assert(o[j] == x.0);
                    if i < m.len() - 1 {
                        assert(mm[i].end() <= mm[m.len() - 1].start());
                        assert(mm[m.len() - 1].start() <= mm[m.len() - 1].end());
                    }
                }
            }
        }
    }
}

/// The normal form of selections with a given primary: sorted by range with
/// joining selections merged.
pub open spec fn normalized(s: Seq<Selection>, primary: int) -> Seq<(Selection, bool)> {
    sel_merge(sel_sort(tagged(s, primary)))
}

/// The common single-caret case has no heap allocation. Extra ranges are sorted
/// and overlapping ranges merge; one range remains the primary IME/scroll target.
#[derive(Debug, Clone, PartialEq)]
pub struct SelectionSet {
    first: Selection,
    rest: Vec<Selection>,
    primary: usize,
    structured: bool,
}

impl View for SelectionSet {
    type V = Seq<Selection>;

    closed spec fn view(&self) -> Seq<Selection> {
        seq![self.first] + self.rest@
    }
}

impl SelectionSet {
    pub closed spec fn primary_spec(&self) -> int {
        self.primary as int
    }

    /// A structured selection keeps a source position for navigation and
    /// undo, but does not expose source syntax or draw a text caret.
    pub closed spec fn structured_spec(&self) -> bool {
        self.structured
    }

    /// A primary among at most `usize::MAX` selections, in order and apart,
    /// no two starting together.
    pub open spec fn wf(&self) -> bool {
        &&& 0 <= self.primary_spec() < self@.len() <= usize::MAX
        &&& sel_disjoint(self@)
        &&& sel_increasing(self@)
    }

    pub fn single(selection: Selection) -> (s: Self)
        ensures
            s@ == seq![selection],
            s.primary_spec() == 0,
            !s.structured_spec(),
            s.wf(),
    {
        let r = SelectionSet { first: selection, rest: Vec::new(), primary: 0, structured: false };
        proof {
            assert(r@ =~= seq![selection]);
        }
        r
    }

    pub fn structured(selection: Selection) -> (s: Self)
        ensures
            s@ == seq![selection],
            s.primary_spec() == 0,
            s.structured_spec(),
            s.wf(),
    {
        let r = SelectionSet { first: selection, rest: Vec::new(), primary: 0, structured: true };
        proof {
            assert(r@ =~= seq![selection]);
        }
        r
    }

    pub fn is_structured(&self) -> (b: bool)
        ensures
            b == self.structured_spec(),
    {
        self.structured
    }

    pub fn len(&self) -> (n: usize)
        requires
            self.wf(),
        ensures
            n == self@.len(),
    {
        1 + self.rest.len()
    }

    /// Heap bytes kept alive by the extra selections, by capacity. The
    /// allocator decides the capacity, so only a floor is known: the bytes
    /// every selection but the first occupies, saturated at `usize::MAX`.
    pub fn retained_bytes(&self) -> (r: usize)
        ensures
            r >= saturated((self@.len() - 1) * vstd::layout::size_of::<Selection>()),
    {
        let c = vec_capacity(&self.rest);
        let z = std::mem::size_of::<Selection>();
        proof {
            assert(c * z >= self.rest@.len() * z) by (nonlinear_arith)
                requires
                    c >= self.rest@.len(),
            ;
        }
        saturating_product(c, z)
    }

    /// An equal copy.
    pub fn duplicate(&self) -> (r: Self)
        ensures
            r@ == self@,
            r.primary_spec() == self.primary_spec(),
            r.structured_spec() == self.structured_spec(),
    {
        let mut rest: Vec<Selection> = Vec::new();
        let mut i: usize = 0;
        while i < self.rest.len()
            invariant
                0 <= i <= self.rest@.len(),
                rest@ == self.rest@.take(i as int),
            decreases self.rest@.len() - i,
        {
            rest.push(self.rest[i]);
            i += 1;
            proof {
                assert(rest@ =~= self.rest@.take(i as int));
            }
        }
        proof {
            assert(self.rest@.take(self.rest@.len() as int) =~= self.rest@);
        }
        let r = SelectionSet { first: self.first, rest, primary: self.primary, structured: self.structured };
        proof {
            assert(r@ =~= self@);
        }
        r
    }

    /// The same selections, primary and kind.
    pub fn same_as(&self, other: &Self) -> (b: bool)
        ensures
            b == (self@ == other@ && self.primary_spec() == other.primary_spec()
                && self.structured_spec() == other.structured_spec()),
    {
        if self.primary != other.primary || self.structured != other.structured || self.first != other.first
            || self.rest.len() != other.rest.len() {
            proof {
                if self.first != other.first {
                    assert(self@[0] != other@[0]);
                }
                if self.rest@.len() != other.rest@.len() {
                    assert(self@.len() != other@.len());
                }
            }
            return false;
        }
        let mut i: usize = 0;
        while i < self.rest.len()
            invariant
                self.rest@.len() == other.rest@.len(),
                0 <= i <= self.rest@.len(),
                forall|k: int| 0 <= k < i ==> self.rest@[k] == other.rest@[k],
            decreases self.rest@.len() - i,
        {
            if self.rest[i] != other.rest[i] {
                proof {
                    assert(self@[i + 1] != other@[i + 1]);
                }
                return false;
            }
            i += 1;
        }
        proof {
            assert(self@ =~= other@);
        }
        true
    }

    /// A selection set always holds at least one selection.
    pub fn is_empty(&self) -> (b: bool)
        ensures
            b == (self@.len() == 0),
            !b,
    {
        false
    }

    pub fn primary_index(&self) -> (i: usize)
        ensures
            i == self.primary_spec(),
    {
        self.primary
    }

    pub fn primary(&self) -> (s: Selection)
        requires
            self.wf(),
        ensures
            s == self@[self.primary_spec()],
    {
        if self.primary == 0 {
            self.first
        } else {
            self.rest[self.primary - 1]
        }
    }

    /// The selections in order.
    pub fn iter(&self) -> (v: Vec<Selection>)
        ensures
            v@ == self@,
    {
        let mut v = Vec::new();
        v.push(self.first);
        let mut i: usize = 0;
        while i < self.rest.len()
            invariant
                0 <= i <= self.rest@.len(),
                v@ == seq![self.first] + self.rest@.take(i as int),
            decreases self.rest@.len() - i,
        {
            v.push(self.rest[i]);
            i += 1;
            proof {
                assert(self.rest@.take(i as int) =~= self.rest@.take(i - 1).push(self.rest@[i - 1]));
            }
        }
        proof {
            assert(self.rest@.take(self.rest@.len() as int) =~= self.rest@);
        }
        v
    }
}

} // verus!

verus! {

proof fn lemma_sel_insert_at(t: Seq<(Selection, bool)>, x: (Selection, bool), p: int)
    requires
        0 <= p <= t.len(),
        forall|j: int| 0 <= j < p ==> !sel_le(x.0, (#[trigger] t[j]).0),
        p < t.len() ==> sel_le(x.0, t[p].0),
    ensures
        sel_insert(t, x) == t.take(p) + seq![x] + t.skip(p),
    decreases p,
{
    if p == 0 {
        assert(t.len() > 0 ==> seq![x] + t =~= t.take(0) + seq![x] + t.skip(0));
        assert(t.len() == 0 ==> seq![x] =~= t.take(0) + seq![x] + t.skip(0));
    } else {
        let r = t.drop_first();
        assert(!sel_le(x.0, t[0].0));
        assert forall|j: int| 0 <= j < p - 1 implies !sel_le(x.0, (#[trigger] r[j]).0) by {
            assert(r[j] == t[j + 1]);
        }
        if p - 1 < r.len() {
            assert(r[p - 1] == t[p]);
        }
        lemma_sel_insert_at(r, x, p - 1);
        assert(seq![t[0]] + (r.take(p - 1) + seq![x] + r.skip(p - 1)) =~= t.take(p) + seq![x] + t.skip(p));
    }
}

fn sel_le_exec(a: Selection, b: Selection) -> (r: bool)
    ensures
        r == sel_le(a, b),
{
    let x = a.text_range();
    let y = b.text_range();
    x.start < y.start || (x.start == y.start && x.end <= y.end)
}

fn sort_tagged(items: Vec<(Selection, bool)>) -> (r: Vec<(Selection, bool)>)
    ensures
        r@ == sel_sort(items@),
{
    let ghost orig = items@;
    let mut items = items;
    let mut out: Vec<(Selection, bool)> = Vec::new();
    proof {
        assert(orig.skip(orig.len() as int) =~= Seq::<(Selection, bool)>::empty());
        assert(orig.take(orig.len() as int) =~= orig);
    }
    while items.len() > 0
        invariant
            items@ == orig.take(items@.len() as int),
            items@.len() <= orig.len(),
            out@ == sel_sort(orig.skip(items@.len() as int)),
        decreases items@.len(),
    {
        let ghost k = items@.len() as int;
        let x = items.pop().unwrap();
        proof {
            assert(x == orig[k - 1]);
            assert(items@ =~= orig.take(k - 1));
            assert(orig.skip(k - 1).drop_first() =~= orig.skip(k));
            assert(orig.skip(k - 1)[0] == orig[k - 1]);
        }
        let mut p: usize = 0;
        while p < out.len() && !sel_le_exec(x.0, out[p].0)
            invariant
                p <= out@.len(),
                forall|j: int| 0 <= j < p ==> !sel_le(x.0, (#[trigger] out@[j]).0),
            decreases out@.len() - p,
        {
            p += 1;
        }
        proof {
            lemma_sel_insert_at(out@, x, p as int);
        }
        let ghost before = out@;
        out.insert(p, x);
        proof {
            assert(out@ =~= before.take(p as int) + seq![x] + before.skip(p as int));
        }
    }
    proof {
        assert(orig.skip(0) =~= orig);
    }
    out
}

fn merge_tagged(sorted: &Vec<(Selection, bool)>) -> (r: Vec<(Selection, bool)>)
    ensures
        r@ == sel_merge(sorted@),
        r@.len() <= sorted@.len(),
        sorted@.len() > 0 ==> r@.len() > 0,
{
    let ghost s = sorted@;
    let mut merged: Vec<(Selection, bool)> = Vec::new();
    let mut k: usize = 0;
    proof {
        assert(s.take(0) =~= Seq::<(Selection, bool)>::empty());
    }
    while k < sorted.len()
        invariant
            s == sorted@,
            0 <= k <= s.len(),
            merged@ == sel_merge(s.take(k as int)),
            merged@.len() <= k,
            k > 0 ==> merged@.len() > 0,
        decreases s.len() - k,
    {
        let (sel, p) = sorted[k];
        proof {
            assert(s.take(k + 1).drop_last() =~= s.take(k as int));
            assert(s.take(k + 1).last() == s[k as int]);
        }
        let n = merged.len();
        let mut joined = false;
        if n > 0 {
            let (last, was) = merged[n - 1];
            let a = last.text_range();
            let b = sel.text_range();
            if b.start < a.end || (b.start == a.start && b.end == a.end) || (b.start == a.end && (last.is_caret() || sel.is_caret())) {
                let backwards = if p { sel.head < sel.anchor } else { last.head < last.anchor };
                let end = if a.end >= b.end { a.end } else { b.end };
                let u = if backwards { Selection::range(end, a.start) } else { Selection::range(a.start, end) };
                let ghost before = merged@;
                merged.set(n - 1, (u, was || p));
                proof {
                    assert(merged@ =~= before.drop_last().push((sel_union(before.last(), (sel, p)), before.last().1 || p)));
                }
                joined = true;
            }
        }
        if !joined {
            merged.push((sel, p));
        }
        k += 1;
    }
    proof {
        assert(s.take(s.len() as int) =~= s);
    }
    merged
}

impl SelectionSet {
    /// Normalize selections: sort by range and merge joining ones, keeping
    /// track of the primary. At least one selection is required and the
    /// primary index must address one of them.
    pub fn new(ranges: Vec<Selection>, primary: usize) -> (r: Result<Self, EditError>)
        ensures
            r is Ok <==> (ranges@.len() > 0 && primary < ranges@.len()),
            r matches Err(e) ==> e == EditError::InvalidSelection,
            r matches Ok(set) ==> {
                &&& set.wf()
                &&& !set.structured_spec()
                &&& set@ == untagged(normalized(ranges@, primary as int))
                &&& set.primary_spec() == first_tagged(normalized(ranges@, primary as int))
            },
    {
        let n = ranges.len();
        if n == 0 || primary >= n {
            return Err(EditError::InvalidSelection);
        }
        let mut items: Vec<(Selection, bool)> = Vec::new();
        let mut i: usize = 0;
        while i < n
            invariant
                n == ranges@.len(),
                0 <= i <= n,
                items@ == tagged(ranges@, primary as int).take(i as int),
            decreases n - i,
        {
            items.push((ranges[i], i == primary));
            i += 1;
            proof {
                assert(items@ =~= tagged(ranges@, primary as int).take(i as int));
            }
        }
        proof {
            assert(tagged(ranges@, primary as int).take(n as int) =~= tagged(ranges@, primary as int));
        }
        let sorted = sort_tagged(items);
        proof {
            lemma_sel_sort_len(tagged(ranges@, primary as int));
        }
        let merged = merge_tagged(&sorted);
        let ghost m = merged@;
        let mut index: usize = 0;
        while index < merged.len() && !merged[index].1
            invariant
                m == merged@,
                0 <= index <= m.len(),
                first_tagged_from(m, 0) == first_tagged_from(m, index as int),
            decreases m.len() - index,
        {
            index += 1;
        }
        let primary_out = if index < merged.len() { index } else { 0 };
        let first = merged[0].0;
        let mut rest: Vec<Selection> = Vec::new();
        let mut j: usize = 1;
        while j < merged.len()
            invariant
                m == merged@,
                1 <= j <= m.len(),
                rest@ == m.map_values(|x: (Selection, bool)| x.0).subrange(1, j as int),
            decreases m.len() - j,
        {
            rest.push(merged[j].0);
            j += 1;
            proof {
                assert(rest@ =~= m.map_values(|x: (Selection, bool)| x.0).subrange(1, j as int));
            }
        }
        let set = SelectionSet { first, rest, primary: primary_out, structured: false };
        proof {
            assert(set@ =~= m.map_values(|x: (Selection, bool)| x.0));
            lemma_merge_disjoint(sorted@);
            lemma_merge_increasing(sorted@);
            assert(untagged(m) =~= m.map_values(|x: (Selection, bool)| x.0));
        }
        Ok(set)
    }
}

proof fn lemma_sel_insert_len(t: Seq<(Selection, bool)>, x: (Selection, bool))
    ensures
        sel_insert(t, x).len() == t.len() + 1,
    decreases t.len(),
{
    if t.len() > 0 && !sel_le(x.0, t[0].0) {
        lemma_sel_insert_len(t.drop_first(), x);
    }
}

proof fn lemma_sel_sort_len(s: Seq<(Selection, bool)>)
    ensures
        sel_sort(s).len() == s.len(),
    decreases s.len(),
{
    if s.len() > 0 {
        lemma_sel_sort_len(s.drop_first());
        lemma_sel_insert_len(sel_sort(s.drop_first()), s[0]);
    }
}

} // verus!

verus! {

/// A selection mapped through a change set.
pub open spec fn mapped_sel(s: Selection, c: Seq<super::document::Edit>) -> Selection {
    Selection {
        anchor: map_spec(c, s.anchor as int, Bias::After) as usize,
        head: map_spec(c, s.head as int, Bias::After) as usize,
        affinity: s.affinity,
        preferred_x: None,
    }
}

/// Every selection mapped through a change set.
pub open spec fn mapped_all(s: Seq<Selection>, c: Seq<super::document::Edit>) -> Seq<Selection> {
    s.map_values(|x: Selection| mapped_sel(x, c))
}

/// The selections a change set leaves behind: each one mapped, then all
/// normalized again around the primary.
pub open spec fn remapped(s: Seq<Selection>, primary: int, c: Seq<super::document::Edit>) -> Seq<Selection> {
    untagged(normalized(mapped_all(s, c), primary))
}

/// Positions that stay addressable after the change.
pub open spec fn maps_in_range(s: Seq<Selection>, c: Seq<super::document::Edit>) -> bool {
    forall|i: int|
        0 <= i < s.len() ==> (#[trigger] s[i]).anchor + total_inserted(c) <= usize::MAX && s[i].head
            + total_inserted(c) <= usize::MAX
}

/// A selection carries valid positions: both ends on char boundaries and a
/// finite preferred column.
pub open spec fn sel_valid(bytes: Seq<u8>, s: Selection) -> bool {
    &&& is_char_boundary(bytes, s.anchor as int)
    &&& is_char_boundary(bytes, s.head as int)
    &&& (s.preferred_x matches Some(x) ==> finite_bits(x))
}

/// Normalizing keeps two ranges that only touch apart: when one range ends
/// where the other starts and neither is a caret, both stay, in order,
/// whichever was given first. Only overlapping, identical or caret-touching
/// selections merge.
pub proof fn lemma_touching_ranges_stay_apart(a: Selection, b: Selection, primary: int)
    requires
        a.anchor != a.head,
        b.anchor != b.head,
        a.end() == b.start(),
    ensures
        untagged(normalized(seq![a, b], primary)) == seq![a, b],
        untagged(normalized(seq![b, a], primary)) == seq![a, b],
{
    let ta = (a, 0 == primary);
    let tb = (b, 1 == primary);
    let t = tagged(seq![a, b], primary);
    assert(t =~= seq![ta, tb]);
    assert(t.drop_first() =~= seq![tb]);
    assert(seq![tb].drop_first() =~= Seq::<(Selection, bool)>::empty());
    assert(sel_sort(seq![tb]) == sel_insert(sel_sort(seq![tb].drop_first()), seq![tb][0]));
    assert(sel_sort(seq![tb]) =~= seq![tb]);
    assert(sel_le(ta.0, tb.0));
    assert(sel_sort(t) == sel_insert(seq![tb], ta));
    assert(sel_insert(seq![tb], ta) =~= seq![ta, tb]);
    let m = seq![ta, tb];
    assert(m.drop_last() =~= seq![ta]);
    assert(seq![ta].drop_last() =~= Seq::<(Selection, bool)>::empty());
    assert(sel_merge(seq![ta].drop_last()).len() == 0);
    assert(sel_merge(seq![ta]) == sel_merge(seq![ta].drop_last()).push(seq![ta].last()));
    assert(sel_merge(seq![ta]) =~= seq![ta]);
    assert(m.last() == tb);
    assert(sel_merge(m) == sel_merge(m.drop_last()).push(m.last()));
    assert(!sel_joins(a, b));
    assert(sel_merge(m) =~= seq![ta, tb]);
    assert(untagged(seq![ta, tb]) =~= seq![a, b]);

    let ub = (b, 0 == primary);
    let ua = (a, 1 == primary);
    let t2 = tagged(seq![b, a], primary);
    assert(t2 =~= seq![ub, ua]);
    assert(t2.drop_first() =~= seq![ua]);
    assert(seq![ua].drop_first() =~= Seq::<(Selection, bool)>::empty());
    assert(sel_sort(seq![ua]) == sel_insert(sel_sort(seq![ua].drop_first()), seq![ua][0]));
    assert(sel_sort(seq![ua]) =~= seq![ua]);
    assert(!sel_le(ub.0, ua.0));
    assert(seq![ua].drop_first() =~= Seq::<(Selection, bool)>::empty());
    assert(sel_insert(Seq::<(Selection, bool)>::empty(), ub) =~= seq![ub]);
    assert(sel_insert(seq![ua], ub) =~= seq![ua, ub]);
    assert(sel_sort(t2) == sel_insert(seq![ua], ub));
    let m2 = seq![ua, ub];
    assert(m2.drop_last() =~= seq![ua]);
    assert(seq![ua].drop_last() =~= Seq::<(Selection, bool)>::empty());
    assert(sel_merge(seq![ua].drop_last()).len() == 0);
    assert(sel_merge(seq![ua]) == sel_merge(seq![ua].drop_last()).push(seq![ua].last()));
    assert(sel_merge(seq![ua]) =~= seq![ua]);
    assert(m2.last() == ub);
    assert(sel_merge(m2) == sel_merge(m2.drop_last()).push(m2.last()));
    assert(sel_merge(m2) =~= seq![ua, ub]);
    assert(untagged(seq![ua, ub]) =~= seq![a, b]);
}

pub proof fn lemma_normalized_single(x: Selection)
    ensures
        normalized(seq![x], 0) == seq![(x, true)],
        first_tagged(seq![(x, true)]) == 0,
{
    let t = tagged(seq![x], 0);
    assert(t =~= seq![(x, true)]);
    assert(t.drop_first() =~= Seq::<(Selection, bool)>::empty());
    assert(sel_sort(t) == sel_insert(sel_sort(t.drop_first()), t[0]));
    assert(sel_sort(t) =~= seq![(x, true)]);
    let m = seq![(x, true)];
    assert(m.drop_last() =~= Seq::<(Selection, bool)>::empty());
    assert(sel_merge(m.drop_last()).len() == 0);
    assert(m.last() == (x, true));
    assert(sel_merge(m) == sel_merge(m.drop_last()).push(m.last()));
    assert(sel_merge(m) =~= seq![(x, true)]);
}

pub(crate) fn finite_bits_exec(bits: u32) -> (b: bool)
    ensures
        b == finite_bits(bits),
{
    (bits >> 23u32) & 0xffu32 != 0xffu32
}

impl Default for SelectionSet {
    fn default() -> (s: Self)
        ensures
            s@ == seq![Selection { anchor: 0, head: 0, affinity: Bias::After, preferred_x: None }],
            s.primary_spec() == 0,
            !s.structured_spec(),
            s.wf(),
    {
        Self::single(Selection::caret(0))
    }
}

impl SelectionSet {
    /// Map every selection through a change set and normalize again; a
    /// structured selection stays structured.
    pub fn map(&self, changes: &ChangeSet) -> (r: Self)
        requires
            self.wf(),
            changes.wf(),
            maps_in_range(self@, changes@),
        ensures
            r.wf(),
            r.structured_spec() == self.structured_spec(),
            r@ == remapped(self@, self.primary_spec() as int, changes@),
            r.primary_spec() == first_tagged(normalized(mapped_all(self@, changes@), self.primary_spec() as int)),
    {
        let ghost ms = mapped_all(self@, changes@);
        proof {
            assert(self@[0] == self.first);
        }
        let mut next = if self.rest.len() == 0 {
            let m = self.first.map(changes);
            proof {
                assert(ms =~= seq![m]);
                lemma_normalized_single(m);
                assert(seq![(m, true)].map_values(|x: (Selection, bool)| x.0) =~= seq![m]);
            }
            Self::single(m)
        } else {
            let all = self.iter();
            let mut v: Vec<Selection> = Vec::new();
            let mut i: usize = 0;
            while i < all.len()
                invariant
                    all@ == self@,
                    changes.wf(),
                    maps_in_range(self@, changes@),
                    0 <= i <= all@.len(),
                    v@ == ms.take(i as int),
                    ms == mapped_all(self@, changes@),
                decreases all@.len() - i,
            {
                let m = all[i].map(changes);
                v.push(m);
                i += 1;
                proof {
                    assert(v@ =~= ms.take(i as int));
                }
            }
            proof {
                assert(ms.take(ms.len() as int) =~= ms);
            }
            match Self::new(v, self.primary) {
                Ok(s) => s,
                Err(_) => Self::single(self.first),
            }
        };
        next.structured = self.structured;
        next
    }

    /// Every selection addresses char boundaries of `text` and has a finite
    /// preferred column.
    pub fn valid<T: TextRead + ?Sized>(&self, text: &T) -> (b: bool)
        ensures
            b == forall|i: int| 0 <= i < self@.len() ==> sel_valid(utf8(text.text()), #[trigger] self@[i]),
    {
        let all = self.iter();
        let mut i: usize = 0;
        while i < all.len()
            invariant
                all@ == self@,
                0 <= i <= all@.len(),
                forall|t: int| 0 <= t < i ==> sel_valid(utf8(text.text()), #[trigger] all@[t]),
            decreases all@.len() - i,
        {
            let s = all[i];
            let finite = match s.preferred_x {
                Some(x) => finite_bits_exec(x),
                None => true,
            };
            if !text.is_char_boundary(s.anchor) || !text.is_char_boundary(s.head) || !finite {
                proof {
                    assert(!sel_valid(utf8(text.text()), all@[i as int]));
                }
                return false;
            }
            i += 1;
        }
        true
    }
}

} // verus!
