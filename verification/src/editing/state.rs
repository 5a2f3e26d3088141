//! Editing sessions: a document with its selections, transient IME preedit,
//! source anchors and a bounded history of exact inverse deltas.
use super::buffer::{lemma_boundary_in_bounds, valid_range, TextRead};
use super::document::{
    apply_edits, applied_style, boundary_after, changed_edits, deleted_before, edits_fit, lemma_apply_from_len,
    lemma_changed_edits, lemma_deleted_before_bound, lemma_inverse_restores_text, lemma_inverse_styles,
    lemma_total_inverse, lemma_total_sorted, out_len, sort_by_range, total_inserted, utf8, Bias, ChangeSet, Document,
    Edit, EditError,
};
use super::extensions::{anchor_in, Anchor, AnchorId, Anchors};
use super::format::{canonical, changes_end, end_of, lemma_canonical_unique, style_of, StyleId, StyleSpan};
use super::selection::{normalized, remapped, sel_valid, untagged, Selection, SelectionSet};
use std::collections::VecDeque;
use std::ops::Range;
use std::time::{Duration, Instant};
use vstd::prelude::*;
use vstd::utf8::{is_char_boundary, valid_utf8};

verus! {

#[verifier::external_type_specification]
#[verifier::external_body]
pub struct ExInstant(Instant);

/// `Instant::now`: the current time; nothing is known of it.
#[verifier::external_body]
fn current_time() -> Instant {
    Instant::now()
}

/// `Instant::saturating_duration_since`: time from `earlier` to `now`, zero
/// if `earlier` is later. Both instants are opaque here, so nothing is stated.
#[verifier::external_body]
fn time_since(now: &Instant, earlier: &Instant) -> Duration {
    now.saturating_duration_since(*earlier)
}

/// `Duration`'s `<=`. Durations are opaque here, so nothing is stated.
#[verifier::external_body]
fn duration_at_most(d: &Duration, limit: &Duration) -> bool {
    *d <= *limit
}

/// `VecDeque::shrink_to_fit`: releases spare capacity; the contents stay.
#[verifier::external_body]
fn shrink_deque<T>(v: &mut VecDeque<T>)
    ensures
        final(v)@ == old(v)@,
{
    v.shrink_to_fit();
}

/// `Vec::shrink_to_fit`: releases spare capacity; the contents stay.
#[verifier::external_body]
fn shrink_vec<T>(v: &mut Vec<T>)
    ensures
        final(v)@ == old(v)@,
{
    v.shrink_to_fit();
}

/// `Duration::from_millis`. Durations are opaque here, so nothing is stated.
#[verifier::external_body]
fn duration_from_millis(ms: u64) -> Duration {
    Duration::from_millis(ms)
}

/// Why a document changed; typing and deletion group into one undo step.
#[derive(Debug, Clone, Copy, PartialEq, Eq, Structural)]
pub enum EditKind {
    Typing,
    Delete,
    Paste,
    Composition,
    Command,
    Undo,
    Redo,
}

impl Default for EditKind {
    fn default() -> (k: Self)
        ensures
            k == EditKind::Command,
    {
        EditKind::Command
    }
}

/// Edits against one document revision, with the selection they leave.
#[derive(Debug)]
pub struct Transaction {
    pub revision: u64,
    pub edits: Vec<Edit>,
    /// Selection in the resulting document. `None` maps the existing selection.
    pub selection: Option<SelectionSet>,
    pub kind: EditKind,
}

impl Transaction {
    pub fn new(revision: u64, edits: Vec<Edit>) -> (t: Self)
        ensures
            t.revision == revision,
            t.edits@ == edits@,
            t.selection is None,
            t.kind == EditKind::Command,
    {
        Transaction { revision, edits, selection: None, kind: EditKind::Command }
    }
}

/// One committed delta: the revisions around it and what it changed.
#[derive(Debug)]
pub struct Change {
    pub before_revision: u64,
    pub revision: u64,
    pub changes: ChangeSet,
    pub kind: EditKind,
}

/// Bounds of the undo history.
#[derive(Debug, Clone, Copy)]
pub struct HistoryOptions {
    /// Retained bytes above which the oldest entries are discarded; zero
    /// disables history.
    pub max_bytes: usize,
    /// Typing or deletion within this interval of the previous step joins it.
    pub merge_interval: Duration,
}

impl Default for HistoryOptions {
    /// One mebibyte of history; half a second merges typing.
    fn default() -> (o: Self)
        ensures
            o.max_bytes == 1048576,
    {
        HistoryOptions { max_bytes: 1024 * 1024, merge_interval: duration_from_millis(500) }
    }
}

/// IME preedit over a committed range, shown but not yet part of the document.
#[derive(Debug)]
pub struct Composition {
    /// Range in the committed document, unchanged until commit.
    pub range: Range<usize>,
    pub text: String,
    /// UTF-8 offsets within the preedit. `None` asks the view to hide its caret.
    pub cursor: Option<(usize, usize)>,
    /// Input style frozen for the lifetime of this preedit.
    pub style: StyleId,
}

/// Text and formatting of a document at one point of its history.
pub type DocState = (Seq<char>, Seq<StyleSpan>);

/// Formatting that is canonical and stays within the text.
pub open spec fn state_wf(t: DocState) -> bool {
    canonical(t.1) && end_of(t.1) <= utf8(t.0).len()
}

/// `c` applies to `t0` and gives `t1`.
pub open spec fn leads_to(c: ChangeSet, t0: DocState, t1: DocState) -> bool {
    &&& c.wf()
    &&& edits_fit(utf8(t0.0), c@)
    &&& changes_end(c.styles_view()) <= out_len(utf8(t0.0), c@)
    &&& utf8(t0.0).len() + total_inserted(c@) <= usize::MAX
    &&& utf8(t1.0) == apply_edits(utf8(t0.0), c@)
    &&& forall|q: int| #[trigger] style_of(t1.1, q) == applied_style(t0.1, c@, c.styles_view(), q)
}

/// One recorded step: a delta and its exact inverse.
#[derive(Debug)]
struct Record {
    forward: ChangeSet,
    inverse: ChangeSet,
}

/// One undo step: consecutive records with the selections and input styles
/// around them, and the document states they pass through.
struct HistoryEntry {
    records: Vec<Record>,
    before: SelectionSet,
    after: SelectionSet,
    before_typing: Option<StyleId>,
    after_typing: Option<StyleId>,
    kind: EditKind,
    time: Instant,
    bytes: usize,
    states: Ghost<Seq<DocState>>,
}

/// Every selection of `s` is valid in `text`.
pub open spec fn selections_valid(text: Seq<char>, s: SelectionSet) -> bool {
    &&& s.wf()
    &&& forall|i: int| 0 <= i < s@.len() ==> sel_valid(utf8(text), #[trigger] s@[i])
}

impl HistoryEntry {
    spec fn first_state(&self) -> DocState {
        self.states@[0]
    }

    spec fn last_state(&self) -> DocState {
        self.states@.last()
    }

    /// Records lead from state to state; selections fit their states.
    spec fn ok(&self) -> bool {
        let st = self.states@;
        &&& self.records@.len() >= 1
        &&& st.len() == self.records@.len() + 1
        &&& forall|k: int| 0 <= k < st.len() ==> state_wf(#[trigger] st[k])
        &&& forall|k: int|
            0 <= k < self.records@.len() ==> leads_to((#[trigger] self.records@[k]).forward, st[k], st[k + 1])
                && leads_to(self.records@[k].inverse, st[k + 1], st[k])
        &&& selections_valid(st[0].0, self.before)
        &&& selections_valid(st.last().0, self.after)
    }
}

/// How many deltas each entry holds.
spec fn counts_of(entries: Seq<HistoryEntry>) -> Seq<int> {
    entries.map_values(|e: HistoryEntry| e.records@.len() as int)
}

/// Counting deltas commutes with taking a run of entries.
proof fn lemma_counts_of(entries: Seq<HistoryEntry>, a: int, b: int)
    requires
        0 <= a <= b <= entries.len(),
    ensures
        counts_of(entries.subrange(a, b)) == counts_of(entries).subrange(a, b),
        counts_of(entries).len() == entries.len(),
        entries.len() > 0 ==> counts_of(entries.drop_last()) == counts_of(entries).drop_last(),
        entries.len() > 0 ==> counts_of(entries).last() == entries.last().records@.len(),
{
    assert(counts_of(entries.subrange(a, b)) =~= counts_of(entries).subrange(a, b));
    if entries.len() > 0 {
        assert(counts_of(entries.drop_last()) =~= counts_of(entries).drop_last());
    }
}

/// Sum of the bytes the entries account for.
spec fn bytes_sum(entries: Seq<HistoryEntry>) -> int
    decreases entries.len(),
{
    if entries.len() == 0 {
        0
    } else {
        bytes_sum(entries.drop_last()) + entries.last().bytes
    }
}

proof fn lemma_bytes_sum_nonneg(entries: Seq<HistoryEntry>)
    ensures
        bytes_sum(entries) >= 0,
    decreases entries.len(),
{
    if entries.len() > 0 {
        lemma_bytes_sum_nonneg(entries.drop_last());
    }
}

proof fn lemma_bytes_sum_front(entries: Seq<HistoryEntry>)
    requires
        entries.len() > 0,
    ensures
        bytes_sum(entries) == entries[0].bytes + bytes_sum(entries.subrange(1, entries.len() as int)),
    decreases entries.len(),
{
    let rest = entries.subrange(1, entries.len() as int);
    if entries.len() == 1 {
        assert(entries.drop_last().len() == 0);
        assert(bytes_sum(entries.drop_last()) == 0);
        assert(entries.last() == entries[0]);
        assert(rest.len() == 0);
        assert(bytes_sum(rest) == 0);
    } else {
        lemma_bytes_sum_front(entries.drop_last());
        assert(entries.drop_last()[0] == entries[0]);
        assert(entries.drop_last().subrange(1, entries.len() - 1) =~= rest.drop_last());
        assert(rest.last() == entries.last());
        assert(bytes_sum(rest) == bytes_sum(rest.drop_last()) + rest.last().bytes);
    }
}

proof fn lemma_bytes_sum_split(entries: Seq<HistoryEntry>, n: int)
    requires
        0 <= n <= entries.len(),
    ensures
        bytes_sum(entries) == bytes_sum(entries.subrange(0, n)) + bytes_sum(entries.subrange(n, entries.len() as int)),
    decreases entries.len(),
{
    if n == entries.len() {
        assert(entries.subrange(0, n) =~= entries);
        assert(entries.subrange(n, entries.len() as int).len() == 0);
    } else {
        let d = entries.drop_last();
        lemma_bytes_sum_split(d, n);
        assert(d.subrange(0, n) =~= entries.subrange(0, n));
        assert(entries.subrange(n, entries.len() as int).drop_last() =~= d.subrange(n, d.len() as int));
        assert(entries.subrange(n, entries.len() as int).last() == entries.last());
    }
}

proof fn lemma_bytes_sum_push(entries: Seq<HistoryEntry>, e: HistoryEntry)
    ensures
        bytes_sum(entries.push(e)) == bytes_sum(entries) + e.bytes,
{
    assert(entries.push(e).drop_last() =~= entries);
}

/// An editing session. History, preedit and anchors live beside the
/// document; every document change goes through a transaction.
pub struct EditorState {
    document: Document,
    selection: SelectionSet,
    composition: Option<Composition>,
    typing_style: Option<StyleId>,
    anchors: Anchors,
    last_change: Option<Change>,
    generation: u64,
    undo: VecDeque<HistoryEntry>,
    redo: Vec<HistoryEntry>,
    history_bytes: usize,
    history: HistoryOptions,
    history_boundary: bool,
    /// Bytes of the newest undo step as the last recorded transaction left it,
    /// before trimming to the budget.
    step_bytes: Ghost<nat>,
    /// Whether the last recorded transaction came within the merge interval
    /// of the newest undo step then, as the clock comparison found.
    step_within: Ghost<bool>,
}

impl EditorState {
    pub closed spec fn document_view(&self) -> Document {
        self.document
    }

    /// Text and formatting of the document now.
    pub closed spec fn current(&self) -> DocState {
        (self.document@, self.document.spans_view())
    }

    pub closed spec fn selection_view(&self) -> SelectionSet {
        self.selection
    }

    pub closed spec fn composing(&self) -> bool {
        self.composition is Some
    }

    pub closed spec fn typing_view(&self) -> Option<StyleId> {
        self.typing_style
    }

    pub closed spec fn generation_view(&self) -> u64 {
        self.generation
    }

    pub closed spec fn history_bytes_view(&self) -> usize {
        self.history_bytes
    }

    pub closed spec fn max_bytes(&self) -> usize {
        self.history.max_bytes
    }

    pub closed spec fn undo_depth(&self) -> nat {
        self.undo@.len()
    }

    pub closed spec fn redo_depth(&self) -> nat {
        self.redo@.len()
    }

    /// The states the undo steps return to, oldest first; the last is the
    /// next undo's target.
    pub closed spec fn undo_targets(&self) -> Seq<DocState> {
        self.undo@.map_values(|e: HistoryEntry| e.first_state())
    }

    /// The states the redo steps return to, furthest first; the last is the
    /// next redo's target.
    pub closed spec fn redo_targets(&self) -> Seq<DocState> {
        self.redo@.map_values(|e: HistoryEntry| e.last_state())
    }

    /// How many deltas each undo step reverts, oldest first; the last is the
    /// next undo's.
    pub closed spec fn undo_counts(&self) -> Seq<int> {
        counts_of(self.undo@)
    }

    /// How many deltas each redo step applies, furthest first; the last is
    /// the next redo's.
    pub closed spec fn redo_counts(&self) -> Seq<int> {
        counts_of(self.redo@)
    }

    /// Document state the next undo returns to.
    pub closed spec fn undo_target(&self) -> DocState {
        self.undo@.last().first_state()
    }

    /// Selection the next undo restores.
    pub closed spec fn undo_selection(&self) -> SelectionSet {
        self.undo@.last().before
    }

    /// Deltas the next undo applies.
    pub closed spec fn undo_steps(&self) -> int {
        self.undo@.last().records@.len() as int
    }

    /// Document state the next redo returns to.
    pub closed spec fn redo_target(&self) -> DocState {
        self.redo@.last().last_state()
    }

    /// Selection the next redo restores.
    pub closed spec fn redo_selection(&self) -> SelectionSet {
        self.redo@.last().after
    }

    /// Deltas the next redo applies.
    pub closed spec fn redo_steps(&self) -> int {
        self.redo@.last().records@.len() as int
    }

    /// The session's invariant: a well-formed document; selections, anchors
    /// and preedit within it; byte accounting within budget; and undo and redo
    /// stacks whose entries chain exactly from the current document outward.
    pub closed spec fn wf(&self) -> bool {
        self.core_wf() && self.history_bytes <= self.history.max_bytes
    }

    /// The invariant without the byte budget, which trimming restores.
    closed spec fn core_wf(&self) -> bool {
        let cur = self.current();
        let u = self.undo@;
        let r = self.redo@;
        &&& self.document.wf()
        &&& selections_valid(self.document@, self.selection)
        &&& self.anchors.wf()
        &&& self.anchors.within(utf8(self.document@).len() as int)
        &&& (self.composition matches Some(c) ==> valid_range(utf8(self.document@), c.range.start as int, c.range.end as int))
        &&& self.history_bytes == bytes_sum(u) + bytes_sum(r)
        &&& forall|i: int| 0 <= i < u.len() ==> (#[trigger] u[i]).ok()
        &&& forall|i: int| 0 <= i < r.len() ==> (#[trigger] r[i]).ok()
        &&& u.len() > 0 ==> u.last().last_state() == cur
        &&& forall|i: int| 0 <= i < u.len() - 1 ==> (#[trigger] u[i]).last_state() == u[i + 1].first_state()
        &&& r.len() > 0 ==> r.last().first_state() == cur
        &&& forall|i: int| 0 <= i < r.len() - 1 ==> (#[trigger] r[i]).first_state() == r[i + 1].last_state()
    }

    /// A session on `document` with a caret at the start and empty history.
    pub fn from_document(document: Document) -> (s: Self)
        requires
            document.wf(),
        ensures
            s.wf(),
            s.document_view() == document,
            s.selection_view()@ == seq![Selection { anchor: 0, head: 0, affinity: Bias::After, preferred_x: None }],
            !s.composing(),
            s.undo_depth() == 0,
            s.redo_depth() == 0,
            s.history_bytes_view() == 0,
            s.max_bytes() == 1048576,
    {
        let selection = SelectionSet::single(Selection::caret(0));
        proof {
            vstd::utf8::encode_utf8_valid_utf8(document@);
            super::buffer::lemma_boundary_char(utf8(document@), 0);
        }
        EditorState {
            document,
            selection,
            composition: None,
            typing_style: None,
            anchors: Anchors::new(),
            last_change: None,
            generation: 0,
            undo: VecDeque::new(),
            redo: Vec::new(),
            history_bytes: 0,
            history: HistoryOptions::default(),
            history_boundary: true,
            step_bytes: Ghost(0),
            step_within: Ghost(false),
        }
    }

    /// A session on a new plain document holding `text`, identified by `id`.
    pub fn new(text: String, id: u64) -> (s: Self)
        ensures
            s.wf(),
            s.document_view()@ == text@,
            s.document_view().spans_view().len() == 0,
            s.document_view().revision_spec() == 0,
            s.selection_view()@ == seq![Selection { anchor: 0, head: 0, affinity: Bias::After, preferred_x: None }],
            !s.composing(),
            s.undo_depth() == 0,
            s.redo_depth() == 0,
    {
        Self::from_document(Document::new(text, id))
    }

    pub fn document(&self) -> (d: &Document)
        ensures
            *d == self.document_view(),
    {
        &self.document
    }

    pub fn revision(&self) -> (r: u64)
        ensures
            r == self.document_view().revision_spec(),
    {
        self.document.revision()
    }

    /// Changes on selection and preedit updates as well as document transactions.
    pub fn generation(&self) -> (g: u64)
        ensures
            g == self.generation_view(),
    {
        self.generation
    }

    pub fn selections(&self) -> (s: &SelectionSet)
        ensures
            *s == self.selection_view(),
    {
        &self.selection
    }

    pub fn composition(&self) -> (c: Option<&Composition>)
        ensures
            c is Some == self.composing(),
    {
        self.composition.as_ref()
    }

    pub fn typing_style(&self) -> (s: Option<StyleId>)
        ensures
            s == self.typing_view(),
    {
        self.typing_style
    }

    pub fn history_bytes(&self) -> (n: usize)
        ensures
            n == self.history_bytes_view(),
    {
        self.history_bytes
    }

    pub fn can_undo(&self) -> (b: bool)
        ensures
            b == (self.undo_depth() > 0),
    {
        self.undo.len() > 0
    }

    pub fn can_redo(&self) -> (b: bool)
        ensures
            b == (self.redo_depth() > 0),
    {
        self.redo.len() > 0
    }

    /// Bytes the newest undo step held when the last recorded transaction
    /// pushed or grew it, before the history was trimmed to its budget.
    pub closed spec fn last_step_bytes(&self) -> nat {
        self.step_bytes@
    }

    /// Whether the last recorded transaction came within the merge interval
    /// of the undo step it could join. The times come from the clock, so this
    /// records what comparing them found.
    pub closed spec fn within_merge_interval(&self) -> bool {
        self.step_within@
    }

    /// The last committed delta, if any.
    pub closed spec fn last_change_view(&self) -> Option<Change> {
        self.last_change
    }

    /// Whether the next edit starts a new undo step whatever it is.
    pub closed spec fn group_broken(&self) -> bool {
        self.history_boundary
    }

    /// This state with the current undo group closed.
    pub closed spec fn with_group_broken(self) -> Self {
        EditorState { history_boundary: true, ..self }
    }

    /// The last committed delta, if any.
    pub fn last_change(&self) -> (c: Option<&Change>)
        ensures
            c is None <==> self.last_change_view() is None,
            c matches Some(x) ==> self.last_change_view() == Some(*x),
    {
        self.last_change.as_ref()
    }

    /// The next edit starts a new undo step.
    pub fn break_history_group(&mut self)
        requires
            old(self).wf(),
        ensures
            final(self).wf(),
            final(self).current() == old(self).current(),
            final(self).selection_view() == old(self).selection_view(),
            final(self).undo_depth() == old(self).undo_depth(),
            final(self).redo_depth() == old(self).redo_depth(),
            final(self).group_broken(),
            forall|k: EditKind| !#[trigger] final(self).may_merge(k),
            *final(self) == old(self).with_group_broken(),
    {
        self.history_boundary = true;
    }

    /// Forget every undo and redo step.
    pub fn clear_history(&mut self)
        requires
            old(self).wf(),
        ensures
            final(self).wf(),
            final(self).current() == old(self).current(),
            final(self).selection_view() == old(self).selection_view(),
            final(self).undo_depth() == 0,
            final(self).redo_depth() == 0,
            final(self).history_bytes_view() == 0,
    {
        self.undo.clear();
        self.redo.clear();
        self.history_bytes = 0;
        self.history_boundary = true;
    }
}

impl EditorState {
    /// The history stacks and their accounting are those of `other`.
    pub closed spec fn same_history(&self, other: &Self) -> bool {
        &&& self.undo == other.undo
        &&& self.redo == other.redo
        &&& self.history_bytes == other.history_bytes
        &&& self.history == other.history
    }

    /// Everything but the history stacks and their byte count stays.
    closed spec fn same_session(&self, other: &Self) -> bool {
        &&& self.document == other.document
        &&& self.selection == other.selection
        &&& self.composition == other.composition
        &&& self.typing_style == other.typing_style
        &&& self.anchors == other.anchors
        &&& self.last_change == other.last_change
        &&& self.generation == other.generation
        &&& self.history == other.history
        &&& self.history_boundary == other.history_boundary
        &&& self.step_bytes == other.step_bytes
        &&& self.step_within == other.step_within
    }

    /// Everything but the history stacks, their byte count and the newest
    /// step's recorded size stays.
    closed spec fn same_session_but_step(&self, other: &Self) -> bool {
        &&& self.document == other.document
        &&& self.selection == other.selection
        &&& self.composition == other.composition
        &&& self.typing_style == other.typing_style
        &&& self.anchors == other.anchors
        &&& self.last_change == other.last_change
        &&& self.generation == other.generation
        &&& self.history == other.history
        &&& self.history_boundary == other.history_boundary
    }

    /// Discard the oldest undo step.
    fn pop_oldest_undo(&mut self)
        requires
            old(self).core_wf(),
            old(self).undo@.len() > 0,
        ensures
            final(self).core_wf(),
            final(self).same_session(old(self)),
            final(self).redo@ == old(self).redo@,
            final(self).undo@ == old(self).undo@.subrange(1, old(self).undo@.len() as int),
    {
        let ghost before = self.undo@;
        let entry = self.undo.pop_front().unwrap();
        proof {
            lemma_bytes_sum_front(before);
            lemma_bytes_sum_nonneg(self.undo@);
            lemma_bytes_sum_nonneg(self.redo@);
            let u = self.undo@;
            assert forall|i: int| 0 <= i < u.len() - 1 implies (#[trigger] u[i]).last_state() == u[i + 1].first_state() by {
                assert(u[i] == before[i + 1]);
                assert(u[i + 1] == before[i + 2]);
            }
            assert forall|i: int| 0 <= i < u.len() implies (#[trigger] u[i]).ok() by {
                assert(u[i] == before[i + 1]);
            }
            if u.len() > 0 {
                assert(u.last() == before.last());
            }
        }
        self.history_bytes = self.history_bytes - entry.bytes;
    }

    /// Discard the `n` furthest redo steps.
    fn drop_furthest_redo(&mut self, n: usize)
        requires
            old(self).core_wf(),
            n <= old(self).redo@.len(),
        ensures
            final(self).core_wf(),
            final(self).same_session(old(self)),
            final(self).undo@ == old(self).undo@,
            final(self).redo@ == old(self).redo@.subrange(n as int, old(self).redo@.len() as int),
    {
        let ghost r0 = self.redo@;
        let mut removed = self.redo.split_off(n);
        std::mem::swap(&mut removed, &mut self.redo);
        let mut bytes: usize = 0;
        let mut i: usize = 0;
        proof {
            assert(removed@ == r0.subrange(0, n as int));
            lemma_bytes_sum_nonneg(self.undo@);
            lemma_bytes_sum_split(r0, n as int);
            lemma_bytes_sum_nonneg(self.redo@);
            assert(removed@.take(0) =~= Seq::<HistoryEntry>::empty());
        }
        while i < removed.len()
            invariant
                0 <= i <= removed@.len(),
                removed@ == r0.subrange(0, n as int),
                bytes == bytes_sum(removed@.take(i as int)),
                bytes_sum(removed@) <= usize::MAX,
            decreases removed@.len() - i,
        {
            proof {
                assert(removed@.take(i + 1).drop_last() =~= removed@.take(i as int));
                lemma_bytes_sum_split(removed@, i + 1);
                lemma_bytes_sum_nonneg(removed@.subrange(i + 1, removed@.len() as int));
                assert(removed@.take(i + 1) =~= removed@.subrange(0, i + 1));
            }
            bytes = bytes + removed[i].bytes;
            i += 1;
        }
        proof {
            assert(removed@.take(removed@.len() as int) =~= removed@);
            let r = self.redo@;
            assert forall|k: int| 0 <= k < r.len() - 1 implies (#[trigger] r[k]).first_state() == r[k + 1].last_state() by {
                assert(r[k] == r0[n + k]);
                assert(r[k + 1] == r0[n + k + 1]);
            }
            assert forall|k: int| 0 <= k < r.len() implies (#[trigger] r[k]).ok() by {
                assert(r[k] == r0[n + k]);
            }
            if r.len() > 0 {
                assert(r.last() == r0.last());
            }
        }
        self.history_bytes = self.history_bytes - bytes;
    }

    /// Discard the oldest undo steps, then the furthest redo steps, until the
    /// history fits its budget.
    fn trim_history(&mut self)
        requires
            old(self).core_wf(),
        ensures
            final(self).wf(),
            final(self).same_session(old(self)),
            final(self).undo@.len() <= old(self).undo@.len(),
            final(self).undo@ == old(self).undo@.subrange(
                old(self).undo@.len() - final(self).undo@.len(),
                old(self).undo@.len() as int,
            ),
            final(self).redo@.len() <= old(self).redo@.len(),
            final(self).redo@ == old(self).redo@.subrange(
                old(self).redo@.len() - final(self).redo@.len(),
                old(self).redo@.len() as int,
            ),
            old(self).history_bytes <= old(self).history.max_bytes ==> final(self).undo@ == old(self).undo@
                && final(self).redo@ == old(self).redo@,
            final(self).undo@.len() < old(self).undo@.len() ==> bytes_sum(
                old(self).undo@.subrange(old(self).undo@.len() - final(self).undo@.len() - 1, old(self).undo@.len() as int),
            ) + bytes_sum(old(self).redo@) > old(self).history.max_bytes,
            final(self).redo@.len() < old(self).redo@.len() ==> final(self).undo@.len() == 0 && bytes_sum(
                old(self).redo@.subrange(old(self).redo@.len() - final(self).redo@.len() - 1, old(self).redo@.len() as int),
            ) > old(self).history.max_bytes,
    {
        let ghost u0 = self.undo@;
        let ghost r0 = self.redo@;
        proof {
            assert(u0.subrange(0, u0.len() as int) =~= u0);
            assert(r0.subrange(0, r0.len() as int) =~= r0);
        }
        while self.history_bytes > self.history.max_bytes && self.undo.len() > 0
            invariant
                self.core_wf(),
                self.same_session(old(self)),
                self.redo@ == r0,
                r0 == old(self).redo@,
                u0 == old(self).undo@,
                self.undo@.len() <= u0.len(),
                self.undo@ == u0.subrange(u0.len() - self.undo@.len(), u0.len() as int),
                old(self).history_bytes <= old(self).history.max_bytes ==> self.undo@ == u0,
                old(self).history_bytes == bytes_sum(u0) + bytes_sum(r0),
                self.undo@.len() < u0.len() ==> bytes_sum(u0.subrange(u0.len() - self.undo@.len() - 1, u0.len() as int))
                    + bytes_sum(r0) > self.history.max_bytes,
            decreases self.undo@.len(),
        {
            let ghost before = self.undo@;
            proof {
                assert(before == u0.subrange(u0.len() - (self.undo@.len() + 1) + 1, u0.len() as int));
            }
            self.pop_oldest_undo();
            proof {
                assert(self.undo@ =~= u0.subrange(u0.len() - self.undo@.len(), u0.len() as int));
                assert(u0.subrange(u0.len() - self.undo@.len() - 1, u0.len() as int) == before);
            }
        }
        let mut discarded: usize = 0;
        let mut bytes = self.history_bytes;
        proof {
            lemma_bytes_sum_nonneg(self.undo@);
        }
        while discarded < self.redo.len() && bytes > self.history.max_bytes
            invariant
                self.core_wf(),
                self.redo@ == r0,
                0 <= discarded <= r0.len(),
                bytes == bytes_sum(self.undo@) + bytes_sum(r0.subrange(discarded as int, r0.len() as int)),
                bytes_sum(self.undo@) >= 0,
                self.history_bytes <= self.history.max_bytes ==> discarded == 0,
                discarded == 0 ==> bytes == self.history_bytes,
                self.undo@.len() == 0 || bytes <= self.history.max_bytes,
                discarded > 0 ==> self.undo@.len() == 0,
                discarded > 0 ==> bytes_sum(r0.subrange(discarded - 1, r0.len() as int)) > self.history.max_bytes,
                self.history == old(self).history,
                self.undo@.len() == 0 ==> bytes_sum(self.undo@) == 0,
            decreases r0.len() - discarded,
        {
            proof {
                let rest = r0.subrange(discarded as int, r0.len() as int);
                lemma_bytes_sum_front(rest);
                assert(rest.subrange(1, rest.len() as int) =~= r0.subrange(discarded + 1, r0.len() as int));
                lemma_bytes_sum_nonneg(r0.subrange(discarded + 1, r0.len() as int));
                assert(rest[0] == r0[discarded as int]);
            }
            bytes = bytes - self.redo[discarded].bytes;
            discarded += 1;
        }
        if discarded > 0 {
            self.drop_furthest_redo(discarded);
        }
        proof {
            lemma_bytes_sum_nonneg(self.redo@);
            lemma_bytes_sum_nonneg(self.undo@);
            if discarded == 0 {
                assert(r0.subrange(0, r0.len() as int) =~= r0);
            }
            if self.history_bytes > self.history.max_bytes {
                assert(discarded == r0.len());
                assert(r0.subrange(discarded as int, r0.len() as int).len() == 0);
            }
        }
    }

    /// Bytes held by the undo steps from the `k`-th oldest on.
    pub closed spec fn undo_bytes_from(&self, k: int) -> int {
        bytes_sum(self.undo@.subrange(k, self.undo@.len() as int))
    }

    /// Bytes held by the redo steps from the `k`-th furthest on.
    pub closed spec fn redo_bytes_from(&self, k: int) -> int {
        bytes_sum(self.redo@.subrange(k, self.redo@.len() as int))
    }

    /// The undo steps are those of `earlier` from its `k`-th oldest on.
    pub closed spec fn undo_kept_from(&self, earlier: &Self, k: int) -> bool {
        self.undo@ == earlier.undo@.subrange(k, earlier.undo@.len() as int)
    }

    /// The redo steps are those of `earlier` from its `k`-th furthest on.
    pub closed spec fn redo_kept_from(&self, earlier: &Self, k: int) -> bool {
        self.redo@ == earlier.redo@.subrange(k, earlier.redo@.len() as int)
    }

    /// Change the history budget, discarding what no longer fits: the oldest
    /// undo steps first, then the furthest redo steps, so what stays is one
    /// chain through the current state. A zero budget keeps no steps.
    pub fn set_history_options(&mut self, options: HistoryOptions)
        requires
            old(self).wf(),
        ensures
            final(self).wf(),
            final(self).current() == old(self).current(),
            final(self).document_view() == old(self).document_view(),
            final(self).selection_view() == old(self).selection_view(),
            final(self).max_bytes() == options.max_bytes,
            final(self).history_bytes_view() <= options.max_bytes,
            final(self).history_bytes_view() == final(self).undo_bytes_from(0) + final(self).redo_bytes_from(0),
            final(self).undo_depth() <= old(self).undo_depth(),
            final(self).redo_depth() <= old(self).redo_depth(),
            final(self).undo_kept_from(old(self), old(self).undo_depth() - final(self).undo_depth()),
            final(self).redo_kept_from(old(self), old(self).redo_depth() - final(self).redo_depth()),
            final(self).redo_depth() < old(self).redo_depth() ==> final(self).undo_depth() == 0,
            options.max_bytes > 0 && final(self).undo_depth() < old(self).undo_depth() ==> old(self).undo_bytes_from(
                old(self).undo_depth() - final(self).undo_depth() - 1,
            ) + old(self).redo_bytes_from(0) > options.max_bytes,
            options.max_bytes > 0 && final(self).redo_depth() < old(self).redo_depth() ==> old(self).redo_bytes_from(
                old(self).redo_depth() - final(self).redo_depth() - 1,
            ) > options.max_bytes,
            options.max_bytes > 0 && old(self).history_bytes_view() <= options.max_bytes ==> final(self).undo_depth() == old(self).undo_depth()
                && final(self).redo_depth() == old(self).redo_depth(),
            options.max_bytes == 0 ==> final(self).undo_depth() == 0 && final(self).redo_depth() == 0
                && final(self).history_bytes_view() == 0,
            final(self).redo_depth() > 0 ==> final(self).redo_target() == old(self).redo_target(),
            final(self).undo_targets() == old(self).undo_targets().subrange(
                old(self).undo_depth() - final(self).undo_depth(),
                old(self).undo_depth() as int,
            ),
            final(self).redo_targets() == old(self).redo_targets().subrange(
                old(self).redo_depth() - final(self).redo_depth(),
                old(self).redo_depth() as int,
            ),
            final(self).undo_counts() == old(self).undo_counts().subrange(
                old(self).undo_depth() - final(self).undo_depth(),
                old(self).undo_depth() as int,
            ),
            final(self).redo_counts() == old(self).redo_counts().subrange(
                old(self).redo_depth() - final(self).redo_depth(),
                old(self).redo_depth() as int,
            ),
    {
        self.history = options;
        self.trim_history();
        if options.max_bytes == 0 {
            // An empty budget keeps no steps.
            self.undo.clear();
            self.redo.clear();
            self.history_bytes = 0;
            shrink_deque(&mut self.undo);
            shrink_vec(&mut self.redo);
            proof {
                assert(bytes_sum(self.undo@) == 0 && bytes_sum(self.redo@) == 0);
                assert(old(self).undo@.subrange(old(self).undo@.len() as int, old(self).undo@.len() as int) =~= self.undo@);
                assert(old(self).redo@.subrange(old(self).redo@.len() as int, old(self).redo@.len() as int) =~= self.redo@);
            }
        }
        proof {
            assert(self.undo@.subrange(0, self.undo@.len() as int) =~= self.undo@);
            assert(self.redo@.subrange(0, self.redo@.len() as int) =~= self.redo@);
            assert(old(self).redo@.subrange(0, old(self).redo@.len() as int) =~= old(self).redo@);
            assert(self.undo_targets() =~= old(self).undo_targets().subrange(
                old(self).undo@.len() - self.undo@.len(),
                old(self).undo@.len() as int,
            ));
            assert(self.redo_targets() =~= old(self).redo_targets().subrange(
                old(self).redo@.len() - self.redo@.len(),
                old(self).redo@.len() as int,
            ));
            assert(self.undo_counts() =~= old(self).undo_counts().subrange(
                old(self).undo@.len() - self.undo@.len(),
                old(self).undo@.len() as int,
            ));
            assert(self.redo_counts() =~= old(self).redo_counts().subrange(
                old(self).redo@.len() - self.redo@.len(),
                old(self).redo@.len() as int,
            ));
        }
    }
}

/// A change prepared for `t0` and applied there leads to `t1`, and the
/// inverse computed against `t0` leads back.
proof fn lemma_record(t0: DocState, c: ChangeSet, inv: ChangeSet, t1: DocState)
    requires
        state_wf(t0),
        state_wf(t1),
        c.wf(),
        edits_fit(utf8(t0.0), c@),
        changes_end(c.styles_view()) <= out_len(utf8(t0.0), c@),
        utf8(t0.0).len() + total_inserted(c@) <= usize::MAX,
        utf8(t1.0) == apply_edits(utf8(t0.0), c@),
        forall|q: int| #[trigger] style_of(t1.1, q) == applied_style(t0.1, c@, c.styles_view(), q),
        inv.wf(),
        super::document::inverse_from(utf8(t0.0), c@, inv@, 0),
        edits_fit(apply_edits(utf8(t0.0), c@), inv@),
        changes_end(inv.styles_view()) <= out_len(apply_edits(utf8(t0.0), c@), inv@),
        forall|q: int| #[trigger] super::format::change_at(inv.styles_view(), q) == super::document::delta_of(
            super::document::undo_base(t0.1, c@, c.styles_view(), inv@, q),
            style_of(t0.1, q),
        ),
    ensures
        leads_to(c, t0, t1),
        leads_to(inv, t1, t0),
{
    let b = utf8(t0.0);
    vstd::utf8::encode_utf8_valid_utf8(t0.0);
    lemma_inverse_restores_text(b, c@, inv@);
    lemma_total_inverse(b, c@, inv@);
    lemma_apply_from_len(b, c@, 0);
    super::buffer::lemma_boundary_char(b, 0);
    if c@.len() > 0 {
        lemma_deleted_before_bound(b, c@, c@.len() as int);
        super::document::lemma_valid_range_bounds(b, c@[0]);
    } else {
        assert(deleted_before(c@, 0) == 0);
    }
    super::document::lemma_inserted_before_mono(c@, 0, c@.len() as int);
    lemma_inverse_styles(t0.1, c, inv, t1.1);
}

impl EditorState {
    /// Apply a prepared change to the document and move the anchors with it.
    fn apply_document_change(&mut self, changes: &ChangeSet, kind: EditKind)
        requires
            old(self).document.wf(),
            old(self).anchors.wf(),
            old(self).anchors.within(utf8(old(self).document@).len() as int),
            changes.wf(),
            edits_fit(utf8(old(self).document@), changes@),
            changes_end(changes.styles_view()) <= out_len(utf8(old(self).document@), changes@),
            utf8(old(self).document@).len() + total_inserted(changes@) <= usize::MAX,
            old(self).document.revision_spec() < u64::MAX,
        ensures
            final(self).document.wf(),
            utf8(final(self).document@) == apply_edits(utf8(old(self).document@), changes@),
            final(self).last_change matches Some(lc) && lc.before_revision == old(self).document.revision_spec()
                && lc.revision == final(self).document.revision_spec() && lc.kind == kind && same_edits(lc.changes@, changes@),
            forall|q: int| #[trigger] style_of(final(self).document.spans_view(), q) == applied_style(
                old(self).document.spans_view(),
                changes@,
                changes.styles_view(),
                q,
            ),
            final(self).document.revision_spec() == if changes@.len() == 0 && changes.styles_view().len() == 0 {
                old(self).document.revision_spec()
            } else {
                (old(self).document.revision_spec() + 1) as u64
            },
            final(self).document.id_spec() == old(self).document.id_spec(),
            final(self).anchors.wf(),
            final(self).anchors.within(utf8(final(self).document@).len() as int),
            final(self).anchors.next == old(self).anchors.next,
            final(self).anchors.positions@.len() == old(self).anchors.positions@.len(),
            forall|i: int|
                0 <= i < old(self).anchors.positions@.len() ==> (#[trigger] final(self).anchors.positions@[i]) == (
                    old(self).anchors.positions@[i].0,
                    Anchor {
                        byte: super::document::map_spec(
                            changes@,
                            old(self).anchors.positions@[i].1.byte as int,
                            old(self).anchors.positions@[i].1.bias,
                        ) as usize,
                        bias: old(self).anchors.positions@[i].1.bias,
                    },
                ),
            final(self).selection == old(self).selection,
            final(self).composition == old(self).composition,
            final(self).typing_style == old(self).typing_style,
            final(self).generation == old(self).generation,
            final(self).undo == old(self).undo,
            final(self).redo == old(self).redo,
            final(self).history_bytes == old(self).history_bytes,
            final(self).history == old(self).history,
            final(self).history_boundary == old(self).history_boundary,
    {
        let ghost b = utf8(self.document@);
        let ghost p0 = self.anchors.positions@;
        proof {
            vstd::utf8::encode_utf8_valid_utf8(self.document@);
            assert forall|i: int| 0 <= i < p0.len() implies (#[trigger] p0[i]).1.byte + total_inserted(changes@) <= usize::MAX by {
                assert(p0[i].1.byte <= b.len());
            }
        }
        self.anchors.map(changes);
        let before_revision = self.document.revision();
        self.document.apply(changes);
        let recorded = changes.duplicate();
        self.last_change = Some(Change { before_revision, revision: self.document.revision(), changes: recorded, kind });
        proof {
            lemma_apply_from_len(b, changes@, 0);
            super::buffer::lemma_boundary_char(b, 0);
            let p1 = self.anchors.positions@;
            assert forall|i: int, j: int| 0 <= i < j < p1.len() implies (#[trigger] p1[i]).0.0 < (#[trigger] p1[j]).0.0 by {
                assert(p1[i].0 == p0[i].0 && p1[j].0 == p0[j].0);
                assert(p0[i].0.0 < p0[j].0.0);
            }
            assert forall|i: int| 0 <= i < p1.len() implies (#[trigger] p1[i]).0.0 < self.anchors.next by {
                assert(p1[i].0 == p0[i].0);
                assert(p0[i].0.0 < self.anchors.next);
            }
            assert forall|i: int| 0 <= i < p1.len() implies (#[trigger] p1[i]).1.byte <= utf8(self.document@).len() by {
                assert(p0[i].1.byte <= b.len());
                super::document::lemma_map_within(b, changes@, p0[i].1.byte as int, p0[i].1.bias);
            }
        }
    }
}

impl EditorState {
    /// Replace the selections. Moving the selection clears pending input
    /// formatting and starts a new undo step.
    pub fn select(&mut self, selection: SelectionSet) -> (r: Result<bool, EditError>)
        requires
            old(self).wf(),
            selection.wf(),
        ensures
            final(self).wf(),
            old(self).composing() ==> r == Err::<bool, EditError>(EditError::CompositionActive),
            !old(self).composing() && !selections_valid(old(self).document_view()@, selection) ==> r == Err::<bool, EditError>(
                EditError::InvalidSelection,
            ),
            r is Err <==> (old(self).composing() || !selections_valid(old(self).document_view()@, selection)),
            r is Err ==> *final(self) == *old(self),
            r == Ok::<bool, EditError>(false) ==> *final(self) == *old(self),
            r is Ok ==> {
                &&& selections_valid(old(self).document_view()@, selection)
                &&& final(self).selection_view()@ == selection@
                &&& final(self).selection_view().primary_spec() == selection.primary_spec()
                &&& final(self).selection_view().structured_spec() == selection.structured_spec()
                &&& final(self).current() == old(self).current()
                &&& final(self).document_view() == old(self).document_view()
                &&& final(self).undo_depth() == old(self).undo_depth()
                &&& final(self).redo_depth() == old(self).redo_depth()
                &&& final(self).same_history(old(self))
            },
            r == Ok::<bool, EditError>(true) <==> (!old(self).composing() && selections_valid(old(self).document_view()@, selection)
                && !(selection@ == old(self).selection_view()@ && selection.primary_spec() == old(self).selection_view().primary_spec()
                && selection.structured_spec() == old(self).selection_view().structured_spec())),
            r == Ok::<bool, EditError>(true) ==> final(self).typing_view() is None,
            final(self).composing() == old(self).composing(),
    {
        if self.composition.is_some() {
            return Err(EditError::CompositionActive);
        }
        if !selection.valid(self.document.buffer()) {
            return Err(EditError::InvalidSelection);
        }
        if selection.same_as(&self.selection) {
            return Ok(false);
        }
        self.selection = selection;
        self.typing_style = None;
        self.history_boundary = true;
        self.generation = self.generation.wrapping_add(1);
        Ok(true)
    }

    /// Select the whole document.
    pub fn select_all(&mut self) -> (r: Result<bool, EditError>)
        requires
            old(self).wf(),
        ensures
            final(self).wf(),
            old(self).composing() <==> r is Err,
            r is Ok ==> final(self).selection_view()@ == seq![
                Selection { anchor: 0, head: utf8(old(self).document_view()@).len() as usize, affinity: Bias::After, preferred_x: None },
            ],
            final(self).current() == old(self).current(),
    {
        let len = self.document.len();
        let all = SelectionSet::single(Selection::range(0, len));
        proof {
            vstd::utf8::encode_utf8_valid_utf8(self.document@);
            super::buffer::lemma_boundary_char(utf8(self.document@), 0);
            super::buffer::lemma_boundary_char(utf8(self.document@), len as int);
            assert(all@[0] == Selection { anchor: 0, head: len, affinity: Bias::After, preferred_x: None });
            assert(sel_valid(utf8(self.document@), all@[0]));
            assert(selections_valid(self.document@, all));
        }
        self.select(all)
    }

    /// The text of every nonempty selection, in order, one per line.
    pub fn selected_text(&self) -> (out: String)
        requires
            self.wf(),
        ensures
            out@ == selected(self.document_view()@, self.selection_view()@),
    {
        let all = self.selection.iter();
        let mut out = String::new();
        let mut i: usize = 0;
        proof {
            assert(all@.take(0) =~= Seq::<Selection>::empty());
        }
        while i < all.len()
            invariant
                all@ == self.selection@,
                self.wf(),
                0 <= i <= all@.len(),
                out@ == selected(self.document@, all@.take(i as int)),
            decreases all@.len() - i,
        {
            let s = all[i];
            proof {
                assert(all@.take(i + 1).drop_last() =~= all@.take(i as int));
                assert(all@.take(i + 1).last() == s);
                assert(sel_valid(utf8(self.document@), all@[i as int]));
                vstd::utf8::encode_utf8_valid_utf8(self.document@);
                lemma_boundary_in_bounds(self.document@, s.anchor as int);
                lemma_boundary_in_bounds(self.document@, s.head as int);
            }
            if !s.is_caret() {
                let piece = super::buffer::cow_into_string(self.document.read(s.text_range()).unwrap());
                if !out_is_empty(&out) {
                    out.append("\n");
                }
                out.append(piece.as_str());
                proof {
                    vstd::utf8::encode_utf8_decode_utf8(piece@);
                    reveal_strlit("\n");
                }
            }
            i += 1;
        }
        proof {
            assert(all@.take(all@.len() as int) =~= all@);
        }
        out
    }
}

/// Text of the nonempty selections of `sels`, joined by line feeds.
pub open spec fn selected(text: Seq<char>, sels: Seq<Selection>) -> Seq<char>
    decreases sels.len(),
{
    if sels.len() == 0 {
        Seq::empty()
    } else {
        let prev = selected(text, sels.drop_last());
        let s = sels.last();
        if s.anchor == s.head {
            prev
        } else {
            let piece = vstd::utf8::decode_utf8(utf8(text).subrange(s.start(), s.end()));
            if prev.len() == 0 {
                piece
            } else {
                prev + seq!['\n'] + piece
            }
        }
    }
}

fn out_is_empty(s: &String) -> (b: bool)
    ensures
        b == (s@.len() == 0),
{
    s.as_str().unicode_len() == 0
}

/// `a + b`, or `usize::MAX` where the sum does not fit.
fn add_sat(a: usize, b: usize) -> (r: usize)
    ensures
        r == if a + b <= usize::MAX { a + b } else { usize::MAX as int },
{
    if a <= usize::MAX - b {
        a + b
    } else {
        usize::MAX
    }
}

/// `a - b`, or zero where `b` is larger.
fn sub_sat(a: usize, b: usize) -> (r: usize)
    ensures
        r == if a >= b { a - b } else { 0 },
{
    if a >= b {
        a - b
    } else {
        0
    }
}

impl EditorState {
    /// Whether a step of `kind` may join the newest undo entry: typing and
    /// deletion continue an open group whose resulting selection (its ranges,
    /// primary and whether it is structured) is where the new step starts.
    pub closed spec fn may_merge(&self, kind: EditKind) -> bool {
        self.may_merge_with(self.selection, kind)
    }

    closed spec fn may_merge_with(&self, before: SelectionSet, kind: EditKind) -> bool {
        &&& !self.history_boundary
        &&& (kind == EditKind::Typing || kind == EditKind::Delete)
        &&& self.undo@.len() > 0
        &&& self.undo@.last().kind == kind
        &&& self.undo@.last().after@ == before@
        &&& self.undo@.last().after.primary_spec() == before.primary_spec()
        &&& self.undo@.last().after.structured_spec() == before.structured_spec()
    }

    /// Record an applied step in the history: join the newest entry when
    /// `may_merge` and the interval allow, else push a new entry; drop the redo
    /// steps and trim to the budget.
    #[verifier::rlimit(60)]
    fn record_history(&mut self, record: Record, before: SelectionSet, kind: EditKind, now: Instant, t0: Ghost<DocState>)
        requires
            old(self).document.wf(),
            selections_valid(old(self).document@, old(self).selection),
            old(self).anchors.wf(),
            old(self).anchors.within(utf8(old(self).document@).len() as int),
            (old(self).composition matches Some(c) ==> valid_range(
                utf8(old(self).document@),
                c.range.start as int,
                c.range.end as int,
            )),
            old(self).history_bytes == bytes_sum(old(self).undo@) + bytes_sum(old(self).redo@),
            forall|i: int| 0 <= i < old(self).undo@.len() ==> (#[trigger] old(self).undo@[i]).ok(),
            forall|i: int| 0 <= i < old(self).redo@.len() ==> (#[trigger] old(self).redo@[i]).ok(),
            old(self).undo@.len() > 0 ==> old(self).undo@.last().last_state() == t0@,
            forall|i: int|
                0 <= i < old(self).undo@.len() - 1 ==> (#[trigger] old(self).undo@[i]).last_state() == old(self).undo@[i
                    + 1].first_state(),
            forall|i: int|
                0 <= i < old(self).redo@.len() - 1 ==> (#[trigger] old(self).redo@[i]).first_state() == old(self).redo@[i
                    + 1].last_state(),
            state_wf(t0@),
            leads_to(record.forward, t0@, old(self).current()),
            leads_to(record.inverse, old(self).current(), t0@),
            selections_valid(t0@.0, before),
        ensures
            final(self).wf(),
            final(self).same_session_but_step(old(self)),
            final(self).redo@.len() == 0,
            final(self).undo@.len() > 0 ==> (final(self).undo_target() == t0@ && final(self).undo_selection() == before) || (
            old(self).may_merge_with(before, kind) && final(self).undo_target() == old(self).undo_target()
                && final(self).undo_selection() == old(self).undo_selection()),
            final(self).undo@.len() > 0 && !old(self).may_merge_with(before, kind) ==> final(self).undo_target() == t0@
                && final(self).undo_selection() == before,
            final(self).step_bytes@ <= final(self).history.max_bytes ==> final(self).undo@.len() > 0,
            old(self).may_merge_with(before, kind) && final(self).step_within@ ==> final(self).undo@.len() <= old(self).undo@.len()
                && (final(self).undo@.len() > 0 ==> final(self).undo_target() == old(self).undo_target()
                && final(self).undo_selection() == old(self).undo_selection() && final(self).undo@.last().records@.len()
                == old(self).undo@.last().records@.len() + 1),
            final(self).undo@.len() > 0 ==> (final(self).undo@.len() <= old(self).undo@.len() + 1 && final(self).undo@.last().records@.len() == 1 && final(self).undo@.drop_last()
                == old(self).undo@.subrange(
                old(self).undo@.len() - (final(self).undo@.len() - 1),
                old(self).undo@.len() as int,
            )) || (old(self).may_merge_with(before, kind) && old(self).undo@.len() > 0 && final(self).undo@.len() <= old(self).undo@.len()
                && final(self).undo@.last().records@.len() == old(self).undo@.last().records@.len() + 1
                && final(self).undo@.drop_last() == old(self).undo@.drop_last().subrange(
                old(self).undo@.len() - 1 - (final(self).undo@.len() - 1),
                old(self).undo@.len() - 1,
            )),
            final(self).undo@.len() > 0 && !old(self).may_merge_with(before, kind) ==> final(self).undo@.len() <= old(self).undo@.len() + 1 && final(self).undo@.last().records@.len()
                == 1 && final(self).undo@.drop_last() == old(self).undo@.subrange(
                old(self).undo@.len() - (final(self).undo@.len() - 1),
                old(self).undo@.len() as int,
            ),
    {
        let bytes = add_sat(add_sat(record.forward.retained_bytes(), record.inverse.retained_bytes()), std::mem::size_of::<Record>());
        let mut redo_bytes: usize = 0;
        let mut i: usize = 0;
        proof {
            lemma_bytes_sum_nonneg(self.undo@);
            lemma_bytes_sum_nonneg(self.redo@);
            assert(self.redo@.take(0) =~= Seq::<HistoryEntry>::empty());
        }
        while i < self.redo.len()
            invariant
                0 <= i <= self.redo@.len(),
                redo_bytes == bytes_sum(self.redo@.take(i as int)),
                bytes_sum(self.redo@) <= usize::MAX,
            decreases self.redo@.len() - i,
        {
            proof {
                assert(self.redo@.take(i + 1).drop_last() =~= self.redo@.take(i as int));
                lemma_bytes_sum_split(self.redo@, i + 1);
                lemma_bytes_sum_nonneg(self.redo@.subrange(i + 1, self.redo@.len() as int));
                assert(self.redo@.take(i + 1) =~= self.redo@.subrange(0, i + 1));
            }
            redo_bytes = redo_bytes + self.redo[i].bytes;
            i += 1;
        }
        proof {
            assert(self.redo@.take(self.redo@.len() as int) =~= self.redo@);
        }
        self.history_bytes = self.history_bytes - redo_bytes;
        self.redo.clear();
        let ghost t1 = self.current();
        let n = self.undo.len();
        let within = if n > 0 {
            duration_at_most(&time_since(&now, &self.undo[n - 1].time), &self.history.merge_interval)
        } else {
            false
        };
        proof {
            self.step_within = Ghost(within);
        }
        let merge = if !self.history_boundary && (kind == EditKind::Typing || kind == EditKind::Delete) && n > 0 {
            let newest = &self.undo[n - 1];
            newest.kind == kind && newest.after.same_as(&before) && within
        } else {
            false
        };
        let ghost u_in = self.undo@;
        proof {
            assert(u_in == old(self).undo@);
        }
        if merge {
            let ghost u0 = self.undo@;
            let mut entry = self.undo.pop_back().unwrap();
            proof {
                assert(self.undo@ =~= u0.drop_last());
                assert(bytes_sum(u0) == bytes_sum(self.undo@) + entry.bytes);
                lemma_bytes_sum_nonneg(self.undo@);
            }
            let old_entry_bytes = entry.bytes;
            let old_capacity = super::buffer::vec_capacity(&entry.records);
            let old_selection_bytes = entry.after.retained_bytes();
            let ghost st0 = entry.states@;
            let ghost recs0 = entry.records@;
            entry.records.push(record);
            entry.after = self.selection.duplicate();
            entry.time = now;
            let grown = super::buffer::saturating_product(
                sub_sat(super::buffer::vec_capacity(&entry.records), old_capacity),
                std::mem::size_of::<Record>(),
            );
            let step = add_sat(sub_sat(bytes, std::mem::size_of::<Record>()), grown);
            let wanted = add_sat(add_sat(sub_sat(entry.bytes, old_selection_bytes), entry.after.retained_bytes()), step);
            let rest = self.history_bytes - old_entry_bytes;
            let room = usize::MAX - rest;
            entry.bytes = if wanted <= room { wanted } else { room };
            self.history_bytes = rest + entry.bytes;
            let ghost grown_states = st0.push(t1);
            entry.states = Ghost(grown_states);
            proof {
                let st = entry.states@;
                assert(st.len() == entry.records@.len() + 1);
                assert forall|k: int| 0 <= k < st.len() implies state_wf(#[trigger] st[k]) by {
                    if k < st0.len() {
                        assert(st[k] == st0[k]);
                    } else {
                        assert(st[k] == t1);
                    }
                }
                assert forall|k: int|
                    0 <= k < entry.records@.len() implies leads_to((#[trigger] entry.records@[k]).forward, st[k], st[k + 1])
                        && leads_to(entry.records@[k].inverse, st[k + 1], st[k]) by {
                    if k < recs0.len() {
                        assert(entry.records@[k] == recs0[k]);
                        assert(st[k] == st0[k] && st[k + 1] == st0[k + 1]);
                    } else {
                        assert(st[k] == st0.last());
                    }
                }
                assert(st[0] == st0[0]);
                assert(st.last() == t1);
            }
            self.undo.push_back(entry);
            proof {
                let u = self.undo@;
                assert(u =~= u0.drop_last().push(entry));
                lemma_bytes_sum_push(u0.drop_last(), entry);
                assert forall|k: int| 0 <= k < u.len() implies (#[trigger] u[k]).ok() by {
                    if k < u.len() - 1 {
                        assert(u[k] == u0[k]);
                    }
                }
                assert forall|k: int| 0 <= k < u.len() - 1 implies (#[trigger] u[k]).last_state() == u[k + 1].first_state() by {
                    assert(u[k] == u0[k]);
                    if k + 1 < u.len() - 1 {
                        assert(u[k + 1] == u0[k + 1]);
                    } else {
                        assert(u[k + 1].first_state() == u0[k + 1].first_state());
                    }
                }
            }
        } else {
            let mut typing: usize = 0;
            if self.typing_style.is_some() {
                typing = super::buffer::saturating_product(std::mem::size_of::<StyleId>(), 2);
            }
            let wanted = add_sat(
                add_sat(add_sat(add_sat(bytes, std::mem::size_of::<HistoryEntry>()), before.retained_bytes()), self.selection.retained_bytes()),
                typing,
            );
            let room = usize::MAX - self.history_bytes;
            let entry_bytes = if wanted <= room { wanted } else { room };
            let ghost u0 = self.undo@;
            let mut records: Vec<Record> = Vec::new();
            records.push(record);
            let ghost states = seq![t0@, t1];
            let entry = HistoryEntry {
                records,
                before,
                after: self.selection.duplicate(),
                before_typing: self.typing_style,
                after_typing: self.typing_style,
                kind,
                time: now,
                bytes: entry_bytes,
                states: Ghost(states),
            };
            proof {
                let st = entry.states@;
                assert forall|k: int| 0 <= k < st.len() implies state_wf(#[trigger] st[k]) by {}
                assert(entry.records@[0] == record);
                assert(entry.ok());
            }
            self.undo.push_back(entry);
            self.history_bytes = self.history_bytes + entry_bytes;
            proof {
                let u = self.undo@;
                lemma_bytes_sum_push(u0, entry);
                assert forall|k: int| 0 <= k < u.len() implies (#[trigger] u[k]).ok() by {
                    if k < u.len() - 1 {
                        assert(u[k] == u0[k]);
                    }
                }
                assert forall|k: int| 0 <= k < u.len() - 1 implies (#[trigger] u[k]).last_state() == u[k + 1].first_state() by {
                    assert(u[k] == u0[k]);
                    if k + 1 < u.len() - 1 {
                        assert(u[k + 1] == u0[k + 1]);
                    }
                }
            }
        }
        let ghost pre = self.undo@;
        proof {
            self.step_bytes = Ghost(pre.last().bytes as nat);
        }
        self.trim_history();
        proof {
            if self.undo@.len() > 0 {
                let f = self.undo@.len() as int;
                assert(self.undo@.drop_last() =~= pre.drop_last().subrange(pre.len() - f, pre.len() - 1));
                assert(self.undo@.last() == pre.last());
            } else {
                assert(pre.subrange(pre.len() - 1, pre.len() as int).drop_last() =~= Seq::<HistoryEntry>::empty());
                assert(bytes_sum(pre.subrange(pre.len() - 1, pre.len() as int)) == pre.last().bytes);
            }
        }
    }
}

/// `after`'s newest undo step is a new one of a single delta, the steps
/// before it being the newest of `before`'s.
pub open spec fn new_step(before: EditorState, after: EditorState) -> bool {
    &&& after.undo_steps() == 1
    &&& after.undo_counts().drop_last() == before.undo_counts().subrange(
        before.undo_depth() - (after.undo_depth() - 1),
        before.undo_depth() as int,
    )
}

/// `after`'s newest undo step is `before`'s newest grown by one delta, the
/// steps before it being the newest of those before it in `before`.
pub open spec fn grown_step(before: EditorState, after: EditorState) -> bool {
    &&& before.undo_depth() > 0
    &&& after.undo_steps() == before.undo_steps() + 1
    &&& after.undo_counts().drop_last() == before.undo_counts().drop_last().subrange(
        before.undo_depth() - 1 - (after.undo_depth() - 1),
        before.undo_depth() - 1,
    )
}

/// The step counts of a recorded step, read from the history's entries.
proof fn lemma_step_counts(before: EditorState, after: EditorState)
    requires
        after.undo@.len() > 0,
        (after.undo@.len() <= before.undo@.len() + 1 && after.undo@.last().records@.len() == 1 && after.undo@.drop_last() == before.undo@.subrange(
            before.undo@.len() - (after.undo@.len() - 1),
            before.undo@.len() as int,
        )) || (before.undo@.len() > 0 && after.undo@.len() <= before.undo@.len() && after.undo@.last().records@.len() == before.undo@.last().records@.len() + 1
            && after.undo@.drop_last() == before.undo@.drop_last().subrange(
            before.undo@.len() - 1 - (after.undo@.len() - 1),
            before.undo@.len() - 1,
        )),
    ensures
        (after.undo@.len() <= before.undo@.len() + 1 && after.undo@.last().records@.len() == 1 && after.undo@.drop_last() == before.undo@.subrange(
            before.undo@.len() - (after.undo@.len() - 1),
            before.undo@.len() as int,
        )) ==> new_step(before, after),
        (before.undo@.len() > 0 && after.undo@.len() <= before.undo@.len() && after.undo@.last().records@.len() == before.undo@.last().records@.len() + 1
            && after.undo@.drop_last() == before.undo@.drop_last().subrange(
            before.undo@.len() - 1 - (after.undo@.len() - 1),
            before.undo@.len() - 1,
        )) ==> grown_step(before, after),
{
    let u = after.undo@;
    let b = before.undo@;
    lemma_counts_of(u, 0, u.len() as int);
    if u.len() <= b.len() + 1 {
        lemma_counts_of(b, b.len() - (u.len() - 1), b.len() as int);
    }
    if b.len() > 0 {
        lemma_counts_of(b, 0, b.len() as int);
        if u.len() - 1 <= b.len() - 1 {
            lemma_counts_of(b.drop_last(), b.len() - 1 - (u.len() - 1), b.len() - 1);
        }
    }
}

/// The selections are valid once `c` applies to `text`.
pub open spec fn fits_after(text: Seq<char>, c: Seq<Edit>, sel: SelectionSet) -> bool {
    forall|i: int| 0 <= i < sel@.len() ==> sel_valid(apply_edits(utf8(text), c), #[trigger] sel@[i])
}

/// Every selection of `s` is valid in `bytes`.
pub open spec fn all_valid(bytes: Seq<u8>, s: Seq<Selection>) -> bool {
    forall|i: int| 0 <= i < s.len() ==> sel_valid(bytes, #[trigger] s[i])
}

/// The selections a transaction without its own selection leaves: the old
/// ones, mapped through the changes when there are any.
pub open spec fn kept_after(sels: Seq<Selection>, primary: int, c: Seq<Edit>) -> Seq<Selection> {
    if c.len() == 0 {
        sels
    } else {
        remapped(sels, primary, c)
    }
}

/// A transaction is refused against the document `doc` at revision
/// `current` with selections `sels`: its edits are rejected, or the
/// selections it leaves (its own, or the old ones carried through) do not
/// fit the changed text.
pub open spec fn rejects(
    doc: Seq<char>,
    current: u64,
    sels: Seq<Selection>,
    primary: int,
    revision: u64,
    edits: Seq<Edit>,
    selection: Option<Seq<Selection>>,
) -> bool {
    let b = utf8(doc);
    let c = changed_edits(b, sort_by_range(edits));
    ||| super::document::prepare_error(b, revision, current, sort_by_range(edits)) is Some
    ||| match selection {
        Some(s) => !all_valid(apply_edits(b, c), s),
        None => !all_valid(apply_edits(b, c), kept_after(sels, primary, c)),
    }
}

/// The view of an optional selection set.
pub open spec fn view_of(s: Option<SelectionSet>) -> Option<Seq<Selection>> {
    match s {
        Some(x) => Some(x@),
        None => None,
    }
}

/// Bytes removed by the selections before the `i`-th.
pub open spec fn removed_before(sels: Seq<Selection>, i: int) -> int
    decreases i,
{
    if i <= 0 {
        0
    } else {
        removed_before(sels, i - 1) + sels[i - 1].end() - sels[i - 1].start()
    }
}

/// The caret that typing `tlen` bytes over every selection leaves after the
/// `i`-th insertion, in the changed text.
pub open spec fn typed_caret(sels: Seq<Selection>, i: int, tlen: int) -> Selection {
    let p = (sels[i].start() - removed_before(sels, i) + i * tlen + tlen) as usize;
    Selection { anchor: p, head: p, affinity: Bias::After, preferred_x: None }
}

/// The selections left by typing `tlen` bytes over every selection: one
/// caret after each insertion, normalized around the primary.
pub open spec fn typed_selection(sels: Seq<Selection>, primary: int, tlen: int) -> Seq<Selection> {
    untagged(normalized(Seq::new(sels.len(), |i: int| typed_caret(sels, i, tlen)), primary))
}

/// `e` replaces each selection of `sels`, in order, by `text`, with any
/// formatting it asks for fitting the inserted text.
pub open spec fn replaces_each(sels: Seq<Selection>, text: Seq<char>, e: Seq<Edit>) -> bool {
    &&& e.len() == sels.len()
    &&& forall|i: int| 0 <= i < e.len() ==> (#[trigger] e[i]).range.start == sels[i].start() && e[i].range.end
        == sels[i].end() && e[i].insert@ == text && super::document::rich_fits(e[i])
}

/// `a` and `b` hold the same edits, range by range and text by text.
pub open spec fn same_edits(a: Seq<Edit>, b: Seq<Edit>) -> bool {
    &&& a.len() == b.len()
    &&& forall|i: int| 0 <= i < a.len() ==> (#[trigger] a[i]).range == b[i].range && a[i].insert@ == b[i].insert@
}

impl EditorState {
    /// Check selections against the document as `changes` would leave it,
    /// without applying anything.
    fn selection_fits(&self, changes: &ChangeSet, selection: &SelectionSet) -> (b: bool)
        requires
            self.document.wf(),
            changes.wf(),
            edits_fit(utf8(self.document@), changes@),
            utf8(self.document@).len() + total_inserted(changes@) <= usize::MAX,
        ensures
            b == fits_after(self.document@, changes@, *selection),
    {
        let all = selection.iter();
        let text = self.document.buffer();
        let mut i: usize = 0;
        while i < all.len()
            invariant
                all@ == selection@,
                text@ == self.document@,
                changes.wf(),
                edits_fit(utf8(self.document@), changes@),
                utf8(self.document@).len() + total_inserted(changes@) <= usize::MAX,
                0 <= i <= all@.len(),
                forall|k: int| 0 <= k < i ==> sel_valid(apply_edits(utf8(self.document@), changes@), #[trigger] all@[k]),
            decreases all@.len() - i,
        {
            let s = all[i];
            let finite = match s.preferred_x {
                Some(x) => super::selection::finite_bits_exec(x),
                None => true,
            };
            if !boundary_after(text, changes, s.anchor) || !boundary_after(text, changes, s.head) || !finite {
                proof {
                    assert(!sel_valid(apply_edits(utf8(self.document@), changes@), all@[i as int]));
                }
                return false;
            }
            i += 1;
        }
        true
    }

    /// Apply a transaction stamped `now`. Edits are validated against the
    /// revision and the text, the resulting selection against the changed
    /// text, all before anything mutates; a refused transaction changes
    /// nothing. An applied one is recorded as one undo step, or joins the
    /// newest step when typing or deletion continues within the merge interval.
    #[verifier::rlimit(60)]
    pub fn transact_at(&mut self, transaction: Transaction, now: Instant) -> (r: Result<Option<Change>, EditError>)
        requires
            old(self).wf(),
            utf8(old(self).document_view()@).len() + total_inserted(transaction.edits@) <= usize::MAX,
            old(self).document_view().revision_spec() < u64::MAX,
            transaction.selection matches Some(s) ==> s.wf(),
        ensures
            final(self).wf(),
            old(self).composing() ==> r == Err::<Option<Change>, EditError>(EditError::CompositionActive),
            !old(self).composing() ==> match super::document::prepare_error(
                utf8(old(self).document_view()@),
                transaction.revision,
                old(self).document_view().revision_spec(),
                sort_by_range(transaction.edits@),
            ) {
                Some(e) => r == Err::<Option<Change>, EditError>(e),
                None => r is Err ==> r == Err::<Option<Change>, EditError>(EditError::InvalidSelection),
            },
            (!old(self).composing() && super::document::prepare_error(
                utf8(old(self).document_view()@),
                transaction.revision,
                old(self).document_view().revision_spec(),
                sort_by_range(transaction.edits@),
            ) is None && transaction.selection is Some) ==> (r is Err <==> !fits_after(
                old(self).document_view()@,
                changed_edits(utf8(old(self).document_view()@), sort_by_range(transaction.edits@)),
                transaction.selection->0,
            )),
            r is Err <==> (old(self).composing() || rejects(
                old(self).document_view()@,
                old(self).document_view().revision_spec(),
                old(self).selection_view()@,
                old(self).selection_view().primary_spec(),
                transaction.revision,
                transaction.edits@,
                view_of(transaction.selection),
            )),
            r is Err ==> *final(self) == *old(self),
            r is Ok ==> {
                let c = changed_edits(utf8(old(self).document_view()@), sort_by_range(transaction.edits@));
                &&& utf8(final(self).document_view()@) == apply_edits(utf8(old(self).document_view()@), c)
                &&& forall|q: int| #[trigger] style_of(final(self).document_view().spans_view(), q) == super::document::target_style(
                    utf8(old(self).document_view()@),
                    old(self).document_view().spans_view(),
                    sort_by_range(transaction.edits@),
                    q,
                )
                &&& transaction.selection matches Some(s) ==> final(self).selection_view()@ == s@
            },
            r matches Ok(Some(ch)) ==> {
                &&& ch.before_revision == old(self).document_view().revision_spec()
                &&& ch.revision == final(self).document_view().revision_spec()
                &&& ch.revision == old(self).document_view().revision_spec() + 1
                &&& ch.kind == transaction.kind
                &&& same_edits(ch.changes@, changed_edits(utf8(old(self).document_view()@), sort_by_range(transaction.edits@)))
                &&& final(self).last_change_view() matches Some(lc) && lc.before_revision == ch.before_revision
                    && lc.revision == ch.revision && lc.kind == ch.kind && same_edits(lc.changes@, ch.changes@)
                &&& final(self).redo_depth() == 0
                &&& old(self).max_bytes() == 0 ==> final(self).undo_depth() == 0
                &&& old(self).max_bytes() > 0 && final(self).last_step_bytes() <= old(self).max_bytes()
                    ==> final(self).undo_depth() > 0
                &&& final(self).undo_depth() > 0 ==> new_step(*old(self), *final(self)) || (old(self).may_merge(
                    transaction.kind,
                ) && grown_step(*old(self), *final(self)))
                &&& final(self).undo_depth() > 0 && !old(self).may_merge(transaction.kind) ==> new_step(
                    *old(self),
                    *final(self),
                )
                &&& old(self).may_merge(transaction.kind) && final(self).within_merge_interval() ==> final(self).undo_depth()
                    <= old(self).undo_depth() && (final(self).undo_depth() > 0 ==> final(self).undo_target()
                    == old(self).undo_target() && final(self).undo_steps() == old(self).undo_steps() + 1)
                &&& final(self).undo_depth() > 0 ==> (final(self).undo_target() == old(self).current()
                    && final(self).undo_selection() == old(self).selection_view()) || (old(self).may_merge(transaction.kind)
                    && final(self).undo_target() == old(self).undo_target() && final(self).undo_selection()
                    == old(self).undo_selection())
                &&& final(self).undo_depth() > 0 && !old(self).may_merge(transaction.kind) ==> final(self).undo_target()
                    == old(self).current() && final(self).undo_selection() == old(self).selection_view()
            },
            r matches Ok(None) ==> final(self).current() == old(self).current() && final(self).undo_depth() == old(self).undo_depth()
                && final(self).redo_depth() == old(self).redo_depth(),
            r matches Ok(None) ==> final(self).document_view() == old(self).document_view() && final(self).same_history(old(self)),
            r is Ok && changed_edits(utf8(old(self).document_view()@), sort_by_range(transaction.edits@)).len() > 0 ==> r matches Ok(Some(_)),
            r is Ok ==> !final(self).composing(),
    {
        if self.composition.is_some() {
            return Err(EditError::CompositionActive);
        }
        let ghost edits0 = transaction.edits@;
        let changes = match self.document.prepare(transaction.revision, transaction.edits) {
            Ok(c) => c,
            Err(e) => return Err(e),
        };
        let ghost b = utf8(self.document@);
        proof {
            lemma_total_sorted(edits0);
            super::document::lemma_checked_edits(b, sort_by_range(edits0));
            lemma_changed_edits(b, sort_by_range(edits0));
            vstd::utf8::encode_utf8_valid_utf8(self.document@);
            assert forall|i: int| 0 <= i < self.selection@.len() implies (#[trigger] self.selection@[i]).anchor + total_inserted(changes@)
                <= usize::MAX && self.selection@[i].head + total_inserted(changes@) <= usize::MAX by {
                assert(sel_valid(b, self.selection@[i]));
                lemma_boundary_in_bounds(self.document@, self.selection@[i].anchor as int);
                lemma_boundary_in_bounds(self.document@, self.selection@[i].head as int);
            }
        }
        let selection = match transaction.selection {
            Some(s) => s,
            None => if changes.edits().len() == 0 {
                self.selection.duplicate()
            } else {
                self.selection.map(&changes)
            },
        };
        if !self.selection_fits(&changes, &selection) {
            return Err(EditError::InvalidSelection);
        }
        if changes.is_empty() {
            proof {
                assert(apply_edits(b, changes@) =~= b);
                assert(selections_valid(self.document@, selection));
            }
            return match self.select(selection) {
                Ok(_) => {
                    proof {
                        assert forall|q: int| #[trigger] style_of(self.document.spans_view(), q) == super::document::target_style(
                            b,
                            self.document.spans_view(),
                            sort_by_range(edits0),
                            q,
                        ) by {
                            assert(super::format::change_at(changes.styles_view(), q) is None);
                        }
                    }
                    Ok(None)
                },
                Err(e) => Err(e),
            };
        }
        let ghost t0 = self.current();
        let before_revision = self.document.revision();
        let result = changes.duplicate();
        if self.history.max_bytes == 0 {
            self.apply_document_change(&changes, transaction.kind);
            self.selection = selection;
            self.generation = self.generation.wrapping_add(1);
            // A zero budget keeps no steps.
            self.undo.clear();
            self.redo.clear();
            self.history_bytes = 0;
            proof {
                assert(selections_valid(self.document@, self.selection));
                assert(bytes_sum(self.undo@) == 0 && bytes_sum(self.redo@) == 0);
            }
            return Ok(Some(Change { before_revision, revision: self.document.revision(), changes: result, kind: transaction.kind }));
        }
        let inverse = self.document.inverse(&changes);
        self.apply_document_change(&changes, transaction.kind);
        let mut before = selection;
        std::mem::swap(&mut before, &mut self.selection);
        self.generation = self.generation.wrapping_add(1);
        proof {
            lemma_record(t0, changes, inverse, self.current());
            assert(selections_valid(self.document@, self.selection));
        }
        let record = Record { forward: changes, inverse };
        let ghost u_before = self.undo@;
        self.record_history(record, before, transaction.kind, now, Ghost(t0));
        self.history_boundary = false;
        proof {
            assert(u_before == old(self).undo@);
            if self.undo@.len() > 0 {
                lemma_step_counts(*old(self), *self);
            }
        }
        Ok(Some(Change { before_revision, revision: self.document.revision(), changes: result, kind: transaction.kind }))
    }

    /// Apply a transaction stamped with the current time.
    pub fn transact(&mut self, transaction: Transaction) -> (r: Result<Option<Change>, EditError>)
        requires
            old(self).wf(),
            utf8(old(self).document_view()@).len() + total_inserted(transaction.edits@) <= usize::MAX,
            old(self).document_view().revision_spec() < u64::MAX,
            transaction.selection matches Some(s) ==> s.wf(),
        ensures
            r matches Ok(Some(_)) && old(self).may_merge(transaction.kind) && final(self).within_merge_interval()
                ==> final(self).undo_depth() <= old(self).undo_depth() && (final(self).undo_depth() > 0 ==> final(self).undo_target()
                == old(self).undo_target() && final(self).undo_steps() == old(self).undo_steps() + 1),
            r matches Ok(Some(_)) && final(self).undo_depth() > 0 ==> new_step(*old(self), *final(self)) || (old(
                self,
            ).may_merge(transaction.kind) && grown_step(*old(self), *final(self))),
            r matches Ok(Some(_)) && final(self).undo_depth() > 0 && !old(self).may_merge(transaction.kind) ==> new_step(
                *old(self),
                *final(self),
            ),
            r matches Ok(Some(_)) && old(self).max_bytes() > 0 && final(self).last_step_bytes() <= old(self).max_bytes()
                ==> final(self).undo_depth() > 0,
            final(self).wf(),
            old(self).composing() ==> r == Err::<Option<Change>, EditError>(EditError::CompositionActive),
            r is Err <==> (old(self).composing() || rejects(
                old(self).document_view()@,
                old(self).document_view().revision_spec(),
                old(self).selection_view()@,
                old(self).selection_view().primary_spec(),
                transaction.revision,
                transaction.edits@,
                view_of(transaction.selection),
            )),
            r is Err ==> *final(self) == *old(self),
            r is Ok ==> utf8(final(self).document_view()@) == apply_edits(
                utf8(old(self).document_view()@),
                changed_edits(utf8(old(self).document_view()@), sort_by_range(transaction.edits@)),
            ),
            r matches Ok(Some(ch)) ==> ch.kind == transaction.kind && final(self).redo_depth() == 0,
            r matches Ok(Some(ch)) ==> ch.before_revision == old(self).document_view().revision_spec() && ch.revision
                == final(self).document_view().revision_spec() && ch.revision == old(self).document_view().revision_spec() + 1,
            r matches Ok(None) ==> final(self).document_view() == old(self).document_view(),
            r is Ok && changed_edits(utf8(old(self).document_view()@), sort_by_range(transaction.edits@)).len() > 0 ==> r matches Ok(Some(_)),
            r is Ok ==> (transaction.selection matches Some(s) ==> final(self).selection_view()@ == s@),
            r matches Ok(Some(ch)) ==> final(self).last_change_view() matches Some(lc) && lc.before_revision
                == ch.before_revision && lc.revision == ch.revision && lc.kind == ch.kind && same_edits(
                lc.changes@,
                ch.changes@,
            ),
            r matches Ok(Some(_)) && final(self).undo_depth() > 0 && !old(self).may_merge(transaction.kind) ==> final(self).undo_target()
                == old(self).current() && final(self).undo_selection() == old(self).selection_view(),
            r is Ok ==> !final(self).composing() && super::document::prepare_error(
                utf8(old(self).document_view()@),
                transaction.revision,
                old(self).document_view().revision_spec(),
                sort_by_range(transaction.edits@),
            ) is None,
    {
        self.transact_at(transaction, current_time())
    }
}

impl EditorState {
    /// Drop the preedit, if any.
    pub fn cancel_composition(&mut self) -> (b: bool)
        requires
            old(self).wf(),
        ensures
            final(self).wf(),
            b == old(self).composing(),
            !final(self).composing(),
            final(self).current() == old(self).current(),
            final(self).document_view() == old(self).document_view(),
            final(self).selection_view() == old(self).selection_view(),
            final(self).same_history(old(self)),
            !b ==> *final(self) == *old(self),
    {
        if self.composition.is_none() {
            return false;
        }
        self.composition = None;
        self.generation = self.generation.wrapping_add(1);
        true
    }

    /// Replay the newest undo step backwards, or the nearest redo step
    /// forwards, and move it to the other stack. Each applied delta is
    /// returned in execution order.
    #[verifier::rlimit(60)]
    fn restore(&mut self, redo: bool) -> (r: Vec<Change>)
        requires
            old(self).wf(),
            redo && old(self).redo@.len() > 0 ==> old(self).document.revision_spec() + old(self).redo_steps() <= u64::MAX,
            !redo && old(self).undo@.len() > 0 ==> old(self).document.revision_spec() + old(self).undo_steps() <= u64::MAX,
        ensures
            final(self).wf(),
            !final(self).composing(),
            redo && old(self).redo@.len() == 0 ==> r@.len() == 0 && final(self).current() == old(self).current()
                && final(self).undo@ == old(self).undo@ && final(self).redo@ == old(self).redo@
                && final(self).selection_view() == old(self).selection_view(),
            !redo && old(self).undo@.len() == 0 ==> r@.len() == 0 && final(self).current() == old(self).current()
                && final(self).undo@ == old(self).undo@ && final(self).redo@ == old(self).redo@
                && final(self).selection_view() == old(self).selection_view(),
            redo && old(self).redo@.len() > 0 ==> {
                &&& final(self).current() == old(self).redo_target()
                &&& final(self).selection_view()@ == old(self).redo_selection()@
                &&& final(self).selection_view().primary_spec() == old(self).redo_selection().primary_spec()
                &&& final(self).redo@ == old(self).redo@.drop_last()
                &&& final(self).undo@ == old(self).undo@.push(old(self).redo@.last())
                &&& r@.len() == old(self).redo_steps()
            },
            !redo && old(self).undo@.len() > 0 ==> {
                &&& final(self).current() == old(self).undo_target()
                &&& final(self).selection_view()@ == old(self).undo_selection()@
                &&& final(self).selection_view().primary_spec() == old(self).undo_selection().primary_spec()
                &&& final(self).undo@ == old(self).undo@.drop_last()
                &&& final(self).redo@ == old(self).redo@.push(old(self).undo@.last())
                &&& r@.len() == old(self).undo_steps()
            },
            forall|i: int| 0 <= i < r@.len() ==> (#[trigger] r@[i]).kind == if redo { EditKind::Redo } else { EditKind::Undo },
    {
        self.cancel_composition();
        let ghost u0 = self.undo@;
        let ghost r0 = self.redo@;
        let popped = if redo { self.redo.pop() } else { self.undo.pop_back() };
        let entry = match popped {
            Some(e) => e,
            None => return Vec::new(),
        };
        proof {
            if redo {
                assert(self.redo@ =~= r0.drop_last());
                assert(entry == r0.last());
            } else {
                assert(self.undo@ =~= u0.drop_last());
                assert(entry == u0.last());
            }
        }
        let kind = if redo { EditKind::Redo } else { EditKind::Undo };
        let n = entry.records.len();
        let ghost st = entry.states@;
        let ghost rev0 = self.document.revision_spec();
        let mut result: Vec<Change> = Vec::new();
        let mut idx: usize = 0;
        while idx < n
            invariant
                entry.ok(),
                st == entry.states@,
                n == entry.records@.len(),
                0 <= idx <= n,
                self.document.wf(),
                self.anchors.wf(),
                self.anchors.within(utf8(self.document@).len() as int),
                self.composition is None,
                self.current() == if redo { st[idx as int] } else { st[n - idx] },
                self.document.revision_spec() <= rev0 + idx,
                rev0 + n <= u64::MAX,
                result@.len() == idx,
                forall|i: int| 0 <= i < result@.len() ==> (#[trigger] result@[i]).kind == kind,
                kind == if redo { EditKind::Redo } else { EditKind::Undo },
                self.selection == old(self).selection,
                self.undo@ == if redo { u0 } else { u0.drop_last() },
                self.redo@ == if redo { r0.drop_last() } else { r0 },
                self.history_bytes == old(self).history_bytes,
                self.history == old(self).history,
            decreases n - idx,
        {
            let k = if redo { idx } else { n - 1 - idx };
            let ghost from = self.current();
            let ghost to = if redo { st[idx + 1] } else { st[n - idx - 1] };
            let changes = if redo { &entry.records[k].forward } else { &entry.records[k].inverse };
            proof {
                assert(leads_to(entry.records@[k as int].forward, st[k as int], st[k + 1]));
                assert(leads_to(*changes, from, to));
                vstd::utf8::encode_utf8_valid_utf8(self.document@);
            }
            let before_revision = self.document.revision();
            self.apply_document_change(changes, kind);
            let delta = changes.duplicate();
            result.push(Change { before_revision, revision: self.document.revision(), changes: delta, kind });
            proof {
                vstd::utf8::encode_utf8_decode_utf8(self.document@);
                vstd::utf8::encode_utf8_decode_utf8(to.0);
                assert(state_wf(to));
                lemma_canonical_unique(self.document.spans_view(), to.1);
            }
            idx += 1;
        }
        if redo {
            self.typing_style = entry.after_typing;
            self.selection = entry.after.duplicate();
        } else {
            self.typing_style = entry.before_typing;
            self.selection = entry.before.duplicate();
        }
        let ghost moved = entry;
        if redo {
            self.undo.push_back(entry);
        } else {
            self.redo.push(entry);
        }
        self.generation = self.generation.wrapping_add(1);
        self.history_boundary = true;
        proof {
            if redo {
                assert(self.current() == st[n as int]);
                let u = self.undo@;
                assert(u =~= u0.push(moved));
                lemma_bytes_sum_push(u0, moved);
                assert(bytes_sum(r0) == bytes_sum(r0.drop_last()) + moved.bytes);
                assert forall|i: int| 0 <= i < u.len() implies (#[trigger] u[i]).ok() by {
                    if i < u0.len() {
                        assert(u[i] == u0[i]);
                    }
                }
                assert forall|i: int| 0 <= i < u.len() - 1 implies (#[trigger] u[i]).last_state() == u[i + 1].first_state() by {
                    assert(u[i] == u0[i]);
                    if i + 1 < u0.len() {
                        assert(u[i + 1] == u0[i + 1]);
                    }
                }
                let r = self.redo@;
                assert forall|i: int| 0 <= i < r.len() implies (#[trigger] r[i]).ok() by {
                    assert(r[i] == r0[i]);
                }
                assert forall|i: int| 0 <= i < r.len() - 1 implies (#[trigger] r[i]).first_state() == r[i + 1].last_state() by {
                    assert(r[i] == r0[i]);
                    assert(r[i + 1] == r0[i + 1]);
                }
                if r.len() > 0 {
                    assert(r.last() == r0[r0.len() - 2]);
                }
            } else {
                assert(self.current() == st[0]);
                let r = self.redo@;
                assert(r =~= r0.push(moved));
                lemma_bytes_sum_push(r0, moved);
                assert(bytes_sum(u0) == bytes_sum(u0.drop_last()) + moved.bytes);
                assert forall|i: int| 0 <= i < r.len() implies (#[trigger] r[i]).ok() by {
                    if i < r0.len() {
                        assert(r[i] == r0[i]);
                    }
                }
                assert forall|i: int| 0 <= i < r.len() - 1 implies (#[trigger] r[i]).first_state() == r[i + 1].last_state() by {
                    assert(r[i] == r0[i]);
                    if i + 1 < r0.len() {
                        assert(r[i + 1] == r0[i + 1]);
                    }
                }
                let u = self.undo@;
                assert forall|i: int| 0 <= i < u.len() implies (#[trigger] u[i]).ok() by {
                    assert(u[i] == u0[i]);
                }
                assert forall|i: int| 0 <= i < u.len() - 1 implies (#[trigger] u[i]).last_state() == u[i + 1].first_state() by {
                    assert(u[i] == u0[i]);
                    assert(u[i + 1] == u0[i + 1]);
                }
                if u.len() > 0 {
                    assert(u.last() == u0[u0.len() - 2]);
                }
            }
        }
        result
    }
}

impl EditorState {
    /// Undo the newest step: its deltas are reverted newest first and
    /// returned in execution order, so decorations can map through them.
    pub fn undo(&mut self) -> (r: Result<Vec<Change>, EditError>)
        requires
            old(self).wf(),
            old(self).undo_depth() > 0 ==> old(self).document_view().revision_spec() + old(self).undo_steps() <= u64::MAX,
        ensures
            final(self).wf(),
            !final(self).composing(),
            r matches Ok(v) && (old(self).undo_depth() == 0 ==> v@.len() == 0 && final(self).current() == old(self).current()
                && final(self).selection_view() == old(self).selection_view() && final(self).redo_depth()
                == old(self).redo_depth()),
            old(self).undo_depth() > 0 ==> {
                &&& final(self).current() == old(self).undo_target()
                &&& final(self).selection_view()@ == old(self).undo_selection()@
                &&& final(self).undo_depth() == old(self).undo_depth() - 1
                &&& final(self).redo_depth() == old(self).redo_depth() + 1
                &&& final(self).redo_target() == old(self).current()
                &&& r matches Ok(v) && v@.len() == old(self).undo_steps()
                &&& final(self).undo_targets() == old(self).undo_targets().drop_last()
                &&& final(self).redo_targets() == old(self).redo_targets().push(old(self).current())
                &&& final(self).undo_counts() == old(self).undo_counts().drop_last()
                &&& final(self).redo_counts() == old(self).redo_counts().push(old(self).undo_steps())
            },
            old(self).undo_depth() == 0 ==> final(self).undo_targets() == old(self).undo_targets()
                && final(self).redo_targets() == old(self).redo_targets() && final(self).undo_counts() == old(
                self,
            ).undo_counts() && final(self).redo_counts() == old(self).redo_counts(),
    {
        let ghost u0 = self.undo@;
        let ghost r0 = self.redo@;
        let result = self.restore(false);
        proof {
            if u0.len() > 0 {
                assert(self.undo_targets() =~= old(self).undo_targets().drop_last());
                assert(self.redo_targets() =~= old(self).redo_targets().push(old(self).current()));
                assert(self.undo_counts() =~= old(self).undo_counts().drop_last());
                assert(self.redo_counts() =~= old(self).redo_counts().push(old(self).undo_steps()));
            }
        }
        Ok(result)
    }

    /// Redo the nearest undone step.
    pub fn redo(&mut self) -> (r: Result<Vec<Change>, EditError>)
        requires
            old(self).wf(),
            old(self).redo_depth() > 0 ==> old(self).document_view().revision_spec() + old(self).redo_steps() <= u64::MAX,
        ensures
            final(self).wf(),
            !final(self).composing(),
            r matches Ok(v) && (old(self).redo_depth() == 0 ==> v@.len() == 0 && final(self).current() == old(self).current()
                && final(self).selection_view() == old(self).selection_view() && final(self).undo_depth()
                == old(self).undo_depth()),
            old(self).redo_depth() > 0 ==> {
                &&& final(self).current() == old(self).redo_target()
                &&& final(self).selection_view()@ == old(self).redo_selection()@
                &&& final(self).redo_depth() == old(self).redo_depth() - 1
                &&& final(self).undo_depth() == old(self).undo_depth() + 1
                &&& final(self).undo_target() == old(self).current()
                &&& r matches Ok(v) && v@.len() == old(self).redo_steps()
                &&& final(self).redo_targets() == old(self).redo_targets().drop_last()
                &&& final(self).undo_targets() == old(self).undo_targets().push(old(self).current())
                &&& final(self).redo_counts() == old(self).redo_counts().drop_last()
                &&& final(self).undo_counts() == old(self).undo_counts().push(old(self).redo_steps())
            },
            old(self).redo_depth() == 0 ==> final(self).undo_targets() == old(self).undo_targets()
                && final(self).redo_targets() == old(self).redo_targets() && final(self).undo_counts() == old(
                self,
            ).undo_counts() && final(self).redo_counts() == old(self).redo_counts(),
    {
        let ghost u0 = self.undo@;
        let ghost r0 = self.redo@;
        let result = self.restore(true);
        proof {
            if r0.len() > 0 {
                assert(self.redo_targets() =~= old(self).redo_targets().drop_last());
                assert(self.undo_targets() =~= old(self).undo_targets().push(old(self).current()));
                assert(self.redo_counts() =~= old(self).redo_counts().drop_last());
                assert(self.undo_counts() =~= old(self).undo_counts().push(old(self).redo_steps()));
            }
        }
        Ok(result)
    }
}

/// A session's document is well formed and its selections are valid in it.
pub proof fn lemma_session_parts(s: EditorState)
    requires
        s.wf(),
    ensures
        s.document_view().wf(),
        selections_valid(s.document_view()@, s.selection_view()),
{
}

/// The target and count lists line up with the history: one entry per step,
/// the newest ones being the next undo's and the next redo's.
pub proof fn lemma_history_targets(s: EditorState)
    ensures
        s.undo_targets().len() == s.undo_depth(),
        s.redo_targets().len() == s.redo_depth(),
        s.undo_depth() > 0 ==> s.undo_target() == s.undo_targets().last(),
        s.redo_depth() > 0 ==> s.redo_target() == s.redo_targets().last(),
        s.undo_counts().len() == s.undo_depth(),
        s.redo_counts().len() == s.redo_depth(),
        s.undo_depth() > 0 ==> s.undo_steps() == s.undo_counts().last(),
        s.redo_depth() > 0 ==> s.redo_steps() == s.redo_counts().last(),
{
}

/// The history never holds more bytes than its budget.
pub proof fn lemma_history_within_budget(s: EditorState)
    requires
        s.wf(),
    ensures
        s.history_bytes_view() <= s.max_bytes(),
{
}

impl EditorState {
    /// Anchors registered in this session, by identity.
    pub closed spec fn anchor_view(&self, id: AnchorId) -> Option<Anchor> {
        self.anchors.get_spec(id)
    }

    /// Identities left to hand out.
    pub closed spec fn anchor_ids_left(&self) -> bool {
        self.anchors.next < u64::MAX
    }

    /// Register a source anchor at a char boundary. It moves through every
    /// committed edit, undo and redo by its bias.
    pub fn create_anchor(&mut self, byte: usize, bias: Bias) -> (r: Result<AnchorId, EditError>)
        requires
            old(self).wf(),
            old(self).anchor_ids_left(),
        ensures
            final(self).wf(),
            r is Err <==> !is_char_boundary(utf8(old(self).document_view()@), byte as int),
            r is Err ==> r == Err::<AnchorId, EditError>(EditError::InvalidSelection) && *final(self) == *old(self),
            r matches Ok(id) ==> final(self).anchor_view(id) == Some(Anchor { byte, bias }) && old(self).anchor_view(id)
                is None,
            r is Ok ==> forall|other: AnchorId| #[trigger] final(self).anchor_view(other) == if r == Ok::<AnchorId, EditError>(other) {
                Some(Anchor { byte, bias })
            } else {
                old(self).anchor_view(other)
            },
            final(self).current() == old(self).current(),
            final(self).selection_view() == old(self).selection_view(),
    {
        if !self.document.is_char_boundary(byte) {
            return Err(EditError::InvalidSelection);
        }
        let id = AnchorId(self.anchors.next);
        let ghost p0 = self.anchors.positions@;
        proof {
            lemma_anchor_absent(p0, id, self.anchors.next);
            vstd::utf8::encode_utf8_valid_utf8(self.document@);
            lemma_boundary_in_bounds(self.document@, byte as int);
        }
        self.anchors.next = self.anchors.next + 1;
        self.anchors.positions.push((id, Anchor { byte, bias }));
        proof {
            let p1 = self.anchors.positions@;
            assert(p1 =~= p0.push((id, Anchor { byte, bias })));
            lemma_anchor_push(p0, id, Anchor { byte, bias });
            assert forall|i: int, j: int| 0 <= i < j < p1.len() implies (#[trigger] p1[i]).0.0 < (#[trigger] p1[j]).0.0 by {
                if j < p0.len() {
                    assert(p1[i] == p0[i] && p1[j] == p0[j]);
                } else {
                    assert(p1[i] == p0[i]);
                }
            }
            assert forall|i: int| 0 <= i < p1.len() implies (#[trigger] p1[i]).0.0 < self.anchors.next by {
                if i < p0.len() {
                    assert(p1[i] == p0[i]);
                }
            }
            assert forall|i: int| 0 <= i < p1.len() implies (#[trigger] p1[i]).1.byte <= utf8(self.document@).len() by {
                if i < p0.len() {
                    assert(p1[i] == p0[i]);
                }
            }
        }
        Ok(id)
    }

    /// The current position of an anchor.
    pub fn anchor(&self, id: AnchorId) -> (r: Option<Anchor>)
        ensures
            r == self.anchor_view(id),
    {
        let mut i: usize = 0;
        let ghost p = self.anchors.positions@;
        proof {
            assert(p.skip(0) =~= p);
        }
        while i < self.anchors.positions.len()
            invariant
                p == self.anchors.positions@,
                0 <= i <= p.len(),
                anchor_in(p, id) == anchor_in(p.skip(i as int), id),
            decreases p.len() - i,
        {
            proof {
                assert(p.skip(i as int).drop_first() =~= p.skip(i + 1));
            }
            if self.anchors.positions[i].0 == id {
                return Some(self.anchors.positions[i].1);
            }
            i += 1;
        }
        None
    }

    /// Stop tracking an anchor. Returns whether it existed.
    pub fn remove_anchor(&mut self, id: AnchorId) -> (b: bool)
        requires
            old(self).wf(),
        ensures
            final(self).wf(),
            b == old(self).anchor_view(id) is Some,
            final(self).anchor_view(id) is None,
            forall|other: AnchorId| other != id ==> #[trigger] final(self).anchor_view(other) == old(self).anchor_view(other),
            final(self).current() == old(self).current(),
            final(self).selection_view() == old(self).selection_view(),
    {
        let ghost p0 = self.anchors.positions@;
        let mut i: usize = 0;
        while i < self.anchors.positions.len()
            invariant
                p0 == self.anchors.positions@,
                old(self).wf(),
                *self == *old(self),
                0 <= i <= p0.len(),
                forall|k: int| 0 <= k < i ==> (#[trigger] p0[k]).0 != id,
            decreases p0.len() - i,
        {
            if self.anchors.positions[i].0 == id {
                self.anchors.positions.remove(i);
                proof {
                    let p1 = self.anchors.positions@;
                    lemma_anchor_remove(p0, i as int, id);
                    assert forall|a: int, c: int| 0 <= a < c < p1.len() implies (#[trigger] p1[a]).0.0 < (#[trigger] p1[c]).0.0 by {
                        if a < i {
                            if c < i {
                                assert(p1[c] == p0[c]);
                            } else {
                                assert(p1[c] == p0[c + 1]);
                            }
                            assert(p1[a] == p0[a]);
                        } else {
                            assert(p1[a] == p0[a + 1] && p1[c] == p0[c + 1]);
                        }
                    }
                    assert forall|a: int| 0 <= a < p1.len() implies (#[trigger] p1[a]).0.0 < self.anchors.next && p1[a].1.byte
                        <= utf8(self.document@).len() by {
                        if a < i {
                            assert(p1[a] == p0[a]);
                        } else {
                            assert(p1[a] == p0[a + 1]);
                        }
                    }
                }
                return true;
            }
            i += 1;
        }
        proof {
            lemma_anchor_missing(p0, id);
        }
        false
    }

    /// Pending input formatting for typing and IME commits; `None` derives it
    /// at each selection. Not a document edit and not an undo step.
    pub fn set_typing_style(&mut self, style: Option<StyleId>) -> (r: Result<bool, EditError>)
        requires
            old(self).wf(),
        ensures
            final(self).wf(),
            old(self).composing() ==> r == Err::<bool, EditError>(EditError::CompositionActive),
            r is Err ==> *final(self) == *old(self),
            !old(self).composing() ==> r == Ok::<bool, EditError>(style != old(self).typing_view()),
            r is Ok ==> final(self).typing_view() == style,
            final(self).current() == old(self).current(),
            final(self).selection_view() == old(self).selection_view(),
    {
        if self.composition.is_some() {
            return Err(EditError::CompositionActive);
        }
        if style == self.typing_style {
            return Ok(false);
        }
        self.typing_style = style;
        self.history_boundary = true;
        self.generation = self.generation.wrapping_add(1);
        Ok(true)
    }

    /// The style new input at `selection` receives: the pending input style,
    /// else the style at the selection's start, from the preceding character
    /// for a caret that sticks to it.
    fn input_style(&self, selection: Selection) -> (r: StyleId)
        requires
            self.wf(),
            sel_valid(utf8(self.document@), selection),
        ensures
            r == match self.typing_style {
                Some(s) => s,
                None => super::document::inherited_style(
                    self.document.spans_view(),
                    selection.start(),
                    if selection.anchor == selection.head && selection.affinity == Bias::After && selection.head > 0 {
                        Bias::Before
                    } else {
                        Bias::After
                    },
                ),
            },
    {
        match self.typing_style {
            Some(s) => s,
            None => {
                let bias = if selection.is_caret() && selection.affinity == Bias::After && selection.head > 0 {
                    Bias::Before
                } else {
                    Bias::After
                };
                let start = selection.text_range().start;
                match self.document.style_at(start, bias) {
                    Some(s) => s,
                    None => StyleId(0),
                }
            },
        }
    }

    /// Show IME preedit over the primary selection. Cursor offsets must be
    /// char boundaries of the preedit; the input style is frozen at the first
    /// update.
    pub fn set_composition(&mut self, text: &str, cursor: Option<(usize, usize)>) -> (r: Result<bool, EditError>)
        requires
            old(self).wf(),
        ensures
            final(self).wf(),
            (cursor matches Some((a, b)) && !(is_char_boundary(utf8(text@), a as int) && is_char_boundary(utf8(text@), b as int)))
                <==> r == Err::<bool, EditError>(EditError::InvalidSelection),
            r is Err ==> *final(self) == *old(self),
            r is Ok ==> final(self).composing(),
            final(self).current() == old(self).current(),
            final(self).selection_view() == old(self).selection_view(),
            final(self).same_history(old(self)),
    {
        match cursor {
            Some((a, b)) => {
                if !TextRead::is_char_boundary(text, a) || !TextRead::is_char_boundary(text, b) {
                    return Err(EditError::InvalidSelection);
                }
            },
            None => {},
        }
        let primary = self.selection.primary();
        proof {
            assert(sel_valid(utf8(self.document@), self.selection@[self.selection.primary_spec()]));
        }
        let range = primary.text_range();
        let style = match &self.composition {
            Some(c) => c.style,
            None => self.input_style(primary),
        };
        let preedit = text.to_string();
        let same = match &self.composition {
            Some(c) => c.range.start == range.start && c.range.end == range.end && c.cursor == cursor && c.style == style
                && strings_equal(c.text.as_str(), text),
            None => false,
        };
        if same {
            return Ok(false);
        }
        proof {
            vstd::utf8::encode_utf8_valid_utf8(self.document@);
            lemma_boundary_in_bounds(self.document@, primary.anchor as int);
            lemma_boundary_in_bounds(self.document@, primary.head as int);
        }
        self.composition = Some(Composition { range, text: preedit, cursor, style });
        self.generation = self.generation.wrapping_add(1);
        Ok(true)
    }
}

pub(crate) fn strings_equal(a: &str, b: &str) -> (r: bool)
    ensures
        r == (a@ == b@),
{
    let n = a.unicode_len();
    if n != b.unicode_len() {
        return false;
    }
    let mut i: usize = 0;
    while i < n
        invariant
            n == a@.len(),
            n == b@.len(),
            0 <= i <= n,
            forall|k: int| 0 <= k < i ==> a@[k] == b@[k],
        decreases n - i,
    {
        if a.get_char(i) != b.get_char(i) {
            return false;
        }
        i += 1;
    }
    proof {
        assert(a@ =~= b@);
    }
    true
}

proof fn lemma_anchor_absent(p: Seq<(AnchorId, Anchor)>, id: AnchorId, next: u64)
    requires
        forall|i: int| 0 <= i < p.len() ==> (#[trigger] p[i]).0.0 < next,
        id.0 == next,
    ensures
        anchor_in(p, id) is None,
    decreases p.len(),
{
    if p.len() > 0 {
        assert forall|i: int| 0 <= i < p.drop_first().len() implies (#[trigger] p.drop_first()[i]).0.0 < next by {
            assert(p.drop_first()[i] == p[i + 1]);
        }
        lemma_anchor_absent(p.drop_first(), id, next);
    }
}

proof fn lemma_anchor_push(p: Seq<(AnchorId, Anchor)>, id: AnchorId, a: Anchor)
    requires
        anchor_in(p, id) is None,
    ensures
        forall|other: AnchorId| #[trigger] anchor_in(p.push((id, a)), other) == if other == id {
            Some(a)
        } else {
            anchor_in(p, other)
        },
    decreases p.len(),
{
    let q = p.push((id, a));
    if p.len() == 0 {
        assert(q.drop_first() =~= Seq::<(AnchorId, Anchor)>::empty());
        assert(q[0] == (id, a));
        assert forall|other: AnchorId| #[trigger] anchor_in(q, other) == if other == id {
            Some(a)
        } else {
            anchor_in(p, other)
        } by {
            assert(anchor_in(q.drop_first(), other) is None);
        }
    } else {
        let d = p.drop_first();
        assert(q.drop_first() =~= d.push((id, a)));
        assert(q[0] == p[0]);
        assert(p[0].0 != id);
        lemma_anchor_push(d, id, a);
        assert forall|other: AnchorId| #[trigger] anchor_in(q, other) == if other == id {
            Some(a)
        } else {
            anchor_in(p, other)
        } by {
            if p[0].0 != other {
                assert(anchor_in(q, other) == anchor_in(d.push((id, a)), other));
                assert(anchor_in(p, other) == anchor_in(d, other));
            }
        }
    }
}

proof fn lemma_anchor_remove(p: Seq<(AnchorId, Anchor)>, i: int, id: AnchorId)
    requires
        0 <= i < p.len(),
        p[i].0 == id,
        forall|k: int| 0 <= k < i ==> (#[trigger] p[k]).0 != id,
        forall|a: int, c: int| 0 <= a < c < p.len() ==> (#[trigger] p[a]).0.0 < (#[trigger] p[c]).0.0,
    ensures
        anchor_in(p, id) is Some,
        anchor_in(p.remove(i), id) is None,
        forall|other: AnchorId| other != id ==> #[trigger] anchor_in(p.remove(i), other) == anchor_in(p, other),
    decreases p.len(),
{
    let r = p.remove(i);
    if i == 0 {
        assert(r =~= p.drop_first());
        assert forall|k: int| 0 <= k < r.len() implies (#[trigger] r[k]).0 != id by {
            assert(r[k] == p[k + 1]);
            assert(p[0].0.0 < p[k + 1].0.0);
        }
        lemma_anchor_not_in(r, id);
        assert forall|other: AnchorId| other != id implies #[trigger] anchor_in(p.remove(i), other) == anchor_in(p, other) by {
            assert(p[0].0 != other);
        }
    } else {
        let d = p.drop_first();
        assert(r.drop_first() =~= d.remove(i - 1));
        assert(r[0] == p[0]);
        assert forall|a: int, c: int| 0 <= a < c < d.len() implies (#[trigger] d[a]).0.0 < (#[trigger] d[c]).0.0 by {
            assert(d[a] == p[a + 1] && d[c] == p[c + 1]);
        }
        assert forall|k: int| 0 <= k < i - 1 implies (#[trigger] d[k]).0 != id by {
            assert(d[k] == p[k + 1]);
        }
        lemma_anchor_remove(d, i - 1, id);
        assert(p[0].0 != id);
        assert forall|other: AnchorId| other != id implies #[trigger] anchor_in(p.remove(i), other) == anchor_in(p, other) by {
            if p[0].0 != other {
                assert(anchor_in(r, other) == anchor_in(r.drop_first(), other));
                assert(anchor_in(p, other) == anchor_in(d, other));
            }
        }
        assert(anchor_in(r, id) == anchor_in(r.drop_first(), id));
    }
}

proof fn lemma_anchor_not_in(p: Seq<(AnchorId, Anchor)>, id: AnchorId)
    requires
        forall|k: int| 0 <= k < p.len() ==> (#[trigger] p[k]).0 != id,
    ensures
        anchor_in(p, id) is None,
    decreases p.len(),
{
    if p.len() > 0 {
        assert forall|k: int| 0 <= k < p.drop_first().len() implies (#[trigger] p.drop_first()[k]).0 != id by {
            assert(p.drop_first()[k] == p[k + 1]);
        }
        lemma_anchor_not_in(p.drop_first(), id);
    }
}

proof fn lemma_anchor_missing(p: Seq<(AnchorId, Anchor)>, id: AnchorId)
    requires
        forall|k: int| 0 <= k < p.len() ==> (#[trigger] p[k]).0 != id,
    ensures
        anchor_in(p, id) is None,
{
    lemma_anchor_not_in(p, id);
}

impl EditorState {
    /// Replace every selection with `text` in one transaction, leaving a caret
    /// after each insertion. Inserted text takes the input style of its
    /// selection.
    pub fn replace_selections(&mut self, text: &str, kind: EditKind) -> (r: Result<Option<Change>, EditError>)
        requires
            old(self).wf(),
            utf8(old(self).document_view()@).len() + old(self).selection_view()@.len() * utf8(text@).len() <= usize::MAX,
            old(self).document_view().revision_spec() < u64::MAX,
        ensures
            r matches Ok(Some(_)) && final(self).undo_depth() > 0 ==> new_step(*old(self), *final(self)) || (old(
                self,
            ).may_merge(kind) && grown_step(*old(self), *final(self))),
            r matches Ok(Some(_)) && final(self).undo_depth() > 0 && !old(self).may_merge(kind) ==> new_step(
                *old(self),
                *final(self),
            ),
            r matches Ok(Some(_)) && old(self).max_bytes() > 0 && final(self).last_step_bytes() <= old(self).max_bytes()
                ==> final(self).undo_depth() > 0,
            final(self).wf(),
            old(self).composing() ==> r == Err::<Option<Change>, EditError>(EditError::CompositionActive),
            r is Err ==> *final(self) == *old(self),
            r is Ok ==> final(self).selection_view()@.len() >= 1,
            exists|e: Seq<Edit>| #[trigger] replaces_each(old(self).selection_view()@, text@, e) && (r is Err <==> (
            old(self).composing() || rejects(
                old(self).document_view()@,
                old(self).document_view().revision_spec(),
                old(self).selection_view()@,
                old(self).selection_view().primary_spec(),
                old(self).document_view().revision_spec(),
                e,
                Some(
                    typed_selection(
                        old(self).selection_view()@,
                        old(self).selection_view().primary_spec(),
                        utf8(text@).len() as int,
                    ),
                ),
            ))) && (r is Ok ==> utf8(final(self).document_view()@) == apply_edits(
                utf8(old(self).document_view()@),
                changed_edits(utf8(old(self).document_view()@), sort_by_range(e)),
            )),
            r matches Ok(Some(ch)) ==> ch.kind == kind && final(self).redo_depth() == 0,
            r is Ok ==> final(self).selection_view()@ == typed_selection(
                old(self).selection_view()@,
                old(self).selection_view().primary_spec(),
                utf8(text@).len() as int,
            ),
            r matches Ok(Some(ch)) ==> ch.before_revision == old(self).document_view().revision_spec() && ch.revision
                == final(self).document_view().revision_spec() && ch.revision == old(self).document_view().revision_spec() + 1,
            r matches Ok(None) ==> final(self).document_view() == old(self).document_view(),
            r is Ok && utf8(final(self).document_view()@) != utf8(old(self).document_view()@) ==> r matches Ok(Some(_)),
            r matches Ok(Some(_)) && final(self).undo_depth() > 0 && !old(self).may_merge(kind) ==> final(self).undo_target()
                == old(self).current() && final(self).undo_selection() == old(self).selection_view(),
            r is Ok ==> !final(self).composing(),
    {
        let n = self.selection.len();
        let tlen = super::document::str_len(text);
        proof {
            vstd::utf8::encode_utf8_valid_utf8(self.document@);
        }
        if n == 1 {
            let primary = self.selection.primary();
            proof {
                assert(sel_valid(utf8(self.document@), self.selection@[self.selection.primary_spec()]));
                lemma_boundary_in_bounds(self.document@, primary.anchor as int);
                lemma_boundary_in_bounds(self.document@, primary.head as int);
            }
            let range = primary.text_range();
            assert(n * tlen == tlen) by (nonlinear_arith)
                requires
                    n == 1,
            ;
            let caret = SelectionSet::single(Selection::caret(range.start + tlen));
            let style = self.input_style(primary);
            let edit = Edit::styled(range, text.to_owned(), style);
            let mut edits: Vec<Edit> = Vec::new();
            edits.push(edit);
            proof {
                assert(edits@.len() == 1);
                assert(super::document::inserted_before(edits@, 1) == super::document::inserted_before(edits@, 0) + edits@[0].ins_len());
            }
            let revision = self.document.revision();
            proof {
                assert(replaces_each(self.selection@, text@, edits@));
                let ts = Seq::new(self.selection@.len(), |i: int| typed_caret(self.selection@, i, tlen as int));
                assert(ts =~= seq![caret@[0]]);
                super::selection::lemma_normalized_single(caret@[0]);
                assert(untagged(seq![(caret@[0], true)]) =~= seq![caret@[0]]);
                assert(typed_selection(self.selection@, self.selection.primary_spec(), tlen as int) == caret@);
            }
            return self.transact(Transaction { revision, edits, selection: Some(caret), kind });
        }
        let all = self.selection.iter();
        let mut removed: usize = 0;
        let mut added: usize = 0;
        let mut edits: Vec<Edit> = Vec::new();
        let mut carets: Vec<Selection> = Vec::new();
        let mut i: usize = 0;
        while i < n
            invariant
                self.wf(),
                all@ == self.selection@,
                n == all@.len(),
                tlen == utf8(text@).len(),
                utf8(self.document@).len() + n * tlen <= usize::MAX,
                0 <= i <= n,
                added == i * tlen,
                i == 0 ==> removed == 0,
                i > 0 ==> removed <= all@[i - 1].end(),
                edits@.len() == i,
                carets@.len() == i,
                super::document::inserted_before(edits@, i as int) == i * tlen,
                forall|k: int| 0 <= k < i ==> (#[trigger] edits@[k]).range.start == all@[k].start() && edits@[k].range.end
                    == all@[k].end() && edits@[k].insert@ == text@ && super::document::rich_fits(edits@[k]),
                removed == removed_before(all@, i as int),
                forall|k: int| 0 <= k < i ==> #[trigger] carets@[k] == typed_caret(all@, k, tlen as int),
            decreases n - i,
        {
            let s = all[i];
            proof {
                assert(sel_valid(utf8(self.document@), all@[i as int]));
                lemma_boundary_in_bounds(self.document@, s.anchor as int);
                lemma_boundary_in_bounds(self.document@, s.head as int);
                if i > 0 {
                    assert(all@[i - 1].end() <= all@[i as int].start());
                }
                assert((i + 1) * tlen <= n * tlen) by (nonlinear_arith)
                    requires
                        i < n,
                ;
                assert((i + 1) * tlen == i * tlen + tlen) by (nonlinear_arith);
            }
            let range = s.text_range();
            let head = range.start - removed + added + tlen;
            removed = removed + (range.end - range.start);
            added = added + tlen;
            let style = self.input_style(s);
            let ghost before = edits@;
            edits.push(Edit::styled(range, text.to_owned(), style));
            carets.push(Selection::caret(head));
            proof {
                assert(edits@.take(i as int) =~= before);
                super::document::lemma_inserted_before_prefix(edits@, i as int);
                super::document::lemma_inserted_before_prefix(before, i as int);
                assert(before.take(i as int) =~= before);
            }
            i += 1;
        }
        proof {
            assert(super::document::total_inserted(edits@) == n * tlen);
        }
        let ghost carets_view = carets@;
        let carets = match SelectionSet::new(carets, self.selection.primary_index()) {
            Ok(c) => c,
            Err(e) => return Err(e),
        };
        let revision = self.document.revision();
        proof {
            assert(replaces_each(self.selection@, text@, edits@));
            assert(carets_view =~= Seq::new(all@.len(), |k: int| typed_caret(all@, k, tlen as int)));
        }
        self.transact(Transaction { revision, edits, selection: Some(carets), kind })
    }

    /// Commit the preedit as typed text. A refused commit keeps the preedit.
    pub fn commit_composition(&mut self, text: &str) -> (r: Result<Option<Change>, EditError>)
        requires
            old(self).wf(),
            utf8(old(self).document_view()@).len() + old(self).selection_view()@.len() * utf8(text@).len() <= usize::MAX,
            old(self).document_view().revision_spec() < u64::MAX,
        ensures
            r matches Ok(Some(_)) && final(self).undo_depth() > 0 ==> new_step(*old(self), *final(self)),
            r matches Ok(Some(_)) && old(self).max_bytes() > 0 && final(self).last_step_bytes() <= old(self).max_bytes()
                ==> final(self).undo_depth() > 0,
            final(self).wf(),
            r is Err ==> final(self).current() == old(self).current() && final(self).composing() == old(self).composing(),
            exists|e: Seq<Edit>| #[trigger] replaces_each(old(self).selection_view()@, text@, e) && (r is Err <==> rejects(
                old(self).document_view()@,
                old(self).document_view().revision_spec(),
                old(self).selection_view()@,
                old(self).selection_view().primary_spec(),
                old(self).document_view().revision_spec(),
                e,
                Some(
                    typed_selection(
                        old(self).selection_view()@,
                        old(self).selection_view().primary_spec(),
                        utf8(text@).len() as int,
                    ),
                ),
            )) && (r is Ok ==> utf8(final(self).document_view()@) == apply_edits(
                utf8(old(self).document_view()@),
                changed_edits(utf8(old(self).document_view()@), sort_by_range(e)),
            )),
            r is Ok ==> !final(self).composing(),
    {
        let composition = self.composition.take();
        let boundary = self.history_boundary;
        self.history_boundary = true;
        let result = self.replace_selections(text, EditKind::Composition);
        match result {
            Err(e) => {
                self.composition = composition;
                self.history_boundary = boundary;
                Err(e)
            },
            Ok(change) => {
                if composition.is_some() {
                    self.generation = self.generation.wrapping_add(1);
                }
                self.history_boundary = true;
                Ok(change)
            },
        }
    }

    /// Commit an extension-authored transaction while closing the preedit.
    /// A refused transaction keeps the preedit and history grouping.
    pub fn commit_transaction(&mut self, transaction: Transaction) -> (r: Result<Option<Change>, EditError>)
        requires
            old(self).wf(),
            utf8(old(self).document_view()@).len() + total_inserted(transaction.edits@) <= usize::MAX,
            old(self).document_view().revision_spec() < u64::MAX,
            transaction.selection matches Some(s) ==> s.wf(),
        ensures
            r matches Ok(Some(_)) && final(self).undo_depth() > 0 ==> new_step(*old(self), *final(self)),
            r matches Ok(Some(_)) && old(self).max_bytes() > 0 && final(self).last_step_bytes() <= old(self).max_bytes()
                ==> final(self).undo_depth() > 0,
            final(self).wf(),
            r is Err ==> final(self).current() == old(self).current() && final(self).composing() == old(self).composing(),
            r is Err <==> rejects(
                old(self).document_view()@,
                old(self).document_view().revision_spec(),
                old(self).selection_view()@,
                old(self).selection_view().primary_spec(),
                transaction.revision,
                transaction.edits@,
                view_of(transaction.selection),
            ),
            r is Ok ==> utf8(final(self).document_view()@) == apply_edits(
                utf8(old(self).document_view()@),
                changed_edits(utf8(old(self).document_view()@), sort_by_range(transaction.edits@)),
            ),
            r is Ok ==> !final(self).composing(),
            r matches Ok(Some(ch)) ==> ch.kind == EditKind::Composition,
    {
        let mut transaction = transaction;
        transaction.kind = EditKind::Composition;
        let composition = self.composition.take();
        let boundary = self.history_boundary;
        self.history_boundary = true;
        let result = self.transact(transaction);
        match result {
            Err(e) => {
                self.composition = composition;
                self.history_boundary = boundary;
                Err(e)
            },
            Ok(change) => {
                if composition.is_some() {
                    self.generation = self.generation.wrapping_add(1);
                }
                self.history_boundary = true;
                Ok(change)
            },
        }
    }
}

/// `VecDeque::capacity`; the allocator decides it.
#[verifier::external_body]
fn deque_capacity<T>(v: &VecDeque<T>) -> (n: usize)
    ensures
        n >= v@.len(),
{
    v.capacity()
}

impl EditorState {
    /// Bytes each undo step accounts for, oldest first.
    pub closed spec fn undo_bytes(&self) -> Seq<usize> {
        self.undo@.map_values(|e: HistoryEntry| e.bytes)
    }

    /// Bytes each redo step accounts for, furthest first.
    pub closed spec fn redo_bytes(&self) -> Seq<usize> {
        self.redo@.map_values(|e: HistoryEntry| e.bytes)
    }

    /// The committed text.
    pub fn text(&self) -> (r: std::borrow::Cow<'_, str>)
        ensures
            r@ == self.document_view()@,
    {
        self.document.text()
    }

    /// Bytes each history step accounts for: undo steps oldest first, redo
    /// steps furthest first. They sum to `history_bytes`.
    pub fn history_entry_bytes(&self) -> (r: (Vec<usize>, Vec<usize>))
        ensures
            r.0@ == self.undo_bytes(),
            r.1@ == self.redo_bytes(),
    {
        let mut undo: Vec<usize> = Vec::new();
        let mut i: usize = 0;
        while i < self.undo.len()
            invariant
                0 <= i <= self.undo@.len(),
                undo@ == self.undo@.take(i as int).map_values(|e: HistoryEntry| e.bytes),
            decreases self.undo@.len() - i,
        {
            undo.push(self.undo[i].bytes);
            i += 1;
            proof {
                assert(undo@ =~= self.undo@.take(i as int).map_values(|e: HistoryEntry| e.bytes));
            }
        }
        let mut redo: Vec<usize> = Vec::new();
        let mut j: usize = 0;
        while j < self.redo.len()
            invariant
                0 <= j <= self.redo@.len(),
                redo@ == self.redo@.take(j as int).map_values(|e: HistoryEntry| e.bytes),
            decreases self.redo@.len() - j,
        {
            redo.push(self.redo[j].bytes);
            j += 1;
            proof {
                assert(redo@ =~= self.redo@.take(j as int).map_values(|e: HistoryEntry| e.bytes));
            }
        }
        proof {
            assert(self.undo@.take(self.undo@.len() as int) =~= self.undo@);
            assert(self.redo@.take(self.redo@.len() as int) =~= self.redo@);
        }
        (undo, redo)
    }

    /// Allocated capacity of the undo and redo stacks, in steps.
    pub fn history_capacity(&self) -> (r: (usize, usize))
        ensures
            r.0 >= self.undo_depth(),
            r.1 >= self.redo_depth(),
    {
        (deque_capacity(&self.undo), super::buffer::vec_capacity(&self.redo))
    }
}

} // verus!
