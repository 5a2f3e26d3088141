use voidui::editing::buffer::{hard_lines, is_separator, separator_len, BufferOptions, TextBuffer, TextRead, TextSnapshot};
use voidui::editing::commands::{grapheme_boundary, word_boundary};
use voidui::editing::document::{Bias, ChangeSet, Document, Edit};
use voidui::editing::format::{apply_changes, diff, slice, style_at, RichText, StyleChange, StyleId, StyleSpan};
use voidui::editing::selection::{Selection, SelectionSet};
use voidui::editing::state::{EditorState, Transaction};

fn span(start: usize, end: usize, style: u64) -> StyleSpan {
    StyleSpan { range: start..end, style: StyleId(style) }
}

#[test]
fn hard_lines_keep_terminators_and_the_trailing_line() {
    assert_eq!(hard_lines("a\r\nb\nc"), vec![0..3, 3..5, 5..6]);
    assert_eq!(hard_lines("x\n"), vec![0..2, 2..2]);
    assert_eq!(hard_lines(""), vec![0..0]);
    assert_eq!(hard_lines("p\u{2029}q"), vec![0..4, 4..5]);
    assert!(is_separator('\u{85}'));
    assert!(!is_separator(' '));
    assert_eq!(separator_len("ab\r\n"), 2);
    assert_eq!(separator_len("ab\u{2028}"), 3);
    assert_eq!(separator_len("ab"), 0);
}

#[test]
fn word_motion_skips_white_space_to_word_edges() {
    let text = "hello  world";
    assert_eq!(word_boundary(text, 0, true), 5);
    assert_eq!(word_boundary(text, 5, true), 12);
    assert_eq!(word_boundary(text, 12, false), 7);
    assert_eq!(word_boundary(text, 7, false), 0);
    assert_eq!(word_boundary(text, 12, true), 12);
    assert_eq!(word_boundary("   ", 0, true), 3);
    assert_eq!(word_boundary("   ", 3, false), 0);
}

#[test]
fn grapheme_motion_keeps_combining_marks_together() {
    let text = "e\u{301}x";
    assert_eq!(grapheme_boundary(text, 0, true), 3);
    assert_eq!(grapheme_boundary(text, 3, false), 0);
    assert_eq!(grapheme_boundary(text, 4, true), 4);
    assert_eq!(grapheme_boundary(text, 0, false), 0);
}

#[test]
fn buffers_promote_to_chunked_storage_and_read_ranges() {
    let mut buffer = TextBuffer::new("abc".to_string(), BufferOptions { inline_bytes: 4 });
    assert!(!buffer.is_chunked());
    buffer.replace(1..2, "XYZW");
    assert!(buffer.is_chunked());
    assert_eq!(buffer.as_str(), "aXYZWc");
    assert_eq!(buffer.read(1..3).unwrap(), "XY");
    assert!(buffer.read(2..9).is_none());
    assert!(buffer.equals(1..5, "XYZW"));
    assert!(!buffer.equals(1..5, "XYZV"));
    let snapshot = buffer.snapshot();
    assert!(snapshot.equal_range(0..2, &TextSnapshot::from_text("zaX".to_string()), 1..3));
    assert_eq!(BufferOptions::default().inline_bytes, 4096);
}

#[test]
fn diffing_styles_then_applying_the_diff_gives_the_target() {
    let before = vec![span(0, 3, 1), span(5, 8, 2)];
    let after = vec![span(1, 6, 1), span(7, 9, 3)];
    let changes = diff(&before, &after);
    assert_eq!(apply_changes(before.clone(), &changes), after);
    assert_eq!(diff(&after, &after), Vec::<StyleChange>::new());
}

#[test]
fn style_lookup_and_slicing() {
    let spans = vec![span(2, 4, 7)];
    assert_eq!(style_at(&spans, 2, false), StyleId(7));
    assert_eq!(style_at(&spans, 2, true), StyleId(0));
    assert_eq!(style_at(&spans, 4, true), StyleId(7));
    assert_eq!(slice(&spans, 3..6), vec![span(0, 1, 7)]);
    assert!(RichText::from_spans("abcd".to_string(), vec![span(1, 2, 1)]).is_some());
    assert!(RichText::from_spans("abcd".to_string(), vec![span(1, 9, 1)]).is_none());
}

#[test]
fn selections_normalize_into_sorted_disjoint_ranges() {
    let set = SelectionSet::new(vec![Selection::range(5, 7), Selection::range(0, 3), Selection::range(2, 4)], 0).unwrap();
    assert_eq!(set.iter(), vec![Selection::range(0, 4), Selection::range(5, 7)]);
    assert_eq!(set.primary_index(), 1);
    assert!(SelectionSet::new(vec![], 0).is_err());
    assert!(SelectionSet::new(vec![Selection::caret(1)], 3).is_err());
}

#[test]
fn change_sets_map_positions_by_bias() {
    let mut state = EditorState::new("abc".to_string(), 1);
    let mut tx = Transaction::new(0, vec![Edit::new(1..1, "XY".to_string())]);
    tx.selection = Some(SelectionSet::single(Selection::caret(0)));
    let change = state.transact(tx).unwrap().unwrap();
    let changes: &ChangeSet = &change.changes;
    assert_eq!(changes.map(1, Bias::Before), 1);
    assert_eq!(changes.map(1, Bias::After), 3);
    assert_eq!(changes.map(2, Bias::Before), 4);
    assert_eq!(changes.map_range(1..1), 1..3);
    assert_eq!(changes.edits().len(), 1);
    assert!(changes.style_changes().is_empty());
    assert!(!changes.is_empty());
    assert!(ChangeSet::default().is_empty());
}

#[test]
fn documents_expose_text_and_styles() {
    let document = Document::new("héllo".to_string(), 4);
    assert_eq!(document.len(), 6);
    assert!(!document.is_char_boundary(2));
    assert_eq!(document.slice(0..3).unwrap(), "hé");
    assert!(document.slice(0..2).is_none());
    assert_eq!(document.style_at(1, Bias::After), Some(StyleId(0)));
    assert_eq!(document.id(), 4);
    assert_eq!(document.revision(), 0);
}

#[test]
fn snapshot_lines_agree_for_inline_and_chunked_storage() {
    let text = "one\r\ntwo\u{2028}three\n";
    let inline = TextBuffer::new(text.to_string(), BufferOptions { inline_bytes: 1024 }).snapshot();
    let chunked = TextBuffer::new(text.to_string(), BufferOptions { inline_bytes: 1 }).snapshot();
    for snapshot in [&inline, &chunked] {
        assert_eq!(snapshot.line_ranges(), vec![0..5, 5..11, 11..17, 17..17]);
        assert_eq!(snapshot.line_count(), 4);
        assert_eq!(snapshot.line_range(1), Some(5..11));
        assert_eq!(snapshot.line_range(4), None);
        assert_eq!(snapshot.line_at(0), 0);
        assert_eq!(snapshot.line_at(5), 1);
        assert_eq!(snapshot.line_at(16), 2);
        assert_eq!(snapshot.line_at(17), 3);
        assert_eq!(snapshot.line_at(99), 3);
    }
    assert_eq!(TextSnapshot::from_text(String::new()).line_count(), 1);
}

#[test]
fn a_styled_empty_insertion_keeps_its_span() {
    let e = Edit::styled(2..4, String::new(), StyleId(7));
    assert_eq!(e.spans(), Some(&[span(0, 0, 7)][..]));
    let plain = Edit::styled(2..4, String::from("ab"), StyleId(0));
    assert_eq!(plain.spans(), Some(&[][..]));
}

#[test]
fn word_motion_stops_on_char_boundaries_and_moves() {
    let text = "héllo  wörld";
    let r = word_boundary(text, 0, true);
    assert!(r > 0 && text.is_char_boundary(r));
    let b = word_boundary(text, text.len(), false);
    assert!(b < text.len() && text.is_char_boundary(b));
    assert_eq!(word_boundary(text, text.len(), true), text.len());
    assert_eq!(word_boundary(text, 0, false), 0);
}
