use std::ops::Range;
use voidui::editing::handle::{is_blank, observer_invalidation};
use voidui::ui::updates::Invalidation;
use voidui::editing::document::{Bias, Edit, EditError};
use voidui::editing::format::StyleId;
use voidui::editing::selection::{Selection, SelectionSet};
use voidui::editing::state::{EditKind, EditorState, HistoryOptions, Transaction};

fn three_commands() -> EditorState {
    let mut state = EditorState::new(String::new(), 1);
    for text in ["a", "b", "c"] {
        state.replace_selections(text, EditKind::Command).unwrap();
    }
    state
}

fn edit(range: Range<usize>, text: &str) -> Edit {
    Edit::new(range, text.to_string())
}

#[test]
fn trimming_redo_retains_the_nearest_future_entries() {
    let mut state = three_commands();
    for _ in 0..3 {
        state.undo().unwrap();
    }
    // The stack is [c, b, a]. Keep exactly the two nearest redo entries,
    // using their actual accounting rather than assuming allocator sizes.
    let (_, redo) = state.history_entry_bytes();
    let budget: usize = redo.iter().rev().take(2).sum();
    state.set_history_options(HistoryOptions { max_bytes: budget, ..Default::default() });
    assert_eq!(state.history_bytes(), budget);
    state.redo().unwrap();
    assert_eq!(state.text(), "a");
    state.redo().unwrap();
    assert_eq!(state.text(), "ab");
    assert!(!state.can_redo());
    state.undo().unwrap();
    state.undo().unwrap();
    assert_eq!(state.text(), "");
}

#[test]
fn trimming_mixed_history_preserves_a_contiguous_chain() {
    let mut state = three_commands();
    state.undo().unwrap();
    let (undo, _) = state.history_entry_bytes();
    let budget = state.history_bytes() - undo[0];
    state.set_history_options(HistoryOptions { max_bytes: budget, ..Default::default() });
    state.undo().unwrap();
    assert_eq!(state.text(), "a");
    assert!(!state.can_undo());
    state.redo().unwrap();
    state.redo().unwrap();
    assert_eq!(state.text(), "abc");
    assert!(!state.can_redo());
}

#[test]
fn disabling_history_discards_a_large_redo_stack() {
    let mut state = EditorState::new(String::new(), 1);
    for _ in 0..1000 {
        state.replace_selections("x", EditKind::Command).unwrap();
    }
    while state.can_undo() {
        state.undo().unwrap();
    }
    let text = state.text().into_owned();
    state.set_history_options(HistoryOptions { max_bytes: 0, ..Default::default() });
    assert_eq!(state.history_bytes(), 0);
    assert!(!state.can_undo());
    assert!(!state.can_redo());
    assert_eq!(state.text(), text);
    assert_eq!(state.history_capacity(), (0, 0));
}

#[test]
fn undo_after_transaction_restores_text_and_selection() {
    let mut state = EditorState::new("hello world".to_string(), 7);
    state.select(SelectionSet::single(Selection::range(0, 5))).unwrap();
    let mut tx = Transaction::new(state.revision(), vec![edit(0..5, "goodbye")]);
    tx.selection = Some(SelectionSet::single(Selection::caret(7)));
    let change = state.transact(tx).unwrap().unwrap();
    assert_eq!(change.before_revision, 0);
    assert_eq!(change.revision, 1);
    assert_eq!(change.kind, EditKind::Command);
    assert_eq!(state.text(), "goodbye world");
    assert_eq!(state.selections().primary(), Selection::caret(7));
    let undone = state.undo().unwrap();
    assert_eq!(undone.len(), 1);
    assert_eq!(undone[0].kind, EditKind::Undo);
    assert_eq!(state.text(), "hello world");
    assert_eq!(state.selections().primary(), Selection::range(0, 5));
    let redone = state.redo().unwrap();
    assert_eq!(redone.len(), 1);
    assert_eq!(redone[0].kind, EditKind::Redo);
    assert_eq!(state.text(), "goodbye world");
    assert_eq!(state.selections().primary(), Selection::caret(7));
}

#[test]
fn typing_runs_merge_into_one_undo_step() {
    let mut state = EditorState::new(String::new(), 1);
    state.replace_selections("a", EditKind::Typing).unwrap();
    state.replace_selections("b", EditKind::Typing).unwrap();
    state.replace_selections("c", EditKind::Typing).unwrap();
    assert_eq!(state.text(), "abc");
    let undone = state.undo().unwrap();
    assert_eq!(undone.len(), 3);
    assert_eq!(state.text(), "");
    assert!(!state.can_undo());
}

#[test]
fn commands_do_not_merge() {
    let mut state = three_commands();
    state.undo().unwrap();
    assert_eq!(state.text(), "ab");
    state.undo().unwrap();
    assert_eq!(state.text(), "a");
}

#[test]
fn a_new_edit_clears_redo() {
    let mut state = three_commands();
    state.undo().unwrap();
    assert!(state.can_redo());
    state.replace_selections("z", EditKind::Command).unwrap();
    assert!(!state.can_redo());
    assert_eq!(state.text(), "abz");
}

#[test]
fn history_stays_within_its_budget() {
    let mut state = EditorState::new(String::new(), 1);
    state.set_history_options(HistoryOptions { max_bytes: 1, ..Default::default() });
    for _ in 0..5 {
        state.replace_selections("x", EditKind::Command).unwrap();
        assert!(state.history_bytes() <= 1);
    }
    assert_eq!(state.text(), "xxxxx");
}

#[test]
fn stale_revisions_are_rejected_without_change() {
    let mut state = EditorState::new("abc".to_string(), 1);
    let err = state.transact(Transaction::new(5, vec![edit(0..1, "x")])).unwrap_err();
    assert_eq!(err, EditError::StaleRevision { expected: 5, actual: 0 });
    assert_eq!(state.text(), "abc");
    assert_eq!(state.revision(), 0);
}

#[test]
fn invalid_and_overlapping_edits_are_rejected() {
    let mut state = EditorState::new("héllo".to_string(), 1);
    let err = state.transact(Transaction::new(0, vec![edit(2..3, "x")])).unwrap_err();
    assert_eq!(err, EditError::InvalidRange(2..3));
    let err = state.transact(Transaction::new(0, vec![edit(0..3, "x"), edit(1..4, "y")])).unwrap_err();
    assert_eq!(err, EditError::OverlappingEdits);
    assert_eq!(state.text(), "héllo");
}

#[test]
fn invalid_resulting_selection_is_rejected() {
    let mut state = EditorState::new("abc".to_string(), 1);
    let mut tx = Transaction::new(0, vec![edit(0..1, "é")]);
    tx.selection = Some(SelectionSet::single(Selection::caret(1)));
    assert_eq!(state.transact(tx).unwrap_err(), EditError::InvalidSelection);
    assert_eq!(state.text(), "abc");
}

#[test]
fn composition_blocks_transactions_until_committed() {
    let mut state = EditorState::new("ab".to_string(), 1);
    state.select(SelectionSet::single(Selection::caret(1))).unwrap();
    assert!(state.set_composition("xy", Some((1, 1))).unwrap());
    assert!(!state.set_composition("xy", Some((1, 1))).unwrap());
    let err = state.transact(Transaction::new(0, vec![edit(0..0, "z")])).unwrap_err();
    assert_eq!(err, EditError::CompositionActive);
    state.commit_composition("xy").unwrap();
    assert!(state.composition().is_none());
    assert_eq!(state.text(), "axyb");
}

#[test]
fn composition_cursor_must_be_on_char_boundaries() {
    let mut state = EditorState::new(String::new(), 1);
    assert_eq!(state.set_composition("é", Some((1, 1))).unwrap_err(), EditError::InvalidSelection);
    assert!(state.composition().is_none());
}

#[test]
fn anchors_follow_edits_and_undo() {
    let mut state = EditorState::new("abcd".to_string(), 1);
    let after = state.create_anchor(2, Bias::After).unwrap();
    let before = state.create_anchor(2, Bias::Before).unwrap();
    let mut tx = Transaction::new(0, vec![edit(2..2, "XY")]);
    tx.selection = Some(SelectionSet::single(Selection::caret(0)));
    state.transact(tx).unwrap();
    assert_eq!(state.anchor(after).unwrap().byte, 4);
    assert_eq!(state.anchor(before).unwrap().byte, 2);
    state.undo().unwrap();
    assert_eq!(state.anchor(after).unwrap().byte, 2);
    assert!(state.remove_anchor(after));
    assert!(!state.remove_anchor(after));
    assert!(state.anchor(after).is_none());
}

#[test]
fn anchors_reject_positions_inside_characters() {
    let mut state = EditorState::new("é".to_string(), 1);
    assert_eq!(state.create_anchor(1, Bias::After).unwrap_err(), EditError::InvalidSelection);
    assert!(state.create_anchor(2, Bias::After).is_ok());
}

#[test]
fn selecting_all_and_reading_selected_text() {
    let mut state = EditorState::new("one\ntwo".to_string(), 1);
    assert!(state.select_all().unwrap());
    assert!(!state.select_all().unwrap());
    assert_eq!(state.selected_text(), "one\ntwo");
    let set = SelectionSet::new(vec![Selection::range(0, 3), Selection::range(4, 7)], 0).unwrap();
    state.select(set).unwrap();
    assert_eq!(state.selected_text(), "one\ntwo");
}

#[test]
fn replacing_several_selections_places_carets_after_each_insertion() {
    let mut state = EditorState::new("ab cd".to_string(), 1);
    let set = SelectionSet::new(vec![Selection::range(0, 2), Selection::range(3, 5)], 1).unwrap();
    state.select(set).unwrap();
    state.replace_selections("X", EditKind::Paste).unwrap();
    assert_eq!(state.text(), "X X");
    let carets = state.selections().iter();
    assert_eq!(carets, vec![Selection::caret(1), Selection::caret(3)]);
    assert_eq!(state.selections().primary_index(), 1);
}

#[test]
fn deleting_words_and_graphemes() {
    let mut state = EditorState::new("hello  world".to_string(), 1);
    state.select(SelectionSet::single(Selection::caret(12))).unwrap();
    state.delete(false, true).unwrap();
    assert_eq!(state.text(), "hello  ");
    state.delete(false, false).unwrap();
    assert_eq!(state.text(), "hello ");
    let mut accented = EditorState::new("ae\u{301}".to_string(), 2);
    accented.select(SelectionSet::single(Selection::caret(4))).unwrap();
    accented.delete(false, false).unwrap();
    assert_eq!(accented.text(), "a");
    accented.undo().unwrap();
    assert_eq!(accented.text(), "ae\u{301}");
}

#[test]
fn typing_style_changes_report_whether_anything_changed() {
    let mut state = EditorState::new(String::new(), 1);
    assert!(state.set_typing_style(Some(StyleId(3))).unwrap());
    assert!(!state.set_typing_style(Some(StyleId(3))).unwrap());
    assert_eq!(state.typing_style(), Some(StyleId(3)));
    state.replace_selections("x", EditKind::Typing).unwrap();
    let spans = state.document().style_snapshot();
    assert_eq!(spans.len(), 1);
    assert_eq!(spans[0].range, 0..1);
    assert_eq!(spans[0].style, StyleId(3));
}

#[test]
fn observers_restyle_only_when_blankness_changes() {
    let mut state = EditorState::new(String::new(), 3);
    assert!(is_blank(&state));
    let before = (state.generation(), is_blank(&state));
    state.transact(Transaction::new(0, vec![Edit::new(0..0, "hi".to_string())])).unwrap();
    let after = (state.generation(), is_blank(&state));
    assert!(!after.1);
    assert_eq!(observer_invalidation(before, after), Some(Invalidation { layout: false, style: true }));
    let again = (state.generation(), is_blank(&state));
    assert_eq!(observer_invalidation(after, again), None);
    state.transact(Transaction::new(1, vec![Edit::new(2..2, "!".to_string())])).unwrap();
    let more = (state.generation(), is_blank(&state));
    assert_eq!(observer_invalidation(again, more), Some(Invalidation::default()));
}

#[test]
fn breaking_the_group_starts_a_new_undo_step() {
    let mut state = EditorState::new(String::new(), 1);
    state.replace_selections("a", EditKind::Typing).unwrap();
    state.break_history_group();
    state.replace_selections("b", EditKind::Typing).unwrap();
    state.undo().unwrap();
    assert_eq!(state.text(), "a");
    assert!(state.can_undo());
}

#[test]
fn the_last_change_is_the_latest_committed_delta() {
    let mut state = EditorState::new(String::new(), 1);
    assert!(state.last_change().is_none());
    let change = state.replace_selections("ab", EditKind::Typing).unwrap().unwrap();
    let last = state.last_change().unwrap();
    assert_eq!(last.revision, change.revision);
    assert_eq!(last.before_revision, change.before_revision);
    assert!(last.changes.retained_bytes() >= 2);
}

#[test]
fn each_replacement_leaves_a_caret_after_its_insertion() {
    let mut state = EditorState::new(String::new(), 1);
    state.replace_selections("a", EditKind::Command).unwrap();
    state.replace_selections("b", EditKind::Command).unwrap();
    assert!(state.replace_selections("c", EditKind::Command).unwrap().is_some());
    assert_eq!(state.text(), "abc");
    assert_eq!(state.selections().primary(), Selection::caret(3));
    assert_eq!(state.revision(), 3);
}

#[test]
fn a_zero_budget_keeps_no_steps() {
    let mut state = three_commands();
    state.undo().unwrap();
    let text = state.text().to_string();
    state.set_history_options(HistoryOptions { max_bytes: 0, ..Default::default() });
    assert_eq!(state.history_bytes(), 0);
    assert!(!state.can_undo());
    assert!(!state.can_redo());
    assert_eq!(state.text(), text);
}
