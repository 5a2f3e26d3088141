use voidui::editing::document::{ChangeSet, Edit, EditError};
use voidui::editing::projection::{BlockView, Projection, Replacement, ReplacementContent, ViewId, WidgetSpec};
use voidui::editing::state::{EditorState, Transaction};

fn change_set(edit: Edit) -> ChangeSet {
    let mut state = EditorState::new("abcdefgh".to_string(), 1);
    state.transact(Transaction::new(0, vec![edit])).unwrap().unwrap().changes
}

fn widget_id(p: &Projection, index: usize) -> ViewId {
    p.replacements[index].id
}

#[test]
fn validation_sorts_and_gives_widgets_free_handles() {
    let mut plan = Projection::new()
        .replace(Replacement::text(ViewId(1), 5..6, "x".to_string()))
        .replace(Replacement::widget(0..2, WidgetSpec::new(7, 1)))
        .replace(Replacement::object(ViewId(0), 3..4))
        .block_view(BlockView::widget(8..10, WidgetSpec::new(9, 0)));
    assert_eq!(plan.validate("abcdefghijkl"), Ok(()));
    let ranges: Vec<_> = plan.replacements.iter().map(|r| r.range.clone()).collect();
    assert_eq!(ranges, vec![0..2, 3..4, 5..6]);
    assert_eq!(widget_id(&plan, 0), ViewId(2));
    assert_eq!(plan.blocks[0].id, ViewId(3));
}

#[test]
fn validation_refuses_bad_plans() {
    let mut overlapping = Projection::new()
        .replace(Replacement::hidden(ViewId(1), 0..4))
        .replace(Replacement::hidden(ViewId(2), 2..6));
    assert_eq!(overlapping.validate("abcdefgh"), Err(EditError::Rejected("conflicting projection replacements")));
    let mut same_id = Projection::new()
        .replace(Replacement::hidden(ViewId(1), 0..1))
        .block(ViewId(1), 2..4);
    assert_eq!(same_id.validate("abcdefgh"), Err(EditError::Rejected("conflicting block views")));
    let mut outside = Projection::new().replace(Replacement::hidden(ViewId(1), 0..9));
    assert_eq!(outside.validate("abcdefgh"), Err(EditError::InvalidRange(0..9)));
    let mut mismatched = Projection::new().replace(Replacement {
        id: ViewId(3),
        range: 0..1,
        content: ReplacementContent::Object(ViewId(4)),
        behavior: voidui::editing::projection::EditBehavior::Atomic,
    });
    assert_eq!(
        mismatched.validate("abcdefgh"),
        Err(EditError::Rejected("object identity must match replacement identity"))
    );
    let mut straddling = Projection::new()
        .replace(Replacement::hidden(ViewId(1), 1..5))
        .block(ViewId(2), 3..8);
    assert_eq!(straddling.validate("abcdefgh"), Err(EditError::Rejected("inline replacement overlaps block view")));
    let mut keys = Projection::new()
        .replace(Replacement::widget(0..1, WidgetSpec::new(1, 1)).key("a".to_string()))
        .replace(Replacement::widget(2..3, WidgetSpec::new(1, 2)).key("a".to_string()));
    assert_eq!(keys.validate("abcdefgh"), Err(EditError::Rejected("duplicate widget key in projection scope")));
}

#[test]
fn unkeyed_widgets_follow_their_source_and_keyed_ones_their_key() {
    let mut previous = Projection::new()
        .replace(Replacement::widget(2..4, WidgetSpec::new(5, 0)))
        .replace(Replacement::widget(6..7, WidgetSpec::new(5, 0)).key("k".to_string()));
    previous.match_widgets(None, None, false, false).unwrap();
    assert_eq!(widget_id(&previous, 0), ViewId(0));
    assert_eq!(widget_id(&previous, 1), ViewId(1));
    // Two bytes inserted at the start move both widgets.
    let changes = change_set(Edit::new(0..0, "xy".to_string()));
    let mut next = Projection::new()
        .replace(Replacement::widget(4..6, WidgetSpec::new(5, 0)))
        .replace(Replacement::widget(0..1, WidgetSpec::new(5, 3)).key("k".to_string()));
    next.match_widgets(Some(&previous), Some(&changes), true, true).unwrap();
    assert_eq!(widget_id(&next, 0), ViewId(0));
    assert_eq!(widget_id(&next, 1), ViewId(1));
    // Without range matching the unkeyed widget is new.
    let mut fresh = Projection::new().replace(Replacement::widget(4..6, WidgetSpec::new(5, 0)));
    fresh.match_widgets(Some(&previous), Some(&changes), false, true).unwrap();
    assert_eq!(widget_id(&fresh, 0), ViewId(2));
}

#[test]
fn replaced_source_is_a_new_occurrence() {
    let mut previous = Projection::new().replace(Replacement::widget(2..4, WidgetSpec::new(5, 0)));
    previous.match_widgets(None, None, false, false).unwrap();
    let changes = change_set(Edit::new(1..5, "wxyz".to_string()));
    let mut next = Projection::new().replace(Replacement::widget(2..4, WidgetSpec::new(5, 0)));
    next.match_widgets(Some(&previous), Some(&changes), true, true).unwrap();
    assert_eq!(widget_id(&next, 0), ViewId(1));
}

#[test]
fn scoped_widgets_keep_keys_apart() {
    let mut plan = Projection::new()
        .replace(Replacement::widget(0..1, WidgetSpec::new(1, 1)).key("a".to_string()));
    plan.scope_widgets(ViewId(9));
    match &plan.replacements[0].content {
        ReplacementContent::Widget(w) => assert_eq!(w.scope, Some(ViewId(9))),
        _ => panic!("still a widget"),
    }
    let mut both = Projection::new()
        .replace(Replacement::widget(0..1, WidgetSpec::new(1, 1)).key("a".to_string()))
        .replace(Replacement::widget(2..3, WidgetSpec::new(1, 1)).key("a".to_string()));
    match &mut both.replacements[1].content {
        ReplacementContent::Widget(w) => w.scope = Some(ViewId(9)),
        _ => panic!("still a widget"),
    }
    assert_eq!(both.match_widgets(None, None, false, false), Ok(()));
}
