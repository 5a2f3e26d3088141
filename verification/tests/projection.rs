use voidui::editing::document::{Bias, ChangeSet};
use voidui::editing::format::{StyleId, StyleSpan};
use voidui::editing::projection::{BlockView, EditBehavior, PositionMap, ProjectedText, Projection, Replacement, ViewId};
use voidui::editing::selection::{Selection, SelectionSet};

#[test]
fn source_backed_blocks_survive_preedit_and_map_both_edges() {
    for range in [0..0, 3..3, 2..5] {
        let mut projection = Projection::new()
            .block_view(BlockView::new(ViewId(1), 0..10).source_backed())
            .block(ViewId(2), 12..16);
        projection.compose(range.clone(), 6);
        assert_eq!(projection.blocks.len(), 2);
        assert_eq!(projection.blocks[0].range, 0..10 - range.len() + 6);
        assert_eq!(projection.blocks[1].range, 12 - range.len() + 6..16 - range.len() + 6);
    }
    let mut opaque = Projection::new().block(ViewId(1), 0..10);
    opaque.compose(3..3, 6);
    assert!(opaque.blocks.is_empty());
}

#[test]
fn preedit_at_replacement_boundaries_keeps_breaks_and_empty_annotations() {
    let plan = Projection::new()
        .replace(Replacement::text(ViewId(1), 1..5, "\n".to_string()))
        .replace(Replacement::text(ViewId(2), 5..5, "hint".to_string()));
    let mut active = plan.active(&SelectionSet::single(Selection::caret(5)), Some(5..5));
    active.compose(5..5, 6);
    assert_eq!(active.replacements[0].range, 1..5);
    assert_eq!(active.replacements[1].range, 11..11);
}

#[test]
fn structured_selection_does_not_reveal_source_and_survives_mapping() {
    let selection = SelectionSet::structured(Selection::caret(2));
    let projection = Projection::new().replace(Replacement::hidden(ViewId(1), 1..4).reveal_on_selection());
    assert_eq!(projection.active(&selection, None).replacements.len(), 1);
    assert!(projection.active(&SelectionSet::single(Selection::caret(2)), None).replacements.is_empty());
    assert!(selection.map(&ChangeSet::default()).is_structured());
}

#[test]
fn preedit_inside_a_replacement_deactivates_it() {
    let plan = Projection::new().replace(Replacement::text(ViewId(1), 2..6, "…".to_string()));
    let caret = SelectionSet::single(Selection::caret(0));
    assert!(plan.active(&caret, Some(3..4)).replacements.is_empty());
    assert!(plan.active(&caret, Some(4..4)).replacements.is_empty());
    assert_eq!(plan.active(&caret, Some(6..6)).replacements.len(), 1);
    assert_eq!(plan.replacements[0].behavior, EditBehavior::Atomic);
}

#[test]
fn composition_maps_styles_around_the_preedit() {
    let mut projection = Projection::new();
    projection.styles = vec![StyleSpan { range: 0..4, style: StyleId(2) }];
    projection.compose(2..2, 3);
    assert_eq!(projection.styles, vec![
        StyleSpan { range: 0..2, style: StyleId(2) },
        StyleSpan { range: 5..7, style: StyleId(2) },
    ]);
}

#[test]
fn deletions_grow_to_whole_atomic_replacements() {
    let plan = Projection::new()
        .replace(Replacement::object(ViewId(1), 2..5))
        .replace(Replacement::hidden(ViewId(2), 8..10));
    assert_eq!(plan.atomic_range(4..6), 2..6);
    assert_eq!(plan.atomic_range(4..9), 2..10);
    assert_eq!(plan.atomic_range(6..7), 6..7);
}

#[test]
fn copied_text_maps_positions_both_ways() {
    let mut projected = ProjectedText::empty(0..5);
    let base = vec![StyleSpan { range: 0..2, style: StyleId(9) }];
    projected.copy("hello", 1..4, &base).unwrap();
    assert_eq!(projected.text, "ell");
    assert_eq!(projected.spans, vec![StyleSpan { range: 0..1, style: StyleId(9) }]);
    assert_eq!(projected.map.to_display(2, Bias::After), 1);
    assert_eq!(projected.map.to_source(1, Bias::After), 2);
    assert!(projected.copy("hello", 3..9, &base).is_err());
    let empty = PositionMap::new(3..7);
    assert_eq!(empty.to_display(5, Bias::Before), 0);
    assert_eq!(empty.to_source(0, Bias::Before), 7);
}

#[test]
fn projecting_copies_gaps_and_shows_replacements() {
    let plan = Projection::new()
        .replace(Replacement::text(ViewId(1), 2..4, "XY".to_string()))
        .replace(Replacement::object(ViewId(2), 6..7));
    let base = vec![StyleSpan { range: 0..8, style: StyleId(1) }];
    let projected = plan.project("abcdefgh", 0..8, &base).unwrap();
    assert_eq!(projected.text, "abXYef\u{fffc}h");
    assert_eq!(projected.source, 0..8);
    assert_eq!(projected.spans, vec![StyleSpan { range: 0..10, style: StyleId(1) }]);
    assert_eq!(projected.map.to_display(5, Bias::After), 5);
    assert_eq!(projected.map.to_display(3, Bias::Before), 2);
    assert_eq!(projected.map.to_display(3, Bias::After), 4);
    assert_eq!(projected.map.to_source(7, Bias::Before), 6);
    assert_eq!(projected.map.to_source(7, Bias::After), 7);
    assert_eq!(projected.map.to_source(10, Bias::After), 8);
    let cut = plan.project("abcdefgh", 1..3, &base).unwrap();
    assert_eq!(cut.text, "bc");
    assert!(plan.project("abcdefgh", 0..9, &base).is_err());
}

#[test]
fn a_text_replacement_maps_its_edges() {
    let p = Projection::new().replace(Replacement::text(ViewId(1), 1..3, String::from("X")));
    let t = p.project("abcd", 0..4, &[]).unwrap();
    assert_eq!(t.text, "aXd");
    assert_eq!(t.map.to_display(0, Bias::After), 0);
    assert_eq!(t.map.to_display(2, Bias::Before), 1);
    assert_eq!(t.map.to_display(2, Bias::After), 2);
    assert_eq!(t.map.to_display(3, Bias::Before), 2);
    assert_eq!(t.map.to_display(4, Bias::After), 3);
    assert!(t.objects.is_empty());
}

#[test]
fn object_replacements_are_listed_with_both_ranges() {
    let p = Projection::new().replace(Replacement::object(ViewId(4), 2..5));
    let t = p.project("abcdefg", 0..7, &[]).unwrap();
    assert_eq!(t.text, "ab\u{fffc}fg");
    assert_eq!(t.objects.len(), 1);
    assert_eq!(t.objects[0].id, ViewId(4));
    assert_eq!(t.objects[0].range, 2..5);
    assert_eq!(t.objects[0].source, 2..5);
}

#[test]
fn plain_projection_round_trips_positions() {
    let src = "héllo wörld";
    let t = Projection::new().project(src, 1..src.len(), &[]).unwrap();
    assert_eq!(t.text, &src[1..]);
    for b in 1..=src.len() {
        for bias in [Bias::Before, Bias::After] {
            let d = t.map.to_display(b, bias);
            assert_eq!(d, b - 1);
            assert_eq!(t.map.to_source(d, bias), b);
        }
    }
}
