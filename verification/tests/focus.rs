use voidui::ui::focus::{FocusNode, FocusTree, TopLayerError, Visibility};
use voidui::ui::widget::{TopLayerKind, WidgetStatus};

fn node(parent: Option<usize>, children: Vec<usize>, order: usize) -> FocusNode {
    FocusNode {
        parent,
        children,
        tree_order: order,
        inert: false,
        disabled: false,
        autofocus: false,
        open: false,
        tabindex: None,
        form_control: false,
        visibility: Visibility::Visible,
        display_none: false,
        top_layer: None,
        status: WidgetStatus::default(),
        focused_descendants: 0,
    }
}

/// A document with three focusable controls and a dialog holding two buttons.
fn document() -> FocusTree {
    let mut nodes = vec![
        node(None, vec![1, 2, 3, 4], 0),
        node(Some(0), vec![], 1),
        node(Some(0), vec![], 2),
        node(Some(0), vec![], 3),
        node(Some(0), vec![5, 6], 4),
        node(Some(4), vec![], 5),
        node(Some(4), vec![], 6),
    ];
    nodes[1].form_control = true;
    nodes[2].tabindex = Some(2);
    nodes[3].form_control = true;
    nodes[5].form_control = true;
    nodes[6].form_control = true;
    nodes[6].autofocus = true;
    FocusTree {
        nodes,
        root: Some(0),
        top_layers: vec![],
        focused: None,
        styles_pending: false,
        style_mask: 0,
        css_dirty: false,
    }
}

#[test]
fn positive_tab_indices_come_first_and_traversal_wraps() {
    let mut tree = document();
    let mut order = vec![];
    for _ in 0..6 {
        assert!(tree.focus_next(false));
        order.push(tree.focused().unwrap());
    }
    assert_eq!(order, vec![2, 1, 3, 5, 6, 2]);
    assert!(tree.focus_next(true));
    assert_eq!(tree.focused(), Some(6));
    assert!(tree.nodes[6].status.is_focused());
    assert!(!tree.nodes[2].status.is_focused());
    assert_eq!(tree.nodes[4].focused_descendants, 1);
    assert_eq!(tree.nodes[0].focused_descendants, 1);
    assert_eq!(tree.nodes[2].focused_descendants, 0);
}

#[test]
fn disabled_hidden_and_negative_widgets_are_skipped() {
    let mut tree = document();
    tree.nodes[2].tabindex = Some(-1);
    tree.nodes[1].disabled = true;
    tree.nodes[3].visibility = Visibility::Hidden;
    tree.nodes[4].display_none = true;
    assert!(!tree.focus_next(false));
    assert_eq!(tree.focused(), None);
    assert!(!tree.set_focused(Some(1)));
    tree.nodes[4].display_none = false;
    assert!(tree.focus_next(false));
    assert_eq!(tree.focused(), Some(5));
    assert!(!tree.set_focused(Some(5)));
}

#[test]
fn a_modal_traps_focus_and_restores_it_on_close() {
    let mut tree = document();
    assert!(tree.set_focused(Some(3)));
    assert_eq!(tree.show_modal(4), Ok(true));
    assert!(tree.nodes[4].open);
    assert_eq!(tree.focused(), Some(6));
    assert!(tree.is_inert(1));
    assert!(!tree.is_inert(5));
    assert!(!tree.set_focused(Some(1)));
    let mut order = vec![];
    for _ in 0..3 {
        tree.focus_next(false);
        order.push(tree.focused().unwrap());
    }
    assert_eq!(order, vec![5, 6, 5]);
    // Opening an already-open modal is a no-op.
    assert_eq!(tree.show_modal(4), Ok(false));
    assert_eq!(tree.show_popover(4), Err(TopLayerError::ModeChange));
    assert!(tree.close_top_layer(4));
    assert!(!tree.nodes[4].open);
    assert_eq!(tree.top_layer_kind(4), None);
    assert_eq!(tree.focused(), Some(3));
    assert!(!tree.is_inert(1));
    // Closing again is a no-op.
    assert!(!tree.close_top_layer(4));
}

#[test]
fn the_root_and_stale_widgets_cannot_enter_the_top_layer() {
    let mut tree = document();
    assert_eq!(tree.show_modal(0), Err(TopLayerError::Root));
    assert_eq!(tree.show_popover(99), Err(TopLayerError::Stale));
    assert_eq!(tree.show_popover(4), Ok(true));
    assert_eq!(tree.focused(), None);
    assert!(tree.is_top_layer(4));
    assert_eq!(tree.top_layer(), vec![4]);
    assert!(!tree.is_inert(1));
}

#[test]
fn closing_a_layer_closes_the_layers_inside_it() {
    let mut tree = document();
    assert_eq!(tree.show_popover(4), Ok(true));
    assert_eq!(tree.show_modal(5), Ok(true));
    assert_eq!(tree.focused(), Some(5));
    assert_eq!(tree.show_popover(1), Ok(true));
    assert!(tree.close_top_layer(4));
    assert_eq!(tree.top_layer(), vec![1]);
    assert_eq!(tree.top_layer_kind(5), None);
    assert!(!tree.nodes[5].open);
    // Focus was inside; nothing was focused before, and no modal is left.
    assert_eq!(tree.focused(), None);
    assert!(!tree.nodes[5].status.is_focused());
    assert_eq!(tree.nodes[0].focused_descendants, 0);
}

#[test]
fn status_changes_report_selected_flags() {
    let mut tree = document();
    tree.style_mask = 4;
    let mut status = WidgetStatus::default();
    status.set_hovered(true);
    assert!(!tree.set_status(1, status));
    assert!(!tree.css_dirty);
    status.set_focused(true);
    assert!(tree.set_status(1, status));
    assert!(tree.css_dirty);
    assert_eq!(tree.nodes[0].focused_descendants, 1);
    assert!(!tree.set_status(1, status));
}

#[test]
fn opening_a_modal_marks_it_open_and_makes_the_rest_inert() {
    let mut tree = document();
    assert!(tree.show_modal(0).is_err());
    assert_eq!(tree.show_modal(4), Ok(true));
    assert_eq!(tree.show_modal(4), Ok(false));
    assert_eq!(tree.active_modal(), Some(4));
    assert!(tree.is_inert(1));
    assert!(!tree.is_inert(5));
    assert!(tree.nodes[4].open);
    assert!(tree.is_top_layer(4));
    assert_eq!(tree.focused(), Some(6));
}

#[test]
fn a_popover_is_recorded_once_and_keeps_focus() {
    let mut tree = document();
    assert!(tree.focus_next(false));
    let before = tree.focused();
    assert_eq!(tree.show_popover(3), Ok(true));
    assert!(tree.is_top_layer(3));
    assert_eq!(tree.show_popover(3), Ok(false));
    assert_eq!(tree.top_layer(), vec![3]);
    assert_eq!(tree.focused(), before);
}
