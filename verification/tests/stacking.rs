use voidui::ui::stacking::{is_rendered, PaintEntry, PaintOrder, Phase, Position, StackNode};

fn node(parent: Option<usize>, children: Vec<usize>, position: Position, z_index: Option<i32>) -> StackNode {
    StackNode {
        parent,
        layout_parent: parent,
        children,
        display_none: false,
        top_layer: false,
        in_flex_or_grid: false,
        position,
        z_index,
        transformed: false,
        isolated: false,
        scrolls: false,
        paints_content: true,
        tree_order: 0,
    }
}

fn entries(order: &PaintOrder) -> Vec<(usize, Phase)> {
    order.entries.iter().map(|e: &PaintEntry| (e.id, e.phase)).collect()
}

#[test]
fn negative_layers_paint_below_the_flow_and_positive_above() {
    let mut nodes = vec![
        node(None, vec![1, 2, 3], Position::Static, None),
        node(Some(0), vec![], Position::Relative, Some(1)),
        node(Some(0), vec![], Position::Static, None),
        node(Some(0), vec![], Position::Relative, Some(-1)),
    ];
    for (i, n) in nodes.iter_mut().enumerate() {
        n.tree_order = i;
    }
    let mut order = PaintOrder::new();
    order.rebuild(&nodes, Some(0), &vec![]);
    assert_eq!(
        entries(&order),
        vec![
            (0, Phase::Box),
            (3, Phase::Box),
            (3, Phase::Content),
            (2, Phase::Box),
            (0, Phase::Content),
            (2, Phase::Content),
            (1, Phase::Box),
            (1, Phase::Content),
        ]
    );
    assert_eq!(order.rebuilds, 1);
}

#[test]
fn equal_z_layers_keep_tree_order() {
    let mut nodes = vec![
        node(None, vec![1, 2, 3], Position::Static, None),
        node(Some(0), vec![], Position::Relative, Some(2)),
        node(Some(0), vec![], Position::Relative, Some(1)),
        node(Some(0), vec![], Position::Relative, Some(2)),
    ];
    for (i, n) in nodes.iter_mut().enumerate() {
        n.tree_order = i;
        n.paints_content = false;
    }
    let mut order = PaintOrder::new();
    order.rebuild(&nodes, Some(0), &vec![]);
    assert_eq!(
        entries(&order),
        vec![(0, Phase::Box), (2, Phase::Box), (1, Phase::Box), (3, Phase::Box)]
    );
}

#[test]
fn scroll_controls_stay_above_escaped_descendants() {
    let mut nodes = vec![
        node(None, vec![1], Position::Static, None),
        node(Some(0), vec![2], Position::Static, None),
        node(Some(1), vec![], Position::Relative, Some(5)),
    ];
    for n in nodes.iter_mut() {
        n.paints_content = false;
    }
    nodes[1].scrolls = true;
    let mut order = PaintOrder::new();
    order.rebuild(&nodes, Some(0), &vec![]);
    assert_eq!(
        entries(&order),
        vec![(0, Phase::Box), (1, Phase::Box), (2, Phase::Box), (1, Phase::Scrollbar)]
    );
}

#[test]
fn hidden_and_top_layer_widgets_leave_the_flow() {
    let mut nodes = vec![
        node(None, vec![1, 2], Position::Static, None),
        node(Some(0), vec![], Position::Static, None),
        node(Some(0), vec![3], Position::Static, None),
        node(Some(2), vec![], Position::Static, None),
    ];
    for n in nodes.iter_mut() {
        n.paints_content = false;
    }
    nodes[1].display_none = true;
    nodes[2].top_layer = true;
    assert!(!is_rendered(&nodes, 1));
    assert!(is_rendered(&nodes, 3));
    assert!(!is_rendered(&nodes, 9));
    let mut order = PaintOrder::new();
    order.rebuild(&nodes, Some(0), &vec![2, 1]);
    assert_eq!(
        entries(&order),
        vec![(0, Phase::Box), (2, Phase::Backdrop), (2, Phase::Box), (3, Phase::Box)]
    );
    order.rebuild(&nodes, None, &vec![2]);
    assert!(order.entries.is_empty());
    assert_eq!(order.rebuilds, 2);
}

#[test]
fn flex_items_with_z_index_form_contexts() {
    let mut nodes = vec![
        node(None, vec![1, 2], Position::Static, None),
        node(Some(0), vec![], Position::Static, Some(-2)),
        node(Some(0), vec![], Position::Static, Some(-2)),
    ];
    for (i, n) in nodes.iter_mut().enumerate() {
        n.paints_content = false;
        n.tree_order = i;
    }
    nodes[2].in_flex_or_grid = true;
    let mut order = PaintOrder::new();
    order.rebuild(&nodes, Some(0), &vec![]);
    // A static block ignores its z-index; a flex item stacks by it.
    assert_eq!(entries(&order), vec![(0, Phase::Box), (2, Phase::Box), (1, Phase::Box)]);
}
