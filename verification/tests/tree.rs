use voidui::ui::tree::WidgetTree;

fn sample() -> (WidgetTree, usize, usize, usize, usize) {
    let mut tree = WidgetTree::new();
    let root = tree.build_root();
    let a = tree.append_child(root).unwrap();
    let b = tree.append_child(root).unwrap();
    let c = tree.append_child(root).unwrap();
    (tree, root, a, b, c)
}

#[test]
fn removing_a_child_relinks_its_siblings_and_parent() {
    let (mut tree, root, a, b, c) = sample();
    let inner = tree.append_child(b).unwrap();
    assert!(tree.remove_subtree(b));
    assert!(!tree.live(b));
    assert!(!tree.live(inner));
    assert!(tree.live(a) && tree.live(c));
    assert_eq!(tree.nodes[root].children, vec![a, c]);
    assert_eq!(tree.nodes[a].next_sibling, Some(c));
    assert_eq!(tree.nodes[c].previous_sibling, Some(a));
    assert_eq!(tree.root, Some(root));
    assert!(!tree.remove_subtree(b));
}

#[test]
fn removal_lets_go_of_what_the_subtree_held() {
    let (mut tree, _root, a, b, _c) = sample();
    let inner = tree.append_child(b).unwrap();
    tree.focused = Some(inner);
    tree.hovered = Some(b);
    tree.pressed = Some(a);
    tree.capture = Some(inner);
    assert!(tree.remove_subtree(b));
    assert_eq!(tree.focused, None);
    assert_eq!(tree.hovered, None);
    assert_eq!(tree.pressed, Some(a));
    assert_eq!(tree.capture, None);
}

#[test]
fn removing_the_root_empties_the_tree() {
    let (mut tree, root, a, b, c) = sample();
    assert!(tree.remove_subtree(root));
    assert_eq!(tree.root, None);
    assert!(!tree.live(a) && !tree.live(b) && !tree.live(c));
    assert!(tree.append_child(root).is_none());
}
