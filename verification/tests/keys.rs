use voidui::ui::keys::{
    activation_key, focus_traversal, selection_key, strip_controls, text_key, Key, Modifiers, NamedKey,
    SelectionKey, SelectionMove, TextKey,
};

fn mods(shift: bool, control: bool, alt: bool, super_key: bool) -> Modifiers {
    Modifiers { shift, control, alt, super_key }
}

#[test]
fn selection_shortcuts_follow_the_platform_command_key() {
    let a = Key::Character("A".to_string());
    assert_eq!(selection_key(true, mods(false, true, false, false), &a, false), SelectionKey::SelectAll);
    assert_eq!(selection_key(true, mods(false, true, false, false), &a, true), SelectionKey::Ignored);
    assert_eq!(selection_key(true, mods(false, false, false, true), &a, true), SelectionKey::SelectAll);
    assert_eq!(selection_key(false, mods(false, true, false, false), &a, false), SelectionKey::Ignored);
    let c = Key::Character("c".to_string());
    assert_eq!(selection_key(true, mods(false, true, false, false), &c, false), SelectionKey::Copy);
    assert_eq!(selection_key(true, mods(false, true, true, false), &c, false), SelectionKey::Ignored);
    let ab = Key::Character("ab".to_string());
    assert_eq!(selection_key(true, mods(false, true, false, false), &ab, false), SelectionKey::Ignored);
}

#[test]
fn shifted_arrows_extend_by_character_word_line_or_document() {
    let left = Key::Named(NamedKey::ArrowLeft);
    assert_eq!(selection_key(true, mods(true, false, false, false), &left, false), SelectionKey::Extend(SelectionMove::Left));
    assert_eq!(selection_key(true, mods(true, true, false, false), &left, false), SelectionKey::Extend(SelectionMove::WordLeft));
    assert_eq!(selection_key(true, mods(true, false, true, false), &left, true), SelectionKey::Extend(SelectionMove::WordLeft));
    assert_eq!(selection_key(true, mods(true, false, false, true), &left, true), SelectionKey::Extend(SelectionMove::LineStart));
    let up = Key::Named(NamedKey::ArrowUp);
    assert_eq!(selection_key(true, mods(true, false, false, true), &up, true), SelectionKey::Extend(SelectionMove::DocumentStart));
    assert_eq!(selection_key(true, mods(true, true, false, false), &up, false), SelectionKey::Extend(SelectionMove::Up));
    let home = Key::Named(NamedKey::Home);
    assert_eq!(selection_key(true, mods(true, true, false, false), &home, false), SelectionKey::Extend(SelectionMove::DocumentStart));
    assert_eq!(selection_key(true, mods(true, false, false, false), &Key::Named(NamedKey::End), false), SelectionKey::Extend(SelectionMove::LineEnd));
    assert_eq!(selection_key(true, mods(false, false, false, false), &left, false), SelectionKey::Ignored);
}

#[test]
fn enter_and_space_activate_without_modifiers_or_repeat() {
    let enter = Key::Named(NamedKey::Enter);
    assert!(activation_key(true, false, Modifiers::default(), &enter));
    assert!(activation_key(true, false, mods(true, false, false, false), &Key::Named(NamedKey::Space)));
    assert!(!activation_key(true, true, Modifiers::default(), &enter));
    assert!(!activation_key(false, false, Modifiers::default(), &enter));
    assert!(!activation_key(true, false, mods(false, true, false, false), &enter));
    assert!(!activation_key(true, false, Modifiers::default(), &Key::Character("a".to_string())));
}

#[test]
fn tab_moves_focus_and_shift_reverses() {
    let tab = Key::Named(NamedKey::Tab);
    assert_eq!(focus_traversal(true, Modifiers::default(), &tab), Some(false));
    assert_eq!(focus_traversal(true, mods(true, false, false, false), &tab), Some(true));
    assert_eq!(focus_traversal(true, mods(false, false, true, false), &tab), None);
    assert_eq!(focus_traversal(false, Modifiers::default(), &tab), None);
}

#[test]
fn typed_text_drops_control_codes_and_shortcuts() {
    assert_eq!(strip_controls("a\u{8}b\u{7f}c\u{85}é"), "abcé");
    match text_key(Modifiers::default(), &Key::Character("x".to_string()), Some("x\r"), false) {
        TextKey::Insert(t) => assert_eq!(t, "x"),
        _ => panic!("typing inserts"),
    }
    assert!(matches!(text_key(Modifiers::default(), &Key::Unidentified, Some("\u{1b}"), false), TextKey::Unhandled));
    let ctrl = mods(false, true, false, false);
    assert!(matches!(text_key(ctrl, &Key::Character("X".to_string()), Some("x"), false), TextKey::Cut));
    assert!(matches!(text_key(ctrl, &Key::Character("v".to_string()), None, false), TextKey::Paste));
    assert!(matches!(text_key(ctrl, &Key::Character("c".to_string()), None, false), TextKey::Copy));
    assert!(matches!(text_key(ctrl, &Key::Character("z".to_string()), Some("z"), false), TextKey::Unhandled));
    // AltGr text comes through Control with Alt.
    match text_key(mods(false, true, true, false), &Key::Character("@".to_string()), Some("@"), false) {
        TextKey::Insert(t) => assert_eq!(t, "@"),
        _ => panic!("AltGr text inserts"),
    }
    assert!(matches!(text_key(Modifiers::default(), &Key::Named(NamedKey::Tab), Some("\t"), false), TextKey::Unhandled));
}
