//! What the window does with a key press once widgets had their chance:
//! clipboard and selection shortcuts, keyboard activation, typed text and
//! focus traversal. The platform's command key is Super on macOS and Control
//! elsewhere.
use vstd::prelude::*;

verus! {

/// Modifier keys held.
#[derive(Debug, Clone, Copy, Default, PartialEq, Eq, Structural)]
pub struct Modifiers {
    pub shift: bool,
    pub control: bool,
    pub alt: bool,
    pub super_key: bool,
}

/// Named keys the window reacts to.
#[derive(Debug, Clone, Copy, PartialEq, Eq, Structural)]
pub enum NamedKey {
    ArrowLeft,
    ArrowRight,
    ArrowUp,
    ArrowDown,
    Home,
    End,
    Tab,
    Enter,
    Space,
    Other,
}

/// A key as the keyboard layout reports it.
#[derive(Debug)]
pub enum Key {
    Named(NamedKey),
    /// The text the key produces.
    Character(String),
    Unidentified,
}

/// How a selection grows.
#[derive(Debug, Clone, Copy, PartialEq, Eq, Structural)]
pub enum SelectionMove {
    Left,
    Right,
    WordLeft,
    WordRight,
    Up,
    Down,
    LineStart,
    LineEnd,
    DocumentStart,
    DocumentEnd,
}

/// What a key does to the rendered selection.
#[derive(Debug, Clone, Copy, PartialEq, Eq, Structural)]
pub enum SelectionKey {
    Ignored,
    SelectAll,
    Copy,
    Extend(SelectionMove),
}

/// What a key does to the focused text input.
#[derive(Debug)]
pub enum TextKey {
    Unhandled,
    Copy,
    Cut,
    Paste,
    /// Type this text.
    Insert(String),
}

/// The platform's command modifier.
pub open spec fn command(m: Modifiers, mac: bool) -> bool {
    if mac {
        m.super_key
    } else {
        m.control
    }
}

/// Whether `s` is the letter `lower`, in either case.
pub open spec fn is_letter(s: Seq<char>, lower: char, upper: char) -> bool {
    s.len() == 1 && (s[0] == lower || s[0] == upper)
}

/// Whether `k` produces the letter `lower`, in either case.
pub open spec fn key_is(k: Key, lower: char, upper: char) -> bool {
    k matches Key::Character(s) && is_letter(s@, lower, upper)
}

/// The selection shortcut of a key.
pub open spec fn selection_key_spec(pressed: bool, m: Modifiers, key: Key, mac: bool) -> SelectionKey {
    let cmd = command(m, mac);
    let word = if mac {
        m.alt
    } else {
        m.control
    };
    if !pressed {
        SelectionKey::Ignored
    } else if cmd && !m.alt && key_is(key, 'a', 'A') {
        SelectionKey::SelectAll
    } else if cmd && !m.alt && key_is(key, 'c', 'C') {
        SelectionKey::Copy
    } else if !m.shift {
        SelectionKey::Ignored
    } else {
        match key {
            Key::Named(NamedKey::ArrowLeft) => SelectionKey::Extend(
                if cmd && mac {
                    SelectionMove::LineStart
                } else if word {
                    SelectionMove::WordLeft
                } else {
                    SelectionMove::Left
                },
            ),
            Key::Named(NamedKey::ArrowRight) => SelectionKey::Extend(
                if cmd && mac {
                    SelectionMove::LineEnd
                } else if word {
                    SelectionMove::WordRight
                } else {
                    SelectionMove::Right
                },
            ),
            Key::Named(NamedKey::ArrowUp) => SelectionKey::Extend(
                if cmd && mac {
                    SelectionMove::DocumentStart
                } else {
                    SelectionMove::Up
                },
            ),
            Key::Named(NamedKey::ArrowDown) => SelectionKey::Extend(
                if cmd && mac {
                    SelectionMove::DocumentEnd
                } else {
                    SelectionMove::Down
                },
            ),
            Key::Named(NamedKey::Home) => SelectionKey::Extend(
                if cmd {
                    SelectionMove::DocumentStart
                } else {
                    SelectionMove::LineStart
                },
            ),
            Key::Named(NamedKey::End) => SelectionKey::Extend(
                if cmd {
                    SelectionMove::DocumentEnd
                } else {
                    SelectionMove::LineEnd
                },
            ),
            _ => SelectionKey::Ignored,
        }
    }
}

/// Whether a character is a control code (general category Cc).
pub open spec fn is_control(c: char) -> bool {
    (c as u32) <= 0x1f || (0x7f <= (c as u32) && (c as u32) <= 0x9f)
}

/// `s` without its control codes.
pub open spec fn without_controls(s: Seq<char>) -> Seq<char>
    decreases s.len(),
{
    if s.len() == 0 {
        s
    } else {
        let r = without_controls(s.drop_last());
        if is_control(s.last()) {
            r
        } else {
            r.push(s.last())
        }
    }
}

fn letter(s: &str, lower: char, upper: char) -> (r: bool)
    ensures
        r == is_letter(s@, lower, upper),
{
    if s.unicode_len() != 1 {
        return false;
    }
    let c = s.get_char(0);
    c == lower || c == upper
}

fn key_letter(k: &Key, lower: char, upper: char) -> (r: bool)
    ensures
        r == key_is(*k, lower, upper),
{
    match k {
        Key::Character(s) => letter(s.as_str(), lower, upper),
        _ => false,
    }
}

/// Shift with an arrow key extends the selection: off macOS, Control makes it
/// a word step (Control+Shift+Right extends by a word, Shift+Right by a
/// character); on macOS, Option makes it a word step when Command is up.
pub proof fn lemma_shift_arrows_extend(m: Modifiers)
    requires
        m.shift,
    ensures
        m.control ==> selection_key_spec(true, m, Key::Named(NamedKey::ArrowRight), false) == SelectionKey::Extend(
            SelectionMove::WordRight,
        ),
        m.control ==> selection_key_spec(true, m, Key::Named(NamedKey::ArrowLeft), false) == SelectionKey::Extend(
            SelectionMove::WordLeft,
        ),
        !m.control ==> selection_key_spec(true, m, Key::Named(NamedKey::ArrowRight), false) == SelectionKey::Extend(
            SelectionMove::Right,
        ),
        !m.control ==> selection_key_spec(true, m, Key::Named(NamedKey::ArrowLeft), false) == SelectionKey::Extend(
            SelectionMove::Left,
        ),
        m.alt && !m.super_key ==> selection_key_spec(true, m, Key::Named(NamedKey::ArrowRight), true)
            == SelectionKey::Extend(SelectionMove::WordRight),
        m.alt && !m.super_key ==> selection_key_spec(true, m, Key::Named(NamedKey::ArrowLeft), true)
            == SelectionKey::Extend(SelectionMove::WordLeft),
{
}

/// The selection shortcut of a key press.
pub fn selection_key(pressed: bool, m: Modifiers, key: &Key, mac: bool) -> (r: SelectionKey)
    ensures
        r == selection_key_spec(pressed, m, *key, mac),
{
    if !pressed {
        return SelectionKey::Ignored;
    }
    let cmd = if mac {
        m.super_key
    } else {
        m.control
    };
    if cmd && !m.alt {
        if key_letter(key, 'a', 'A') {
            return SelectionKey::SelectAll;
        }
        if key_letter(key, 'c', 'C') {
            return SelectionKey::Copy;
        }
    }
    if !m.shift {
        return SelectionKey::Ignored;
    }
    let word = if mac {
        m.alt
    } else {
        m.control
    };
    match key {
        Key::Named(NamedKey::ArrowLeft) => SelectionKey::Extend(
            if cmd && mac {
                SelectionMove::LineStart
            } else if word {
                SelectionMove::WordLeft
            } else {
                SelectionMove::Left
            },
        ),
        Key::Named(NamedKey::ArrowRight) => SelectionKey::Extend(
            if cmd && mac {
                SelectionMove::LineEnd
            } else if word {
                SelectionMove::WordRight
            } else {
                SelectionMove::Right
            },
        ),
        Key::Named(NamedKey::ArrowUp) => SelectionKey::Extend(
            if cmd && mac {
                SelectionMove::DocumentStart
            } else {
                SelectionMove::Up
            },
        ),
        Key::Named(NamedKey::ArrowDown) => SelectionKey::Extend(
            if cmd && mac {
                SelectionMove::DocumentEnd
            } else {
                SelectionMove::Down
            },
        ),
        Key::Named(NamedKey::Home) => SelectionKey::Extend(
            if cmd {
                SelectionMove::DocumentStart
            } else {
                SelectionMove::LineStart
            },
        ),
        Key::Named(NamedKey::End) => SelectionKey::Extend(
            if cmd {
                SelectionMove::DocumentEnd
            } else {
                SelectionMove::LineEnd
            },
        ),
        _ => SelectionKey::Ignored,
    }
}

/// Whether a key press clicks the focused widget: Enter or Space, pressed
/// without repeat and without Control, Alt or Super.
pub fn activation_key(pressed: bool, repeat: bool, m: Modifiers, key: &Key) -> (r: bool)
    ensures
        r == (pressed && !repeat && !m.control && !m.alt && !m.super_key && (*key == Key::Named(NamedKey::Enter)
            || *key == Key::Named(NamedKey::Space))),
{
    if !pressed || repeat || m.control || m.alt || m.super_key {
        return false;
    }
    match key {
        Key::Named(NamedKey::Enter) | Key::Named(NamedKey::Space) => true,
        _ => false,
    }
}

/// Whether an unclaimed key press moves focus, and whether backwards: Tab
/// without Control, Alt or Super; Shift reverses.
pub fn focus_traversal(pressed: bool, m: Modifiers, key: &Key) -> (r: Option<bool>)
    ensures
        r == if pressed && *key == Key::Named(NamedKey::Tab) && !m.control && !m.alt && !m.super_key {
            Some(m.shift)
        } else {
            None::<bool>
        },
{
    let tab = match key {
        Key::Named(NamedKey::Tab) => true,
        _ => false,
    };
    if pressed && tab && !m.control && !m.alt && !m.super_key {
        Some(m.shift)
    } else {
        None
    }
}

fn control_char(c: char) -> (r: bool)
    ensures
        r == is_control(c),
{
    (c as u32) <= 0x1f || (0x7f <= (c as u32) && (c as u32) <= 0x9f)
}

/// `s` without its control codes.
pub fn strip_controls(s: &str) -> (r: String)
    ensures
        r@ == without_controls(s@),
{
    let mut out = String::new();
    let n = s.unicode_len();
    let mut i: usize = 0;
    proof {
        assert(s@.take(0) =~= Seq::<char>::empty());
    }
    while i < n
        invariant
            n == s@.len(),
            i <= n,
            out@ == without_controls(s@.take(i as int)),
        decreases n - i,
    {
        let c = s.get_char(i);
        proof {
            assert(s@.take(i + 1).drop_last() =~= s@.take(i as int));
            assert(s@.take(i + 1).last() == c);
        }
        if !control_char(c) {
            let piece = s.substring_char(i, i + 1);
            out.append(piece);
            assert(piece@ =~= seq![c]);
        }
        assert(out@ =~= without_controls(s@.take(i + 1)));
        i = i + 1;
    }
    assert(s@.take(n as int) =~= s@);
    out
}

/// What a key press does to the focused text input when the input itself
/// did not handle it and no composition is active. `text` is what the key
/// types.
pub fn text_key(m: Modifiers, key: &Key, text: Option<&str>, mac: bool) -> (r: TextKey)
    ensures
        command(m, mac) && !m.alt && key_is(*key, 'c', 'C') ==> r is Copy,
        command(m, mac) && !m.alt && key_is(*key, 'x', 'X') ==> r is Cut,
        command(m, mac) && !m.alt && key_is(*key, 'v', 'V') ==> r is Paste,
        !(command(m, mac) && !m.alt && (key_is(*key, 'c', 'C') || key_is(*key, 'x', 'X') || key_is(*key, 'v', 'V')))
            ==> {
            let shortcut = m.super_key || (m.control && !m.alt);
            if *key == Key::Named(NamedKey::Tab) || shortcut || text is None || without_controls(text->Some_0@).len()
                == 0 {
                r is Unhandled
            } else {
                r matches TextKey::Insert(t) && t@ == without_controls(text->Some_0@)
            }
        },
{
    let cmd = if mac {
        m.super_key
    } else {
        m.control
    };
    if cmd && !m.alt {
        if key_letter(key, 'c', 'C') {
            return TextKey::Copy;
        }
        if key_letter(key, 'x', 'X') {
            return TextKey::Cut;
        }
        if key_letter(key, 'v', 'V') {
            return TextKey::Paste;
        }
    }
    let tab = match key {
        Key::Named(NamedKey::Tab) => true,
        _ => false,
    };
    if tab {
        return TextKey::Unhandled;
    }
    let shortcut = m.super_key || (m.control && !m.alt);
    if !shortcut {
        if let Some(t) = text {
            let typed = strip_controls(t);
            if typed.unicode_len() > 0 {
                return TextKey::Insert(typed);
            }
        }
    }
    TextKey::Unhandled
}

} // verus!
