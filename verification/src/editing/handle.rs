//! What the views observing a shared session redo after an update. A view
//! only repaints, unless the session turned blank or stopped being blank,
//! which can change its placeholder styling.
use super::document::utf8;
use super::state::EditorState;
use crate::ui::updates::Invalidation;
use vstd::prelude::*;

verus! {

/// Whether a session shows nothing: no text and no preedit.
pub open spec fn blank(s: EditorState) -> bool {
    utf8(s.document_view()@).len() == 0 && !s.composing()
}

/// Whether a session shows nothing.
pub fn is_blank(state: &EditorState) -> (r: bool)
    ensures
        r == blank(*state),
{
    state.document().is_empty() && state.composition().is_none()
}

/// What each observer redoes after an update that moved the session from
/// `before` to `after`, given as generation and blankness: nothing when the
/// generation stayed, a restyle when blankness changed, else a repaint.
pub fn observer_invalidation(before: (u64, bool), after: (u64, bool)) -> (r: Option<Invalidation>)
    ensures
        before.0 == after.0 ==> r is None,
        before.0 != after.0 && before.1 != after.1 ==> r == Some(Invalidation { layout: false, style: true }),
        before.0 != after.0 && before.1 == after.1 ==> r == Some(Invalidation { layout: false, style: false }),
{
    if before.0 == after.0 {
        None
    } else if before.1 != after.1 {
        Some(Invalidation { layout: false, style: true })
    } else {
        Some(Invalidation { layout: false, style: false })
    }
}

} // verus!
