//! Stable source anchors. They are mapped through committed edits and
//! undo/redo; view-only folding and highlighting never move them.
use super::document::{map_spec, total_inserted, Bias, ChangeSet};
use vstd::prelude::*;

verus! {

/// Identity of an anchor; never reused within one editor.
#[derive(Debug, Clone, Copy, PartialEq, Eq, PartialOrd, Ord, Hash, Structural)]
pub struct AnchorId(pub u64);

/// A source byte and the side of an edit it sticks to.
#[derive(Debug, Clone, Copy, PartialEq, Eq, Structural)]
pub struct Anchor {
    pub byte: usize,
    pub bias: Bias,
}

/// Live anchors in creation order, with the next identity to hand out.
#[derive(Debug)]
pub struct Anchors {
    pub next: u64,
    pub positions: Vec<(AnchorId, Anchor)>,
}

/// The anchor registered under `id`, if any.
pub open spec fn anchor_in(positions: Seq<(AnchorId, Anchor)>, id: AnchorId) -> Option<Anchor>
    decreases positions.len(),
{
    if positions.len() == 0 {
        None
    } else if positions[0].0 == id {
        Some(positions[0].1)
    } else {
        anchor_in(positions.drop_first(), id)
    }
}

impl Anchors {
    /// Identities increase in creation order and stay below `next`.
    pub open spec fn wf(&self) -> bool {
        &&& forall|i: int, j: int|
            0 <= i < j < self.positions@.len() ==> (#[trigger] self.positions@[i]).0.0 < (#[trigger] self.positions@[j]).0.0
        &&& forall|i: int| 0 <= i < self.positions@.len() ==> (#[trigger] self.positions@[i]).0.0 < self.next
    }

    pub open spec fn get_spec(&self, id: AnchorId) -> Option<Anchor> {
        anchor_in(self.positions@, id)
    }

    /// Every anchor lies at or before `len`.
    pub open spec fn within(&self, len: int) -> bool {
        forall|i: int| 0 <= i < self.positions@.len() ==> (#[trigger] self.positions@[i]).1.byte <= len
    }

    pub fn new() -> (a: Self)
        ensures
            a.wf(),
            a.next == 0,
            a.positions@.len() == 0,
    {
        Anchors { next: 0, positions: Vec::new() }
    }

    /// Move every anchor through `changes`, each by its own bias.
    pub fn map(&mut self, changes: &ChangeSet)
        requires
            changes.wf(),
            forall|i: int|
                0 <= i < old(self).positions@.len() ==> (#[trigger] old(self).positions@[i]).1.byte + total_inserted(changes@) <= usize::MAX,
        ensures
            final(self).next == old(self).next,
            final(self).positions@.len() == old(self).positions@.len(),
            forall|i: int|
                0 <= i < old(self).positions@.len() ==> (#[trigger] final(self).positions@[i]) == (
                old(self).positions@[i].0,
                Anchor {
                    byte: map_spec(changes@, old(self).positions@[i].1.byte as int, old(self).positions@[i].1.bias) as usize,
                    bias: old(self).positions@[i].1.bias,
                },
            ),
    {
        let ghost before = self.positions@;
        let mut i: usize = 0;
        while i < self.positions.len()
            invariant
                self.next == old(self).next,
                before == old(self).positions@,
                self.positions@.len() == before.len(),
                0 <= i <= before.len(),
                changes.wf(),
                forall|t: int| 0 <= t < before.len() ==> (#[trigger] before[t]).1.byte + total_inserted(changes@) <= usize::MAX,
                forall|t: int| i <= t < before.len() ==> (#[trigger] self.positions@[t]) == before[t],
                forall|t: int|
                    0 <= t < i ==> (#[trigger] self.positions@[t]) == (
                        before[t].0,
                        Anchor {
                            byte: map_spec(changes@, before[t].1.byte as int, before[t].1.bias) as usize,
                            bias: before[t].1.bias,
                        },
                    ),
            decreases before.len() - i,
        {
            let (id, anchor) = self.positions[i];
            assert(before[i as int] == (id, anchor));
            let byte = changes.map(anchor.byte, anchor.bias);
            self.positions.set(i, (id, Anchor { byte, bias: anchor.bias }));
            i += 1;
        }
    }
}

} // verus!
