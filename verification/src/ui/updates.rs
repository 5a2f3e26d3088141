//! Coalesced invalidation for retained custom widgets. Requests for one widget
//! merge into a single pending entry; the host is woken only when the queue
//! turns non-empty.
use vstd::prelude::*;

verus! {

/// Work a widget asks for beyond a repaint.
#[derive(Debug, Clone, Copy, Default, PartialEq, Eq, Structural)]
pub struct Invalidation {
    pub layout: bool,
    pub style: bool,
}

/// Pending widget invalidations, keyed by widget, one entry per widget.
pub struct WidgetQueue {
    pub pending: Vec<(u64, Invalidation)>,
    pub paint_dirty: bool,
}

/// Index of the entry for `id`, if any.
pub open spec fn entry_of(pending: Seq<(u64, Invalidation)>, id: u64) -> Option<int> {
    if exists|i: int| 0 <= i < pending.len() && (#[trigger] pending[i]).0 == id {
        Some(choose|i: int| 0 <= i < pending.len() && (#[trigger] pending[i]).0 == id)
    } else {
        None
    }
}

/// What the queue holds for `id`: the union of every request since the last drain.
pub open spec fn pending_for(pending: Seq<(u64, Invalidation)>, id: u64) -> Option<Invalidation> {
    match entry_of(pending, id) {
        Some(i) => Some(pending[i].1),
        None => None,
    }
}

impl WidgetQueue {
    /// Each widget has at most one entry.
    pub open spec fn wf(&self) -> bool {
        forall|i: int, j: int|
            0 <= i < j < self.pending@.len() ==> (#[trigger] self.pending@[i]).0 != (#[trigger] self.pending@[j]).0
    }

    pub fn new() -> (q: Self)
        ensures
            q.wf(),
            q.pending@.len() == 0,
            !q.paint_dirty,
    {
        WidgetQueue { pending: Vec::new(), paint_dirty: false }
    }

    /// Mark paint dirty. Returns whether the host must be woken: only the first
    /// request after a frame wakes it.
    pub fn repaint(&mut self) -> (wake: bool)
        ensures
            wake == !old(self).paint_dirty,
            final(self).paint_dirty,
            final(self).pending == old(self).pending,
    {
        let wake = !self.paint_dirty;
        self.paint_dirty = true;
        wake
    }

    /// Merge `value` into the entry of widget `id`. Returns whether the host
    /// must be woken: the queue was empty before.
    pub fn invalidate(&mut self, id: u64, value: Invalidation) -> (wake: bool)
        requires
            old(self).wf(),
        ensures
            final(self).wf(),
            wake == (old(self).pending@.len() == 0),
            final(self).paint_dirty == old(self).paint_dirty,
            pending_for(final(self).pending@, id) == Some(match pending_for(old(self).pending@, id) {
                Some(p) => Invalidation { layout: p.layout || value.layout, style: p.style || value.style },
                None => value,
            }),
            forall|other: u64| other != id ==> pending_for(final(self).pending@, other) == pending_for(old(self).pending@, other),
    {
        let wake = self.pending.len() == 0;
        let ghost before = self.pending@;
        let ghost dirty = self.paint_dirty;
        let mut i: usize = 0;
        while i < self.pending.len()
            invariant
                self.pending@ == before,
                self.paint_dirty == dirty,
                dirty == old(self).paint_dirty,
                before == old(self).pending@,
                old(self).wf(),
                wake == (before.len() == 0),
                0 <= i <= before.len(),
                forall|t: int| 0 <= t < i ==> (#[trigger] before[t]).0 != id,
            decreases before.len() - i,
        {
            if self.pending[i].0 == id {
                let old_entry = self.pending[i].1;
                let merged = Invalidation {
                    layout: old_entry.layout || value.layout,
                    style: old_entry.style || value.style,
                };
                self.pending.set(i, (id, merged));
                proof {
                    let after = self.pending@;
                    assert(before[i as int].0 == id);
                    assert(entry_of(before, id) == Some(i as int)) by {
                        let k = choose|k: int| 0 <= k < before.len() && (#[trigger] before[k]).0 == id;
                        if k != i {
                            assert(before[k].0 == before[i as int].0);
                        }
                    }
                    assert(after[i as int].0 == id);
                    assert(entry_of(after, id) == Some(i as int)) by {
                        let k = choose|k: int| 0 <= k < after.len() && (#[trigger] after[k]).0 == id;
                        if k != i {
                            assert(after[k] == before[k]);
                            assert(before[k].0 == before[i as int].0);
                        }
                    }
                    assert forall|other: u64| other != id implies pending_for(after, other) == pending_for(before, other) by {
                        if exists|k: int| 0 <= k < before.len() && (#[trigger] before[k]).0 == other {
                            let k = choose|k: int| 0 <= k < before.len() && (#[trigger] before[k]).0 == other;
                            assert(after[k] == before[k]);
                            let k2 = choose|k2: int| 0 <= k2 < after.len() && (#[trigger] after[k2]).0 == other;
                            if k2 != k {
                                assert(after[k2] == before[k2]);
                                assert(before[k2].0 == before[k].0);
                            }
                        } else {
                            assert forall|k: int| 0 <= k < after.len() implies (#[trigger] after[k]).0 != other by {
                                if k != i {
                                    assert(after[k] == before[k]);
                                }
                            }
                        }
                    }
                    assert forall|a: int, b: int| 0 <= a < b < after.len() implies (#[trigger] after[a]).0 != (#[trigger] after[b]).0 by {
                        assert(after[a].0 == before[a].0);
                        assert(after[b].0 == before[b].0);
                    }
                }
                return wake;
            }
            i += 1;
        }
        self.pending.push((id, value));
        proof {
            let after = self.pending@;
            let n = before.len() as int;
            assert(after[n].0 == id);
            assert(entry_of(after, id) == Some(n)) by {
                let k = choose|k: int| 0 <= k < after.len() && (#[trigger] after[k]).0 == id;
                if k != n {
                    assert(after[k] == before[k]);
                }
            }
            assert forall|other: u64| other != id implies pending_for(after, other) == pending_for(before, other) by {
                if exists|k: int| 0 <= k < before.len() && (#[trigger] before[k]).0 == other {
                    let k = choose|k: int| 0 <= k < before.len() && (#[trigger] before[k]).0 == other;
                    assert(after[k] == before[k]);
                    let k2 = choose|k2: int| 0 <= k2 < after.len() && (#[trigger] after[k2]).0 == other;
                    if k2 != k {
                        assert(k2 < n);
                        assert(after[k2] == before[k2]);
                    }
                } else {
                    assert forall|k: int| 0 <= k < after.len() implies (#[trigger] after[k]).0 != other by {
                        if k < n {
                            assert(after[k] == before[k]);
                        }
                    }
                }
            }
            assert forall|a: int, b: int| 0 <= a < b < after.len() implies (#[trigger] after[a]).0 != (#[trigger] after[b]).0 by {
                if b < n {
                    assert(after[a] == before[a]);
                    assert(after[b] == before[b]);
                } else {
                    assert(after[a] == before[a]);
                }
            }
        }
        wake
    }

    /// Hand out every pending entry and leave the queue empty.
    pub fn take(&mut self) -> (r: Vec<(u64, Invalidation)>)
        requires
            old(self).wf(),
        ensures
            r@ == old(self).pending@,
            final(self).pending@.len() == 0,
            final(self).wf(),
            final(self).paint_dirty == old(self).paint_dirty,
    {
        let mut taken: Vec<(u64, Invalidation)> = Vec::new();
        std::mem::swap(&mut taken, &mut self.pending);
        taken
    }
}

} // verus!
