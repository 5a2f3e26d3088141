//! Ordered hook slots of a component. Each render hands out slots in call
//! order; slots are created on the first render only, so the calls must be
//! unconditional and in a stable order.
use vstd::prelude::*;

verus! {

/// Slot bookkeeping of one render of a component.
#[derive(Debug, Clone, Copy, PartialEq, Eq, Structural)]
pub struct HookFrame {
    /// Slots the component has.
    pub len: usize,
    /// A render of the component completed before.
    pub initialized: bool,
    /// The next slot to hand out.
    pub cursor: usize,
    /// A slot's initializer is running.
    pub initializing: bool,
}

/// The slot a hook call gets.
#[derive(Debug, Clone, Copy, PartialEq, Eq, Structural)]
pub enum HookSlot {
    /// The slot exists; its value is reused.
    Existing(usize),
    /// The slot is created now; its initializer runs.
    New(usize),
}

impl HookFrame {
    /// Handed-out slots exist, but for the one whose initializer runs.
    pub open spec fn wf(&self) -> bool {
        if self.initializing {
            self.cursor == self.len + 1
        } else {
            self.cursor <= self.len
        }
    }

    /// Starts a render of a component that has `len` slots.
    pub fn begin(len: usize, initialized: bool) -> (f: HookFrame)
        ensures
            f == (HookFrame { len, initialized, cursor: 0, initializing: false }),
            f.wf(),
    {
        HookFrame { len, initialized, cursor: 0, initializing: false }
    }

    /// The slot of the next hook call. After a completed render a call past
    /// the known slots is a changed hook count; a call while an initializer
    /// runs is a nested hook; neither is allowed.
    pub fn next_slot(&mut self) -> (r: HookSlot)
        requires
            old(self).wf(),
            !old(self).initializing,
            old(self).initialized ==> old(self).cursor < old(self).len,
            old(self).cursor < usize::MAX,
        ensures
            final(self).wf(),
            final(self).cursor == old(self).cursor + 1,
            final(self).len == old(self).len,
            final(self).initialized == old(self).initialized,
            r == if old(self).cursor < old(self).len {
                HookSlot::Existing(old(self).cursor)
            } else {
                HookSlot::New(old(self).cursor)
            },
            final(self).initializing == (r is New),
    {
        let index = self.cursor;
        self.cursor = self.cursor + 1;
        if index < self.len {
            HookSlot::Existing(index)
        } else {
            self.initializing = true;
            HookSlot::New(index)
        }
    }

    /// The new slot's initializer finished; the slot now exists.
    pub fn created(&mut self)
        requires
            old(self).wf(),
            old(self).initializing,
        ensures
            final(self).wf(),
            *final(self) == (HookFrame { len: (old(self).len + 1) as usize, initializing: false, ..*old(self) }),
    {
        self.initializing = false;
        self.len = self.len + 1;
    }

    /// Ends the render. After a completed render, every slot must have been
    /// asked for again.
    pub fn finish(&mut self)
        requires
            old(self).wf(),
            !old(self).initializing,
            old(self).initialized ==> old(self).len == old(self).cursor,
        ensures
            *final(self) == (HookFrame { initialized: true, ..*old(self) }),
    {
        self.initialized = true;
    }
}

} // verus!
