//! Interaction status flags and update results of retained widgets.
use vstd::prelude::*;

verus! {

/// Result of applying new inputs to a retained widget.
#[derive(Clone, Copy, Debug, PartialEq, Eq, Structural)]
pub enum WidgetUpdate {
    /// No layout or paint work is required for the widget's own inputs.
    Unchanged,
    /// Inputs were applied and may affect layout or drawing.
    Changed,
    /// Replace the widget with the new description.
    Replace,
}

/// Work invalidated by a style or animation update. Paint-only changes
/// preserve layout.
#[derive(Debug, Clone, Copy, Default, PartialEq, Eq, Structural)]
pub struct StyleChange {
    pub layout: bool,
    pub paint: bool,
}

/// How a top-layer element blocks the content below it.
#[derive(Debug, Clone, Copy, PartialEq, Eq, Structural)]
pub enum TopLayerKind {
    Modal,
    Popover,
}

/// Pointer and focus state of a widget, as a set of flag bits.
#[derive(Debug, Clone, Copy, PartialEq, Eq, Hash, Default, Structural)]
pub struct WidgetStatus {
    pub bits: u8,
}

/// The pointer is over the widget.
pub const HOVER: u8 = 1u8;

/// The widget is pressed.
pub const ACTIVE: u8 = 2u8;

/// The widget has keyboard focus.
pub const FOCUSED: u8 = 4u8;

/// `bits` with `flag` switched on or off; the other bits stay.
pub open spec fn with_flag(bits: u8, flag: u8, on: bool) -> u8 {
    if on {
        bits | flag
    } else {
        bits & !flag
    }
}

impl WidgetStatus {
    pub open spec fn has(self, flag: u8) -> bool {
        self.bits & flag != 0
    }

    fn set(&mut self, flag: u8, value: bool)
        ensures
            final(self).bits == with_flag(old(self).bits, flag, value),
    {
        if value {
            self.bits = self.bits | flag;
        } else {
            self.bits = self.bits & !flag;
        }
    }

    pub fn set_hovered(&mut self, hovered: bool)
        ensures
            final(self).bits == with_flag(old(self).bits, HOVER, hovered),
            final(self).has(HOVER) == hovered,
            final(self).has(ACTIVE) == old(self).has(ACTIVE),
            final(self).has(FOCUSED) == old(self).has(FOCUSED),
    {
        let ghost b = self.bits;
        self.set(HOVER, hovered);
        proof {
            let n = self.bits;
            assert(n == with_flag(b, 1u8, hovered));
            assert((b | 1u8) & 1u8 != 0 && (b & !1u8) & 1u8 == 0) by (bit_vector);
            assert(((b | 1u8) & 2u8 != 0) == (b & 2u8 != 0) && ((b & !1u8) & 2u8 != 0) == (b & 2u8 != 0)) by (bit_vector);
            assert(((b | 1u8) & 4u8 != 0) == (b & 4u8 != 0) && ((b & !1u8) & 4u8 != 0) == (b & 4u8 != 0)) by (bit_vector);
        }
    }

    pub fn is_hovered(&self) -> (b: bool)
        ensures
            b == self.has(HOVER),
    {
        self.bits & HOVER != 0
    }

    pub fn set_active(&mut self, active: bool)
        ensures
            final(self).bits == with_flag(old(self).bits, ACTIVE, active),
            final(self).has(ACTIVE) == active,
            final(self).has(HOVER) == old(self).has(HOVER),
            final(self).has(FOCUSED) == old(self).has(FOCUSED),
    {
        let ghost b = self.bits;
        self.set(ACTIVE, active);
        proof {
            assert((b | 2u8) & 2u8 != 0 && (b & !2u8) & 2u8 == 0) by (bit_vector);
            assert(((b | 2u8) & 1u8 != 0) == (b & 1u8 != 0) && ((b & !2u8) & 1u8 != 0) == (b & 1u8 != 0)) by (bit_vector);
            assert(((b | 2u8) & 4u8 != 0) == (b & 4u8 != 0) && ((b & !2u8) & 4u8 != 0) == (b & 4u8 != 0)) by (bit_vector);
        }
    }

    pub fn is_active(&self) -> (b: bool)
        ensures
            b == self.has(ACTIVE),
    {
        self.bits & ACTIVE != 0
    }

    pub fn set_focused(&mut self, focused: bool)
        ensures
            final(self).bits == with_flag(old(self).bits, FOCUSED, focused),
            final(self).has(FOCUSED) == focused,
            final(self).has(HOVER) == old(self).has(HOVER),
            final(self).has(ACTIVE) == old(self).has(ACTIVE),
    {
        let ghost b = self.bits;
        self.set(FOCUSED, focused);
        proof {
            assert((b | 4u8) & 4u8 != 0 && (b & !4u8) & 4u8 == 0) by (bit_vector);
            assert(((b | 4u8) & 1u8 != 0) == (b & 1u8 != 0) && ((b & !4u8) & 1u8 != 0) == (b & 1u8 != 0)) by (bit_vector);
            assert(((b | 4u8) & 2u8 != 0) == (b & 2u8 != 0) && ((b & !4u8) & 2u8 != 0) == (b & 2u8 != 0)) by (bit_vector);
        }
    }

    pub fn is_focused(&self) -> (b: bool)
        ensures
            b == self.has(FOCUSED),
    {
        self.bits & FOCUSED != 0
    }
}

} // verus!
