use voidui::ui::hooks::{HookFrame, HookSlot};

#[test]
fn slots_are_created_once_and_reused_in_order() {
    let mut first = HookFrame::begin(0, false);
    assert_eq!(first.next_slot(), HookSlot::New(0));
    assert!(first.initializing);
    first.created();
    assert_eq!(first.next_slot(), HookSlot::New(1));
    first.created();
    first.finish();
    assert_eq!(first, HookFrame { len: 2, initialized: true, cursor: 2, initializing: false });
    let mut again = HookFrame::begin(first.len, first.initialized);
    assert_eq!(again.next_slot(), HookSlot::Existing(0));
    assert!(!again.initializing);
    assert_eq!(again.next_slot(), HookSlot::Existing(1));
    again.finish();
    assert!(again.initialized);
}

#[test]
fn a_first_render_may_stop_early_and_grow_later() {
    let mut first = HookFrame::begin(0, false);
    first.finish();
    assert_eq!(first.len, 0);
    let mut frame = HookFrame::begin(3, false);
    assert_eq!(frame.next_slot(), HookSlot::Existing(0));
    frame.finish();
    assert_eq!(frame.cursor, 1);
}
