use voidui::media::limits::{MediaError, MediaLimits, MediaStats, SvgRenderPolicy};
use voidui::ui::updates::{Invalidation, WidgetQueue};
use voidui::ui::widget::{StyleChange, TopLayerKind, WidgetStatus, WidgetUpdate};

#[test]
fn widget_status_flags_are_independent() {
    let mut status = WidgetStatus::default();
    assert!(!status.is_hovered() && !status.is_active() && !status.is_focused());
    status.set_hovered(true);
    status.set_focused(true);
    assert!(status.is_hovered() && !status.is_active() && status.is_focused());
    status.set_hovered(false);
    assert!(!status.is_hovered() && status.is_focused());
    status.set_active(true);
    assert_eq!(status.bits, 0b110);
    status.set_active(false);
    status.set_focused(false);
    assert_eq!(status, WidgetStatus::default());
}

#[test]
fn invalidations_coalesce_and_wake_once() {
    let mut queue = WidgetQueue::new();
    assert!(queue.invalidate(3, Invalidation { layout: true, style: false }));
    assert!(!queue.invalidate(3, Invalidation { layout: false, style: true }));
    assert!(!queue.invalidate(4, Invalidation::default()));
    let pending = queue.take();
    assert_eq!(pending, vec![(3, Invalidation { layout: true, style: true }), (4, Invalidation::default())]);
    assert!(queue.pending.is_empty());
    assert!(queue.invalidate(4, Invalidation::default()));
    assert!(queue.repaint());
    assert!(!queue.repaint());
}

#[test]
fn media_limits_bound_dimensions_and_pixels() {
    let limits = MediaLimits::default();
    assert_eq!(limits.max_input_bytes, 16 * 1024 * 1024);
    assert_eq!(limits.check_size(8192, 2048), Ok(()));
    assert_eq!(limits.check_size(8192, 2049), Err(MediaError::DimensionsExceedLimits));
    assert_eq!(limits.check_size(0, 5), Err(MediaError::DimensionsExceedLimits));
    assert_eq!(limits.check_size(8193, 1), Err(MediaError::DimensionsExceedLimits));
    let wide = MediaLimits { max_dimension: u32::MAX, max_pixels: u64::MAX, ..limits };
    assert_eq!(wide.check_size(u32::MAX, 1), Err(MediaError::DimensionsExceedLimits));
    assert_eq!(wide.check_size(i32::MAX as u32, i32::MAX as u32), Ok(()));
    assert_eq!(limits.check_input_len(16 * 1024 * 1024), Ok(()));
    assert_eq!(limits.check_input_len(16 * 1024 * 1024 + 1), Err(MediaError::SourceExceedsLimits));
}

#[test]
fn plain_ui_types_have_their_defaults() {
    assert_eq!(SvgRenderPolicy::default(), SvgRenderPolicy::Exact);
    assert_eq!(MediaStats::default(), MediaStats { image_decodes: 0, svg_parses: 0, svg_rasterizations: 0 });
    assert_eq!(StyleChange::default(), StyleChange { layout: false, paint: false });
    assert_ne!(WidgetUpdate::Changed, WidgetUpdate::Replace);
    assert_ne!(TopLayerKind::Modal, TopLayerKind::Popover);
}
