use voidui::media::render::{AfterRender, Completion, SvgRenderState};

#[test]
fn one_render_in_flight_and_only_the_latest_publishes() {
    let mut state = SvgRenderState::new();
    assert!(state.request((10, 10), true));
    let first = state.generation;
    assert_eq!(first, 1);
    // Asking again for the same raster neither bumps nor starts anything.
    assert!(!state.request((10, 10), true));
    assert_eq!(state.generation, 1);
    // A new size while the worker runs replaces the request.
    assert!(!state.request((20, 20), true));
    assert_eq!(state.generation, 2);
    assert_eq!(state.complete(first, Completion::Rendered), AfterRender::Retry);
    assert!(state.running);
    assert!(!state.ready);
    assert_eq!(state.outcome(), Ok(false));
    assert_eq!(state.complete(2, Completion::Rendered), AfterRender::Repaint);
    assert!(!state.running);
    assert_eq!(state.outcome(), Ok(true));
}

#[test]
fn a_changed_source_is_a_new_request_and_failures_surface() {
    let mut state = SvgRenderState::new();
    assert!(state.request((8, 8), true));
    assert_eq!(state.complete(1, Completion::Failed("bad svg".to_string())), AfterRender::Repaint);
    assert_eq!(state.outcome(), Err("bad svg".to_string()));
    assert!(state.request((8, 8), false));
    assert_eq!(state.outcome(), Ok(false));
    state.rejected("admission refused".to_string());
    assert!(!state.running);
    assert_eq!(state.outcome(), Err("admission refused".to_string()));
    state.cancel();
    assert_eq!(state.generation, 3);
    assert_eq!(state.complete(2, Completion::Skipped), AfterRender::Retry);
}

#[test]
fn skipped_renders_leave_the_last_raster() {
    let mut state = SvgRenderState::new();
    state.request((4, 4), true);
    state.complete(1, Completion::Rendered);
    state.request((5, 5), true);
    assert_eq!(state.complete(2, Completion::Skipped), AfterRender::Repaint);
    assert_eq!(state.outcome(), Ok(true));
}
