//! Background SVG rendering with latest-request publication. At most one
//! render per view is in flight; a size asked for meanwhile replaces the
//! pending one instead of queueing behind it.
use vstd::prelude::*;

verus! {

/// What a view knows of its background render.
#[derive(Debug)]
pub struct SvgRenderState {
    /// The size of the latest request.
    pub requested: Option<(u32, u32)>,
    /// Bumped for every new request; only the latest one may publish.
    pub generation: u64,
    /// A worker is rendering.
    pub running: bool,
    /// A completed raster can be drawn.
    pub ready: bool,
    pub error: Option<String>,
}

/// How a worker's render ended.
#[derive(Debug)]
pub enum Completion {
    Rendered,
    /// The request was replaced before the worker started on it.
    Skipped,
    Failed(String),
}

/// What the worker does after reporting.
#[derive(Debug, Clone, Copy, PartialEq, Eq, Structural)]
pub enum AfterRender {
    /// A newer request came in: render that one.
    Retry,
    /// Done; repaint the view.
    Repaint,
}

/// Whether a request differs from the last one.
pub open spec fn fresh_request(s: SvgRenderState, size: (u32, u32), same_source: bool) -> bool {
    s.requested != Some(size) || !same_source
}

/// What a worker reporting on generation `version` is told: only the latest
/// request publishes; a report on any other asks for a retry.
pub open spec fn completion_result(s: SvgRenderState, version: u64) -> AfterRender {
    if version == s.generation {
        AfterRender::Repaint
    } else {
        AfterRender::Retry
    }
}

impl SvgRenderState {
    pub fn new() -> (s: SvgRenderState)
        ensures
            s.requested is None,
            s.generation == 0,
            !s.running,
            !s.ready,
            s.error is None,
    {
        SvgRenderState { requested: None, generation: 0, running: false, ready: false, error: None }
    }

    /// Records a request; `same_source` says whether its source is the one
    /// last requested. True when a worker must be started.
    pub fn request(&mut self, size: (u32, u32), same_source: bool) -> (start: bool)
        ensures
            fresh_request(*old(self), size, same_source) ==> {
                &&& final(self).requested == Some(size)
                &&& final(self).generation == old(self).generation.wrapping_add(1)
                &&& final(self).error is None
            },
            !fresh_request(*old(self), size, same_source) ==> {
                &&& final(self).requested == old(self).requested
                &&& final(self).generation == old(self).generation
                &&& final(self).error == old(self).error
            },
            start == (fresh_request(*old(self), size, same_source) && !old(self).running),
            final(self).running == (old(self).running || start),
            final(self).ready == old(self).ready,
    {
        let fresh = match self.requested {
            Some(previous) => previous.0 != size.0 || previous.1 != size.1 || !same_source,
            None => true,
        };
        if !fresh {
            return false;
        }
        self.generation = self.generation.wrapping_add(1);
        self.requested = Some(size);
        self.error = None;
        if self.running {
            return false;
        }
        self.running = true;
        true
    }

    /// The error of the last render, or whether a raster is ready.
    pub fn outcome(&self) -> (r: Result<bool, String>)
        ensures
            match self.error {
                Some(e) => r matches Err(m) && m@ == e@,
                None => r == Ok::<bool, String>(self.ready),
            },
    {
        match &self.error {
            Some(e) => Err(e.clone()),
            None => Ok(self.ready),
        }
    }

    /// A worker reports on the request with generation `version`.
    pub fn complete(&mut self, version: u64, result: Completion) -> (r: AfterRender)
        ensures
            r == completion_result(*old(self), version),
            version != old(self).generation ==> r == AfterRender::Retry && final(self).running == old(self).running
                && final(self).ready == old(self).ready && final(self).error == old(self).error,
            version == old(self).generation ==> {
                &&& r == AfterRender::Repaint
                &&& !final(self).running
                &&& final(self).ready == (old(self).ready || result is Rendered)
                &&& final(self).error == match result {
                    Completion::Failed(e) => Some(e),
                    _ => old(self).error,
                }
            },
            final(self).requested == old(self).requested,
            final(self).generation == old(self).generation,
    {
        if version != self.generation {
            return AfterRender::Retry;
        }
        match result {
            Completion::Rendered => {
                self.ready = true;
            },
            Completion::Skipped => {},
            Completion::Failed(e) => {
                self.error = Some(e);
            },
        }
        self.running = false;
        AfterRender::Repaint
    }

    /// The worker could not be admitted.
    pub fn rejected(&mut self, message: String)
        ensures
            !final(self).running,
            final(self).error == Some(message),
            final(self).requested == old(self).requested,
            final(self).generation == old(self).generation,
            final(self).ready == old(self).ready,
    {
        self.running = false;
        self.error = Some(message);
    }

    /// The view is gone: whatever is in flight no longer counts.
    pub fn cancel(&mut self)
        ensures
            final(self).generation == old(self).generation.wrapping_add(1),
            final(self).requested == old(self).requested,
            final(self).running == old(self).running,
            final(self).ready == old(self).ready,
            final(self).error == old(self).error,
    {
        self.generation = self.generation.wrapping_add(1);
    }
}

/// A render for an older request never publishes: once a new request has
/// moved the generation on, the worker's report on the previous generation is
/// told to retry, and (by `complete`) leaves the raster, the error and the
/// running flag as they were.
pub proof fn lemma_stale_render_retries(before: SvgRenderState, after: SvgRenderState, size: (u32, u32), same_source: bool)
    requires
        fresh_request(before, size, same_source),
        after.generation == before.generation.wrapping_add(1),
    ensures
        completion_result(after, before.generation) == AfterRender::Retry,
{
    let g = before.generation;
    assert(g.wrapping_add(1) != g);
}

} // verus!
