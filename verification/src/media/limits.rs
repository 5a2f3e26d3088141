//! Limits applied before decoding untrusted images and SVG documents.
use vstd::prelude::*;

verus! {

/// Bounds on untrusted image input.
#[derive(Debug, Clone, Copy, PartialEq, Eq, Hash, Structural)]
pub struct MediaLimits {
    pub max_input_bytes: usize,
    pub max_pixels: u64,
    pub max_dimension: u32,
    pub max_svg_nodes: usize,
    pub max_svg_depth: usize,
}

/// Why an image was refused.
#[derive(Debug, Clone, Copy, PartialEq, Eq, Structural)]
pub enum MediaError {
    /// The image's width or height is zero, too large, or covers too many pixels.
    DimensionsExceedLimits,
    /// The encoded source is larger than `max_input_bytes`.
    SourceExceedsLimits,
}

impl Default for MediaLimits {
    fn default() -> (l: Self)
        ensures
            l == (MediaLimits {
                max_input_bytes: 16777216,
                max_pixels: 16777216,
                max_dimension: 8192,
                max_svg_nodes: 100000,
                max_svg_depth: 256,
            }),
    {
        MediaLimits {
            max_input_bytes: 16 * 1024 * 1024,
            max_pixels: 16 * 1024 * 1024,
            max_dimension: 8192,
            max_svg_nodes: 100_000,
            max_svg_depth: 256,
        }
    }
}

impl MediaLimits {
    /// Dimensions these limits accept: both sides positive, within `i32`, within
    /// `max_dimension`, and an area within `max_pixels`.
    pub open spec fn accepts_size(self, w: u32, h: u32) -> bool {
        &&& w > 0
        &&& h > 0
        &&& w <= i32::MAX
        &&& h <= i32::MAX
        &&& w <= self.max_dimension
        &&& h <= self.max_dimension
        &&& w * h <= self.max_pixels
    }

    pub fn check_size(self, w: u32, h: u32) -> (r: Result<(), MediaError>)
        ensures
            r is Ok <==> self.accepts_size(w, h),
            r is Err ==> r == Err::<(), MediaError>(MediaError::DimensionsExceedLimits),
    {
        let wide = w as u64;
        let high = h as u64;
        assert(wide * high <= u32::MAX as u64 * u32::MAX as u64) by (nonlinear_arith)
            requires
                wide <= u32::MAX,
                high <= u32::MAX,
        ;
        assert(u32::MAX as u64 * u32::MAX as u64 <= u64::MAX) by (nonlinear_arith);
        if w > 0 && h > 0 && w <= 2147483647u32 && h <= 2147483647u32 && w <= self.max_dimension
            && h <= self.max_dimension && wide * high <= self.max_pixels {
            Ok(())
        } else {
            Err(MediaError::DimensionsExceedLimits)
        }
    }

    /// Whether an encoded source of `len` bytes may be decoded.
    pub fn check_input_len(self, len: usize) -> (r: Result<(), MediaError>)
        ensures
            r is Ok <==> len <= self.max_input_bytes,
            r is Err ==> r == Err::<(), MediaError>(MediaError::SourceExceedsLimits),
    {
        if len <= self.max_input_bytes {
            Ok(())
        } else {
            Err(MediaError::SourceExceedsLimits)
        }
    }
}

/// Cumulative work counters. Repainting a cached image does not increment them.
#[derive(Clone, Copy, Debug, Default, PartialEq, Eq, Structural)]
pub struct MediaStats {
    pub image_decodes: u64,
    pub svg_parses: u64,
    pub svg_rasterizations: u64,
}

/// Choose whether drawing must wait for an exact SVG raster.
#[derive(Clone, Copy, Debug, PartialEq, Eq, Structural)]
pub enum SvgRenderPolicy {
    /// Resolve the current appearance and size synchronously on an atlas miss.
    Exact,
    /// Scale the last completed raster while preparing the latest request on a
    /// worker. The first frame is empty until its raster is ready.
    ScaleWhileRendering,
}

impl Default for SvgRenderPolicy {
    fn default() -> (p: Self)
        ensures
            p == SvgRenderPolicy::Exact,
    {
        SvgRenderPolicy::Exact
    }
}

} // verus!
