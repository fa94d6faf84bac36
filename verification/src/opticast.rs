//! The settings of a frame.
use vstd::prelude::*;

verus! {

/// The settings of a frame: its size, the part of it that is drawn, its
/// projection in numbers `F`, and how far and how fine rays are cast.
#[derive(Debug, Clone, Copy)]
pub struct OpticastSettings<F> {
    pub xres: u32,
    pub yres: u32,
    /// The rows that are drawn, up to but without `y_end`.
    pub y_start: u32,
    pub y_end: u32,
    /// The columns that are drawn, up to but without `x_end`.
    pub x_start: u32,
    pub x_end: u32,
    /// Centre of the projection, its focal length and its angle step.
    pub hx: F,
    pub hy: F,
    pub hz: F,
    pub anginc: F,
    pub mip_levels: u32,
    pub mip_scan_dist: i32,
    pub max_scan_dist: i32,
}

impl<F: Copy> OpticastSettings<F> {
    /// The settings for a whole frame of `width` by `height` pixels with
    /// the centre at half its size and half its width as focal length.
    #[must_use]
    pub fn for_oracle_framebuffer(width: u32, height: u32, half_w: F, half_h: F, one: F) -> (r:
        OpticastSettings<F>)
        ensures
            r == (OpticastSettings {
                xres: width,
                yres: height,
                y_start: 0,
                y_end: height,
                x_start: 0,
                x_end: width,
                hx: half_w,
                hy: half_h,
                hz: half_w,
                anginc: one,
                mip_levels: 1,
                mip_scan_dist: 4,
                max_scan_dist: 1024,
            }),
    {
        OpticastSettings {
            xres: width,
            yres: height,
            y_start: 0,
            y_end: height,
            x_start: 0,
            x_end: width,
            hx: half_w,
            hy: half_h,
            hz: half_w,
            anginc: one,
            mip_levels: 1,
            mip_scan_dist: 4,
            max_scan_dist: 1024,
        }
    }

    /// The same settings with another focal length.
    #[must_use]
    pub fn with_focal_length(self, hz: F) -> (r: OpticastSettings<F>)
        ensures
            r == (OpticastSettings { hz, ..self }),
    {
        OpticastSettings { hz, ..self }
    }

    /// The same settings for the rows from `y_start` to `y_end`.
    #[must_use]
    pub fn with_y_range(self, y_start: u32, y_end: u32) -> (r: OpticastSettings<F>)
        ensures
            r == (OpticastSettings { y_start, y_end, ..self }),
    {
        OpticastSettings { y_start, y_end, ..self }
    }

    /// The same settings for the columns from `x_start` to `x_end`.
    #[must_use]
    pub fn with_x_range(self, x_start: u32, x_end: u32) -> (r: OpticastSettings<F>)
        ensures
            r == (OpticastSettings { x_start, x_end, ..self }),
    {
        OpticastSettings { x_start, x_end, ..self }
    }
}

} // verus!
