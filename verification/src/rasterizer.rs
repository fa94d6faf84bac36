//! Scratch state that one ray scan works on.
use crate::grouscan::CfType;
use vstd::prelude::*;

verus! {

/// One slot of the radar: a colour and the depth it was seen at.
#[derive(Debug, Clone, Copy, PartialEq, Eq, Structural)]
pub struct CastDat {
    pub col: i32,
    pub dist: i32,
}

/// Scratch state of one ray scan. The seed of the scan stands in
/// `cf[128]`.
pub struct ScanScratch {
    /// Pixels of the scanline.
    pub radar: Vec<CastDat>,
    /// Stack of view segments that are still open.
    pub cf: [CfType; 256],
    /// Depth of the next grid line along x and along y.
    pub gpz: [i32; 2],
    /// Depth between grid lines along x and along y.
    pub gdz: [i32; 2],
    /// Step of the column index along x and along y.
    pub gixy: [i32; 2],
    /// Change of the view vector per pixel.
    pub gi0: i32,
    pub gi1: i32,
    /// Depth at which the scan ends.
    pub gxmax: i32,
    /// Sky colour and depth.
    pub skycast: CastDat,
    /// Byte offset of the sky row, `0` for a plain sky.
    pub sky_off: i32,
    /// Whether the placeholder voxel at the bottom of a column is air.
    pub treat_z_max_as_air: bool,
}

impl ScanScratch {
    /// Scratch state with `slots` radar slots, everything else zero.
    pub fn new(slots: usize) -> (r: Self)
        ensures
            r.radar@ == Seq::new(slots as nat, |i: int| CastDat { col: 0, dist: 0 }),
            r.cf@ == Seq::new(256, |i: int| CfType::zero()),
            r.gpz@ == seq![0i32, 0i32],
            r.gdz@ == seq![0i32, 0i32],
            r.gixy@ == seq![0i32, 0i32],
            r.gi0 == 0,
            r.gi1 == 0,
            r.gxmax == 0,
            r.skycast == (CastDat { col: 0, dist: 0 }),
            r.sky_off == 0,
            !r.treat_z_max_as_air,
    {
        let blank: CastDat = CastDat { col: 0, dist: 0 };
        let radar: Vec<CastDat> = vec![blank; slots];
        let entry: CfType = CfType {
            i0: 0,
            i1: 0,
            z0: 0,
            z1: 0,
            cx0: 0,
            cy0: 0,
            cx1: 0,
            cy1: 0,
            chz_layer: 0,
        };
        let s: ScanScratch = ScanScratch {
            radar,
            cf: [entry; 256],
            gpz: [0, 0],
            gdz: [0, 0],
            gixy: [0, 0],
            gi0: 0,
            gi1: 0,
            gxmax: 0,
            skycast: blank,
            sky_off: 0,
            treat_z_max_as_air: false,
        };
        assert(s.radar@ =~= Seq::new(slots as nat, |i: int| CastDat { col: 0, dist: 0 }));
        assert(s.cf@ =~= Seq::new(256, |i: int| CfType::zero()));
        s
    }

    /// Sets the sky colour and depth.
    pub fn set_skycast(&mut self, col: i32, dist: i32)
        ensures
            *final(self) == (ScanScratch { skycast: CastDat { col, dist }, ..*old(self) }),
    {
        self.skycast = CastDat { col, dist };
    }
}

} // verus!
