//! Which air gap of a column holds the camera.
use crate::arith;
use crate::grid_view::GridView;
use crate::opticast_prelude::OpticastPrelude;
use crate::slab;
use vstd::prelude::*;

verus! {

/// The gap that holds height `cz`, searched below the slab at `pos`, as
/// its ceiling, its floor and the header of the slab under it. `floor` is
/// the end of the slab above `pos`, and `air` says whether a last slab at
/// the bottom of the column counts as air.
pub open spec fn gap_below(s: Seq<u8>, pos: int, floor: i32, cz: i32, air: bool) -> Option<
    (i32, i32, int),
>
    decreases arith::max_int(s.len() - pos, 0),
{
    if !slab::header_fits(s, pos) {
        None
    } else if s[pos] == 0 {
        if air && s[pos + 1] == 0xff {
            Some((floor, 0xff, pos))
        } else {
            None
        }
    } else {
        let n = slab::next_header(s, pos);
        if !slab::header_fits(s, n) {
            None
        } else if cz >= s[n + 1] {
            gap_below(s, n, (s[pos + 2] + 1) as i32, cz, air)
        } else if cz < s[n + 3] {
            None
        } else {
            Some((s[n + 3] as i32, s[n + 1] as i32, n))
        }
    }
}

/// The gap of the column that holds height `cz`.
pub open spec fn air_gap(s: Seq<u8>, cz: i32, air: bool) -> Option<(i32, i32, int)> {
    if s.len() < 4 {
        None
    } else if cz < s[1] {
        Some((0, s[1] as i32, 0))
    } else {
        gap_below(s, 0, s[1] as i32, cz, air)
    }
}

/// The gap of a column that holds height `cz`: its ceiling, its floor and
/// the byte position of the slab under it. `None` where `cz` lies in
/// solid ground or below the column; with `treat_z_max_as_air` a column
/// whose last slab lies at the very bottom is open below.
#[must_use]
pub fn camera_column_air_gap(column: &[u8], cz: i32, treat_z_max_as_air: bool) -> (r: Option<
    (i32, i32, usize),
>)
    ensures
        match r {
            Some(g) => air_gap(column@, cz, treat_z_max_as_air) == Some((g.0, g.1, g.2 as int)),
            None => air_gap(column@, cz, treat_z_max_as_air) is None,
        },
{
    if column.len() < 4 {
        return None;
    }
    let first_z1: i32 = column[1] as i32;
    if cz < first_z1 {
        return Some((0, first_z1, 0));
    }
    let mut pos: usize = 0;
    let mut floor: i32 = first_z1;
    loop
        invariant
            slab::header_fits(column@, pos as int),
            air_gap(column@, cz, treat_z_max_as_air) == gap_below(
                column@,
                pos as int,
                floor,
                cz,
                treat_z_max_as_air,
            ),
        decreases column@.len() - pos,
    {
        let total: usize = column.len();
        let nextptr: u8 = column[pos];
        if nextptr == 0 {
            if treat_z_max_as_air {
                let last_z1: i32 = column[pos + 1] as i32;
                if last_z1 == 0xff {
                    return Some((floor, last_z1, pos));
                }
            }
            return None;
        }
        floor = column[pos + 2] as i32 + 1;
        let next: usize = match pos.checked_add(nextptr as usize * 4) {
            Some(n) => n,
            None => {
                return None;
            },
        };
        match next.checked_add(4) {
            Some(end) => {
                if end > total {
                    return None;
                }
            },
            None => {
                return None;
            },
        }
        pos = next;
        let z1: i32 = column[pos + 1] as i32;
        if cz < z1 {
            let z0: i32 = column[pos + 3] as i32;
            if cz < z0 {
                return None;
            }
            return Some((z0, z1, pos));
        }
    }
}

/// The bytes from the start of column `index` on; `None` where there is
/// no such column.
fn camera_column_slice<'a>(slab_buf: &'a [u8], column_offsets: &[u32], index: u32) -> (r: Option<
    &'a [u8],
>)
    ensures
        match r {
            Some(c) => camera_column(slab_buf@, column_offsets@, index as int) == Some(c@),
            None => camera_column(slab_buf@, column_offsets@, index as int) is None,
        },
{
    if index as usize >= column_offsets.len() {
        return None;
    }
    let start: usize = column_offsets[index as usize] as usize;
    let total: usize = slab_buf.len();
    if start > total {
        return None;
    }
    let bytes: &'a [u8] = &slab_buf[start..total];
    assert(bytes@ =~= slab_buf@.skip(start as int));
    Some(bytes)
}

/// The bytes from the start of column `index` on.
pub open spec fn camera_column(slab_buf: Seq<u8>, offsets: Seq<u32>, index: int) -> Option<
    Seq<u8>,
> {
    if index < offsets.len() && offsets[index] <= slab_buf.len() {
        Some(slab_buf.skip(offsets[index] as int))
    } else {
        None
    }
}

/// Position of the camera's column in the table of its chunk.
pub open spec fn local_column(p: OpticastPrelude, side: u32) -> u32 {
    (p.camera_local_xyz[1] as u32).wrapping_mul(side).wrapping_add(p.camera_local_xyz[0] as u32)
}

/// The gap that holds the camera; the whole height for a camera outside
/// the map, and where the map has no chunk or no column.
pub open spec fn chunk_air_gap(grid: GridView<'_>, p: OpticastPrelude, air: bool) -> Option<
    (i32, i32, int),
> {
    if !p.in_bounds_xy {
        Some((0, 255, 0))
    } else {
        match grid.chunk(
            p.camera_chunk_idx[0] as int,
            p.camera_chunk_idx[1] as int,
            grid.origin_layer(),
        ) {
            Some(c) => match camera_column(
                c.slab_buf@,
                c.column_offsets@,
                local_column(p, c.chunk_size_xy) as int,
            ) {
                Some(s) => air_gap(s, p.camera_local_xyz[2], air),
                None => Some((0, 255, 0)),
            },
            None => Some((0, 255, 0)),
        }
    }
}

/// The gap that holds the camera, in the column of the chunk that it is
/// in. A camera outside the map, or over a chunk or a column that is not
/// there, is in air.
#[must_use]
pub fn camera_chunk_air_gap(
    grid: GridView<'_>,
    prelude: &OpticastPrelude,
    treat_z_max_as_air: bool,
) -> (r: Option<(i32, i32, usize)>)
    requires
        prelude.in_bounds_xy ==> grid.chunk_index_fits(
            prelude.camera_chunk_idx[0] as int,
            prelude.camera_chunk_idx[1] as int,
            grid.origin_layer(),
        ),
    ensures
        match r {
            Some(g) => chunk_air_gap(grid, *prelude, treat_z_max_as_air) == Some(
                (g.0, g.1, g.2 as int),
            ),
            None => chunk_air_gap(grid, *prelude, treat_z_max_as_air) is None,
        },
{
    if !prelude.in_bounds_xy {
        return Some((0, 255, 0));
    }
    match grid.chunk_at_xy([prelude.camera_chunk_idx[0], prelude.camera_chunk_idx[1]]) {
        Some(chunk) => {
            let index: u32 = (prelude.camera_local_xyz[1] as u32).wrapping_mul(
                chunk.chunk_size_xy,
            ).wrapping_add(prelude.camera_local_xyz[0] as u32);
            match camera_column_slice(chunk.slab_buf, chunk.column_offsets, index) {
                Some(column) => camera_column_air_gap(
                    column,
                    prelude.camera_local_xyz[2],
                    treat_z_max_as_air,
                ),
                None => Some((0, 255, 0)),
            }
        },
        None => Some((0, 255, 0)),
    }
}

/// Whether the heights of the slabs below the one at `pos` rise, from
/// `floor` on for the floors and from `ceiling` on for the ceilings.
pub open spec fn rising(s: Seq<u8>, pos: int, floor: u8, ceiling: u8) -> bool
    decreases arith::max_int(s.len() - pos, 0),
{
    slab::header_fits(s, pos) && (s[pos] == 0 || {
        let n = slab::next_header(s, pos);
        &&& slab::header_fits(s, n)
        &&& floor <= s[n + 1]
        &&& ceiling <= s[n + 3]
        &&& rising(s, n, s[n + 1], s[n + 3])
    })
}

/// A gap that was found holds the height that was asked for, unless it is
/// the open bottom of the column.
pub proof fn lemma_gap_holds_camera(s: Seq<u8>, cz: i32, air: bool)
    requires
        cz >= 0,
        air_gap(s, cz, air) is Some,
    ensures
        ({
            let g = air_gap(s, cz, air)->0;
            g.0 <= cz < g.1 || (air && g.1 == 0xff && s[g.2] == 0 && s[g.2 + 1] == 0xff)
        }),
{
    if cz >= s[1] {
        lemma_gap_below_holds(s, 0, s[1] as i32, cz, air);
    }
}

proof fn lemma_gap_below_holds(s: Seq<u8>, pos: int, floor: i32, cz: i32, air: bool)
    requires
        gap_below(s, pos, floor, cz, air) is Some,
    ensures
        ({
            let g = gap_below(s, pos, floor, cz, air)->0;
            g.0 <= cz < g.1 || (air && g.1 == 0xff && s[g.2] == 0 && s[g.2 + 1] == 0xff)
        }),
    decreases arith::max_int(s.len() - pos, 0),
{
    if s[pos] != 0 {
        let n = slab::next_header(s, pos);
        if cz >= s[n + 1] {
            lemma_gap_below_holds(s, n, (s[pos + 2] + 1) as i32, cz, air);
        }
    }
}

/// Where the slabs of a column rise, no voxel of a gap that was found is
/// solid.
pub proof fn lemma_gap_is_air(s: Seq<u8>, cz: i32, depth: i32, z: int)
    requires
        s.len() >= 4,
        rising(s, 0, s[1], 0),
        air_gap(s, cz, false) is Some,
        ({
            let g = air_gap(s, cz, false)->0;
            g.0 <= z < g.1
        }),
    ensures
        slab::run_top(slab::column_runs(s, depth), z) is None,
{
    if cz < s[1] {
        lemma_no_run_above(s, 0, s[1], 0, s[1] as i32, depth, z);
    } else {
        lemma_gap_below_is_air(s, 0, s[1], 0, s[1] as i32, s[1] as i32, cz, depth, z);
    }
}

/// No run from a slab on starts above where its first one does.
proof fn lemma_no_run_above(
    s: Seq<u8>,
    pos: int,
    floor: u8,
    ceiling: u8,
    top: i32,
    depth: i32,
    z: int,
)
    requires
        rising(s, pos, floor, ceiling),
        top <= floor,
        z < top,
    ensures
        slab::run_top(slab::runs_from(s, pos, top, depth), z) is None,
    decreases arith::max_int(s.len() - pos, 0),
{
    let runs = slab::runs_from(s, pos, top, depth);
    if s[pos] == 0 {
        if runs.len() > 0 {
            assert(slab::run_top(runs.skip(1), z) is None);
        }
    } else {
        let n = slab::next_header(s, pos);
        if s[n + 3] >= s[n + 1] {
            lemma_no_run_above(s, n, s[n + 1], s[n + 3], top, depth, z);
        } else {
            lemma_no_run_above(s, n, s[n + 1], s[n + 3], s[n + 1] as i32, depth, z);
            assert(runs.skip(1) =~= slab::runs_from(s, n, s[n + 1] as i32, depth));
        }
    }
}

proof fn lemma_gap_below_is_air(
    s: Seq<u8>,
    pos: int,
    floor: u8,
    ceiling: u8,
    end: i32,
    top: i32,
    cz: i32,
    depth: i32,
    z: int,
)
    requires
        rising(s, pos, floor, ceiling),
        gap_below(s, pos, end, cz, false) is Some,
        ({
            let g = gap_below(s, pos, end, cz, false)->0;
            g.0 <= z < g.1
        }),
    ensures
        slab::run_top(slab::runs_from(s, pos, top, depth), z) is None,
        ceiling <= z,
    decreases arith::max_int(s.len() - pos, 0),
{
    let n = slab::next_header(s, pos);
    let runs = slab::runs_from(s, pos, top, depth);
    let open = s[n + 3] < s[n + 1];
    if cz >= s[n + 1] {
        let next_top = if open {
            s[n + 1] as i32
        } else {
            top
        };
        lemma_gap_below_is_air(
            s,
            n,
            s[n + 1],
            s[n + 3],
            (s[pos + 2] + 1) as i32,
            next_top,
            cz,
            depth,
            z,
        );
    } else {
        lemma_no_run_above(s, n, s[n + 1], s[n + 3], s[n + 1] as i32, depth, z);
    }
    if open {
        assert(runs.skip(1) =~= slab::runs_from(s, n, s[n + 1] as i32, depth));
    }
}

/// A gap that was found lies between the end of the ground above it and
/// the top of a slab, and every slab above that one starts at or above
/// the height that was asked for. The open bottom of the column starts
/// below the floor colours of the slab above the last.
pub proof fn lemma_gap_is_between_slabs(s: Seq<u8>, cz: i32, air: bool)
    requires
        air_gap(s, cz, air) is Some,
        cz >= s[1],
    ensures
        ({
            let g = air_gap(s, cz, air)->0;
            &&& slab::leads_to(s, 0, g.2)
            &&& g.1 == s[g.2 + 1]
            &&& cz < g.1 ==> slab::laws::follows(s, 0, g.2) && g.0 == s[g.2 + 3]
            &&& cz >= g.1 ==> air && s[g.2] == 0 && g.1 == 0xff
            &&& forall|p: int| #[trigger] slab::leads_to(s, 0, p) && p < g.2 ==> s[p + 1] <= cz
            &&& cz >= g.1 ==> forall|p: int| #[trigger]
                slab::leads_to(s, 0, p) && s[p] != 0 && p + 4 * s[p] == g.2 ==> g.0 == s[p + 2] + 1
            &&& g.2 == 0 ==> g.0 == s[1]
        }),
{
    lemma_gap_below_between(s, 0, s[1] as i32, cz, air);
}

proof fn lemma_gap_below_between(s: Seq<u8>, pos: int, floor: i32, cz: i32, air: bool)
    requires
        gap_below(s, pos, floor, cz, air) is Some,
        cz >= s[pos + 1],
    ensures
        ({
            let g = gap_below(s, pos, floor, cz, air)->0;
            &&& pos <= g.2
            &&& slab::leads_to(s, pos, g.2)
            &&& g.1 == s[g.2 + 1]
            &&& cz < g.1 ==> slab::laws::follows(s, pos, g.2) && g.0 == s[g.2 + 3]
            &&& cz >= g.1 ==> air && s[g.2] == 0 && g.1 == 0xff
            &&& forall|p: int| #[trigger] slab::leads_to(s, pos, p) && p < g.2 ==> s[p + 1] <= cz
            &&& cz >= g.1 ==> forall|p: int| #[trigger]
                slab::leads_to(s, pos, p) && s[p] != 0 && p + 4 * s[p] == g.2 ==> g.0 == s[p + 2]
                    + 1
            &&& g.2 == pos ==> g.0 == floor
        }),
    decreases arith::max_int(s.len() - pos, 0),
{
    let g = gap_below(s, pos, floor, cz, air)->0;
    if s[pos] != 0 {
        let n = slab::next_header(s, pos);
        if cz >= s[n + 1] {
            lemma_gap_below_between(s, n, (s[pos + 2] + 1) as i32, cz, air);
        } else {
            assert(slab::leads_to(s, n, n));
        }
        assert forall|p: int| #[trigger] slab::leads_to(s, pos, p) && p < g.2 implies s[p + 1]
            <= cz by {
            if p != pos {
                assert(slab::leads_to(s, n, p));
                slab::laws::lemma_reached_fits(s, n, p);
            }
        }
        assert forall|p: int| #[trigger]
            slab::leads_to(s, pos, p) && s[p] != 0 && p + 4 * s[p] == g.2 && cz >= g.1 implies g.0
            == s[p + 2] + 1 by {
            if p != pos {
                assert(slab::leads_to(s, n, p));
                slab::laws::lemma_reached_fits(s, n, p);
            }
        }
    }
}

/// A height that lies over a slab is found in a gap, where no slab above
/// that one starts below the height.
pub proof fn lemma_height_over_slab_is_found(s: Seq<u8>, cz: i32, air: bool, p: int)
    requires
        slab::laws::follows(s, 0, p),
        slab::laws::over(s, p, cz as int),
        forall|q: int| #[trigger] slab::leads_to(s, 0, q) && q < p ==> s[q + 1] <= cz,
    ensures
        air_gap(s, cz, air) == Some((s[p + 3] as i32, s[p + 1] as i32, p)),
{
    assert(slab::leads_to(s, 0, 0));
    slab::laws::lemma_reached_fits(s, 4 * s[0], p);
    lemma_over_is_found(s, 0, s[1] as i32, cz, air, p);
}

proof fn lemma_over_is_found(s: Seq<u8>, pos: int, floor: i32, cz: i32, air: bool, p: int)
    requires
        slab::laws::follows(s, pos, p),
        slab::laws::over(s, p, cz as int),
        forall|q: int| #[trigger] slab::leads_to(s, pos, q) && q < p ==> s[q + 1] <= cz,
    ensures
        gap_below(s, pos, floor, cz, air) == Some((s[p + 3] as i32, s[p + 1] as i32, p)),
    decreases arith::max_int(s.len() - pos, 0),
{
    let n = slab::next_header(s, pos);
    slab::laws::lemma_reached_fits(s, n, p);
    if n != p {
        assert(slab::leads_to(s, n, n));
        assert(slab::leads_to(s, pos, n));
        assert forall|q: int| #[trigger] slab::leads_to(s, n, q) && q < p implies s[q + 1]
            <= cz by {
            assert(slab::leads_to(s, pos, q));
        }
        lemma_over_is_found(s, n, (s[pos + 2] + 1) as i32, cz, air, p);
    }
}

/// Columns of a chunk come row by row: the one beside the camera is next,
/// and the one in the next row is a row on.
pub proof fn lemma_columns_in_rows(p: OpticastPrelude, q: OpticastPrelude, side: u32)
    requires
        0 <= p.camera_local_xyz[0] < side <= 0x1000,
        0 <= p.camera_local_xyz[1] < side,
        0 <= q.camera_local_xyz[0] < side,
        0 <= q.camera_local_xyz[1] < side,
    ensures
        p.camera_local_xyz[1] == q.camera_local_xyz[1] ==> local_column(p, side) - local_column(
            q,
            side,
        ) == p.camera_local_xyz[0] - q.camera_local_xyz[0],
        p.camera_local_xyz[0] == q.camera_local_xyz[0] && p.camera_local_xyz[1]
            == q.camera_local_xyz[1] + 1 ==> local_column(p, side) == local_column(q, side) + side,
        p.camera_local_xyz[0] == 0 && p.camera_local_xyz[1] == 0 ==> local_column(p, side) == 0,
{
    let (py, qy) = (p.camera_local_xyz[1] as int, q.camera_local_xyz[1] as int);
    assert(0 <= py * side <= 0x100_0000 && 0 <= qy * side <= 0x100_0000) by (nonlinear_arith)
        requires
            0 <= py < side,
            0 <= qy < side,
            side <= 0x1000,
    ;
    assert(py == qy + 1 ==> py * side == qy * side + side) by (nonlinear_arith);
    assert(py == 0 ==> py * side == 0) by (nonlinear_arith);
}

/// A camera outside the map is in air from the top to the bottom of the
/// column, and so is one over a chunk or a column that is not there.
/// Otherwise it is in the gap of its column that holds its height.
pub proof fn lemma_camera_in_air(grid: GridView<'_>, p: OpticastPrelude, air: bool)
    ensures
        ({
            let chunk = grid.chunk(
                p.camera_chunk_idx[0] as int,
                p.camera_chunk_idx[1] as int,
                grid.origin_layer(),
            );
            let whole = Some((0i32, 255i32, 0int));
            &&& !p.in_bounds_xy || chunk is None ==> chunk_air_gap(grid, p, air) == whole
            &&& p.in_bounds_xy ==> (chunk matches Some(c) ==> {
                let i = local_column(p, c.chunk_size_xy) as int;
                &&& i >= c.column_offsets@.len() ==> chunk_air_gap(grid, p, air) == whole
                &&& i < c.column_offsets@.len() && c.column_offsets@[i] <= c.slab_buf@.len()
                    ==> chunk_air_gap(grid, p, air) == air_gap(
                    c.slab_buf@.subrange(c.column_offsets@[i] as int, c.slab_buf@.len() as int),
                    p.camera_local_xyz[2],
                    air,
                )
            })
        }),
{
    let chunk = grid.chunk(
        p.camera_chunk_idx[0] as int,
        p.camera_chunk_idx[1] as int,
        grid.origin_layer(),
    );
    if chunk is Some {
        let c = chunk->0;
        let i = local_column(p, c.chunk_size_xy) as int;
        if i < c.column_offsets@.len() && c.column_offsets@[i] <= c.slab_buf@.len() {
            assert(c.slab_buf@.skip(c.column_offsets@[i] as int) =~= c.slab_buf@.subrange(
                c.column_offsets@[i] as int,
                c.slab_buf@.len() as int,
            ));
        }
    }
}

} // verus!
