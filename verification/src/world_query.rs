//! What a voxel of the map is.
use crate::grid_view::GridView;
use vstd::prelude::*;

verus! {

/// A voxel: air, solid without a colour of its own, or coloured.
#[derive(Debug, Clone, Copy, PartialEq, Eq, Structural)]
pub enum Cube {
    Air,
    UnexposedSolid,
    Color(u32),
}

/// The voxel at `(x, y, z)`: coloured where its column stores a colour
/// for it, else solid where it lies in a solid run.
pub open spec fn cube_at(grid: GridView<'_>, x: int, y: int, z: int) -> Cube {
    match grid.colour(x, y, z, 0) {
        Some(c) => Cube::Color(c),
        None => if grid.solid_top(x, y, z, 0) is Some {
            Cube::UnexposedSolid
        } else {
            Cube::Air
        },
    }
}

/// The voxel at `(x, y, z)`.
#[must_use]
pub fn getcube(grid: &GridView<'_>, x: u32, y: u32, z: u32) -> (r: Cube)
    requires
        grid.paintable(x as int, y as int, 0),
    ensures
        r == cube_at(*grid, x as int, y as int, z as int),
{
    match grid.voxel_color_raw_mip(x, y, z, 0) {
        Some(c) => Cube::Color(c.0),
        None => match grid.voxel_run_top(x, y, z) {
            Some(_) => Cube::UnexposedSolid,
            None => Cube::Air,
        },
    }
}

/// A voxel is air exactly where it lies in no solid run of its column and
/// the column stores no colour for it; a stored colour is shown as it is.
pub proof fn lemma_cube_tells_runs_and_colours(grid: GridView<'_>, x: int, y: int, z: int)
    ensures
        (cube_at(grid, x, y, z) == Cube::Air) == (grid.solid_top(x, y, z, 0) is None && grid.colour(
            x,
            y,
            z,
            0,
        ) is None),
        forall|c: u32|
            cube_at(grid, x, y, z) == Cube::Color(c) <==> #[trigger] is_stored(grid, x, y, z, c),
{
}

/// Whether a column stores this colour for a height.
pub open spec fn is_stored(grid: GridView<'_>, x: int, y: int, z: int, c: u32) -> bool {
    grid.colour(x, y, z, 0) == Some(c)
}

} // verus!
