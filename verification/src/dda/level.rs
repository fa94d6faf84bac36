//! The level of detail that a whole grid can be drawn at, and the brick
//! maps for it.
use crate::dda::brick;
use crate::dda::brick::{BrickCache, BrickKey};
use crate::grid_view::{ChunkGrid, GridView};
use vstd::prelude::*;

verus! {

/// The coarsest level of a chunk.
pub open spec fn coarsest(v: GridView<'_>) -> u32 {
    if v.levels() == 0 {
        0
    } else {
        (v.levels() - 1) as u32
    }
}

/// Whether the grid has the chunk at position `i`.
pub open spec fn has_chunk(chunks: Seq<Option<GridView<'_>>>, i: int) -> bool {
    0 <= i < chunks.len() && chunks[i] is Some
}

/// The finest of `m` and the coarsest levels of the first `n` chunks.
pub open spec fn limited(chunks: Seq<Option<GridView<'_>>>, n: int, m: u32) -> u32
    decreases n,
{
    if n <= 0 {
        m
    } else {
        let k = limited(chunks, n - 1, m);
        if chunks[n - 1] is Some && coarsest(chunks[n - 1]->0) < k {
            coarsest(chunks[n - 1]->0)
        } else {
            k
        }
    }
}

/// The level that the grid is drawn at when `requested` is asked for.
pub open spec fn effective(grid: GridView<'_>, requested: u32) -> u32 {
    match grid.chunk_grid {
        Some(cg) => limited(cg.chunks@, cg.chunks@.len() as int, requested),
        None => if coarsest(grid) < requested {
            coarsest(grid)
        } else {
            requested
        },
    }
}

/// The grid is drawn at no coarser level than was asked for or than any
/// of its chunks has, and at one of these.
pub proof fn lemma_effective(grid: GridView<'_>, requested: u32)
    ensures
        effective(grid, requested) <= requested,
        match grid.chunk_grid {
            Some(cg) => {
                &&& forall|i: int| #[trigger]
                    has_chunk(cg.chunks@, i) ==> effective(grid, requested) <= coarsest(
                        cg.chunks@[i]->0,
                    )
                &&& effective(grid, requested) == requested || exists|i: int| #[trigger]
                    has_chunk(cg.chunks@, i) && effective(grid, requested) == coarsest(
                        cg.chunks@[i]->0,
                    )
            },
            None => {
                &&& effective(grid, requested) <= coarsest(grid)
                &&& effective(grid, requested) == requested || effective(grid, requested)
                    == coarsest(grid)
            },
        },
{
    if let Some(cg) = grid.chunk_grid {
        lemma_limited(cg.chunks@, cg.chunks@.len() as int, requested);
    }
}

proof fn lemma_limited(chunks: Seq<Option<GridView<'_>>>, n: int, m: u32)
    requires
        0 <= n <= chunks.len(),
    ensures
        limited(chunks, n, m) <= m,
        forall|i: int| #[trigger]
            has_chunk(chunks, i) && i < n ==> limited(chunks, n, m) <= coarsest(chunks[i]->0),
        limited(chunks, n, m) == m || exists|i: int| #[trigger]
            has_chunk(chunks, i) && i < n && limited(chunks, n, m) == coarsest(chunks[i]->0),
    decreases n,
{
    if n > 0 {
        lemma_limited(chunks, n - 1, m);
        if chunks[n - 1] is Some {
            assert(has_chunk(chunks, n - 1));
        }
    }
}

/// The level `requested`, or the coarsest that every chunk of the grid
/// has, whichever is finer.
#[must_use]
pub fn effective_mip(grid: &GridView<'_>, requested: u32) -> (r: u32)
    ensures
        r == effective(*grid, requested),
{
    if requested == 0 {
        proof {
            lemma_effective(*grid, 0);
        }
        return 0;
    }
    let mut m: u32 = requested;
    if let Some(cg) = grid.chunk_grid {
        let mut i: usize = 0;
        while i < cg.chunks.len()
            invariant
                i <= cg.chunks@.len(),
                m == limited(cg.chunks@, i as int, requested),
            decreases cg.chunks@.len() - i,
        {
            if let Some(c) = &cg.chunks[i] {
                let last: u32 = c.mip_count().saturating_sub(1);
                if last < m {
                    m = last;
                }
            }
            i += 1;
        }
    } else {
        let last: u32 = grid.mip_count().saturating_sub(1);
        if last < m {
            m = last;
        }
    }
    m
}

/// The chunk that a brick map at this index is for.
pub open spec fn mapped_chunk<'a>(grid: GridView<'a>, x: int, y: int, z: int) -> Option<
    GridView<'a>,
> {
    match grid.chunk_grid {
        Some(_) => grid.chunk(x, y, z),
        None => if x == 0 && y == 0 && z == 0 {
            Some(grid)
        } else {
            None
        },
    }
}

/// Whether the cache holds exactly the maps of the grid's chunks at level
/// `mip`.
pub open spec fn covers(cache: BrickCache, grid: GridView<'_>, mip: u32) -> bool {
    &&& cache.well_formed()
    &&& forall|key: BrickKey| #[trigger]
        cache@.contains_key(key) <==> key.3 == mip && mapped_chunk(
            grid,
            key.0 as int,
            key.1 as int,
            key.2 as int,
        ) is Some
    &&& forall|key: BrickKey| #[trigger]
        cache@.contains_key(key) ==> cache@[key].1.built_from(
            mapped_chunk(grid, key.0 as int, key.1 as int, key.2 as int)->0,
            mip,
        )
}

/// Whether every chunk of the grid can be mapped at level `mip`.
pub open spec fn mappable(grid: GridView<'_>, mip: u32) -> bool {
    match grid.chunk_grid {
        Some(cg) => {
            &&& cg.chunks_x * cg.chunks_y * cg.chunks_z <= i32::MAX
            &&& cg.chunks_x <= i32::MAX && cg.chunks_y <= i32::MAX && cg.chunks_z <= i32::MAX
            &&& forall|x: int, y: int, z: int| #[trigger]
                grid.chunk(x, y, z) is Some ==> {
                    &&& x <= i32::MAX && y <= i32::MAX && z <= i32::MAX
                    &&& brick::brickable(grid.chunk(x, y, z)->0, mip)
                }
        },
        None => brick::brickable(grid, mip),
    }
}

/// Whether the chunk at `(a, b, c)` comes before the one at `(x, y, z)`.
pub open spec fn earlier(a: int, b: int, c: int, x: int, y: int, z: int) -> bool {
    c < z || (c == z && (b < y || (b == y && a < x)))
}

/// Whether the cache holds the maps of the chunks before the one at
/// `(dx, dy, dz)` from the origin.
spec fn covers_up_to(
    cache: BrickCache,
    grid: GridView<'_>,
    cg: ChunkGrid<'_>,
    mip: u32,
    dx: int,
    dy: int,
    dz: int,
) -> bool {
    &&& cache.well_formed()
    &&& forall|key: BrickKey| #[trigger]
        cache@.contains_key(key) <==> key.3 == mip && grid.chunk(
            key.0 as int,
            key.1 as int,
            key.2 as int,
        ) is Some && earlier(
            key.0 - cg.origin_chunk_xy[0],
            key.1 - cg.origin_chunk_xy[1],
            key.2 - cg.origin_chunk_z,
            dx,
            dy,
            dz,
        )
    &&& forall|key: BrickKey| #[trigger]
        cache@.contains_key(key) ==> cache@[key].1.built_from(
            grid.chunk(key.0 as int, key.1 as int, key.2 as int)->0,
            mip,
        )
}

/// Going on to the first chunk of the next row passes no chunk.
proof fn lemma_next_row(
    cache: BrickCache,
    grid: GridView<'_>,
    cg: ChunkGrid<'_>,
    mip: u32,
    dy: int,
    dz: int,
)
    requires
        grid.chunk_grid == Some(&cg),
        covers_up_to(cache, grid, cg, mip, cg.chunks_x as int, dy, dz),
    ensures
        covers_up_to(cache, grid, cg, mip, 0, dy + 1, dz),
{
}

proof fn lemma_next_layer(
    cache: BrickCache,
    grid: GridView<'_>,
    cg: ChunkGrid<'_>,
    mip: u32,
    dz: int,
)
    requires
        grid.chunk_grid == Some(&cg),
        covers_up_to(cache, grid, cg, mip, 0, cg.chunks_y as int, dz),
    ensures
        covers_up_to(cache, grid, cg, mip, 0, 0, dz + 1),
{
}

/// Adds the map of the chunk at `(dx, dy, dz)` from the origin, where
/// there is such a chunk.
fn ensure_chunk(
    cache: &mut BrickCache,
    grid: &GridView<'_>,
    cg: &ChunkGrid<'_>,
    mip: u32,
    dx: i32,
    dy: i32,
    dz: i32,
)
    requires
        grid.chunk_grid == Some(cg),
        mappable(*grid, mip),
        0 <= dx < cg.chunks_x,
        0 <= dy < cg.chunks_y,
        0 <= dz < cg.chunks_z,
        covers_up_to(*old(cache), *grid, *cg, mip, dx as int, dy as int, dz as int),
    ensures
        covers_up_to(*final(cache), *grid, *cg, mip, dx + 1, dy as int, dz as int),
{
    let ghost x = cg.origin_chunk_xy[0] + dx;
    let ghost y = cg.origin_chunk_xy[1] + dy;
    let ghost z = cg.origin_chunk_z + dz;
    proof {
        let (a, b, c) = (cg.chunks_x as int, cg.chunks_y as int, cg.chunks_z as int);
        assert(0 <= dz * b && dz * b + dy < c * b) by (nonlinear_arith)
            requires
                0 <= dz < c,
                0 <= dy < b,
        ;
        let r = dz * b + dy;
        assert(0 <= r * a && r * a + dx < (c * b) * a && r <= r * a) by (nonlinear_arith)
            requires
                0 <= r < c * b,
                0 <= dx < a,
        ;
        assert((c * b) * a == a * b * c) by (nonlinear_arith);
        assert(cg.holds(x, y, z));
        assert(cg.slot(x, y, z) == r * a + dx);
    }
    let slot: usize = ((dz * cg.chunks_y as i32 + dy) * cg.chunks_x as i32 + dx) as usize;
    let ghost before = *cache;
    if slot < cg.chunks.len() {
        if let Some(view) = &cg.chunks[slot] {
            assert(grid.chunk(x, y, z) == Some(*view));
            let ch: [i32; 3] = [
                cg.origin_chunk_xy[0] + dx,
                cg.origin_chunk_xy[1] + dy,
                cg.origin_chunk_z + dz,
            ];
            assert(!cache@.contains_key((ch[0], ch[1], ch[2], mip)));
            cache.ensure(ch, mip, 0, view);
        }
    }
    proof {
        assert forall|key: BrickKey| #[trigger]
            cache@.contains_key(key) <==> key.3 == mip && grid.chunk(
                key.0 as int,
                key.1 as int,
                key.2 as int,
            ) is Some && earlier(
                key.0 - cg.origin_chunk_xy[0],
                key.1 - cg.origin_chunk_xy[1],
                key.2 - cg.origin_chunk_z,
                dx + 1,
                dy as int,
                dz as int,
            ) by {
            assert(before@.contains_key(key) <==> key.3 == mip && grid.chunk(
                key.0 as int,
                key.1 as int,
                key.2 as int,
            ) is Some && earlier(
                key.0 - cg.origin_chunk_xy[0],
                key.1 - cg.origin_chunk_xy[1],
                key.2 - cg.origin_chunk_z,
                dx as int,
                dy as int,
                dz as int,
            ));
        }
        assert forall|key: BrickKey| #[trigger]
            cache@.contains_key(key) implies cache@[key].1.built_from(
            grid.chunk(key.0 as int, key.1 as int, key.2 as int)->0,
            mip,
        ) by {
            if before@.contains_key(key) {
                assert(before@[key].1.built_from(
                    grid.chunk(key.0 as int, key.1 as int, key.2 as int)->0,
                    mip,
                ));
            }
        }
    }
}

/// The brick maps of all chunks of a grid at the level that it can be
/// drawn at, and that level.
pub fn local_cache(grid: &GridView<'_>, requested_mip: u32) -> (r: (BrickCache, u32))
    requires
        mappable(*grid, effective(*grid, requested_mip)),
    ensures
        r.1 == effective(*grid, requested_mip),
        covers(r.0, *grid, r.1),
{
    let mip: u32 = effective_mip(grid, requested_mip);
    let mut cache: BrickCache = BrickCache::new();
    if let Some(cg) = grid.chunk_grid {
        let mut dz: i32 = 0;
        while dz < cg.chunks_z as i32
            invariant
                grid.chunk_grid == Some(cg),
                mappable(*grid, mip),
                0 <= dz <= cg.chunks_z,
                covers_up_to(cache, *grid, *cg, mip, 0, 0, dz as int),
            decreases cg.chunks_z - dz,
        {
            let mut dy: i32 = 0;
            while dy < cg.chunks_y as i32
                invariant
                    grid.chunk_grid == Some(cg),
                    mappable(*grid, mip),
                    0 <= dz < cg.chunks_z,
                    0 <= dy <= cg.chunks_y,
                    covers_up_to(cache, *grid, *cg, mip, 0, dy as int, dz as int),
                decreases cg.chunks_y - dy,
            {
                let mut dx: i32 = 0;
                while dx < cg.chunks_x as i32
                    invariant
                        grid.chunk_grid == Some(cg),
                        mappable(*grid, mip),
                        0 <= dz < cg.chunks_z,
                        0 <= dy < cg.chunks_y,
                        0 <= dx <= cg.chunks_x,
                        covers_up_to(cache, *grid, *cg, mip, dx as int, dy as int, dz as int),
                    decreases cg.chunks_x - dx,
                {
                    ensure_chunk(&mut cache, grid, cg, mip, dx, dy, dz);
                    dx += 1;
                }
                proof {
                    lemma_next_row(cache, *grid, *cg, mip, dy as int, dz as int);
                }
                dy += 1;
            }
            proof {
                lemma_next_layer(cache, *grid, *cg, mip, dz as int);
            }
            dz += 1;
        }
    } else {
        cache.ensure([0, 0, 0], mip, 0, grid);
    }
    (cache, mip)
}

/// A chunk has as many levels as tables, one less than it has starts of
/// tables, and its coarsest is the last of them.
pub proof fn lemma_coarsest_is_last(v: GridView<'_>)
    requires
        v.mip_base_offsets@.len() <= u32::MAX,
    ensures
        v.mip_base_offsets@.len() >= 2 ==> coarsest(v) + 2 == v.mip_base_offsets@.len(),
        v.mip_base_offsets@.len() < 2 ==> coarsest(v) == 0,
{
}

/// The cache of a view without a grid has one map, that of the view
/// itself; the cache of a grid has one for each chunk that is there, and
/// all are of the level.
pub proof fn lemma_one_map_per_chunk(cache: BrickCache, grid: GridView<'_>, mip: u32, key: BrickKey)
    requires
        covers(cache, grid, mip),
    ensures
        grid.chunk_grid is None ==> (cache@.contains_key(key) <==> key == (0i32, 0i32, 0i32, mip)),
        grid.chunk_grid is None && key == (0i32, 0i32, 0i32, mip) ==> cache@[key].1.built_from(
            grid,
            mip,
        ),
        grid.chunk_grid is Some ==> (cache@.contains_key(key) <==> key.3 == mip && grid.chunk(
            key.0 as int,
            key.1 as int,
            key.2 as int,
        ) is Some),
        grid.chunk_grid is Some && cache@.contains_key(key) ==> cache@[key].1.built_from(
            grid.chunk(key.0 as int, key.1 as int, key.2 as int)->0,
            mip,
        ),
{
    assert(cache@.contains_key(key) <==> key.3 == mip && mapped_chunk(
        grid,
        key.0 as int,
        key.1 as int,
        key.2 as int,
    ) is Some);
    if cache@.contains_key(key) {
        assert(cache@[key].1.built_from(
            mapped_chunk(grid, key.0 as int, key.1 as int, key.2 as int)->0,
            mip,
        ));
    }
}

} // verus!
