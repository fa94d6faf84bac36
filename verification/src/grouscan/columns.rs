//! Columns and chunks of a scan: reading the current column, loading
//! another one, and moving to the chunk below.
use crate::grid_view::GridView;
use crate::grouscan::{GrouscanState, Ray};
use crate::slab;
use crate::slab::{build_owned_column_from_chain_translated, install_owned_column};
use vstd::prelude::*;

verus! {

/// Byte `i` of the current column; `0` outside it.
pub open spec fn column_byte(r: Ray, i: int) -> u8 {
    if 0 <= i < r.column.len() {
        r.column[i]
    } else {
        0
    }
}

/// Height of the layer's first voxel at the current level.
pub open spec fn level_base(r: Ray) -> i32 {
    r.chunk_world_z_base >> (r.gmipcnt as u32)
}

/// Height that is stored in byte `byte` of the slab at `v`.
pub open spec fn slab_z(r: Ray, v: int, byte: int) -> int {
    column_byte(r, v + byte) + level_base(r)
}

/// Whether the heights of the current level are machine integers.
pub open spec fn level_ok(r: Ray) -> bool {
    0 <= r.gmipcnt < 8 && level_base(r) <= i32::MAX - 0xff
}

/// Position in the level 0 table of the column that the ray is in.
pub open spec fn local_index(r: Ray) -> int {
    ((r.cy & r.chunk_size_xy_mask) as u32).wrapping_mul(r.chunk_size_xy).wrapping_add(
        (r.cx & r.chunk_size_xy_mask) as u32,
    ) as int
}

/// The chain that the column table gives at position `i`.
pub open spec fn column_at(r: Ray, i: int) -> Option<Seq<u8>> {
    if 0 <= i < r.column_offsets.len() && r.column_offsets[i] <= r.slab_buf.len() {
        Some(slab::chain_bytes(r.slab_buf, r.column_offsets[i] as int))
    } else {
        None
    }
}

/// Moves to table position `i`; without a column there the ray is in
/// an empty one.
pub open spec fn load_or_clear(r: Ray, i: int) -> Ray {
    Ray {
        ixy_sptr_col_idx: i,
        column: match column_at(r, i) {
            Some(c) => c,
            None => Seq::empty(),
        },
        ..r
    }
}

/// Moves to table position `i`; without a column there the ray keeps the
/// one it has.
pub open spec fn load_or_keep(r: Ray, i: int) -> Ray {
    Ray {
        ixy_sptr_col_idx: i,
        column: match column_at(r, i) {
            Some(c) => c,
            None => r.column,
        },
        ..r
    }
}

/// Reads from another chunk.
pub open spec fn enter_chunk<'a>(r: Ray<'a>, chunk: GridView<'a>) -> Ray<'a> {
    Ray {
        slab_buf: chunk.slab_buf@,
        column_offsets: chunk.column_offsets@,
        mip_base_offsets: chunk.mip_base_offsets@,
        vsid: chunk.vsid,
        vsid_signed: chunk.vsid as i32,
        current_chunk_exists: true,
        ..r
    }
}

/// The chunk below the one that the ray is in, where the grid has one.
pub open spec fn chunk_below<'a>(r: Ray<'a>) -> Option<GridView<'a>> {
    match r.grid_view.chunk_grid {
        Some(cg) => if r.current_chunk_z + 1 < cg.origin_chunk_z + (cg.chunks_z as i32) {
            r.grid_view.chunk(
                r.current_chunk_idx_xy[0] as int,
                r.current_chunk_idx_xy[1] as int,
                r.current_chunk_z + 1,
            )
        } else {
            None
        },
        None => None,
    }
}

/// The ray in the chunk below, at the top of its column.
pub open spec fn handed_down<'a>(r: Ray<'a>, chunk: GridView<'a>) -> Ray<'a> {
    let s = Ray {
        current_chunk_z: (r.current_chunk_z + 1) as i32,
        chunk_world_z_base: (r.chunk_world_z_base + (r.chunk_size_z as i32)) as i32,
        ..enter_chunk(r, chunk)
    };
    Ray { vptr_offset: 0, ..load_or_clear(s, local_index(s)) }
}

/// Whether looking for the chunk below stays inside machine integers.
pub open spec fn handoff_fits(r: Ray) -> bool {
    match r.grid_view.chunk_grid {
        Some(cg) => {
            &&& r.current_chunk_z < i32::MAX
            &&& i32::MIN <= cg.origin_chunk_z + (cg.chunks_z as i32) <= i32::MAX
            &&& r.current_chunk_z + 1 < cg.origin_chunk_z + (cg.chunks_z as i32)
                ==> r.grid_view.chunk_index_fits(
                r.current_chunk_idx_xy[0] as int,
                r.current_chunk_idx_xy[1] as int,
                r.current_chunk_z + 1,
            )
            &&& chunk_below(r) is Some ==> i32::MIN <= r.chunk_world_z_base + (r.chunk_size_z
                as i32) <= i32::MAX
        },
        None => true,
    }
}

/// Byte `offset` of the current slab; `0` outside the column.
pub fn column_byte_at(state: &GrouscanState<'_>, offset: usize) -> (r: u8)
    ensures
        r == column_byte(state@, state@.vptr_offset + offset),
{
    let i: usize = state.vptr_offset.saturating_add(offset);
    if i < state.column.len() {
        state.column[i]
    } else {
        0
    }
}

/// Height in byte `byte` of the slab at `vptr_offset`.
pub fn slab_z_at(state: &GrouscanState<'_>, vptr_offset: usize, byte: usize) -> (r: i32)
    requires
        level_ok(state@),
    ensures
        r == slab_z(state@, vptr_offset as int, byte as int),
{
    let i: usize = vptr_offset.saturating_add(byte);
    let raw: i32 = if i < state.column.len() {
        state.column[i] as i32
    } else {
        0
    };
    let level: u32 = state.gmipcnt as u32;
    raw + (state.chunk_world_z_base >> level)
}

/// Moves to table position `i`, to an empty column where none is there.
pub fn load_column_or_clear(state: &mut GrouscanState<'_>, i: usize)
    ensures
        final(state)@ == load_or_clear(old(state)@, i as int),
        *final(final(state).scratch) == *final(old(state).scratch),
{
    state.ixy_sptr_col_idx = i;
    if i < state.column_offsets.len() {
        let off: usize = state.column_offsets[i] as usize;
        if off <= state.slab_buf.len() {
            install_owned_column(&mut state.column, state.slab_buf, off);
        } else {
            state.column.clear();
        }
    } else {
        state.column.clear();
    }
    assert(state@ =~= load_or_clear(old(state)@, i as int));
}

/// Moves to table position `i`, keeping the column where none is there.
pub fn load_column_or_keep(state: &mut GrouscanState<'_>, i: usize)
    ensures
        final(state)@ == load_or_keep(old(state)@, i as int),
        *final(final(state).scratch) == *final(old(state).scratch),
{
    state.ixy_sptr_col_idx = i;
    if i < state.column_offsets.len() {
        let off: usize = state.column_offsets[i] as usize;
        if off <= state.slab_buf.len() {
            install_owned_column(&mut state.column, state.slab_buf, off);
        }
    }
    assert(state@ =~= load_or_keep(old(state)@, i as int));
}

/// Reads from another chunk.
pub fn switch_chunk<'a>(state: &mut GrouscanState<'a>, chunk: GridView<'a>)
    ensures
        final(state)@ == enter_chunk(old(state)@, chunk),
        *final(final(state).scratch) == *final(old(state).scratch),
{
    state.slab_buf = chunk.slab_buf;
    state.column_offsets = chunk.column_offsets;
    state.mip_base_offsets = chunk.mip_base_offsets;
    state.vsid = chunk.vsid;
    state.vsid_signed = chunk.vsid as i32;
    state.current_chunk_exists = true;
    assert(state@ =~= enter_chunk(old(state)@, chunk));
}

/// Moves the ray into the chunk below, at the same column. `false`, and
/// nothing changes, where the grid has none.
pub fn try_handoff_chunk_z_down(state: &mut GrouscanState<'_>) -> (r: bool)
    requires
        handoff_fits(old(state)@),
    ensures
        r == chunk_below(old(state)@) is Some,
        chunk_below(old(state)@) matches Some(chunk) ==> final(state)@ == handed_down(
            old(state)@,
            chunk,
        ),
        !r ==> final(state)@ == old(state)@,
        *final(final(state).scratch) == *final(old(state).scratch),
{
    let (origin, layers) = match state.grid_view.chunk_grid {
        Some(cg) => (cg.origin_chunk_z, cg.chunks_z as i32),
        None => return false,
    };
    let next_chz: i32 = state.current_chunk_z + 1;
    if next_chz >= origin + layers {
        return false;
    }
    let ghost r0 = state@;
    let new_chunk = match state.grid_view.chunk_at_xyz(
        [state.current_chunk_idx_xy[0], state.current_chunk_idx_xy[1], next_chz],
    ) {
        Some(c) => c,
        None => return false,
    };
    assert(chunk_below(r0) == Some(new_chunk));
    switch_chunk(state, new_chunk);
    state.current_chunk_z = next_chz;
    state.chunk_world_z_base = state.chunk_world_z_base + state.chunk_size_z as i32;
    let local_cx: i32 = state.cx & state.chunk_size_xy_mask;
    let local_cy: i32 = state.cy & state.chunk_size_xy_mask;
    let correct_idx: usize = (local_cy as u32).wrapping_mul(state.chunk_size_xy).wrapping_add(
        local_cx as u32,
    ) as usize;
    load_column_or_clear(state, correct_idx);
    state.vptr_offset = 0;
    assert(state@ =~= handed_down(r0, new_chunk));
    true
}

/// The chain of one layer at a column, raised to the layer's height;
/// empty where the grid has none.
pub open spec fn layer_chain(
    grid: GridView,
    chunk_xy: Seq<i32>,
    local: Seq<i32>,
    chz: int,
    size_z: i32,
) -> Seq<u8> {
    match grid.chunk(chunk_xy[0] as int, chunk_xy[1] as int, chz) {
        Some(chunk) => if layer_index(chunk, local) < chunk.column_offsets@.len() {
            slab::raised_chain(
                chunk.slab_buf@,
                chunk.column_offsets@[layer_index(chunk, local)] as int,
                chz * size_z,
            )
        } else {
            Seq::empty()
        },
        None => Seq::empty(),
    }
}

/// Position of a column in a chunk's level 0 table.
pub open spec fn layer_index(chunk: GridView, local: Seq<i32>) -> int {
    let mask = ((chunk.chunk_size_xy as i32) - 1) as i32;
    chunk.mip_base_offsets@[0] + ((local[1] & mask) as u32).wrapping_mul(
        chunk.chunk_size_xy,
    ).wrapping_add((local[0] & mask) as u32)
}

/// Whether reading one layer stays inside machine integers.
pub open spec fn layer_ok(
    grid: GridView,
    chunk_xy: Seq<i32>,
    local: Seq<i32>,
    chz: int,
    size_z: i32,
) -> bool {
    &&& grid.chunk_index_fits(chunk_xy[0] as int, chunk_xy[1] as int, chz)
    &&& grid.chunk(chunk_xy[0] as int, chunk_xy[1] as int, chz) matches Some(chunk) ==> {
        let i = layer_index(chunk, local);
        &&& (chunk.chunk_size_xy as i32) > i32::MIN
        &&& chunk.mip_base_offsets@.len() > 0
        &&& i <= usize::MAX
        &&& i < chunk.column_offsets@.len() ==> {
            &&& i32::MIN <= chz * size_z <= i32::MAX
            &&& chunk.column_offsets@[i] < chunk.slab_buf@.len() ==> slab::raise_fits(
                chunk.slab_buf@,
                chunk.column_offsets@[i] as int,
                chz * size_z,
            )
        }
    }
}

/// The chains of the layers `lo..=hi` at a column, one after the other.
pub open spec fn stacked_chains(
    grid: GridView,
    chunk_xy: Seq<i32>,
    local: Seq<i32>,
    lo: int,
    hi: int,
    size_z: i32,
) -> Seq<u8>
    decreases hi - lo + 1,
{
    if lo > hi {
        Seq::empty()
    } else {
        layer_chain(grid, chunk_xy, local, lo, size_z) + stacked_chains(
            grid,
            chunk_xy,
            local,
            lo + 1,
            hi,
            size_z,
        )
    }
}

/// Appends the chain of one layer.
fn append_layer(
    target: &mut Vec<u8>,
    grid: GridView<'_>,
    chunk_xy: [i32; 2],
    local: [i32; 2],
    chz: i32,
    size_z: i32,
)
    requires
        layer_ok(grid, chunk_xy@, local@, chz as int, size_z),
    ensures
        final(target)@ == old(target)@ + layer_chain(grid, chunk_xy@, local@, chz as int, size_z),
{
    let ghost t0 = target@;
    let ghost out = layer_chain(grid, chunk_xy@, local@, chz as int, size_z);
    let chunk: GridView = match grid.chunk_at_xyz([chunk_xy[0], chunk_xy[1], chz]) {
        Some(c) => c,
        None => {
            assert(t0 + out =~= t0);
            return;
        },
    };
    let mask: i32 = chunk.chunk_size_xy as i32 - 1;
    let lx: u32 = (local[0] & mask) as u32;
    let ly: u32 = (local[1] & mask) as u32;
    let base: usize = chunk.mip_base_offsets[0];
    let col: u32 = ly.wrapping_mul(chunk.chunk_size_xy).wrapping_add(lx);
    let i: usize = base + col as usize;
    if i >= chunk.column_offsets.len() {
        assert(t0 + out =~= t0);
        return;
    }
    let off: usize = chunk.column_offsets[i] as usize;
    build_owned_column_from_chain_translated(target, chunk.slab_buf, off, chz * size_z);
}

/// Replaces `target` by the chains of the layers from `starting_chz` to
/// `max_chz` at one column, each raised to its layer's height.
pub fn build_owned_column_multi_chz(
    target: &mut Vec<u8>,
    grid_view: GridView<'_>,
    chunk_xy: [i32; 2],
    chunk_local_xy: [i32; 2],
    starting_chz: i32,
    max_chz: i32,
    chunk_size_z: i32,
)
    requires
        forall|z: int|
            starting_chz <= z <= max_chz ==> #[trigger] layer_ok(
                grid_view,
                chunk_xy@,
                chunk_local_xy@,
                z,
                chunk_size_z,
            ),
    ensures
        final(target)@ == stacked_chains(
            grid_view,
            chunk_xy@,
            chunk_local_xy@,
            starting_chz as int,
            max_chz as int,
            chunk_size_z,
        ),
{
    target.clear();
    let ghost all = stacked_chains(
        grid_view,
        chunk_xy@,
        chunk_local_xy@,
        starting_chz as int,
        max_chz as int,
        chunk_size_z,
    );
    assert(target@ + all =~= all);
    let mut chz: i64 = starting_chz as i64;
    while chz <= max_chz as i64
        invariant
            starting_chz <= chz,
            forall|z: int|
                starting_chz <= z <= max_chz ==> #[trigger] layer_ok(
                    grid_view,
                    chunk_xy@,
                    chunk_local_xy@,
                    z,
                    chunk_size_z,
                ),
            target@ + stacked_chains(
                grid_view,
                chunk_xy@,
                chunk_local_xy@,
                chz as int,
                max_chz as int,
                chunk_size_z,
            ) == all,
        decreases max_chz - chz + 1,
    {
        let ghost t0 = target@;
        assert(layer_ok(grid_view, chunk_xy@, chunk_local_xy@, chz as int, chunk_size_z));
        append_layer(target, grid_view, chunk_xy, chunk_local_xy, chz as i32, chunk_size_z);
        proof {
            let layer = layer_chain(grid_view, chunk_xy@, chunk_local_xy@, chz as int, chunk_size_z);
            let rest = stacked_chains(
                grid_view,
                chunk_xy@,
                chunk_local_xy@,
                chz + 1,
                max_chz as int,
                chunk_size_z,
            );
            assert(t0 + (layer + rest) =~= (t0 + layer) + rest);
        }
        chz = chz + 1;
    }
    assert(target@ =~= all);
}

} // verus!
