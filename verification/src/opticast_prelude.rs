//! What a frame needs to know of the camera before its rays are cast:
//! the column and chunk it stands in, and the table that turns heights
//! into screen rows.
use crate::arith;
use vstd::arithmetic::power2;
use vstd::prelude::*;

verus! {

/// Scale of the fixed-point numbers: one voxel is `PREC`.
pub const PREC: i32 = 0x10_0000;

/// The camera in fixed point, for one frame.
#[derive(Debug, Clone)]
pub struct OpticastPrelude {
    /// `-1` where the camera looks up, else `1`.
    pub forward_z_sign: i32,
    /// The voxel that the camera is in.
    pub li_pos: [i32; 3],
    /// Position of the camera's column in a `vsid * vsid` table; of no
    /// meaning outside the map.
    pub column_index: u32,
    /// Height of the camera, times [`PREC`].
    pub pos_z: i32,
    /// Screen rows by height, level after level.
    pub y_lookup: Vec<i32>,
    /// Number of levels in `y_lookup`.
    pub mip_levels: u32,
    /// Distance at which the second level begins, times [`PREC`].
    pub x_mip: i32,
    /// How far rays go, times [`PREC`].
    pub max_scan_dist: i32,
    /// The camera's column, which may lie outside the map.
    pub cx: i32,
    pub cy: i32,
    /// Whether the camera's column lies in the map.
    pub in_bounds_xy: bool,
    /// The chunk that the camera is in.
    pub camera_chunk_idx: [i32; 3],
    /// The camera's voxel counted from the corner of its chunk.
    pub camera_local_xyz: [i32; 3],
}

/// Number of rows in the table of level `j`.
pub open spec fn level_len(j: nat) -> int {
    512int / power2::pow2(j) as int + 4
}

/// Where the table of level `j` starts.
pub open spec fn level_start(j: nat) -> int
    decreases j,
{
    if j == 0 {
        0
    } else {
        level_start((j - 1) as nat) + level_len((j - 1) as nat)
    }
}

/// The row for height `i` at level `j`, seen from `pos_z`: the distance
/// in sixteenths of a voxel of level 0, modulo 2^16.
pub open spec fn row_of(pos_z: int, j: nat, i: int) -> int {
    ((pos_z / (power2::pow2(j) as int) - i * PREC) / (power2::pow2((16 - j) as nat) as int)) % 0x1_0000
}

/// Depth up to which the first level is scanned: at least four voxels.
pub open spec fn level_depth(mip_scan_dist: int) -> i32 {
    arith::wrap32(arith::max_int(mip_scan_dist, 4) * PREC)
}

/// Depth up to which the whole scan goes: from one voxel to 4095.
pub open spec fn scan_depth(max_scan_dist: int) -> i32 {
    arith::wrap32(arith::min_int(arith::max_int(max_scan_dist, 1), 4095) * PREC)
}

/// Position of the column of the camera in the table of a single chunk.
pub open spec fn camera_column(li_pos: [i32; 3], vsid: u32) -> u32 {
    (li_pos[1] as u32).wrapping_mul(vsid).wrapping_add(li_pos[0] as u32)
}

/// Whether `t` is the row table of the first `levels` levels.
pub open spec fn is_row_table(t: Seq<i32>, pos_z: int, levels: nat) -> bool {
    &&& t.len() == level_start(levels)
    &&& forall|j: nat, i: int|
        #![trigger row_of(pos_z, j, i)]
        j < levels && 0 <= i < level_len(j) ==> t[level_start(j) + i] == row_of(pos_z, j, i)
}

proof fn lemma_level_len(j: u32)
    requires
        j <= 16,
    ensures
        (512u32 >> j) + 4 == level_len(j as nat),
        4 <= level_len(j as nat) <= 516,
{
    broadcast use vstd::arithmetic::power2::lemma_pow2_pos;

    vstd::bits::lemma_u32_shr_is_div(512u32, j);
    assert(0 <= 512int / power2::pow2(j as nat) as int <= 512) by (nonlinear_arith)
        requires
            power2::pow2(j as nat) > 0,
    ;
}

proof fn lemma_level_start(a: nat, b: nat)
    requires
        a <= b <= 17,
    ensures
        0 <= level_start(a) <= level_start(b) <= 516 * b,
    decreases b,
{
    if b > 0 {
        lemma_level_len((b - 1) as u32);
        if a < b {
            lemma_level_start(a, (b - 1) as nat);
        } else {
            lemma_level_start((a - 1) as nat, (b - 1) as nat);
        }
    }
}

/// A level's rows lie before the next level's.
proof fn lemma_level_apart(a: nat, b: nat)
    requires
        a < b <= 17,
    ensures
        0 <= level_start(a),
        level_start(a) + level_len(a) <= level_start(b),
{
    lemma_level_start(0, a);
    lemma_level_start(a + 1, b);
}

/// The row for one height.
fn row(pos_z: i32, j: u32, i: u32) -> (r: i32)
    requires
        j <= 16,
        i < level_len(j as nat),
        pos_z >= i32::MIN + 515 * PREC,
    ensures
        r == row_of(pos_z as int, j as nat, i as int),
{
    proof {
        lemma_level_len(j);
        arith::lemma_shr(pos_z, j);
        if j > 0 {
            assert(pos_z >> j >= -0x4000_0000) by (bit_vector)
                requires
                    1 <= j <= 16,
            ;
            assert(512u32 >> j <= 256) by (bit_vector)
                requires
                    1 <= j <= 16,
            ;
        } else {
            assert(pos_z >> 0u32 == pos_z) by (bit_vector);
        }
    }
    let pz: i32 = pos_z >> j;
    assert(j == 0 ==> pz == pos_z);
    let depth: i32 = pz - (i as i32) * PREC;
    let shift: u32 = 16 - j;
    proof {
        arith::lemma_shr(depth, shift);
        let v: i32 = depth >> shift;
        assert(v & 0xFFFF == v % 0x1_0000) by (bit_vector);
    }
    (depth >> shift) & 0xFFFF
}

/// The rows of the first `levels` levels.
fn row_table(pos_z: i32, levels: u32) -> (t: Vec<i32>)
    requires
        levels <= 17,
        levels > 0 ==> pos_z >= i32::MIN + 515 * PREC,
    ensures
        is_row_table(t@, pos_z as int, levels as nat),
{
    let mut t: Vec<i32> = Vec::new();
    let mut j: u32 = 0;
    while j < levels
        invariant
            j <= levels <= 17,
            levels > 0 ==> pos_z >= i32::MIN + 515 * PREC,
            is_row_table(t@, pos_z as int, j as nat),
        decreases levels - j,
    {
        let ghost t0 = t@;
        proof {
            lemma_level_len(j);
        }
        let count: u32 = (512u32 >> j) + 4;
        let mut i: u32 = 0;
        while i < count
            invariant
                j <= 16,
                count == level_len(j as nat),
                i <= count <= 516,
                pos_z >= i32::MIN + 515 * PREC,
                t0.len() == level_start(j as nat),
                t@.len() == t0.len() + i,
                t@.take(t0.len() as int) == t0,
                forall|k: int|
                    0 <= k < i ==> t@[level_start(j as nat) + k] == #[trigger] row_of(
                        pos_z as int,
                        j as nat,
                        k,
                    ),
            decreases count - i,
        {
            let ghost before = t@;
            t.push(row(pos_z, j, i));
            assert(t@.take(t0.len() as int) =~= before.take(t0.len() as int));
            i += 1;
        }
        proof {
            assert forall|a: nat, k: int| a < j + 1 && 0 <= k < level_len(a) implies t@[level_start(
                a,
            ) + k] == #[trigger] row_of(pos_z as int, a, k) by {
                if a < j {
                    lemma_level_apart(a, j as nat);
                    assert(t@.take(t0.len() as int)[level_start(a) + k] == t0[level_start(a) + k]);
                }
            }
        }
        j += 1;
    }
    t
}

/// The camera of one frame, from the voxel it is in, its height in fixed
/// point and whether it looks up.
#[must_use]
pub fn derive_prelude(
    looks_up: bool,
    li_pos: [i32; 3],
    pos_z: i32,
    vsid: u32,
    mip_levels: u32,
    mip_scan_dist: i32,
    max_scan_dist: i32,
) -> (p: OpticastPrelude)
    requires
        mip_levels <= 17,
        mip_levels > 0 ==> pos_z >= i32::MIN + 515 * PREC,
    ensures
        p.forward_z_sign == if looks_up {
            -1int
        } else {
            1int
        },
        p.li_pos == li_pos,
        p.column_index == (li_pos[1] as u32).wrapping_mul(vsid).wrapping_add(li_pos[0] as u32),
        p.pos_z == pos_z,
        is_row_table(p.y_lookup@, pos_z as int, mip_levels as nat),
        p.mip_levels == mip_levels,
        p.x_mip == arith::wrap32(arith::max_int(mip_scan_dist as int, 4) * PREC),
        p.max_scan_dist == arith::wrap32(
            arith::min_int(arith::max_int(max_scan_dist as int, 1), 4095) * PREC,
        ),
        p.x_mip == level_depth(mip_scan_dist as int),
        p.max_scan_dist == scan_depth(max_scan_dist as int),
        p.column_index == camera_column(li_pos, vsid),
        p.cx == li_pos[0],
        p.cy == li_pos[1],
        p.in_bounds_xy == (0 <= li_pos[0] < vsid as i32 && 0 <= li_pos[1] < vsid as i32),
        p.camera_chunk_idx@ == seq![0i32, 0i32, 0i32],
        p.camera_local_xyz == li_pos,
{
    let forward_z_sign: i32 = if looks_up {
        -1
    } else {
        1
    };
    let cx: i32 = li_pos[0];
    let cy: i32 = li_pos[1];
    let vsid_signed: i32 = vsid as i32;
    let in_bounds_xy: bool = cx >= 0 && cy >= 0 && cx < vsid_signed && cy < vsid_signed;
    let column_index: u32 = (cy as u32).wrapping_mul(vsid).wrapping_add(cx as u32);
    let y_lookup: Vec<i32> = row_table(pos_z, mip_levels);
    let mip_dist: i32 = if mip_scan_dist > 4 {
        mip_scan_dist
    } else {
        4
    };
    let x_mip: i32 = mip_dist.wrapping_mul(PREC);
    let scan_dist: i32 = if max_scan_dist < 1 {
        1
    } else if max_scan_dist > 4095 {
        4095
    } else {
        max_scan_dist
    };
    OpticastPrelude {
        forward_z_sign,
        li_pos,
        column_index,
        pos_z,
        y_lookup,
        mip_levels,
        x_mip,
        max_scan_dist: scan_dist.wrapping_mul(PREC),
        cx,
        cy,
        in_bounds_xy,
        camera_chunk_idx: [0, 0, 0],
        camera_local_xyz: li_pos,
    }
}

/// Floor division and remainder of a camera coordinate by the chunk size.
fn split_coord(v: i32, size: i32) -> (r: (i32, i32))
    requires
        size != 0,
        !(v == i32::MIN && size == -1),
    ensures
        r.0 == v as int / size as int,
        r.1 == v as int % size as int,
{
    proof {
        vstd::arithmetic::div_mod::lemma_fundamental_div_mod(v as int, size as int);
        assert(i32::MIN <= v as int / size as int <= i32::MAX) by (nonlinear_arith)
            requires
                size != 0,
                i32::MIN <= v <= i32::MAX,
                i32::MIN <= size <= i32::MAX,
                !(v == i32::MIN && size == -1),
        ;
        assert(0 <= v as int % size as int <= i32::MAX) by (nonlinear_arith)
            requires
                size != 0,
                i32::MIN <= size <= i32::MAX,
        ;
    }
    let q: i32 = match v.checked_div_euclid(size) {
        Some(q) => q,
        None => 0,
    };
    let m: i32 = match v.checked_rem_euclid(size) {
        Some(m) => m,
        None => 0,
    };
    (q, m)
}

/// Splits the camera's column into the chunk it lies in and its place in
/// that chunk.
pub fn recompute_camera_chunk(prelude: &mut OpticastPrelude, chunk_size_xy: u32)
    requires
        chunk_size_xy != 0,
        chunk_size_xy as i32 == -1 ==> old(prelude).li_pos[0] != i32::MIN && old(prelude).li_pos[1]
            != i32::MIN,
    ensures
        ({
            let p = *old(prelude);
            let size = (chunk_size_xy as i32) as int;
            let x = p.li_pos[0] as int;
            let y = p.li_pos[1] as int;
            &&& final(prelude).camera_chunk_idx[0] == x / size
            &&& final(prelude).camera_chunk_idx[1] == y / size
            &&& final(prelude).camera_chunk_idx[2] == 0
            &&& final(prelude).camera_local_xyz[0] == x % size
            &&& final(prelude).camera_local_xyz[1] == y % size
            &&& final(prelude).camera_local_xyz[2] == p.li_pos[2]
            &&& size > 0 ==> {
                &&& size * final(prelude).camera_chunk_idx[0] + final(prelude).camera_local_xyz[0]
                    == x
                &&& size * final(prelude).camera_chunk_idx[1] + final(prelude).camera_local_xyz[1]
                    == y
                &&& 0 <= final(prelude).camera_local_xyz[0] < size
                &&& 0 <= final(prelude).camera_local_xyz[1] < size
            }
            &&& *final(prelude) == (OpticastPrelude {
                camera_chunk_idx: final(prelude).camera_chunk_idx,
                camera_local_xyz: final(prelude).camera_local_xyz,
                ..p
            })
        }),
{
    let size: i32 = chunk_size_xy as i32;
    proof {
        assert(chunk_size_xy != 0 ==> chunk_size_xy as i32 != 0) by (bit_vector);
    }
    let (qx, mx): (i32, i32) = split_coord(prelude.li_pos[0], size);
    let (qy, my): (i32, i32) = split_coord(prelude.li_pos[1], size);
    let z: i32 = prelude.li_pos[2];
    proof {
        vstd::arithmetic::div_mod::lemma_fundamental_div_mod(
            prelude.li_pos[0] as int,
            size as int,
        );
        vstd::arithmetic::div_mod::lemma_fundamental_div_mod(
            prelude.li_pos[1] as int,
            size as int,
        );
    }
    prelude.camera_chunk_idx = [qx, qy, 0];
    prelude.camera_local_xyz = [mx, my, z];
}

/// In a map of one chunk, a camera that stands in the map is in chunk
/// zero, at its own position.
pub proof fn lemma_single_chunk_split(x: i32, vsid: u32)
    requires
        0 <= x < vsid as i32,
    ensures
        x as int / (vsid as i32) as int == 0,
        x as int % (vsid as i32) as int == x,
{
    vstd::arithmetic::div_mod::lemma_small_mod(x as nat, (vsid as i32) as nat);
    vstd::arithmetic::div_mod::lemma_basic_div(x as int, (vsid as i32) as int);
}

/// One voxel further down at level `j` is `16 * 2^j` rows away, modulo
/// 2^16.
pub proof fn lemma_rows_step(pos_z: int, j: nat, i: int)
    requires
        j <= 16,
    ensures
        row_of(pos_z, j, i + 1) == (row_of(pos_z, j, i) - 16 * power2::pow2(j)) % 0x1_0000,
{
    broadcast use vstd::arithmetic::power2::lemma_pow2_pos;

    let d = power2::pow2((16 - j) as nat) as int;
    let m = 16 * power2::pow2(j) as int;
    let a = pos_z / (power2::pow2(j) as int) - i * PREC;
    power2::lemma_pow2_adds(j, (16 - j) as nat);
    power2::lemma2_to64();
    assert(m * d == 0x10_0000) by (nonlinear_arith)
        requires
            m == 16 * power2::pow2(j) as int,
            d == power2::pow2((16 - j) as nat) as int,
            power2::pow2(j) as int * d == 0x1_0000,
    ;
    assert(a - PREC == pos_z / (power2::pow2(j) as int) - (i + 1) * PREC) by (nonlinear_arith)
        requires
            a == pos_z / (power2::pow2(j) as int) - i * PREC,
    ;
    vstd::arithmetic::div_mod::lemma_hoist_over_denominator(a, -m, d as nat);
    assert((a - PREC) / d == a / d - m) by {
        assert(-m * d == -0x10_0000) by (nonlinear_arith)
            requires
                m * d == 0x10_0000,
        ;
    }
    vstd::arithmetic::div_mod::lemma_sub_mod_noop_right(-m, -(a / d), 0x1_0000);
    vstd::arithmetic::div_mod::lemma_add_mod_noop(a / d, -m, 0x1_0000);
}

/// A height that the camera is level with is in row zero, at every level;
/// each row is one of 2^16.
pub proof fn lemma_camera_height_is_row_zero(j: nat, i: int)
    requires
        j <= 16,
    ensures
        row_of(i * PREC * power2::pow2(j), j, i) == 0,
        forall|pos_z: int, k: int| 0 <= #[trigger] row_of(pos_z, j, k) < 0x1_0000,
{
    broadcast use vstd::arithmetic::power2::lemma_pow2_pos;

    let p = power2::pow2(j) as int;
    vstd::arithmetic::div_mod::lemma_div_multiples_vanish(i * PREC, p);
    assert(i * PREC * p == p * (i * PREC)) by (nonlinear_arith);
    let d = power2::pow2((16 - j) as nat) as int;
    vstd::arithmetic::div_mod::lemma_div_basics(d);
    assert(0int / d == 0);
}

/// Each level has half as many rows as the one before it, and four more;
/// the levels lie one after the other.
pub proof fn lemma_levels_halve(j: nat)
    ensures
        level_start(0) == 0,
        level_len(0) == 516,
        level_len(j + 1) - 4 == (level_len(j) - 4) / 2,
        level_start(j + 1) - level_start(j) == level_len(j),
{
    broadcast use vstd::arithmetic::power2::lemma_pow2_pos;

    power2::lemma2_to64();
    power2::lemma_pow2_unfold(j + 1);
    let p = power2::pow2(j) as int;
    vstd::arithmetic::div_mod::lemma_div_denominator(512, p, 2);
}

/// The first level is scanned `d` voxels deep, and four where fewer are
/// asked for; each voxel is `2^20` deep.
pub proof fn lemma_level_depth(d: int)
    requires
        d < 2048,
    ensures
        d >= 4 ==> level_depth(d) == d * 0x10_0000,
        d <= 4 ==> level_depth(d) == level_depth(4),
{
}

/// A scan goes `d` voxels deep, one where fewer are asked for, and 4095
/// where more are; depths that fit a signed number come in order.
pub proof fn lemma_scan_depth(d: int)
    ensures
        1 <= d < 2048 ==> scan_depth(d) == d * 0x10_0000,
        2048 <= d <= 4095 ==> scan_depth(d) == d * 0x10_0000 - 0x1_0000_0000,
        d <= 1 ==> scan_depth(d) == scan_depth(1),
        d >= 4095 ==> scan_depth(d) == scan_depth(4095),
{
}

/// The columns of a single chunk come row by row.
pub proof fn lemma_camera_columns_in_rows(li_pos: [i32; 3], vsid: u32)
    requires
        0 <= li_pos[0] < vsid,
        0 <= li_pos[1] < vsid <= 0x4000,
    ensures
        camera_column(li_pos, vsid) == li_pos[0] + vsid * li_pos[1],
{
    let (y, v) = (li_pos[1] as int, vsid as int);
    assert(0 <= y * v <= 0x1000_0000 && y * v == v * y) by (nonlinear_arith)
        requires
            0 <= y < v,
            v <= 0x4000,
    ;
}

} // verus!
