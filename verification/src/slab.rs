//! Slab chains: the byte encoding of one voxel column.
//!
//! A column is a chain of slabs. Each slab opens with a four byte header
//! `[nextptr, z1, z1c, z0]`; `nextptr` counts the four byte words to the
//! next header and is `0` in the last slab, whose floor colours (one word
//! for each `z` in `z1..=z1c`) end the chain.
use crate::arith;
use vstd::prelude::*;

pub mod laws;

verus! {

/// Whether a whole slab header lies at `pos`.
pub open spec fn header_fits(s: Seq<u8>, pos: int) -> bool {
    0 <= pos && pos + 4 <= s.len()
}

/// Where the header after the one at `pos` lies.
pub open spec fn next_header(s: Seq<u8>, pos: int) -> int {
    pos + s[pos] as int * 4
}

/// Byte length of the last slab when it is the one at `pos`: its header
/// and its floor colours.
pub open spec fn last_slab_len(s: Seq<u8>, pos: int) -> int {
    4 + arith::max_int(s[pos + 2] - s[pos + 1] + 1, 0) * 4
}

/// Where the chain that continues at header `pos` ends, cut to the bytes
/// that are there.
pub open spec fn chain_end(s: Seq<u8>, pos: int) -> int
    decreases arith::max_int(s.len() - pos, 0),
{
    if !header_fits(s, pos) {
        s.len() as int
    } else if s[pos] == 0 {
        arith::min_int(pos + last_slab_len(s, pos), s.len() as int)
    } else {
        chain_end(s, next_header(s, pos))
    }
}

/// Byte length of the chain at the start of `s`; `0` where not even its
/// first header is there.
pub open spec fn chain_len(s: Seq<u8>) -> int {
    if header_fits(s, 0) {
        chain_end(s, 0)
    } else {
        0
    }
}

/// The chain stored at byte `off` of `buf`; empty past the end.
pub open spec fn chain_bytes(buf: Seq<u8>, off: int) -> Seq<u8> {
    if off >= buf.len() {
        Seq::empty()
    } else {
        buf.skip(off).take(chain_len(buf.skip(off)))
    }
}

/// Whether byte `i` is one of the three height bytes of a header of the
/// chain that continues at `pos`.
pub open spec fn height_byte(s: Seq<u8>, pos: int, i: int) -> bool
    decreases arith::max_int(s.len() - pos, 0),
{
    if !header_fits(s, pos) {
        false
    } else if pos < i <= pos + 3 {
        true
    } else if s[pos] == 0 {
        false
    } else {
        height_byte(s, next_header(s, pos), i)
    }
}

/// The chain of `chain_bytes(buf, off)` with every height raised by
/// `base`.
pub open spec fn raised_chain(buf: Seq<u8>, off: int, base: int) -> Seq<u8> {
    let c = chain_bytes(buf, off);
    Seq::new(
        c.len(),
        |i: int|
            if height_byte(buf.skip(off), 0, i) {
                (c[i] + base) as u8
            } else {
                c[i]
            },
    )
}

/// Whether every height of the chain stays a byte when raised by `base`.
pub open spec fn raise_fits(buf: Seq<u8>, off: int, base: int) -> bool {
    forall|i: int| #[trigger]
        height_byte(buf.skip(off), 0, i) ==> 0 <= buf.skip(off)[i] + base < 256
}

/// Whether every header of the chain that continues at `pos` is there:
/// following the links ends at a last slab without leaving the bytes.
pub open spec fn well_linked(s: Seq<u8>, pos: int) -> bool
    decreases arith::max_int(s.len() - pos, 0),
{
    header_fits(s, pos) && (s[pos] == 0 || well_linked(s, next_header(s, pos)))
}

/// Whether no ceiling colour list of the chain starts before the first
/// byte.
pub open spec fn lists_fit(s: Seq<u8>, pos: int) -> bool
    decreases arith::max_int(s.len() - pos, 0),
{
    header_fits(s, pos) && (s[pos] == 0 || (0 <= ceiling_list(s, pos) && lists_fit(
        s,
        next_header(s, pos),
    )))
}

/// Where the ceiling colours of the slab after the one at `pos` start.
pub open spec fn ceiling_list(s: Seq<u8>, pos: int) -> int {
    pos + (s[pos + 2] - s[pos + 1] + 2) * 4
}

/// Whether the floor colours of every slab are there.
pub open spec fn floors_there(s: Seq<u8>, pos: int) -> bool
    decreases arith::max_int(s.len() - pos, 0),
{
    header_fits(s, pos) && pos + last_slab_len(s, pos) <= s.len() && (s[pos] == 0 || floors_there(
        s,
        next_header(s, pos),
    ))
}

/// The slab that opens the run which holds height `z`, searched from the
/// slab at `pos` below a run that the slab at `at` opened.
pub open spec fn opener(s: Seq<u8>, pos: int, at: int, z: int, depth: int) -> Option<int>
    decreases arith::max_int(s.len() - pos, 0),
{
    if !header_fits(s, pos) {
        None
    } else if s[pos] == 0 {
        if s[pos + 1] <= s[pos + 2] + 1 && s[at + 1] <= z < depth {
            Some(at)
        } else {
            None
        }
    } else {
        let n = next_header(s, pos);
        if s[n + 3] >= s[n + 1] {
            opener(s, n, at, z, depth)
        } else if s[at + 1] <= z < s[n + 3] {
            Some(at)
        } else {
            opener(s, n, n, z, depth)
        }
    }
}

/// The solid runs `[top, bottom)` from a run that opened at `top` above
/// the slab at `pos`, downward. A slab whose ceiling is not above its
/// floor continues the run; a last slab whose floor list is missing by
/// more than one ends the column in air, any other fills it to `depth`.
pub open spec fn runs_from(s: Seq<u8>, pos: int, top: i32, depth: i32) -> Seq<(i32, i32)>
    decreases arith::max_int(s.len() - pos, 0),
{
    if !header_fits(s, pos) {
        Seq::empty()
    } else if s[pos] == 0 {
        if s[pos + 2] + 1 < s[pos + 1] {
            Seq::empty()
        } else {
            seq![(top, depth)]
        }
    } else {
        let n = next_header(s, pos);
        if s[n + 3] >= s[n + 1] {
            runs_from(s, n, top, depth)
        } else {
            seq![(top, s[n + 3] as i32)] + runs_from(s, n, s[n + 1] as i32, depth)
        }
    }
}

/// The solid runs of a whole column, top to bottom.
pub open spec fn column_runs(s: Seq<u8>, depth: i32) -> Seq<(i32, i32)> {
    runs_from(s, 0, s[1] as i32, depth)
}

/// Top of the first run that holds `z`.
pub open spec fn run_top(runs: Seq<(i32, i32)>, z: int) -> Option<i32>
    decreases runs.len(),
{
    if runs.len() == 0 {
        None
    } else if runs[0].0 <= z < runs[0].1 {
        Some(runs[0].0)
    } else {
        run_top(runs.skip(1), z)
    }
}

/// Lowest height in the ceiling colour list that is stored before the
/// slab at `n`, whose previous slab is at `pos`.
pub open spec fn ceiling_start(s: Seq<u8>, pos: int, n: int) -> int {
    s[n + 3] + s[pos + 2] - s[pos + 1] - s[pos] + 2
}

/// Byte position of the colour of the voxel at height `z`, searched from
/// the slab at `pos`: a floor colour after the header, or a ceiling
/// colour before the next header.
pub open spec fn colour_pos(s: Seq<u8>, pos: int, z: int) -> Option<int>
    decreases arith::max_int(s.len() - pos, 0),
{
    if !header_fits(s, pos) {
        None
    } else if s[pos + 1] <= z <= s[pos + 2] {
        Some(pos + 4 + (z - s[pos + 1]) * 4)
    } else if s[pos] == 0 {
        None
    } else {
        let n = next_header(s, pos);
        if ceiling_start(s, pos, n) <= z < s[n + 3] {
            Some(n - (s[n + 3] - z) * 4)
        } else {
            colour_pos(s, n, z)
        }
    }
}

/// The four bytes at `i`, least significant first.
pub open spec fn word_at(s: Seq<u8>, i: int) -> u32 {
    (s[i] + s[i + 1] * 0x100 + s[i + 2] * 0x1_0000 + s[i + 3] * 0x100_0000) as u32
}

/// The stored colour of height `z`, where the column stores one.
pub open spec fn stored_colour(s: Seq<u8>, z: int) -> Option<u32> {
    match colour_pos(s, 0, z) {
        Some(i) => if i + 4 <= s.len() {
            Some(word_at(s, i))
        } else {
            None
        },
        None => None,
    }
}

/// A chain ends past its first header, or at the end of the bytes.
pub proof fn lemma_chain_end(s: Seq<u8>, pos: int)
    requires
        0 <= pos <= s.len(),
    ensures
        pos <= chain_end(s, pos) <= s.len(),
        header_fits(s, pos) ==> pos + 4 <= chain_end(s, pos),
    decreases arith::max_int(s.len() - pos, 0),
{
    if header_fits(s, pos) && s[pos] != 0 {
        let n = next_header(s, pos);
        if n <= s.len() {
            lemma_chain_end(s, n);
        } else {
            assert(chain_end(s, n) == s.len());
        }
    }
}

/// A height byte lies past the header position that the search began at,
/// inside the bytes.
pub proof fn lemma_height_byte_range(s: Seq<u8>, pos: int, i: int)
    requires
        height_byte(s, pos, i),
        0 <= pos,
    ensures
        pos < i < s.len(),
    decreases arith::max_int(s.len() - pos, 0),
{
    if header_fits(s, pos) && !(pos < i <= pos + 3) && s[pos] != 0 {
        lemma_height_byte_range(s, next_header(s, pos), i);
    }
}

/// Raising a chain by zero leaves it as it is.
pub proof fn lemma_raise_zero(buf: Seq<u8>, off: int)
    ensures
        raised_chain(buf, off, 0) == chain_bytes(buf, off),
        raise_fits(buf, off, 0),
{
    assert(raised_chain(buf, off, 0) =~= chain_bytes(buf, off));
}

/// Bytes `r` that are those of the chain `t` from header `pos` on, up to
/// its end and with its heights raised, have the same headers.
proof fn lemma_raised_headers(t: Seq<u8>, r: Seq<u8>, pos: int, base: int)
    requires
        0 <= pos,
        r.len() == chain_end(t, pos),
        forall|i: int| #[trigger] height_byte(t, pos, i) ==> 0 <= t[i] + base < 256,
        forall|i: int|
            pos <= i < r.len() ==> #[trigger] r[i] == if height_byte(t, pos, i) {
                (t[i] + base) as u8
            } else {
                t[i]
            },
    ensures
        chain_end(r, pos) == r.len(),
        forall|i: int| #[trigger] height_byte(r, pos, i) == height_byte(t, pos, i),
    decreases arith::max_int(t.len() - pos, 0),
{
    if header_fits(t, pos) {
        lemma_chain_end(t, pos);
        if height_byte(t, pos, pos) {
            lemma_height_byte_range(t, pos, pos);
        }
        assert(height_byte(t, pos, pos + 1) && height_byte(t, pos, pos + 2));
        if t[pos] != 0 {
            let n = next_header(t, pos);
            assert forall|i: int| #[trigger] height_byte(t, n, i) implies 0 <= t[i] + base
                < 256 by {
                lemma_height_byte_range(t, n, i);
                assert(height_byte(t, pos, i));
            }
            assert(r[pos] == t[pos]);
            lemma_raised_headers(t, r, n, base);
            assert forall|i: int| #[trigger] height_byte(r, pos, i) == height_byte(t, pos, i) by {
                assert(height_byte(r, n, i) == height_byte(t, n, i));
            }
        }
    }
}

/// A raised chain is a chain, and lowering its heights again gives the
/// chain that was raised.
pub proof fn lemma_lowering_undoes_raising(buf: Seq<u8>, off: int, base: int)
    requires
        0 <= off,
        raise_fits(buf, off, base),
    ensures
        ({
            let raised = raised_chain(buf, off, base);
            &&& chain_bytes(raised, 0) == raised
            &&& raise_fits(raised, 0, -base)
            &&& raised_chain(raised, 0, -base) == chain_bytes(buf, off)
        }),
{
    let r = raised_chain(buf, off, base);
    assert(r.skip(0) =~= r);
    if off < buf.len() && header_fits(buf.skip(off), 0) {
        let t = buf.skip(off);
        lemma_chain_is_prefix(buf, off);
        lemma_chain_end(t, 0);
        lemma_raised_headers(t, r, 0, base);
        assert forall|i: int| #[trigger] height_byte(r, 0, i) implies 0 <= r[i] - base < 256 by {
            assert(height_byte(t, 0, i));
            lemma_height_byte_range(r, 0, i);
        }
    } else {
        assert forall|i: int| !#[trigger] height_byte(r, 0, i) by {
            if height_byte(r, 0, i) {
                lemma_height_byte_range(r, 0, i);
            }
        }
    }
    assert(chain_bytes(r, 0) =~= r);
    assert(raised_chain(r, 0, -base) =~= chain_bytes(buf, off));
}

/// A chain is the run of stored bytes that starts at `off` and is as long
/// as the chain.
pub proof fn lemma_chain_is_prefix(buf: Seq<u8>, off: int)
    requires
        0 <= off < buf.len(),
    ensures
        chain_bytes(buf, off).len() == chain_len(buf.skip(off)),
        chain_bytes(buf, off) == buf.subrange(off, off + chain_len(buf.skip(off))),
{
    let tail = buf.skip(off);
    lemma_chain_end(tail, 0);
    assert(chain_bytes(buf, off) =~= buf.subrange(off, off + chain_len(tail)));
}

fn push_bytes(target: &mut Vec<u8>, src: &[u8], from: usize, to: usize)
    requires
        from <= to <= src@.len(),
    ensures
        final(target)@ == old(target)@ + src@.subrange(from as int, to as int),
{
    let part: &[u8] = &src[from..to];
    target.extend_from_slice(part);
    assert(target@ =~= old(target)@ + src@.subrange(from as int, to as int));
}

/// Reads the four bytes at `i`, least significant first.
pub fn read_word(s: &[u8], i: usize) -> (r: u32)
    requires
        i + 4 <= s@.len(),
    ensures
        r == word_at(s@, i as int),
{
    s[i] as u32 + s[i + 1] as u32 * 0x100 + s[i + 2] as u32 * 0x1_0000 + s[i + 3] as u32
        * 0x100_0000
}

/// Byte length of the last slab, given its two floor heights.
fn last_slab_size(z1: u8, z1c: u8) -> (r: usize)
    ensures
        r == 4 + arith::max_int(z1c - z1 + 1, 0) * 4,
        r <= 1028,
{
    if z1c >= z1 {
        4 + ((z1c - z1) as usize + 1) * 4
    } else {
        4
    }
}

/// Byte length of the slab chain at the start of `column`, cut to
/// `column` where the chain runs past it; `0` without a first header.
pub fn slab_chain_byte_len(column: &[u8]) -> (r: usize)
    ensures
        r == chain_len(column@),
{
    let n: usize = column.len();
    if n < 4 {
        return 0;
    }
    let mut pos: usize = 0;
    loop
        invariant
            4 <= n == column@.len(),
            chain_end(column@, pos as int) == chain_len(column@),
        decreases usize::MAX - pos,
    {
        if pos > n - 4 {
            return n;
        }
        let nextptr: u8 = column[pos];
        if nextptr == 0 {
            let size: usize = last_slab_size(column[pos + 1], column[pos + 2]);
            if size >= n - pos {
                return n;
            }
            return pos + size;
        }
        let advance: usize = nextptr as usize * 4;
        if advance > n - pos {
            assert(chain_end(column@, next_header(column@, pos as int)) == n);
            return n;
        }
        pos = pos + advance;
    }
}

/// Replaces `target` by the slab chain at `slab_buf[off..]`.
pub fn install_owned_column(target: &mut Vec<u8>, slab_buf: &[u8], off: usize)
    ensures
        final(target)@ == chain_bytes(slab_buf@, off as int),
{
    target.clear();
    build_owned_column_from_chain(target, slab_buf, off);
    assert(target@ =~= chain_bytes(slab_buf@, off as int));
}

/// Appends the slab chain at `slab_buf[off..]` to `target`, slab by slab.
pub fn build_owned_column_from_chain(target: &mut Vec<u8>, slab_buf: &[u8], off: usize)
    ensures
        final(target)@ == old(target)@ + chain_bytes(slab_buf@, off as int),
{
    let total: usize = slab_buf.len();
    if off >= total || total - off < 4 {
        assert(target@ =~= old(target)@ + chain_bytes(slab_buf@, off as int));
        return;
    }
    let tail: &[u8] = &slab_buf[off..total];
    let n: usize = tail.len();
    let ghost s = tail@;
    assert(s =~= slab_buf@.skip(off as int));
    let mut pos: usize = 0;
    loop
        invariant
            off < slab_buf@.len(),
            4 <= n == tail@.len(),
            s == tail@,
            s == slab_buf@.skip(off as int),
            pos <= n,
            chain_end(s, pos as int) == chain_end(s, 0),
            target@ == old(target)@ + s.take(pos as int),
        decreases n - pos,
    {
        proof {
            lemma_chain_end(s, pos as int);
        }
        if pos > n - 4 {
            push_bytes(target, tail, pos, n);
            assert(target@ =~= old(target)@ + s.take(chain_end(s, 0)));
            return;
        }
        let nextptr: u8 = tail[pos];
        if nextptr == 0 {
            let size: usize = last_slab_size(tail[pos + 1], tail[pos + 2]);
            let end: usize = if size >= n - pos {
                n
            } else {
                pos + size
            };
            push_bytes(target, tail, pos, end);
            assert(target@ =~= old(target)@ + s.take(chain_end(s, 0)));
            return;
        }
        let advance: usize = nextptr as usize * 4;
        let next_pos: usize = if advance >= n - pos {
            n
        } else {
            pos + advance
        };
        push_bytes(target, tail, pos, next_pos);
        assert(target@ =~= old(target)@ + s.take(next_pos as int));
        if next_pos >= n {
            assert(chain_end(s, next_header(s, pos as int)) == s.len());
            assert(s.take(next_pos as int) =~= s.take(chain_end(s, 0)));
            return;
        }
        pos = next_pos;
    }
}

/// Appends the slab chain at `slab_buf[off..]` to `target` with every
/// height raised by `world_z_base`; colours pass through.
pub fn build_owned_column_from_chain_translated(
    target: &mut Vec<u8>,
    slab_buf: &[u8],
    off: usize,
    world_z_base: i32,
)
    requires
        off < slab_buf@.len() ==> raise_fits(slab_buf@, off as int, world_z_base as int),
    ensures
        final(target)@ == old(target)@ + raised_chain(
            slab_buf@,
            off as int,
            world_z_base as int,
        ),
{
    let total: usize = slab_buf.len();
    let ghost out = raised_chain(slab_buf@, off as int, world_z_base as int);
    if off >= total || total - off < 4 {
        assert(target@ =~= old(target)@ + out);
        return;
    }
    let tail: &[u8] = &slab_buf[off..total];
    let n: usize = tail.len();
    let ghost s = tail@;
    assert(s =~= slab_buf@.skip(off as int));
    proof {
        lemma_chain_end(s, 0);
        if height_byte(s, 0, 0) {
            lemma_height_byte_range(s, 0, 0);
        }
    }
    let mut pos: usize = 0;
    assert(target@ =~= old(target)@ + out.take(0));
    loop
        invariant
            off < slab_buf@.len(),
            4 <= n == tail@.len(),
            s == tail@,
            s == slab_buf@.skip(off as int),
            pos <= n,
            raise_fits(slab_buf@, off as int, world_z_base as int),
            out == raised_chain(slab_buf@, off as int, world_z_base as int),
            out.len() == chain_end(s, 0),
            chain_end(s, pos as int) == chain_end(s, 0),
            forall|i: int| i > pos ==> height_byte(s, 0, i) == #[trigger] height_byte(
                s,
                pos as int,
                i,
            ),
            !height_byte(s, 0, pos as int),
            target@ == old(target)@ + out.take(pos as int),
        decreases n - pos,
    {
        proof {
            lemma_chain_end(s, pos as int);
        }
        if pos > n - 4 {
            proof {
                assert forall|i: int| pos <= i < n implies out[i] == s[i] by {
                    assert(i > pos ==> !height_byte(s, pos as int, i));
                }
            }
            push_bytes(target, tail, pos, n);
            assert(target@ =~= old(target)@ + out);
            return;
        }
        let nextptr: u8 = tail[pos];
        proof {
            assert(height_byte(s, pos as int, pos + 1));
            assert(height_byte(s, pos as int, pos + 2));
            assert(height_byte(s, pos as int, pos + 3));
        }
        let z1_w: i32 = tail[pos + 1] as i32 + world_z_base;
        let z1c_w: i32 = tail[pos + 2] as i32 + world_z_base;
        let z0_w: i32 = tail[pos + 3] as i32 + world_z_base;
        target.push(nextptr);
        target.push(z1_w as u8);
        target.push(z1c_w as u8);
        target.push(z0_w as u8);
        assert(target@ =~= old(target)@ + out.take(pos + 4));
        if nextptr == 0 {
            let size: usize = last_slab_size(tail[pos + 1], tail[pos + 2]);
            let end: usize = if size >= n - pos {
                n
            } else {
                pos + size
            };
            push_bytes(target, tail, pos + 4, end);
            proof {
                assert forall|i: int| pos + 4 <= i < end implies out[i] == s[i] by {
                    assert(!height_byte(s, pos as int, i));
                }
                assert(target@ =~= old(target)@ + out);
            }
            return;
        }
        let advance: usize = nextptr as usize * 4;
        let next_pos: usize = if advance >= n - pos {
            n
        } else {
            pos + advance
        };
        let ghost nh = next_header(s, pos as int);
        push_bytes(target, tail, pos + 4, next_pos);
        proof {
            if !header_fits(s, nh) {
                assert(chain_end(s, nh) == s.len());
            } else {
                lemma_chain_end(s, nh);
            }
            assert forall|i: int| pos + 4 <= i < next_pos implies out[i] == s[i] by {
                if height_byte(s, nh, i) {
                    lemma_height_byte_range(s, nh, i);
                }
                assert(height_byte(s, pos as int, i) == height_byte(s, nh, i));
            }
            assert(target@ =~= old(target)@ + out.take(next_pos as int));
        }
        if next_pos >= n {
            assert(out.take(next_pos as int) =~= out);
            return;
        }
        proof {
            assert forall|i: int| i > next_pos implies height_byte(s, 0, i)
                == #[trigger] height_byte(s, next_pos as int, i) by {
                assert(height_byte(s, pos as int, i) == height_byte(s, nh, i));
            }
            if height_byte(s, nh, nh) {
                lemma_height_byte_range(s, nh, nh);
            }
            assert(height_byte(s, pos as int, nh) == height_byte(s, nh, nh));
        }
        pos = next_pos;
    }
}

/// Where a run was found to hold a height, there is such a run.
pub proof fn lemma_run_top(runs: Seq<(i32, i32)>, z: int) -> (k: int)
    requires
        run_top(runs, z) is Some,
    ensures
        0 <= k < runs.len(),
        runs[k].0 <= z < runs[k].1,
        run_top(runs, z) == Some(runs[k].0),
    decreases runs.len(),
{
    if runs[0].0 <= z < runs[0].1 {
        0
    } else {
        lemma_run_top(runs.skip(1), z) + 1
    }
}

/// Whether the heights of the chain rise from the slab at `pos` on, below a
/// run that opened at `top`, and stay above `depth`.
pub open spec fn heights_rise(s: Seq<u8>, pos: int, top: int, depth: int) -> bool
    decreases arith::max_int(s.len() - pos, 0),
{
    header_fits(s, pos) && if s[pos] == 0 {
        top < depth
    } else {
        let n = next_header(s, pos);
        if s[n + 3] >= s[n + 1] {
            heights_rise(s, n, top, depth)
        } else {
            top < s[n + 3] <= depth && heights_rise(s, n, s[n + 1] as int, depth)
        }
    }
}

/// Where the heights of a column rise, its runs come top to bottom: none is
/// empty, no two meet, and all end within the column.
pub proof fn lemma_runs_in_order(s: Seq<u8>, pos: int, top: i32, depth: i32)
    requires
        heights_rise(s, pos, top as int, depth as int),
    ensures
        ({
            let runs = runs_from(s, pos, top, depth);
            &&& forall|k: int|
                0 <= k < runs.len() ==> top <= (#[trigger] runs[k]).0 < runs[k].1 <= depth
            &&& forall|j: int, k: int|
                0 <= j < k < runs.len() ==> (#[trigger] runs[j]).1 < (#[trigger] runs[k]).0
        }),
    decreases arith::max_int(s.len() - pos, 0),
{
    if s[pos] != 0 {
        let n = next_header(s, pos);
        if s[n + 3] >= s[n + 1] {
            lemma_runs_in_order(s, n, top, depth);
            assert(runs_from(s, pos, top, depth) == runs_from(s, n, top, depth));
        } else {
            lemma_runs_in_order(s, n, s[n + 1] as i32, depth);
            let rest = runs_from(s, n, s[n + 1] as i32, depth);
            let runs = runs_from(s, pos, top, depth);
            assert forall|k: int| 0 <= k < runs.len() implies top <= (#[trigger] runs[k]).0
                < runs[k].1 <= depth by {
                assert(k > 0 ==> runs[k] == rest[k - 1]);
            }
            assert forall|j: int, k: int| 0 <= j < k < runs.len() implies (#[trigger] runs[j]).1
                < (#[trigger] runs[k]).0 by {
                assert(runs == seq![(top, s[n + 3] as i32)] + rest);
                assert(runs[k] == rest[k - 1]);
                assert(j > 0 ==> runs[j] == rest[j - 1]);
            }
        }
    }
}

/// The slab that opens a run gives its top.
pub proof fn lemma_opener_top(s: Seq<u8>, pos: int, at: int, z: int, depth: i32)
    requires
        well_linked(s, pos),
    ensures
        run_top(runs_from(s, pos, s[at + 1] as i32, depth), z) == match opener(
            s,
            pos,
            at,
            z,
            depth as int,
        ) {
            Some(p) => Some(s[p + 1] as i32),
            None => None,
        },
    decreases arith::max_int(s.len() - pos, 0),
{
    let top = s[at + 1] as i32;
    if s[pos] == 0 {
        reveal_with_fuel(run_top, 2);
    } else {
        let n = next_header(s, pos);
        if s[n + 3] >= s[n + 1] {
            lemma_opener_top(s, n, at, z, depth);
        } else {
            let rest = runs_from(s, n, s[n + 1] as i32, depth);
            lemma_opener_top(s, n, n, z, depth);
            let all = seq![(top, s[n + 3] as i32)] + rest;
            assert(all.skip(1) =~= rest);
        }
    }
}

/// Whether following the links from header `pos` comes to header `p`.
pub open spec fn leads_to(s: Seq<u8>, pos: int, p: int) -> bool
    decreases arith::max_int(s.len() - pos, 0),
{
    header_fits(s, pos) && (pos == p || (s[pos] != 0 && leads_to(s, next_header(s, pos), p)))
}

proof fn lemma_opener_reached(s: Seq<u8>, pos: int, at: int, z: int, depth: int)
    requires
        well_linked(s, pos),
        opener(s, pos, at, z, depth) is Some,
    ensures
        opener(s, pos, at, z, depth)->0 == at || leads_to(
            s,
            pos,
            opener(s, pos, at, z, depth)->0,
        ),
    decreases arith::max_int(s.len() - pos, 0),
{
    if s[pos] != 0 {
        let n = next_header(s, pos);
        if s[n + 3] >= s[n + 1] {
            lemma_opener_reached(s, n, at, z, depth);
        } else if !(s[at + 1] <= z < s[n + 3]) {
            lemma_opener_reached(s, n, n, z, depth);
            assert(leads_to(s, n, n));
        }
    }
}

/// A height in the floor list of a slab has a colour record.
proof fn lemma_floor_is_coloured(s: Seq<u8>, pos: int, p: int, z: int)
    requires
        leads_to(s, pos, p),
        floors_there(s, pos),
        s[p + 1] <= z <= s[p + 2],
    ensures
        colour_pos(s, pos, z) matches Some(i) && i + 4 <= s.len(),
    decreases arith::max_int(s.len() - pos, 0),
{
    if pos != p && !(s[pos + 1] <= z <= s[pos + 2]) {
        let n = next_header(s, pos);
        lemma_floor_is_coloured(s, n, p, z);
    }
}

/// The top of a solid run has a colour record where the slab that opens
/// the run lists floor colours.
pub proof fn lemma_listed_top_is_coloured(s: Seq<u8>, z: int, depth: i32)
    requires
        floors_there(s, 0),
        opener(s, 0, 0, z, depth as int) matches Some(p) ==> s[p + 1] <= s[p + 2],
    ensures
        run_top(column_runs(s, depth), z) matches Some(top) ==> stored_colour(
            s,
            top as int,
        ) is Some,
{
    lemma_floors_link(s, 0);
    lemma_opener_top(s, 0, 0, z, depth);
    if opener(s, 0, 0, z, depth as int) is Some {
        let p = opener(s, 0, 0, z, depth as int)->0;
        lemma_opener_reached(s, 0, 0, z, depth as int);
        lemma_floor_is_coloured(s, 0, p, s[p + 1] as int);
    }
}

/// A chain whose floor colours are there is linked to its end.
proof fn lemma_floors_link(s: Seq<u8>, pos: int)
    requires
        floors_there(s, pos),
    ensures
        well_linked(s, pos),
    decreases arith::max_int(s.len() - pos, 0),
{
    if s[pos] != 0 {
        lemma_floors_link(s, next_header(s, pos));
    }
}

/// A chain whose colour lists fit is linked to its end.
pub proof fn lemma_lists_link(s: Seq<u8>, pos: int)
    requires
        lists_fit(s, pos),
    ensures
        well_linked(s, pos),
    decreases arith::max_int(s.len() - pos, 0),
{
    if s[pos] != 0 {
        lemma_lists_link(s, next_header(s, pos));
    }
}

/// Whether every slab of the column is there.
#[must_use]
pub fn is_linked_chain(column: &[u8]) -> (r: bool)
    ensures
        r == well_linked(column@, 0),
{
    let n: usize = column.len();
    let mut v: usize = 0;
    loop
        invariant
            n == column@.len(),
            v <= n,
            well_linked(column@, v as int) == well_linked(column@, 0),
        decreases n - v,
    {
        if n < 4 || v > n - 4 {
            return false;
        }
        let words: usize = column[v] as usize;
        if words == 0 {
            return true;
        }
        if words * 4 > n - v {
            assert(!well_linked(column@, next_header(column@, v as int)));
            return false;
        }
        v = v + words * 4;
    }
}

/// Whether every slab of the column is there, and every ceiling colour
/// list starts inside it.
#[must_use]
pub fn is_sound_chain(column: &[u8]) -> (r: bool)
    ensures
        r == lists_fit(column@, 0),
{
    let n: usize = column.len();
    let mut v: usize = 0;
    loop
        invariant
            n == column@.len(),
            v <= n,
            lists_fit(column@, v as int) == lists_fit(column@, 0),
        decreases n - v,
    {
        if n < 4 || v > n - 4 {
            return false;
        }
        let words: usize = column[v] as usize;
        if words == 0 {
            return true;
        }
        if column[v + 1] as usize * 4 > v && column[v + 1] as usize * 4 - v > (column[v + 2] as usize
            + 2) * 4 {
            return false;
        }
        if words * 4 > n - v {
            assert(!lists_fit(column@, next_header(column@, v as int)));
            return false;
        }
        v = v + words * 4;
    }
}

} // verus!
