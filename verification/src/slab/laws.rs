//! What the bytes of a column say of its voxels.
use crate::arith;
use crate::color;
use crate::slab;
use vstd::prelude::*;

verus! {

/// Whether `z` lies in the gap above the slab at `p`, between the end of
/// the slab over it and its own top.
pub open spec fn over(s: Seq<u8>, p: int, z: int) -> bool {
    s[p + 3] <= z < s[p + 1]
}

/// Whether header `p` comes after header `pos` in the chain.
pub open spec fn follows(s: Seq<u8>, pos: int, p: int) -> bool {
    slab::header_fits(s, pos) && s[pos] != 0 && slab::leads_to(s, pos + 4 * s[pos], p)
}

/// A header that the links lead to is there, at or after the start.
pub proof fn lemma_reached_fits(s: Seq<u8>, pos: int, p: int)
    requires
        slab::leads_to(s, pos, p),
    ensures
        pos <= p,
        p + 4 <= s.len(),
    decreases arith::max_int(s.len() - pos, 0),
{
    if pos != p {
        lemma_reached_fits(s, slab::next_header(s, pos), p);
    }
}

/// A voxel from the first top on that lies in no gap is solid, where no
/// slab is the last and has its floor list missing.
pub proof fn lemma_solid_outside_gaps(s: Seq<u8>, z: int, depth: i32)
    requires
        slab::well_linked(s, 0),
        s[1] <= z < depth,
        forall|p: int| #[trigger] follows(s, 0, p) ==> !over(s, p, z),
        forall|p: int| #[trigger]
            slab::leads_to(s, 0, p) && s[p] == 0 ==> s[p + 1] <= s[p + 2] + 1,
    ensures
        slab::run_top(slab::column_runs(s, depth), z) is Some,
{
    lemma_solid_from(s, 0, s[1] as i32, z, depth);
}

proof fn lemma_solid_from(s: Seq<u8>, pos: int, top: i32, z: int, depth: i32)
    requires
        slab::well_linked(s, pos),
        top <= z < depth,
        forall|p: int| #[trigger] follows(s, pos, p) ==> !over(s, p, z),
        forall|p: int| #[trigger]
            slab::leads_to(s, pos, p) && s[p] == 0 ==> s[p + 1] <= s[p + 2] + 1,
    ensures
        slab::run_top(slab::runs_from(s, pos, top, depth), z) is Some,
    decreases arith::max_int(s.len() - pos, 0),
{
    if s[pos] == 0 {
        assert(slab::leads_to(s, pos, pos));
        reveal_with_fuel(slab::run_top, 2);
    } else {
        let n = slab::next_header(s, pos);
        assert(slab::well_linked(s, n));
        assert(slab::leads_to(s, n, n));
        assert(follows(s, pos, n));
        assert forall|p: int| #[trigger] follows(s, n, p) implies !over(s, p, z) by {
            assert(slab::leads_to(s, n, p));
            assert(follows(s, pos, p));
        }
        assert forall|p: int| #[trigger] slab::leads_to(s, n, p) && s[p] == 0 implies s[p + 1]
            <= s[p + 2] + 1 by {
            assert(slab::leads_to(s, pos, p));
        }
        if s[n + 3] >= s[n + 1] {
            lemma_solid_from(s, n, top, z, depth);
        } else {
            let rest = slab::runs_from(s, n, s[n + 1] as i32, depth);
            let all = seq![(top, s[n + 3] as i32)] + rest;
            assert(all.skip(1) =~= rest);
            if z >= s[n + 3] {
                lemma_solid_from(s, n, s[n + 1] as i32, z, depth);
            }
        }
    }
}

/// A voxel above the first top is air. So is one in a gap, and one from
/// the top of a last slab on whose floor list is missing, where the
/// heights of the column rise.
pub proof fn lemma_air_in_gaps(s: Seq<u8>, p: int, z: int, depth: i32)
    requires
        slab::heights_rise(s, 0, s[1] as int, depth as int),
        z < s[1] || (follows(s, 0, p) && (over(s, p, z) || (s[p] == 0 && s[p + 3] < s[p + 1]
            && s[p + 2] + 1 < s[p + 1] && s[p + 1] <= z))),
    ensures
        slab::run_top(slab::column_runs(s, depth), z) is None,
{
    if z < s[1] {
        lemma_above_runs(s, 0, s[1] as i32, z, depth);
    } else {
        lemma_air_from(s, 0, p, s[1] as i32, z, depth);
    }
}

proof fn lemma_above_runs(s: Seq<u8>, pos: int, top: i32, z: int, depth: i32)
    requires
        slab::heights_rise(s, pos, top as int, depth as int),
        z < top,
    ensures
        slab::run_top(slab::runs_from(s, pos, top, depth), z) is None,
{
    let runs = slab::runs_from(s, pos, top, depth);
    slab::lemma_runs_in_order(s, pos, top, depth);
    if slab::run_top(runs, z) is Some {
        let k = slab::lemma_run_top(runs, z);
        assert(top <= runs[k].0);
    }
}

proof fn lemma_gaps_below(s: Seq<u8>, pos: int, p: int, top: int, depth: int)
    requires
        slab::heights_rise(s, pos, top, depth),
        follows(s, pos, p),
        s[p + 3] < s[p + 1],
    ensures
        top < s[p + 3],
    decreases arith::max_int(s.len() - pos, 0),
{
    let n = slab::next_header(s, pos);
    if n != p {
        assert(follows(s, n, p));
        if s[n + 3] >= s[n + 1] {
            lemma_gaps_below(s, n, p, top, depth);
        } else {
            lemma_gaps_below(s, n, p, s[n + 1] as int, depth);
        }
    }
}

proof fn lemma_air_from(s: Seq<u8>, pos: int, p: int, top: i32, z: int, depth: i32)
    requires
        slab::heights_rise(s, pos, top as int, depth as int),
        follows(s, pos, p),
        over(s, p, z) || (s[p] == 0 && s[p + 3] < s[p + 1] && s[p + 2] + 1 < s[p + 1] && s[p + 1]
            <= z),
    ensures
        slab::run_top(slab::runs_from(s, pos, top, depth), z) is None,
    decreases arith::max_int(s.len() - pos, 0),
{
    let n = slab::next_header(s, pos);
    if n != p {
        assert(follows(s, n, p));
    }
    if s[n + 3] >= s[n + 1] {
        assert(n != p);
        lemma_air_from(s, n, p, top, z, depth);
    } else {
        let rest = slab::runs_from(s, n, s[n + 1] as i32, depth);
        let all = seq![(top, s[n + 3] as i32)] + rest;
        assert(all.skip(1) =~= rest);
        if n == p {
            if z < s[p + 1] {
                lemma_above_runs(s, n, s[n + 1] as i32, z, depth);
            }
        } else {
            lemma_gaps_below(s, n, p, s[n + 1] as int, depth as int);
            lemma_air_from(s, n, p, s[n + 1] as i32, z, depth);
        }
    }
}

/// Whether `c` has the four bytes at `i`, the lowest first.
pub open spec fn spelled(s: Seq<u8>, i: int, c: Option<u32>) -> bool {
    c is Some && forall|k: int|
        0 <= k < 4 ==> #[trigger] color::byte_of(c->0, k) == s[i + k]
}

proof fn lemma_word_bytes(s: Seq<u8>, i: int)
    ensures
        spelled(s, i, Some(slab::word_at(s, i))),
{
    color::lemma_bytes_of_packed(s[i] as int, s[i + 1] as int, s[i + 2] as int, s[i + 3] as int);
}

/// A floor voxel of the first slab has its colour in the words after the
/// header, the top voxel's first.
pub proof fn lemma_floor_colours_follow_header(s: Seq<u8>, z: int)
    requires
        s.len() >= 4,
        s[1] <= z <= s[2],
        4 * (z - s[1]) + 8 <= s.len(),
    ensures
        spelled(s, 4 + 4 * (z - s[1]), slab::stored_colour(s, z)),
{
    lemma_word_bytes(s, 4 + 4 * (z - s[1]));
}

/// The words between the floor colours of a slab and the next header are
/// the colours of the voxels right above the gap, the lowest voxel's
/// last.
pub proof fn lemma_ceiling_colours_lead_to_header(s: Seq<u8>, z: int)
    requires
        s.len() >= 4,
        s[0] != 0,
        4 * s[0] + 4 <= s.len(),
        !(s[1] <= z <= s[2]),
        s[4 * s[0] + 3] - (s[0] - 1 - (s[2] - s[1] + 1)) <= z < s[4 * s[0] + 3],
    ensures
        spelled(s, 4 * s[0] - 4 * (s[4 * s[0] + 3] - z), slab::stored_colour(s, z)),
{
    lemma_word_bytes(s, 4 * s[0] - 4 * (s[4 * s[0] + 3] - z));
}

/// A voxel with no colour at the first slab has the one that the rest of
/// the chain stores; none where the chain ends.
pub proof fn lemma_other_colours_in_rest(s: Seq<u8>, z: int)
    requires
        slab::well_linked(s, 0),
        s[0] != 0 ==> slab::lists_fit(s.skip(4 * s[0]), 0),
        !(s[1] <= z <= s[2]),
        s[0] != 0 ==> !(s[4 * s[0] + 3] - (s[0] - 1 - (s[2] - s[1] + 1)) <= z < s[4 * s[0] + 3]),
    ensures
        s[0] == 0 ==> slab::stored_colour(s, z) is None,
        s[0] != 0 ==> slab::stored_colour(s, z) == slab::stored_colour(s.skip(4 * s[0]), z),
{
    if s[0] != 0 {
        let off = 4 * s[0];
        let t = s.skip(off);
        lemma_colour_in_tail(s, off, off, z);
        if slab::colour_pos(t, 0, z) is Some {
            lemma_colour_range(t, 0, z);
        }
    }
}

proof fn lemma_colour_range(s: Seq<u8>, pos: int, z: int)
    requires
        slab::lists_fit(s, pos),
        slab::colour_pos(s, pos, z) is Some,
    ensures
        slab::colour_pos(s, pos, z)->0 >= 0,
    decreases arith::max_int(s.len() - pos, 0),
{
    if !(s[pos + 1] <= z <= s[pos + 2]) && s[pos] != 0 {
        let n = slab::next_header(s, pos);
        if !(slab::ceiling_start(s, pos, n) <= z < s[n + 3]) {
            lemma_colour_range(s, n, z);
        }
    }
}

proof fn lemma_colour_in_tail(s: Seq<u8>, off: int, pos: int, z: int)
    requires
        0 <= off <= pos,
        slab::well_linked(s, pos),
    ensures
        slab::colour_pos(s, pos, z) == match slab::colour_pos(s.skip(off), pos - off, z) {
            Some(i) => Some(off + i),
            None => None,
        },
    decreases arith::max_int(s.len() - pos, 0),
{
    let t = s.skip(off);
    assert(t[pos - off] == s[pos]);
    assert(t[pos - off + 1] == s[pos + 1]);
    assert(t[pos - off + 2] == s[pos + 2]);
    if s[pos] != 0 {
        let n = slab::next_header(s, pos);
        assert(slab::well_linked(s, n));
        lemma_colour_in_tail(s, off, n, z);
        assert(slab::next_header(t, pos - off) == n - off);
        assert(t[n - off + 3] == s[n + 3]);
    }
}

/// The bytes after a whole chain do not belong to it.
pub proof fn lemma_bytes_after_chain_are_left(s: Seq<u8>, after: Seq<u8>)
    requires
        slab::floors_there(s, 0),
    ensures
        slab::chain_len(s + after) == slab::chain_len(s),
        slab::chain_bytes(s + after, 0) == slab::chain_bytes(s, 0),
{
    lemma_end_of_whole(s, after, 0);
    slab::lemma_chain_end(s, 0);
    assert(s.skip(0) =~= s);
    assert((s + after).skip(0) =~= s + after);
    assert(slab::chain_bytes(s + after, 0) =~= slab::chain_bytes(s, 0));
}

proof fn lemma_end_of_whole(s: Seq<u8>, after: Seq<u8>, pos: int)
    requires
        slab::floors_there(s, pos),
    ensures
        slab::chain_end(s + after, pos) == slab::chain_end(s, pos),
    decreases arith::max_int(s.len() - pos, 0),
{
    if s[pos] != 0 {
        lemma_end_of_whole(s, after, slab::next_header(s, pos));
    }
}

/// A chain is the words of its first slab and the chain of the rest; the
/// last slab is a header and one word for each of its floor voxels.
pub proof fn lemma_chain_adds_up(s: Seq<u8>)
    requires
        slab::floors_there(s, 0),
    ensures
        s[0] != 0 ==> slab::chain_len(s) == 4 * s[0] + slab::chain_len(s.skip(4 * s[0])),
        s[0] == 0 && s[1] <= s[2] ==> slab::chain_len(s) == 8 + 4 * (s[2] - s[1]),
        s[0] == 0 && s[1] > s[2] ==> slab::chain_len(s) == 4,
{
    if s[0] != 0 {
        let off = 4 * s[0];
        assert(slab::floors_there(s, off));
        lemma_end_in_tail(s, off, off);
    }
}

proof fn lemma_end_in_tail(s: Seq<u8>, off: int, pos: int)
    requires
        0 <= off <= pos,
        slab::floors_there(s, pos),
    ensures
        slab::chain_end(s, pos) == off + slab::chain_end(s.skip(off), pos - off),
    decreases arith::max_int(s.len() - pos, 0),
{
    let t = s.skip(off);
    assert(t[pos - off] == s[pos]);
    assert(t[pos - off + 1] == s[pos + 1]);
    assert(t[pos - off + 2] == s[pos + 2]);
    if s[pos] != 0 {
        lemma_end_in_tail(s, off, slab::next_header(s, pos));
    }
}

proof fn lemma_heights_in_headers(s: Seq<u8>, pos: int, p: int, i: int)
    requires
        slab::leads_to(s, pos, p),
        p < i <= p + 3,
    ensures
        slab::height_byte(s, pos, i),
    decreases arith::max_int(s.len() - pos, 0),
{
    if pos != p {
        lemma_heights_in_headers(s, slab::next_header(s, pos), p, i);
    }
}

proof fn lemma_header_of_height(s: Seq<u8>, pos: int, i: int) -> (p: int)
    requires
        slab::height_byte(s, pos, i),
    ensures
        slab::leads_to(s, pos, p),
        p < i <= p + 3,
    decreases arith::max_int(s.len() - pos, 0),
{
    if pos < i <= pos + 3 {
        pos
    } else {
        lemma_header_of_height(s, slab::next_header(s, pos), i)
    }
}

/// Raising a chain adds the base to the three heights of each header.
pub proof fn lemma_raise_moves_heights(buf: Seq<u8>, off: int, base: int, p: int, k: int)
    requires
        0 <= off < buf.len(),
        slab::raise_fits(buf, off, base),
        slab::leads_to(buf.skip(off), 0, p),
        p + k < slab::chain_bytes(buf, off).len(),
        1 <= k <= 3,
    ensures
        slab::raised_chain(buf, off, base)[p + k] == buf[off + p + k] + base,
{
    lemma_reached_fits(buf.skip(off), 0, p);
    lemma_heights_in_headers(buf.skip(off), 0, p, p + k);
    slab::lemma_chain_end(buf.skip(off), 0);
}

/// Raising a chain keeps every byte that is no height of a header, the
/// links and the colours.
pub proof fn lemma_raise_keeps_the_rest(buf: Seq<u8>, off: int, base: int, i: int)
    requires
        0 <= off < buf.len(),
        0 <= i < slab::chain_bytes(buf, off).len(),
        forall|p: int| #[trigger] slab::leads_to(buf.skip(off), 0, p) ==> !(p < i <= p + 3),
    ensures
        slab::raised_chain(buf, off, base)[i] == buf[off + i],
{
    slab::lemma_chain_end(buf.skip(off), 0);
    if slab::height_byte(buf.skip(off), 0, i) {
        lemma_header_of_height(buf.skip(off), 0, i);
    }
}

} // verus!
