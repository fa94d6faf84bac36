//! Materials by colour.
use vstd::prelude::*;

verus! {

/// The colour without its highest byte.
pub open spec fn rgb(c: u32) -> int {
    c as int % 0x100_0000
}

/// The material of the first entry from `i` on with this colour; zero
/// where there is none.
pub open spec fn material_from(map: Seq<(u32, u8)>, i: int, color: u32) -> u8
    decreases map.len() - i,
{
    if i < 0 || i >= map.len() {
        0
    } else if rgb(map[i].0) == rgb(color) {
        map[i].1
    } else {
        material_from(map, i + 1, color)
    }
}

/// The material that `map` gives a colour, which is looked up without its
/// highest byte. Zero, the opaque material, where the map has none.
#[must_use]
pub fn material_for_color(map: &[(u32, u8)], color: u32) -> (r: u8)
    ensures
        r == material_from(map@, 0, color),
{
    let mut i: usize = 0;
    while i < map.len()
        invariant
            i <= map@.len(),
            material_from(map@, 0, color) == material_from(map@, i as int, color),
        decreases map@.len() - i,
    {
        if map[i].0 % 0x100_0000 == color % 0x100_0000 {
            return map[i].1;
        }
        i += 1;
    }
    0
}

/// The highest byte of a colour does not tell its material.
pub proof fn lemma_material_by_rgb(map: Seq<(u32, u8)>, i: int, a: u32, b: u32)
    requires
        rgb(a) == rgb(b),
    ensures
        material_from(map, i, a) == material_from(map, i, b),
    decreases map.len() - i,
{
    if 0 <= i < map.len() {
        lemma_material_by_rgb(map, i + 1, a, b);
    }
}

/// Whether an entry of the map has this colour.
pub open spec fn names_color(map: Seq<(u32, u8)>, i: int, color: u32) -> bool {
    (map[i].0 as int - color as int) % 0x100_0000 == 0
}

/// The first entry with a colour gives its material, and none of the
/// others counts; a colour that no entry has is of the opaque material.
pub proof fn lemma_first_entry_counts(map: Seq<(u32, u8)>, color: u32, i: int)
    ensures
        0 <= i < map.len() && names_color(map, i, color) && (forall|j: int|
            0 <= j < i ==> !(#[trigger] names_color(map, j, color))) ==> material_from(map, 0, color)
            == map[i].1,
        (forall|j: int| 0 <= j < map.len() ==> !(#[trigger] names_color(map, j, color)))
            ==> material_from(map, 0, color) == 0,
{
    if 0 <= i < map.len() && names_color(map, i, color) && (forall|j: int|
        0 <= j < i ==> !(#[trigger] names_color(map, j, color))) {
        lemma_found_from(map, color, 0, i);
    }
    if forall|j: int| 0 <= j < map.len() ==> !(#[trigger] names_color(map, j, color)) {
        lemma_none_from(map, color, 0);
    }
}

proof fn lemma_found_from(map: Seq<(u32, u8)>, color: u32, k: int, i: int)
    requires
        0 <= k <= i < map.len(),
        names_color(map, i, color),
        forall|j: int| 0 <= j < i ==> !(#[trigger] names_color(map, j, color)),
    ensures
        material_from(map, k, color) == map[i].1,
    decreases i - k,
{
    if k < i {
        assert(!names_color(map, k, color));
        lemma_found_from(map, color, k + 1, i);
    }
}

proof fn lemma_none_from(map: Seq<(u32, u8)>, color: u32, k: int)
    requires
        0 <= k,
        forall|j: int| 0 <= j < map.len() ==> !(#[trigger] names_color(map, j, color)),
    ensures
        material_from(map, k, color) == 0,
    decreases map.len() - k,
{
    if k < map.len() {
        assert(!names_color(map, k, color));
        lemma_none_from(map, color, k + 1);
    }
}

} // verus!
