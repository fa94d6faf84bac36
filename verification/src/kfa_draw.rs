//! The order in which the limbs of a jointed sprite get their places:
//! every limb after the one it hangs on.
use vstd::prelude::*;

verus! {

/// What the order needs to know of a hinge.
#[derive(Debug, Clone, Copy, PartialEq, Eq, Structural)]
pub struct HingeLink {
    /// The limb that this one hangs on; negative for a root.
    pub parent: i32,
    /// Zero where the hinge turns.
    pub htype: i32,
}

/// How one limb gets its place.
#[derive(Debug, Clone, Copy, PartialEq, Eq, Structural)]
pub enum LimbStep {
    /// From the place of the whole sprite.
    Root { limb: usize },
    /// From the place of another limb; `turns` where the hinge between
    /// them turns.
    Child { limb: usize, parent: usize, turns: bool },
}

impl LimbStep {
    /// The limb that gets its place.
    pub open spec fn limb(self) -> usize {
        match self {
            LimbStep::Root { limb } => limb,
            LimbStep::Child { limb, .. } => limb,
        }
    }
}

/// How limb `j` gets its place.
pub open spec fn step_of(links: Seq<HingeLink>, j: usize) -> LimbStep {
    let h = links[j as int];
    if h.parent >= 0 {
        LimbStep::Child { limb: j, parent: h.parent as usize, turns: h.htype == 0 }
    } else {
        LimbStep::Root { limb: j }
    }
}

/// The steps for all limbs, the last of `hinge_sort` first.
pub open spec fn steps_of(hinge_sort: Seq<usize>, links: Seq<HingeLink>) -> Seq<LimbStep> {
    Seq::new(hinge_sort.len(), |i: int| step_of(links, hinge_sort[hinge_sort.len() - 1 - i]))
}

/// The steps that place all limbs, the last of `hinge_sort` first.
#[must_use]
pub fn limb_steps(hinge_sort: &[usize], links: &[HingeLink]) -> (r: Vec<LimbStep>)
    requires
        forall|k: int|
            0 <= k < hinge_sort@.len() ==> (#[trigger] hinge_sort@[k]) < links@.len(),
    ensures
        r@ == steps_of(hinge_sort@, links@),
{
    let n: usize = hinge_sort.len();
    let mut steps: Vec<LimbStep> = Vec::new();
    let mut left: usize = n;
    while left > 0
        invariant
            n == hinge_sort@.len(),
            left <= n,
            forall|k: int|
                0 <= k < hinge_sort@.len() ==> (#[trigger] hinge_sort@[k]) < links@.len(),
            steps@ == steps_of(hinge_sort@, links@).take(n - left),
        decreases left,
    {
        left = left - 1;
        let j: usize = hinge_sort[left];
        let h: HingeLink = links[j];
        let step: LimbStep = if h.parent >= 0 {
            LimbStep::Child { limb: j, parent: h.parent as usize, turns: h.htype == 0 }
        } else {
            LimbStep::Root { limb: j }
        };
        steps.push(step);
        assert(steps@ =~= steps_of(hinge_sort@, links@).take(n - left));
    }
    assert(steps@ =~= steps_of(hinge_sort@, links@));
    steps
}

/// Whether every limb comes in `hinge_sort` before the one it hangs on.
pub open spec fn parents_last(hinge_sort: Seq<usize>, links: Seq<HingeLink>) -> bool {
    forall|k: int|
        0 <= k < hinge_sort.len() && links[(#[trigger] hinge_sort[k]) as int].parent >= 0
            ==> exists|m: int|
            k < m < hinge_sort.len() && #[trigger] hinge_sort[m]
                == links[hinge_sort[k] as int].parent as usize
}

/// No limb is placed before the one it hangs on.
pub proof fn lemma_parents_first(hinge_sort: Seq<usize>, links: Seq<HingeLink>, i: int) -> (e: int)
    requires
        parents_last(hinge_sort, links),
        0 <= i < hinge_sort.len(),
        steps_of(hinge_sort, links)[i] is Child,
    ensures
        0 <= e < i,
        steps_of(hinge_sort, links)[e].limb() == steps_of(hinge_sort, links)[i]->parent,
{
    let n = hinge_sort.len();
    let k = n - 1 - i;
    assert(links[hinge_sort[k] as int].parent >= 0);
    let m = choose|m: int|
        k < m < hinge_sort.len() && #[trigger] hinge_sort[m]
            == links[hinge_sort[k] as int].parent as usize;
    let e = n - 1 - m;
    assert(hinge_sort[n - 1 - e] == hinge_sort[m]);
    e
}

/// Each limb of the order gets one step, the last of the order first: a
/// limb with a parent is placed from that parent and turns exactly where
/// its own hinge does, whatever limb it hangs on; a limb without one is a
/// root.
pub proof fn lemma_steps_follow_hinges(hinge_sort: Seq<usize>, links: Seq<HingeLink>, k: int)
    requires
        0 <= k < hinge_sort.len(),
    ensures
        steps_of(hinge_sort, links).len() == hinge_sort.len(),
        ({
            let limb = hinge_sort[k];
            let h = links[limb as int];
            match steps_of(hinge_sort, links)[hinge_sort.len() - 1 - k] {
                LimbStep::Root { limb: l } => l == limb && h.parent < 0,
                LimbStep::Child { limb: l, parent, turns } => {
                    &&& l == limb
                    &&& h.parent >= 0 && parent as int == h.parent as int
                    &&& turns <==> h.htype == 0
                },
            }
        }),
{
    assert(hinge_sort[hinge_sort.len() - 1 - (hinge_sort.len() - 1 - k)] == hinge_sort[k]);
}

/// Hinges of the same kind turn alike, wherever they hang.
pub proof fn lemma_same_hinges_turn_alike(
    hinge_sort: Seq<usize>,
    links: Seq<HingeLink>,
    i: int,
    j: int,
)
    requires
        0 <= i < hinge_sort.len(),
        0 <= j < hinge_sort.len(),
        steps_of(hinge_sort, links)[i] is Child,
        steps_of(hinge_sort, links)[j] is Child,
        links[steps_of(hinge_sort, links)[i].limb() as int].htype
            == links[steps_of(hinge_sort, links)[j].limb() as int].htype,
    ensures
        steps_of(hinge_sort, links)[i]->turns == steps_of(hinge_sort, links)[j]->turns,
{
}

} // verus!
