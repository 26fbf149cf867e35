//! What the plan makes of a reading, in plain arithmetic.

use crate::plan;
use crate::plan::{Bounds, Removal, Step, Window};
use vstd::prelude::*;

verus! {

/// The window steers for its middle, and both bounds belong to it. It is four mebibytes
/// wide at the least.
pub proof fn law_the_aim_is_the_middle(w: Bounds, free: int)
    ensures
        2 * w.aim() == w.low + w.high || 2 * w.aim() + 1 == w.low + w.high,
        w.contains(free) <==> w.low <= free && free <= w.high,
        Window::MIN_WIDTH == 4 * 1024 * 1024,
        w.wf() <==> 0 <= w.low && w.high - w.low >= 4 * 1024 * 1024 && w.high
            <= 0xffff_ffff_ffff_ffff,
{
}

/// Inside the window there is nothing to do, below it the shortfall is told, and above it
/// one object is written: of a mebibyte times a power of four, up to a gibibyte. It goes
/// into what is left to the middle of the window, but would not go in four times over
/// unless it is the largest there is.
pub proof fn law_a_reading_calls_for_one_step(free: u64, w: Bounds)
    requires
        w.wf(),
    ensures
        w.low <= free <= w.high <==> plan::step_of(free as int, w) == Step::Done,
        free < w.low ==> plan::step_of(free as int, w) == (Step::Overfilled {
            free,
            excess: (w.low - free) as u64,
        }),
        free > w.high ==> (plan::step_of(free as int, w) matches Step::Write(n) && {
            let left = free - (w.low + w.high) / 2;
            &&& n == 0x10_0000 || n == 0x40_0000 || n == 0x100_0000 || n == 0x400_0000 || n
                == 0x1000_0000 || n == 0x4000_0000
            &&& n <= left
            &&& left < 4 * n || n == 0x4000_0000
        }),
{
    assert((w.low + w.high) / 2 == w.low + (w.high - w.low) / 2);
}

/// What is free once `size` bytes are given back, as far as it can be counted.
pub open spec fn freed(free: u64, size: u64) -> int {
    if free + size > 0xffff_ffff_ffff_ffff {
        0xffff_ffff_ffff_ffff
    } else {
        free + size
    }
}

/// How far a reading is from the middle of the window.
pub open spec fn off_the_middle(w: Bounds, free: int) -> int {
    let middle = (w.low + w.high) / 2;
    if free < middle {
        middle - free
    } else {
        free - middle
    }
}

/// Of the objects there are, one is given back, and there always is one: where any of them
/// leads into the window, the one that leads nearest to its middle; else, where any leads
/// above it, the smallest of those; else the largest of all. Of equals it is the first
/// one, but the last one of the largest.
pub proof fn law_the_best_object_is_given_back(free: u64, w: Bounds, sizes: Seq<u64>)
    requires
        w.wf(),
        0 < sizes.len() <= usize::MAX,
    ensures
        plan::removal_of(free as int, w, sizes) matches Removal::Remove(i) && {
            let inside = |j: int|
                0 <= j < sizes.len() && w.low <= freed(free, sizes[j]) <= w.high;
            let enough = |j: int| 0 <= j < sizes.len() && w.low <= freed(free, sizes[j]);
            &&& 0 <= i < sizes.len()
            &&& (exists|j: int| #[trigger] inside(j)) ==> inside(i as int) && forall|j: int|
                #[trigger]
                inside(j) ==> off_the_middle(w, freed(free, sizes[i as int])) < off_the_middle(
                    w,
                    freed(free, sizes[j]),
                ) || (off_the_middle(w, freed(free, sizes[i as int])) == off_the_middle(
                    w,
                    freed(free, sizes[j]),
                ) && i <= j)
            &&& !(exists|j: int| #[trigger] inside(j)) && (exists|j: int| #[trigger] enough(j))
                ==> enough(i as int) && forall|j: int|
                #[trigger]
                enough(j) ==> sizes[i as int] < sizes[j] || (sizes[i as int] == sizes[j] && i <= j)
            &&& !(exists|j: int| #[trigger] enough(j)) ==> forall|j: int|
                0 <= j < sizes.len() ==> #[trigger] sizes[j] < sizes[i as int] || (sizes[j]
                    == sizes[i as int] && j <= i)
        },
{
    plan::law_removal_makes_progress(free, w, sizes);
    let f = free as int;
    let i = plan::removal_of(f, w, sizes)->Remove_0 as int;
    let inside = |j: int| 0 <= j < sizes.len() && w.low <= freed(free, sizes[j]) <= w.high;
    let enough = |j: int| 0 <= j < sizes.len() && w.low <= freed(free, sizes[j]);
    assert((w.low + w.high) / 2 == w.low + (w.high - w.low) / 2);
    assert forall|j: int| plan::lands_inside(f, w, sizes, j) == #[trigger] inside(j) by {}
    assert forall|j: int| plan::reaches_low(f, w, sizes, j) == #[trigger] enough(j) by {}
    assert forall|j: int| 0 <= j < sizes.len() implies plan::miss(f, w, sizes, j)
        == off_the_middle(w, freed(free, #[trigger] sizes[j])) by {}
    assert(forall|j: int| #[trigger] inside(j) ==> plan::lands_inside(f, w, sizes, j));
    assert(forall|j: int| #[trigger] enough(j) ==> plan::reaches_low(f, w, sizes, j));
    assert(plan::lands_inside(f, w, sizes, i) == inside(i));
    assert(plan::reaches_low(f, w, sizes, i) == enough(i));
    if exists|j: int| #[trigger] inside(j) {
        let j = choose|j: int| #[trigger] inside(j);
        assert(plan::lands_inside(f, w, sizes, j));
        assert(plan::best_inside(f, w, sizes, i));
    } else if exists|j: int| #[trigger] enough(j) {
        let j = choose|j: int| #[trigger] enough(j);
        assert(plan::reaches_low(f, w, sizes, j));
        assert(plan::smallest_reaching(f, w, sizes, i));
    } else {
        assert(!plan::reaches_low(f, w, sizes, i));
        assert(!plan::lands_inside(f, w, sizes, i)) by {
            assert(!inside(i));
        }
        assert(plan::largest(sizes, i));
    }
}

/// Without an object of ours nothing is given back.
pub proof fn law_nothing_is_given_back_of_nothing(free: u64, w: Bounds)
    ensures
        plan::removal_of(free as int, w, Seq::empty()) == Removal::Exhausted,
{
}

} // verus!
