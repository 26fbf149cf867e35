//! Pure convergence logic: given the free space the device reports right now,
//! how many bytes should be written next, or which filler should be given back?
//!
//! The loop is measure, write, measure again: never arithmetic bookkeeping. Every
//! file costs slightly more than its own bytes (directory entries, block rounding),
//! and that overhead is unknowable from the host side. Reading free space again after
//! each write absorbs it; predicting it does not.

use vstd::prelude::*;

verus! {

pub const KIB: u64 = 1024;

pub const MIB: u64 = 1048576;

pub const GIB: u64 = 1073741824;

/// Write sizes, largest first.
///
/// Bulk rungs are large to amortize the per-object cost of MTP; the small ones exist
/// for the final approach, where precision matters more than throughput.
pub const LADDER: [u64; 10] = [
    1073741824,
    268435456,
    67108864,
    16777216,
    4194304,
    1048576,
    262144,
    65536,
    16384,
    4096,
];

/// The free-space window to land in, e.g. 50-90 MB.
#[derive(Debug, Clone, Copy, PartialEq, Eq, Structural)]
pub struct Window {
    low: u64,
    high: u64,
}

/// The two bounds of a [`Window`], as numbers.
pub struct Bounds {
    pub low: int,
    pub high: int,
}

impl Bounds {
    /// The bounds fit a `u64` each and are at least [`Window::MIN_WIDTH`] apart.
    pub open spec fn wf(self) -> bool {
        0 <= self.low && self.low + Window::MIN_WIDTH <= self.high <= u64::MAX
    }

    /// The middle of the window, rounded down.
    pub open spec fn aim(self) -> int {
        self.low + (self.high - self.low) / 2
    }

    /// Both bounds belong to the window.
    pub open spec fn contains(self, free: int) -> bool {
        self.low <= free <= self.high
    }
}

impl View for Window {
    type V = Bounds;

    closed spec fn view(&self) -> Bounds {
        Bounds { low: self.low as int, high: self.high as int }
    }
}

#[derive(Debug, Clone, Copy, PartialEq, Eq, Structural)]
pub enum WindowError {
    /// `low` was not below `high`.
    Inverted { low: u64, high: u64 },
    /// The window was too narrow to land in reliably.
    TooNarrow { width: u64, minimum: u64 },
}

impl Window {
    /// Narrower than this and the last write's own metadata overhead could carry the
    /// device straight through the window and out of the bottom.
    pub const MIN_WIDTH: u64 = 4194304;

    /// Every window that exists is well formed.
    #[verifier::type_invariant]
    pub open spec fn inv(self) -> bool {
        self@.wf()
    }

    /// A window from `low` to `high`, both included. Refused where `low` is not below
    /// `high`, and then where the two are less than [`Window::MIN_WIDTH`] apart.
    pub fn new(low: u64, high: u64) -> (window: Result<Self, WindowError>)
        ensures
            match window {
                Ok(w) => low + Window::MIN_WIDTH <= high && w@ == (Bounds {
                    low: low as int,
                    high: high as int,
                }),
                Err(WindowError::Inverted { low: l, high: h }) => low >= high && l == low && h
                    == high,
                Err(WindowError::TooNarrow { width, minimum }) => {
                    &&& low < high < low + Window::MIN_WIDTH
                    &&& width == high - low
                    &&& minimum == Window::MIN_WIDTH
                },
            },
    {
        if low >= high {
            return Err(WindowError::Inverted { low, high });
        }
        let width: u64 = high - low;
        if width < Self::MIN_WIDTH {
            return Err(WindowError::TooNarrow { width, minimum: Self::MIN_WIDTH });
        }
        Ok(Window { low, high })
    }

    pub fn low(&self) -> (low: u64)
        ensures
            low == self@.low,
    {
        self.low
    }

    pub fn high(&self) -> (high: u64)
        ensures
            high == self@.high,
    {
        self.high
    }

    /// Where a fill steers: the middle, not an edge. The device keeps writing after it
    /// is disconnected, so parking at `low` risks drifting under it, and parking at
    /// `high` leaves no margin if the final write costs a little more than asked for.
    pub fn aim(&self) -> (aim: u64)
        ensures
            aim == self@.aim(),
            self@.low < aim < self@.high,
    {
        proof {
            use_type_invariant(self);
        }
        self.low + (self.high - self.low) / 2
    }

    pub fn contains(&self, free: u64) -> (inside: bool)
        ensures
            inside == self@.contains(free as int),
    {
        free >= self.low && free <= self.high
    }
}

/// What to do next, given the free space just read back from the device.
#[derive(Debug, Clone, Copy, PartialEq, Eq, Structural)]
pub enum Step {
    /// Upload one object of this many bytes, then read free space again.
    Write(u64),
    /// Free space is inside the window.
    Done,
    /// Free space is already below the window. Recoverable by deleting filler, which
    /// is why it is not an error.
    Overfilled { free: u64, excess: u64 },
}

/// The largest rung of [`LADDER`] that is at most `deficit`; `deficit` itself where
/// even the smallest rung is too large.
pub open spec fn largest_rung(deficit: int) -> int {
    if deficit >= LADDER[0] {
        LADDER[0] as int
    } else if deficit >= LADDER[1] {
        LADDER[1] as int
    } else if deficit >= LADDER[2] {
        LADDER[2] as int
    } else if deficit >= LADDER[3] {
        LADDER[3] as int
    } else if deficit >= LADDER[4] {
        LADDER[4] as int
    } else if deficit >= LADDER[5] {
        LADDER[5] as int
    } else if deficit >= LADDER[6] {
        LADDER[6] as int
    } else if deficit >= LADDER[7] {
        LADDER[7] as int
    } else if deficit >= LADDER[8] {
        LADDER[8] as int
    } else if deficit >= LADDER[9] {
        LADDER[9] as int
    } else {
        deficit
    }
}

/// The step that `free` bytes call for: nothing inside the window, the shortfall below
/// it, and above it one object of the largest rung that does not pass the aim.
pub open spec fn step_of(free: int, w: Bounds) -> Step {
    if free < w.low {
        Step::Overfilled { free: free as u64, excess: (w.low - free) as u64 }
    } else if free <= w.high {
        Step::Done
    } else {
        Step::Write(largest_rung(free - w.aim()) as u64)
    }
}

/// Decide the next move from the currently reported free space.
///
/// Call this after every single write, against a *freshly refreshed* reading.
pub fn next_step(free: u64, window: Window) -> (step: Step)
    ensures
        step == step_of(free as int, window@),
{
    proof {
        use_type_invariant(window);
    }
    if free < window.low() {
        return Step::Overfilled { free, excess: window.low() - free };
    }
    if free <= window.high() {
        return Step::Done;
    }
    let deficit: u64 = free - window.aim();
    // Writing this much would land exactly on `low`; no rung reaches it, since the aim
    // lies above `low`.
    let max_safe: u64 = free - window.low();
    let mut size: u64 = deficit;
    let mut i: usize = 0;
    while i < LADDER.len()
        invariant_except_break
            size == deficit,
        invariant
            i <= LADDER.len(),
            LADDER.len() == 10,
            forall|j: int| 0 <= j < i ==> deficit < LADDER[j],
        ensures
            size == largest_rung(deficit as int),
        decreases LADDER.len() - i,
    {
        if LADDER[i] <= deficit {
            size = LADDER[i];
            break;
        }
        i += 1;
    }
    let capped: u64 = if size < max_safe {
        size
    } else {
        max_safe
    };
    Step::Write(if capped > 1 { capped } else { 1 })
}

/// Which filler object to give back when free space is *below* the window.
#[derive(Debug, Clone, Copy, PartialEq, Eq, Structural)]
pub enum Removal {
    /// Delete the object at this index of the slice passed in.
    Remove(usize),
    /// Below the window with nothing of ours left to remove. Not recoverable by this
    /// tool: the space is someone else's.
    Exhausted,
}

/// `free` with `size` bytes given back, stopping at the largest `u64`.
pub open spec fn given_back(free: int, size: u64) -> int {
    if free + size <= u64::MAX {
        free + size
    } else {
        u64::MAX as int
    }
}

pub open spec fn distance(a: int, b: int) -> int {
    if a >= b {
        a - b
    } else {
        b - a
    }
}

/// Giving back `sizes[i]` lands inside the window.
pub open spec fn lands_inside(free: int, w: Bounds, sizes: Seq<u64>, i: int) -> bool {
    0 <= i < sizes.len() && w.contains(given_back(free, sizes[i]))
}

/// Giving back `sizes[i]` carries free space to the window's lower bound or past it.
pub open spec fn reaches_low(free: int, w: Bounds, sizes: Seq<u64>, i: int) -> bool {
    0 <= i < sizes.len() && given_back(free, sizes[i]) >= w.low
}

/// How far from the aim giving back `sizes[i]` lands.
pub open spec fn miss(free: int, w: Bounds, sizes: Seq<u64>, i: int) -> int {
    distance(given_back(free, sizes[i]), w.aim())
}

/// Of the objects that land inside the window, `i` lands nearest to the aim; the first
/// such object where several do.
pub open spec fn best_inside(free: int, w: Bounds, sizes: Seq<u64>, i: int) -> bool {
    &&& lands_inside(free, w, sizes, i)
    &&& forall|j: int|
        #![trigger lands_inside(free, w, sizes, j)]
        lands_inside(free, w, sizes, j) ==> miss(free, w, sizes, i) < miss(free, w, sizes, j) || (
        miss(free, w, sizes, i) == miss(free, w, sizes, j) && i <= j)
}

/// Of the objects that reach the window, `i` is the smallest; the first such object
/// where several are.
pub open spec fn smallest_reaching(free: int, w: Bounds, sizes: Seq<u64>, i: int) -> bool {
    &&& reaches_low(free, w, sizes, i)
    &&& forall|j: int|
        #![trigger reaches_low(free, w, sizes, j)]
        reaches_low(free, w, sizes, j) ==> sizes[i] < sizes[j] || (sizes[i] == sizes[j] && i <= j)
}

/// `i` is the largest object; the last such object where several are.
pub open spec fn largest(sizes: Seq<u64>, i: int) -> bool {
    &&& 0 <= i < sizes.len()
    &&& forall|j: int|
        #![trigger sizes[j]]
        0 <= j < sizes.len() ==> sizes[j] < sizes[i] || (sizes[j] == sizes[i] && j <= i)
}

/// `i` is the object to give back: one that lands inside the window if there is one,
/// else the smallest that reaches it, else the largest there is.
pub open spec fn chosen(free: int, w: Bounds, sizes: Seq<u64>, i: int) -> bool {
    ||| best_inside(free, w, sizes, i)
    ||| {
        &&& forall|j: int| !#[trigger] lands_inside(free, w, sizes, j)
        &&& smallest_reaching(free, w, sizes, i)
    }
    ||| {
        &&& forall|j: int| !#[trigger] lands_inside(free, w, sizes, j)
        &&& forall|j: int| !#[trigger] reaches_low(free, w, sizes, j)
        &&& largest(sizes, i)
    }
}

/// The removal that `free` bytes and the objects `sizes` call for.
pub open spec fn removal_of(free: int, w: Bounds, sizes: Seq<u64>) -> Removal {
    if sizes.len() == 0 {
        Removal::Exhausted
    } else {
        Removal::Remove((choose|i: int| chosen(free, w, sizes, i)) as usize)
    }
}

/// At most one object is the one to give back.
pub proof fn lemma_chosen_unique(free: int, w: Bounds, sizes: Seq<u64>, i: int, j: int)
    requires
        chosen(free, w, sizes, i),
        chosen(free, w, sizes, j),
    ensures
        i == j,
{
    assert(lands_inside(free, w, sizes, i) == lands_inside(free, w, sizes, i));
    assert(lands_inside(free, w, sizes, j) == lands_inside(free, w, sizes, j));
    assert(reaches_low(free, w, sizes, i) == reaches_low(free, w, sizes, i));
    assert(reaches_low(free, w, sizes, j) == reaches_low(free, w, sizes, j));
}

/// Pick the filler object to delete to climb back toward the window.
///
/// The counterpart to [`next_step`], and the reason a fill can converge from either
/// side. Preference order, and the middle one is the point:
///
/// 1. An object that lands *inside* the window outright: no rewriting needed.
/// 2. Otherwise the **smallest** object that reaches `low`. It overshoots past `high`,
///    and the ladder then writes back down. Filler is written in coarse rungs, so
///    deleting is rarely enough on its own.
/// 3. Otherwise the largest available, which at least makes progress.
#[must_use]
pub fn next_removal(free: u64, window: Window, sizes: &[u64]) -> (removal: Removal)
    ensures
        removal == removal_of(free as int, window@, sizes@),
        match removal {
            Removal::Exhausted => sizes@.len() == 0,
            Removal::Remove(i) => chosen(free as int, window@, sizes@, i as int),
        },
{
    if sizes.len() == 0 {
        return Removal::Exhausted;
    }
    let aim: u64 = window.aim();
    let low: u64 = window.low();
    let mut inside: Option<usize> = None;
    let mut reaches: Option<usize> = None;
    let mut biggest: usize = 0;
    let mut i: usize = 0;
    while i < sizes.len()
        invariant
            i <= sizes@.len(),
            aim == window@.aim(),
            low == window@.low,
            biggest < sizes@.len(),
            forall|j: int|
                #![trigger sizes@[j]]
                0 <= j < i ==> sizes@[j] < sizes@[biggest as int] || (sizes@[j]
                    == sizes@[biggest as int] && j <= biggest),
            match inside {
                None => forall|j: int|
                    #![trigger lands_inside(free as int, window@, sizes@, j)]
                    j < i ==> !lands_inside(free as int, window@, sizes@, j),
                Some(b) => {
                    &&& b < i
                    &&& lands_inside(free as int, window@, sizes@, b as int)
                    &&& forall|j: int|
                        #![trigger lands_inside(free as int, window@, sizes@, j)]
                        j < i && lands_inside(free as int, window@, sizes@, j) ==> miss(
                            free as int,
                            window@,
                            sizes@,
                            b as int,
                        ) < miss(free as int, window@, sizes@, j) || (miss(
                            free as int,
                            window@,
                            sizes@,
                            b as int,
                        ) == miss(free as int, window@, sizes@, j) && b <= j)
                },
            },
            match reaches {
                None => forall|j: int|
                    #![trigger reaches_low(free as int, window@, sizes@, j)]
                    j < i ==> !reaches_low(free as int, window@, sizes@, j),
                Some(b) => {
                    &&& b < i
                    &&& reaches_low(free as int, window@, sizes@, b as int)
                    &&& forall|j: int|
                        #![trigger reaches_low(free as int, window@, sizes@, j)]
                        j < i && reaches_low(free as int, window@, sizes@, j) ==> sizes@[b as int]
                            < sizes@[j] || (sizes@[b as int] == sizes@[j] && b <= j)
                },
            },
        decreases sizes.len() - i,
    {
        let landing: u64 = free.saturating_add(sizes[i]);
        assert(landing == given_back(free as int, sizes@[i as int]));
        if window.contains(landing) {
            let better: bool = match inside {
                None => true,
                Some(b) => abs_diff(landing, aim) < abs_diff(free.saturating_add(sizes[b]), aim),
            };
            if better {
                inside = Some(i);
            }
        }
        if landing >= low {
            let smaller: bool = match reaches {
                None => true,
                Some(b) => sizes[i] < sizes[b],
            };
            if smaller {
                reaches = Some(i);
            }
        }
        if sizes[i] >= sizes[biggest] {
            biggest = i;
        }
        i += 1;
    }
    let picked: usize = match (inside, reaches) {
        (Some(b), _) => b,
        (None, Some(b)) => b,
        (None, None) => biggest,
    };
    proof {
        let f = free as int;
        if inside is None {
            assert forall|j: int| !#[trigger] lands_inside(f, window@, sizes@, j) by {}
            if reaches is None {
                assert forall|j: int| !#[trigger] reaches_low(f, window@, sizes@, j) by {}
                assert(largest(sizes@, picked as int));
            } else {
                assert(smallest_reaching(f, window@, sizes@, picked as int));
            }
        } else {
            assert(best_inside(f, window@, sizes@, picked as int));
        }
        assert(chosen(f, window@, sizes@, picked as int));
        let c = choose|c: int| chosen(f, window@, sizes@, c);
        lemma_chosen_unique(f, window@, sizes@, c, picked as int);
    }
    Removal::Remove(picked)
}

/// The absolute difference of two byte counts.
pub(crate) fn abs_diff(a: u64, b: u64) -> (d: u64)
    ensures
        d == distance(a as int, b as int),
{
    if a >= b {
        a - b
    } else {
        b - a
    }
}

/// A proposed write is a rung of the ladder, the largest that does not pass the aim. It
/// leaves free space at the aim or above it, so above the lower bound. It is never
/// empty, and never comes near the 32-bit size field of an MTP object.
pub proof fn law_write_never_undershoots(free: u64, w: Bounds)
    requires
        w.wf(),
    ensures
        free > w.high <==> step_of(free as int, w) is Write,
        step_of(free as int, w) matches Step::Write(n) ==> {
            &&& LADDER@.contains(n)
            &&& forall|k: int|
                0 <= k < LADDER@.len() && #[trigger] LADDER@[k] <= free - w.aim() ==> LADDER@[k] <= n
            &&& w.low < w.aim() <= free - n
            &&& 0 < n < u32::MAX
        },
{
    let d = free - w.aim();
    if free > w.high {
        assert(LADDER@.contains(largest_rung(d) as u64)) by {
            let k = if d >= LADDER[0] {
                0int
            } else if d >= LADDER[1] {
                1
            } else if d >= LADDER[2] {
                2
            } else if d >= LADDER[3] {
                3
            } else if d >= LADDER[4] {
                4
            } else {
                5
            };
            assert(LADDER@[k] == largest_rung(d));
        }
    }
}

/// Free space after `k` rounds of measuring and writing, starting from `free`, on a
/// device where the write of round `i` costs `overhead(i)` bytes beyond its own.
pub open spec fn after_rounds(free: int, w: Bounds, overhead: spec_fn(nat) -> int, k: nat) -> int
    decreases k,
{
    if k == 0 {
        free
    } else {
        let before = after_rounds(free, w, overhead, (k - 1) as nat);
        match step_of(before, w) {
            Step::Write(n) => before - n - overhead((k - 1) as nat),
            _ => before,
        }
    }
}

/// The overhead of every round stays within the margin between the aim and the lower
/// bound, which is at least half of [`Window::MIN_WIDTH`].
pub open spec fn overhead_within_margin(w: Bounds, overhead: spec_fn(nat) -> int) -> bool {
    forall|i: nat| 0 <= #[trigger] overhead(i) <= w.aim() - w.low
}

/// Writing never takes free space below the window: a device that stands at the lower
/// bound or above it stays there, round after round. So a removal is never needed after
/// a write, and the two cannot alternate.
pub proof fn law_writes_stay_above_low(
    free: int,
    w: Bounds,
    overhead: spec_fn(nat) -> int,
    k: nat,
)
    requires
        w.wf(),
        w.low <= free <= u64::MAX,
        overhead_within_margin(w, overhead),
    ensures
        w.low <= after_rounds(free, w, overhead, k) <= free,
        !(step_of(after_rounds(free, w, overhead, k), w) is Overfilled),
    decreases k,
{
    if k > 0 {
        law_writes_stay_above_low(free, w, overhead, (k - 1) as nat);
        let before = after_rounds(free, w, overhead, (k - 1) as nat);
        law_write_never_undershoots(before as u64, w);
        assert(overhead((k - 1) as nat) >= 0);
    }
}

/// How many rounds settle a device that starts with `free` bytes: above a window of
/// [`Window::MIN_WIDTH`] or more, no write is smaller than a mebibyte.
pub open spec fn rounds_to_settle(free: int, w: Bounds) -> nat {
    if free <= w.high {
        0
    } else {
        ((free - w.high) / (MIB as int) + 1) as nat
    }
}

/// Measuring and writing converges: from any free space at or above the lower bound,
/// and whatever the overhead of each write within the margin, free space lands inside
/// the window and stays there.
pub proof fn law_writes_converge(free: int, w: Bounds, overhead: spec_fn(nat) -> int, k: nat)
    requires
        w.wf(),
        w.low <= free <= u64::MAX,
        overhead_within_margin(w, overhead),
        k >= rounds_to_settle(free, w),
    ensures
        w.contains(after_rounds(free, w, overhead, k)),
        step_of(after_rounds(free, w, overhead, k), w) == Step::Done,
{
    lemma_each_round_descends(free, w, overhead, k);
    law_writes_stay_above_low(free, w, overhead, k);
    if free > w.high {
        assert(k * 1048576 >= free - w.high) by {
            assert(rounds_to_settle(free, w) * 1048576 >= free - w.high);
        }
    }
}

proof fn lemma_each_round_descends(free: int, w: Bounds, overhead: spec_fn(nat) -> int, k: nat)
    requires
        w.wf(),
        w.low <= free <= u64::MAX,
        overhead_within_margin(w, overhead),
    ensures
        after_rounds(free, w, overhead, k) <= w.high || after_rounds(free, w, overhead, k) <= free
            - k * 1048576,
    decreases k,
{
    if k > 0 {
        lemma_each_round_descends(free, w, overhead, (k - 1) as nat);
        law_writes_stay_above_low(free, w, overhead, (k - 1) as nat);
        let before = after_rounds(free, w, overhead, (k - 1) as nat);
        law_write_never_undershoots(before as u64, w);
        assert(overhead((k - 1) as nat) >= 0);
        if before > w.high {
            assert(largest_rung(before - w.aim()) >= 1048576);
        }
    }
}

/// Everything the objects `sizes` hold.
pub open spec fn total(sizes: Seq<u64>) -> int
    decreases sizes.len(),
{
    if sizes.len() == 0 {
        0
    } else {
        total(sizes.drop_last()) + sizes.last()
    }
}

/// A removal names an object of the list, so it gives something back whenever that
/// object is not empty; only an empty list exhausts it.
pub proof fn law_removal_makes_progress(free: u64, w: Bounds, sizes: Seq<u64>)
    requires
        w.wf(),
        sizes.len() <= usize::MAX,
    ensures
        match removal_of(free as int, w, sizes) {
            Removal::Exhausted => sizes.len() == 0,
            Removal::Remove(i) => {
                &&& i < sizes.len()
                &&& chosen(free as int, w, sizes, i as int)
                &&& sizes[i as int] > 0 && free < w.low ==> given_back(
                    free as int,
                    sizes[i as int],
                ) > free
            },
        },
{
    if sizes.len() > 0 {
        lemma_some_object_is_chosen(free, w, sizes);
    }
}

proof fn lemma_some_object_is_chosen(free: u64, w: Bounds, sizes: Seq<u64>)
    requires
        sizes.len() > 0,
    ensures
        exists|i: int| chosen(free as int, w, sizes, i),
{
    let f = free as int;
    let inside = |i: int| lands_inside(f, w, sizes, i);
    let reach = |i: int| reaches_low(f, w, sizes, i);
    if exists|j: int| lands_inside(f, w, sizes, j) {
        let j = choose|j: int| lands_inside(f, w, sizes, j);
        assert(inside(j));
        let key = |i: int| miss(f, w, sizes, i);
        let n = sizes.len() as int;
        lemma_first_minimum(inside, key, n);
        let i = choose|i: int| first_minimum(inside, key, n, i);
        assert forall|j: int| #[trigger] lands_inside(f, w, sizes, j) implies miss(f, w, sizes, i)
            < miss(f, w, sizes, j) || (miss(f, w, sizes, i) == miss(f, w, sizes, j) && i <= j) by {
            assert(inside(j));
        }
        assert(chosen(f, w, sizes, i));
    } else if exists|j: int| reaches_low(f, w, sizes, j) {
        let j = choose|j: int| reaches_low(f, w, sizes, j);
        assert(reach(j));
        let key = |i: int| sizes[i] as int;
        let n = sizes.len() as int;
        lemma_first_minimum(reach, key, n);
        let i = choose|i: int| first_minimum(reach, key, n, i);
        assert forall|j: int| #[trigger] reaches_low(f, w, sizes, j) implies sizes[i] < sizes[j]
            || (sizes[i] == sizes[j] && i <= j) by {
            assert(reach(j));
        }
        assert(chosen(f, w, sizes, i));
    } else {
        lemma_last_maximum(sizes);
        let i = choose|i: int| largest(sizes, i);
        assert(chosen(f, w, sizes, i));
    }
}

spec fn first_minimum(ok: spec_fn(int) -> bool, key: spec_fn(int) -> int, n: int, i: int) -> bool {
    &&& 0 <= i < n
    &&& ok(i)
    &&& forall|j: int| 0 <= j < n && #[trigger] ok(j) ==> key(i) < key(j) || (key(i) == key(j) && i <= j)
}

proof fn lemma_first_minimum(ok: spec_fn(int) -> bool, key: spec_fn(int) -> int, n: int)
    requires
        exists|j: int| 0 <= j < n && #[trigger] ok(j),
    ensures
        exists|i: int| first_minimum(ok, key, n, i),
    decreases n,
{
    let j = choose|j: int| 0 <= j < n && #[trigger] ok(j);
    if exists|j: int| 0 <= j < n - 1 && #[trigger] ok(j) {
        let m = n - 1;
        lemma_first_minimum(ok, key, m);
        let b = choose|i: int| first_minimum(ok, key, m, i);
        if ok(n - 1) && key(n - 1) < key(b) {
            assert(first_minimum(ok, key, n, n - 1));
        } else {
            assert(first_minimum(ok, key, n, b));
        }
    } else {
        assert(j == n - 1);
        assert(first_minimum(ok, key, n, n - 1));
    }
}

proof fn lemma_last_maximum(sizes: Seq<u64>)
    requires
        sizes.len() > 0,
    ensures
        exists|i: int| largest(sizes, i),
    decreases sizes.len(),
{
    if sizes.len() == 1 {
        assert(largest(sizes, 0));
    } else {
        let rest = sizes.drop_last();
        lemma_last_maximum(rest);
        let b = choose|i: int| largest(rest, i);
        let n = sizes.len() - 1;
        if sizes[n] >= sizes[b] {
            assert forall|j: int| 0 <= j < sizes.len() implies #[trigger] sizes[j] < sizes[n] || (sizes[j]
                == sizes[n] && j <= n) by {
                if j < n {
                    assert(rest[j] == sizes[j]);
                }
            }
            assert(largest(sizes, n));
        } else {
            assert forall|j: int| 0 <= j < sizes.len() implies #[trigger] sizes[j] < sizes[b] || (sizes[j]
                == sizes[b] && j <= b) by {
                if j < n {
                    assert(rest[j] == sizes[j]);
                }
            }
            assert(largest(sizes, b));
        }
    }
}

/// Free space once removals have stopped: an object is given back for as long as free
/// space is below the window and an object is left.
pub open spec fn after_removals(free: int, w: Bounds, sizes: Seq<u64>) -> int
    decreases sizes.len(),
{
    if free >= w.low || sizes.len() == 0 {
        free
    } else {
        match removal_of(free, w, sizes) {
            Removal::Remove(i) if i < sizes.len() => after_removals(
                given_back(free, sizes[i as int]),
                w,
                sizes.remove(i as int),
            ),
            _ => free,
        }
    }
}

/// Removals climb out whenever they can: free space ends at the lower bound or above it
/// exactly where everything the objects hold is enough to get there.
pub proof fn law_removals_reach_the_window(free: u64, w: Bounds, sizes: Seq<u64>)
    requires
        w.wf(),
        sizes.len() <= usize::MAX,
    ensures
        after_removals(free as int, w, sizes) >= w.low <==> free + total(sizes) >= w.low,
        after_removals(free as int, w, sizes) >= free,
    decreases sizes.len(),
{
    lemma_total_nonnegative(sizes);
    if free < w.low && sizes.len() > 0 {
        law_removal_makes_progress(free, w, sizes);
        let i = removal_of(free as int, w, sizes)->Remove_0 as int;
        lemma_total_remove(sizes, i);
        lemma_total_nonnegative(sizes.remove(i));
        let next = given_back(free as int, sizes[i]);
        law_removals_reach_the_window(next as u64, w, sizes.remove(i));
    }
}

/// Objects never hold less than nothing.
pub proof fn lemma_total_nonnegative(sizes: Seq<u64>)
    ensures
        total(sizes) >= 0,
    decreases sizes.len(),
{
    if sizes.len() > 0 {
        lemma_total_nonnegative(sizes.drop_last());
    }
}

/// Taking an object out takes out what it holds.
pub proof fn lemma_total_remove(sizes: Seq<u64>, i: int)
    requires
        0 <= i < sizes.len(),
    ensures
        total(sizes.remove(i)) == total(sizes) - sizes[i],
    decreases sizes.len(),
{
    let rest = sizes.remove(i);
    if i == sizes.len() - 1 {
        assert(rest =~= sizes.drop_last());
    } else {
        lemma_total_remove(sizes.drop_last(), i);
        assert(rest.drop_last() =~= sizes.drop_last().remove(i));
        assert(rest.last() == sizes.last());
    }
}

} // verus!
