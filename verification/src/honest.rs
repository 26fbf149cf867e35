//! What the operations come to on an honest device: one that does what it is asked, holds
//! what it was given until it is told to delete it, and whose free space is what its
//! contents leave.

use crate::clean;
use crate::clean::{CleanState, Doomed};
use crate::events::Outcome;
use crate::fill;
use crate::fill::{FillState, Job, PhaseView, ReplyView, RequestView};
use crate::listing;
use crate::listing::{Entry, RootEntry};
use crate::mass_storage::Space;
use crate::names;
use crate::order;
use crate::plan;
use crate::plan::Bounds;
use crate::sweep::{AnswerView, Ask};
use vstd::prelude::*;

verus! {

/// What a device holds.
pub struct Held {
    /// The entries at the storage root.
    pub root: Seq<Entry>,
    /// The entries in the filler folder.
    pub inside: Seq<Entry>,
    /// What a write that was stopped has left behind.
    pub partial: Option<Entry>,
}

/// What is up to the device.
pub struct Ways {
    pub capacity: u64,
    /// The free space on it without anything of what it lists.
    pub room: int,
    /// What an entry takes up: its bytes, and what the file system needs beside them.
    pub cost: spec_fn(Entry) -> int,
    /// The entry that a file of that name and size becomes.
    pub file: spec_fn(Held, Seq<char>, u64) -> Entry,
    /// The entry that a folder of that name becomes.
    pub folder: spec_fn(Held, Seq<char>) -> Entry,
    /// The entry that the marker becomes.
    pub marker: spec_fn(Held) -> Entry,
    /// The entry that a stopped write leaves behind.
    pub piece: spec_fn(Held) -> Entry,
    /// The listing of the root with what its folders hold.
    pub tree: spec_fn(Held) -> Seq<RootEntry>,
}

impl Ways {
    /// What is put on the device is listed as what it is.
    pub open spec fn honest(self) -> bool {
        &&& forall|h: Held, name: Seq<char>, bytes: u64|
            {
                let e = #[trigger] (self.file)(h, name, bytes);
                e.name@ == name && e.bytes == bytes && e.is_file && !e.is_dir
            }
        &&& forall|h: Held, name: Seq<char>|
            {
                let e = #[trigger] (self.folder)(h, name);
                e.name@ == name && e.is_dir && !e.is_file
            }
        &&& forall|h: Held|
            {
                let e = #[trigger] (self.marker)(h);
                listing::is_marker(e) && !e.is_dir
            }
    }

    /// The free space that is left beside what the device holds.
    pub open spec fn free(self, h: Held) -> int {
        self.room - taken(self.cost, h.root) - taken(self.cost, h.inside) - match h.partial {
            Some(e) => (self.cost)(e),
            None => 0,
        }
    }

    /// What the device reports of its space.
    pub open spec fn reading(self, h: Held) -> Space {
        Space {
            total: self.capacity,
            free: if self.free(h) < 0 {
                0
            } else {
                listing::capped(self.free(h))
            },
        }
    }
}

/// What entries take up together.
pub open spec fn taken(cost: spec_fn(Entry) -> int, entries: Seq<Entry>) -> int
    decreases entries.len(),
{
    if entries.len() == 0 {
        0
    } else {
        taken(cost, entries.drop_last()) + cost(entries.last())
    }
}

/// Any entry but `e`.
pub open spec fn other_than(e: Entry) -> spec_fn(Entry) -> bool {
    |x: Entry| x != e
}

/// The entries without `e`.
pub open spec fn without(entries: Seq<Entry>, e: Entry) -> Seq<Entry> {
    entries.filter(other_than(e))
}

/// The entries without the marker.
pub open spec fn unmarked(entries: Seq<Entry>) -> Seq<Entry> {
    entries.filter(|e: Entry| !listing::is_marker(e))
}

/// With the folder `dir` at the root, created unless it was there.
pub open spec fn ensured(w: Ways, dir: Seq<char>, h: Held) -> Held {
    if listing::folder_named(h.root, dir) is Some {
        h
    } else {
        Held { root: h.root.push((w.folder)(h, dir)), ..h }
    }
}

/// With the marker in the folder, put there unless it was.
pub open spec fn marked(w: Ways, h: Held) -> Held {
    if listing::holds_marker(h.inside) {
        h
    } else {
        Held { inside: h.inside.push((w.marker)(h)), ..h }
    }
}

/// A fill and the device that it works on.
pub struct Filling {
    pub fill: FillState,
    pub held: Held,
}

/// What an honest device answers to what a fill asks for, and what it holds afterwards.
/// `stop` is whether the caller wants the fill to stop.
pub open spec fn served(w: Ways, f: Filling, stop: bool) -> (ReplyView, Held) {
    let h = f.held;
    match fill::request_of(f.fill) {
        RequestView::CheckWritable => (ReplyView::Writable, h),
        RequestView::Measure => (
            ReplyView::Measured { space: w.reading(h), cancelled: stop },
            h,
        ),
        RequestView::ListFolder => (ReplyView::Listing(h.inside), h),
        RequestView::ListRoot => (ReplyView::Root((w.tree)(h)), h),
        RequestView::EnsureFolder => (ReplyView::Done, ensured(w, f.fill.dir, h)),
        RequestView::Mark => (ReplyView::Done, marked(w, h)),
        RequestView::Delete(e) => (
            ReplyView::Deleted { gone: true },
            Held { inside: without(h.inside, e), ..h },
        ),
        RequestView::Write { name, bytes, .. } => if stop {
            (
                ReplyView::Stopped { partial: Some((w.piece)(h).id) },
                Held { partial: Some((w.piece)(h)), ..h },
            )
        } else {
            (ReplyView::Wrote, Held { inside: h.inside.push((w.file)(h, name, bytes)), ..h })
        },
        RequestView::Discard { .. } => (ReplyView::Done, Held { partial: None, ..h }),
        RequestView::Unmark => (ReplyView::Done, Held { inside: unmarked(h.inside), ..h }),
        RequestView::Finish => (ReplyView::Done, h),
    }
}

/// One step of a fill on an honest device.
pub open spec fn stepped(w: Ways, f: Filling, stop: bool) -> Filling {
    let (reply, held) = served(w, f, stop);
    Filling { fill: fill::after(f.fill, reply), held }
}

/// `n` steps of a fill on an honest device; `stops` is when the caller wants it to stop.
pub open spec fn played(w: Ways, f: Filling, stops: spec_fn(nat) -> bool, n: nat) -> Filling
    decreases n,
{
    if n == 0 {
        f
    } else {
        stepped(w, played(w, f, stops, (n - 1) as nat), stops((n - 1) as nat))
    }
}

/// A clean and the device that it works on.
pub struct Cleaning {
    pub clean: CleanState,
    pub held: Held,
}

/// What an honest device answers to what a clean asks for, and what it holds afterwards.
/// The one folder that a clean deletes is the filler folder at the root.
pub open spec fn obeyed(w: Ways, c: Cleaning) -> (AnswerView, Held) {
    let h = c.held;
    match clean::ask_of(c.clean) {
        Ask::ListRoot => (AnswerView::Listing(h.root), h),
        Ask::List(_) => (AnswerView::Listing(h.inside), h),
        Ask::Delete(e) => (
            AnswerView::Deleted { gone: true },
            if e.is_dir {
                Held { root: without(h.root, e), ..h }
            } else {
                Held { inside: without(h.inside, e), ..h }
            },
        ),
        _ => (AnswerView::Measured { free: w.reading(h).free }, h),
    }
}

/// `n` steps of a clean on an honest device.
pub open spec fn cleared(w: Ways, c: Cleaning, n: nat) -> Cleaning
    decreases n,
{
    if n == 0 {
        c
    } else {
        let before = cleared(w, c, (n - 1) as nat);
        let (answer, held) = obeyed(w, before);
        Cleaning { clean: clean::after(before.clean, answer), held }
    }
}

/// Every entry is what a fill puts into its folder.
pub open spec fn ours(entries: Seq<Entry>) -> bool {
    forall|e: Entry| #[trigger]
        entries.contains(e) ==> (listing::is_filler(e) || listing::is_marker(e)) && !e.is_dir
}

/// Every entry is filler.
pub open spec fn all_filler(entries: Seq<Entry>) -> bool {
    forall|e: Entry| #[trigger] entries.contains(e) ==> listing::is_filler(e) && !e.is_dir
}

/// What a fill of a folder that was not there has done to the device so far.
spec fn tidy(w: Ways, dir: Seq<char>, h: Held, f: Filling) -> bool {
    let made = Held { root: h.root.push((w.folder)(h, dir)), ..h };
    let underway = f.held.root == made.root && ours(f.held.inside);
    &&& f.fill.dir == dir
    &&& match f.fill.phase {
        PhaseView::Start | PhaseView::FirstMeasure | PhaseView::CheckFiller {
            ..
        } | PhaseView::LookElsewhere { .. } | PhaseView::Ensure { .. } => f.held == h,
        PhaseView::Survey { .. } => f.held == made,
        PhaseView::Marking { job } => f.held == made && !job.stuck,
        PhaseView::Reclaim { .. } => false,
        PhaseView::Writing { job, .. } => underway && f.held.partial is None && !job.stuck
            && job.seq <= fill::last_seq(),
        PhaseView::Discarding { job, .. } => underway && !job.stuck,
        PhaseView::Closing { result } => underway && (result is Ok ==> f.held.partial is None),
        PhaseView::Ended { result } => result is Ok ==> {
            &&& f.held.root == made.root
            &&& all_filler(f.held.inside)
            &&& f.held.partial is None
        },
        phase => underway && f.held.partial is None && fill::marked(phase) is Some
            && !fill::marked(phase)->0.stuck,
    }
}

/// Before a fill of the folder `dir` that is not there.
pub open spec fn untouched(h: Held, dir: Seq<char>) -> bool {
    &&& listing::folder_named(h.root, dir) is None
    &&& h.inside.len() == 0
    &&& h.partial is None
}

proof fn lemma_step_stays_tidy(w: Ways, dir: Seq<char>, h: Held, f: Filling, stop: bool)
    requires
        w.honest(),
        untouched(h, dir),
        tidy(w, dir, h, f),
    ensures
        tidy(w, dir, h, stepped(w, f, stop)),
{
    let next = stepped(w, f, stop);
    let inside = f.held.inside;
    assert(Seq::<Entry>::empty() =~= h.inside);
    match f.fill.phase {
        PhaseView::Survey { .. } => {
            assert(!listing::holds_marker(inside));
            assert(listing::debris_of(inside).len() == 0);
        },
        PhaseView::Marking { .. } => {
            lemma_contains_push(inside, (w.marker)(f.held));
        },
        PhaseView::Removing { victim, .. } => {
            assert forall|e: Entry| #[trigger] next.held.inside.contains(e) implies inside.contains(
                e,
            ) by {
                lemma_without(inside, victim, e);
            }
        },
        PhaseView::Writing { job, bytes, .. } => {
            let name = names::filler_name_of(job.seq as nat);
            names::law_filler_names_round_trip(name, job.seq as u32);
            lemma_contains_push(inside, (w.file)(f.held, name, bytes));
        },
        PhaseView::Closing { .. } => {
            assert forall|e: Entry| #[trigger] next.held.inside.contains(e) implies inside.contains(
                e,
            ) && !listing::is_marker(e) by {
                listing::lemma_filter_holds(inside, |e: Entry| !listing::is_marker(e), e);
            }
        },
        _ => {},
    }
}

proof fn lemma_without(entries: Seq<Entry>, e: Entry, x: Entry)
    requires
        without(entries, e).contains(x),
    ensures
        entries.contains(x),
        x != e,
{
    listing::lemma_filter_holds(entries, other_than(e), x);
}

proof fn lemma_contains_push(s: Seq<Entry>, x: Entry)
    ensures
        forall|e: Entry| #[trigger] s.push(x).contains(e) <==> s.contains(e) || e == x,
{
    assert forall|e: Entry| #[trigger] s.push(x).contains(e) <==> s.contains(e) || e == x by {
        if s.contains(e) {
            let i = choose|i: int| 0 <= i < s.len() && s[i] == e;
            assert(s.push(x)[i] == e);
        }
        assert(s.push(x)[s.len() as int] == x);
        if s.push(x).contains(e) && e != x {
            let i = choose|i: int| 0 <= i < s.push(x).len() && s.push(x)[i] == e;
            assert(s[i] == e);
        }
    }
}

proof fn lemma_stays_tidy(
    w: Ways,
    f: Filling,
    stops: spec_fn(nat) -> bool,
    n: nat,
)
    requires
        w.honest(),
        f.fill.phase is Start,
        untouched(f.held, f.fill.dir),
    ensures
        tidy(w, f.fill.dir, f.held, played(w, f, stops, n)),
    decreases n,
{
    if n > 0 {
        let m = (n - 1) as nat;
        lemma_stays_tidy(w, f, stops, m);
        lemma_step_stays_tidy(w, f.fill.dir, f.held, played(w, f, stops, m), stops(m));
    }
}

/// How far a clean of a folder of nothing but filler has got: `rest` is still to go.
spec fn sweeping(phase: clean::PhaseView, folder: Entry, rest: Seq<Doomed>) -> bool {
    if rest.len() > 0 {
        phase matches clean::PhaseView::Sweeping { folder: at, current, rest: r, marker, tally }
            && at == folder && current == rest[0] && r == rest.drop_first() && marker is None
            && !tally.stuck
    } else {
        phase matches clean::PhaseView::Checking { folder: at, .. } && at == folder
    }
}

/// The entries of the first `k` that are doomed are gone.
spec fn gone_up_to(doomed: Seq<Doomed>, k: nat, before: Seq<Entry>, now: Seq<Entry>) -> bool {
    forall|e: Entry| #[trigger]
        now.contains(e) ==> before.contains(e) && forall|i: int|
            0 <= i < k ==> (#[trigger] doomed[i]).entry != e
}

proof fn lemma_sweep(w: Ways, c: Cleaning, folder: Entry, k: nat)
    requires
        c.clean.phase is Locating,
        listing::folder_named(c.held.root, c.clean.dir) == Some(folder),
        all_filler(c.held.inside),
        k <= clean::doomed_of(c.held.inside).len(),
    ensures
        ({
            let doomed = clean::doomed_of(c.held.inside);
            let now = cleared(w, c, k + 2);
            &&& sweeping(now.clean.phase, folder, doomed.skip(k as int))
            &&& now.clean.dir == c.clean.dir
            &&& now.held.root == c.held.root
            &&& now.held.partial == c.held.partial
            &&& gone_up_to(doomed, k, c.held.inside, now.held.inside)
        }),
    decreases k,
{
    let l = c.held.inside;
    let doomed = clean::doomed_of(l);
    if k == 0 {
        reveal_with_fuel(cleared, 3);
        assert(doomed.skip(0) =~= doomed);
        assert(clean::marker_of(l) is None) by {
            clean::lemma_marker_of(l);
            if listing::holds_marker(l) {
                let i = choose|i: int| 0 <= i < l.len() && listing::is_marker(#[trigger] l[i]);
                assert(l.contains(l[i]));
                names::law_names_have_one_meaning(l[i].name@);
            }
        }
    } else {
        let m = (k - 1) as nat;
        lemma_sweep(w, c, folder, m);
        let before = cleared(w, c, m + 2);
        assert(cleared(w, c, k + 2) == Cleaning {
            clean: clean::after(before.clean, obeyed(w, before).0),
            held: obeyed(w, before).1,
        });
        assert(doomed.skip(m as int)[0] == doomed[m as int]);
        assert(doomed.skip(m as int).drop_first() =~= doomed.skip(k as int));
        let now = cleared(w, c, k + 2);
        let e = doomed[m as int].entry;
        lemma_doomed_are_filler(l);
        assert forall|x: Entry| #[trigger] now.held.inside.contains(x) implies l.contains(x)
            && forall|i: int| 0 <= i < k ==> (#[trigger] doomed[i]).entry != x by {
            lemma_without(before.held.inside, e, x);
        }
    }
}

/// In a folder of nothing but filler, all that a clean dooms is filler, and all filler is
/// doomed.
proof fn lemma_doomed_are_filler(l: Seq<Entry>)
    requires
        all_filler(l),
    ensures
        forall|i: int|
            0 <= i < clean::doomed_of(l).len() ==> !(#[trigger] clean::doomed_of(l)[i]).entry.is_dir,
        forall|e: Entry| #[trigger]
            l.contains(e) ==> exists|i: int|
                0 <= i < clean::doomed_of(l).len() && (#[trigger] clean::doomed_of(l)[i]).entry == e,
{
    broadcast use vstd::seq_lib::group_to_multiset_ensures;

    let doomed = clean::doomed_of(l);
    let fillers = listing::fillers_of(l);
    assert forall|i: int| 0 <= i < l.len() implies listing::is_filler(#[trigger] l[i]) by {
        assert(l.contains(l[i]));
    }
    clean::lemma_only_filler(l);
    order::law_sorted(l);
    assert forall|i: int| 0 <= i < doomed.len() implies !(#[trigger] doomed[i]).entry.is_dir by {
        assert(doomed[i].entry == fillers[i]);
        assert(fillers.contains(fillers[i]));
        listing::lemma_fillers_are_filler(l, fillers[i]);
    }
    assert forall|e: Entry| #[trigger] l.contains(e) implies exists|i: int|
        0 <= i < doomed.len() && (#[trigger] doomed[i]).entry == e by {
        assert(fillers.to_multiset().count(e) > 0);
        assert(fillers.contains(e));
        let i = choose|i: int| 0 <= i < fillers.len() && fillers[i] == e;
        assert(doomed[i].entry == e);
    }
}

/// A folder that was put at the root is the one found there, and taking it away leaves
/// the root as it was.
proof fn lemma_folder_put(root: Seq<Entry>, dir: Seq<char>, folder: Entry)
    requires
        listing::folder_named(root, dir) is None,
        folder.is_dir,
        folder.name@ == dir,
    ensures
        listing::folder_named(root.push(folder), dir) == Some(folder),
        without(root.push(folder), folder) == root,
    decreases root.len(),
{
    let keep = other_than(folder);
    lemma_no_folder(root, dir);
    order::lemma_filter_push(root, folder, keep);
    order::lemma_filter_all(root, keep);
    if root.len() > 0 {
        lemma_folder_put(root.drop_first(), dir, folder);
        assert(root.push(folder).drop_first() =~= root.drop_first().push(folder));
    } else {
        assert(root.push(folder)[0] == folder);
    }
}

proof fn lemma_no_folder(root: Seq<Entry>, dir: Seq<char>)
    requires
        listing::folder_named(root, dir) is None,
    ensures
        forall|i: int| 0 <= i < root.len() ==> !((#[trigger] root[i]).is_dir && root[i].name@ == dir),
    decreases root.len(),
{
    if root.len() > 0 {
        lemma_no_folder(root.drop_first(), dir);
        assert forall|i: int| 0 <= i < root.len() implies !((#[trigger] root[i]).is_dir
            && root[i].name@ == dir) by {
            if i > 0 {
                assert(root.drop_first()[i - 1] == root[i]);
            }
        }
    }
}

/// A clean that has ended stays as it is.
proof fn lemma_cleared_is_over(w: Ways, c: Cleaning, n: nat, m: nat)
    requires
        n <= m,
        cleared(w, c, n).clean.phase is Ended,
    ensures
        cleared(w, c, m) == cleared(w, c, n),
    decreases m,
{
    if n < m {
        lemma_cleared_is_over(w, c, n, (m - 1) as nat);
    }
}

/// A clean undoes a whole fill: where a fill of a folder that was not there has succeeded,
/// however it ended, stopped or not, a clean of that folder on the same honest device ends
/// well, gives back all the free space there was before the fill, and leaves at the root
/// exactly what stood there, the folder gone with its contents.
pub proof fn law_clean_undoes_a_whole_fill(
    w: Ways,
    f: Filling,
    stops: spec_fn(nat) -> bool,
    n: nat,
    m: nat,
)
    requires
        w.honest(),
        f.fill.phase is Start,
        untouched(f.held, f.fill.dir),
        played(w, f, stops, n).fill.phase matches PhaseView::Ended { result } && result is Ok,
        m >= played(w, f, stops, n).held.inside.len() + 5,
    ensures
        ({
            let start = CleanState { dir: f.fill.dir, phase: clean::PhaseView::Locating };
            let filled = played(w, f, stops, n).held;
            let end = cleared(w, Cleaning { clean: start, held: filled }, m);
            &&& end.held == f.held
            &&& end.clean.phase matches clean::PhaseView::Ended { result: Ok(report) }
                && report.free == w.reading(f.held).free
        }),
{
    let dir = f.fill.dir;
    let filled = played(w, f, stops, n).held;
    let folder = (w.folder)(f.held, dir);
    let l = filled.inside;
    let start = Cleaning {
        clean: CleanState { dir, phase: clean::PhaseView::Locating },
        held: filled,
    };
    lemma_stays_tidy(w, f, stops, n);
    lemma_folder_put(f.held.root, dir, folder);
    lemma_doomed_are_filler(l);
    let doomed = clean::doomed_of(l);
    let k = doomed.len();
    assert(k == l.len()) by {
        assert forall|i: int| 0 <= i < l.len() implies listing::is_filler(#[trigger] l[i]) by {
            assert(l.contains(l[i]));
        }
        clean::lemma_only_filler(l);
    }
    lemma_sweep(w, start, folder, k);
    assert(doomed.skip(k as int).len() == 0);
    let swept = cleared(w, start, k + 2);
    assert(swept.held.inside.len() == 0) by {
        if swept.held.inside.len() > 0 {
            assert(swept.held.inside.contains(swept.held.inside[0]));
        }
    }
    assert(swept.held.inside =~= f.held.inside);
    reveal_with_fuel(cleared, 4);
    let checked = cleared(w, start, k + 3);
    assert(checked.clean.phase is Removing);
    let removed = cleared(w, start, k + 4);
    assert(removed.held.root == f.held.root);
    let end = cleared(w, start, k + 5);
    assert(end.held == f.held);
    lemma_cleared_is_over(w, start, k + 5, m);
}

/// Nobody wants the fill to stop.
pub open spec fn never() -> spec_fn(nat) -> bool {
    |k: nat| false
}

/// An entry that no interrupted fill can have left behind.
pub open spec fn no_debris() -> spec_fn(Entry) -> bool {
    |e: Entry| !fill::is_debris(e)
}

/// Without what an interrupted fill left behind.
pub open spec fn reclaimed(h: Held) -> Held {
    if listing::holds_marker(h.inside) {
        Held { inside: h.inside.filter(no_debris()), ..h }
    } else {
        h
    }
}

/// What the device holds once the fill has everything in place to write: the folder is
/// there, the debris is gone, and the marker stands.
pub open spec fn readied(w: Ways, dir: Seq<char>, h: Held) -> Held {
    marked(w, reclaimed(ensured(w, dir, h)))
}

impl Ways {
    /// Nothing takes up less than nothing; a file takes up its bytes, and beside them no
    /// more than `margin`; and so much is enough for a folder and for the marker.
    pub open spec fn costs_within(self, margin: int) -> bool {
        &&& forall|e: Entry| 0 <= #[trigger] (self.cost)(e)
        &&& forall|h: Held, name: Seq<char>, bytes: u64|
            bytes <= (self.cost)(#[trigger] (self.file)(h, name, bytes)) <= bytes + margin
        &&& forall|h: Held, name: Seq<char>|
            (self.cost)(#[trigger] (self.folder)(h, name)) <= margin
        &&& forall|h: Held| (self.cost)(#[trigger] (self.marker)(h)) <= margin
    }
}

proof fn lemma_taken(cost: spec_fn(Entry) -> int, s: Seq<Entry>, keep: spec_fn(Entry) -> bool)
    requires
        forall|e: Entry| 0 <= #[trigger] cost(e),
    ensures
        0 <= taken(cost, s.filter(keep)) <= taken(cost, s),
    decreases s.len(),
{
    if s.len() == 0 {
        reveal(Seq::filter);
        assert(s.filter(keep) =~= s);
    } else {
        let rest = s.drop_last();
        lemma_taken(cost, rest, keep);
        order::lemma_filter_push(rest, s.last(), keep);
        assert(rest.push(s.last()) =~= s);
        assert(rest.filter(keep).push(s.last()).drop_last() =~= rest.filter(keep));
        assert(cost(s.last()) >= 0);
    }
}

/// The device has as much free space as there is room at most, and not less than none
/// where it is not overfull.
proof fn lemma_free(w: Ways, h: Held)
    requires
        forall|e: Entry| 0 <= #[trigger] (w.cost)(e),
    ensures
        w.free(h) <= w.room,
        0 <= w.free(h) <= u64::MAX ==> w.reading(h).free == w.free(h),
{
    lemma_taken(w.cost, h.root, any_entry());
    lemma_taken(w.cost, h.inside, any_entry());
    if let Some(e) = h.partial {
        assert((w.cost)(e) >= 0);
    }
}

spec fn any_entry() -> spec_fn(Entry) -> bool {
    |e: Entry| true
}

proof fn lemma_put(w: Ways, h: Held, e: Entry)
    ensures
        w.free(Held { inside: h.inside.push(e), ..h }) == w.free(h) - (w.cost)(e),
        w.free(Held { root: h.root.push(e), ..h }) == w.free(h) - (w.cost)(e),
{
    assert(h.inside.push(e).drop_last() =~= h.inside);
    assert(h.root.push(e).drop_last() =~= h.root);
}

/// Playing on from where `a` steps led.
proof fn lemma_played_on(w: Ways, f: Filling, a: nat, b: nat)
    ensures
        played(w, f, never(), a + b) == played(w, played(w, f, never(), a), never(), b),
    decreases b,
{
    if b > 0 {
        lemma_played_on(w, f, a, (b - 1) as nat);
        assert((a + b - 1) as nat == a + (b - 1) as nat);
    }
}

/// A fill that has ended stays as it is.
proof fn lemma_played_is_over(w: Ways, f: Filling, n: nat, m: nat)
    requires
        n <= m,
        played(w, f, never(), n).fill.phase is Ended,
    ensures
        played(w, f, never(), m) == played(w, f, never(), n),
    decreases m,
{
    if n < m {
        lemma_played_is_over(w, f, n, (m - 1) as nat);
    }
}

/// One round above the window: a reading, a write, and a reading after it.
proof fn lemma_round(w: Ways, f: Filling) -> (e: Entry)
    requires
        w.honest(),
        f.fill.wf(),
        f.fill.mounted || w.capacity > 0,
        w.costs_within(f.fill.window.aim() - f.fill.window.low),
        w.room <= u64::MAX,
        f.fill.phase matches PhaseView::Deciding { job } && !job.stuck && job.seq
            <= fill::last_seq(),
        f.fill.window.high < w.free(f.held),
    ensures
        ({
            let job = f.fill.phase->Deciding_job;
            let next = played(w, f, never(), 3);
            &&& next.fill == (FillState {
                phase: PhaseView::Deciding { job: Job { seq: (job.seq + 1) as u64, ..job } },
                ..f.fill
            })
            &&& next.held == (Held { inside: f.held.inside.push(e), ..f.held })
            &&& e.name@ == names::filler_name_of(job.seq as nat)
            &&& listing::is_filler(e)
            &&& !e.is_dir
            &&& f.fill.window.low <= w.free(next.held) <= w.free(f.held) - 1048576
        }),
{
    let job = f.fill.phase->Deciding_job;
    let win = f.fill.window;
    let free = w.free(f.held);
    lemma_free(w, f.held);
    plan::law_write_never_undershoots(free as u64, win);
    let bytes = plan::step_of(free, win)->Write_0;
    assert(bytes >= 1048576) by {
        assert(plan::largest_rung(free - win.aim()) >= 1048576);
    }
    let name = names::filler_name_of(job.seq as nat);
    let e = (w.file)(f.held, name, bytes);
    names::law_filler_names_round_trip(name, job.seq as u32);
    lemma_put(w, f.held, e);
    reveal_with_fuel(played, 4);
    let one = played(w, f, never(), 1);
    assert(one.fill.phase is Writing && one.fill.phase->Writing_bytes == bytes);
    assert(one.held == f.held);
    let two = played(w, f, never(), 2);
    assert(two.fill.phase is Landed);
    assert(two.held.inside == f.held.inside.push(e));
    lemma_free(w, two.held);
    let next = played(w, f, never(), 3);
    assert(next.held == two.held);
    e
}

/// Inside the window, a reading ends the fill, and then the marker goes.
proof fn lemma_lands(w: Ways, f: Filling)
    requires
        w.costs_within(f.fill.window.aim() - f.fill.window.low),
        w.room <= u64::MAX,
        f.fill.wf(),
        f.fill.mounted || w.capacity > 0,
        f.fill.phase matches PhaseView::Deciding { job } && !job.stuck,
        f.fill.window.contains(w.free(f.held)),
    ensures
        played(w, f, never(), 2).fill.phase matches PhaseView::Ended {
            result: Ok(Outcome::InWindow { free }),
        } && f.fill.window.contains(free as int),
        played(w, f, never(), 2).held == (Held { inside: unmarked(f.held.inside), ..f.held }),
{
    lemma_free(w, f.held);
    reveal_with_fuel(played, 3);
    let one = played(w, f, never(), 1);
    assert(one.fill.phase is Closing);
}

/// From a reading at or above the lower bound, a fill that has everything in place writes
/// object after object and ends inside the window.
proof fn lemma_settles(w: Ways, f: Filling, rounds: nat) -> (written: Seq<Entry>)
    requires
        w.honest(),
        f.fill.wf(),
        f.fill.mounted || w.capacity > 0,
        w.costs_within(f.fill.window.aim() - f.fill.window.low),
        w.room <= u64::MAX,
        f.fill.phase matches PhaseView::Deciding { job } && !job.stuck && job.seq
            + plan::rounds_to_settle(w.free(f.held), f.fill.window) <= fill::last_seq() + 1,
        f.fill.window.low <= w.free(f.held),
        rounds >= plan::rounds_to_settle(w.free(f.held), f.fill.window),
    ensures
        written.len() <= rounds,
        freshly_written(written, f.fill.phase->Deciding_job.seq as nat),
        ({
            let end = played(w, f, never(), (3 * written.len() + 2) as nat);
            &&& end.fill.phase matches PhaseView::Ended { result: Ok(Outcome::InWindow { free }) }
                && f.fill.window.contains(free as int)
            &&& end.held == (Held { inside: unmarked(f.held.inside + written), ..f.held })
        }),
    decreases rounds,
{
    let win = f.fill.window;
    let free = w.free(f.held);
    if free <= win.high {
        let none = Seq::<Entry>::empty();
        lemma_lands(w, f);
        assert(f.held.inside + none =~= f.held.inside);
        none
    } else {
        let e = lemma_round(w, f);
        let next = played(w, f, never(), 3);
        let left = w.free(next.held);
        assert((left - win.high) / 1048576 <= (free - win.high) / 1048576 - 1);
        let rest = lemma_settles(w, next, (rounds - 1) as nat);
        let written = seq![e] + rest;
        lemma_played_on(w, f, 3, (3 * rest.len() + 2) as nat);
        assert(f.held.inside.push(e) + rest =~= f.held.inside + written);
        let seq = f.fill.phase->Deciding_job.seq;
        assert forall|i: int| 0 <= i < written.len() implies {
            let x = #[trigger] written[i];
            x.name@ == names::filler_name_of((seq + i) as nat) && listing::is_filler(x) && !x.is_dir
        } by {
            if i > 0 {
                assert(written[i] == rest[i - 1]);
            }
        }
        written
    }
}

/// The entries are filler under consecutive numbers, from `first` on.
pub open spec fn freshly_written(written: Seq<Entry>, first: nat) -> bool {
    forall|i: int|
        0 <= i < written.len() ==> {
            let x = #[trigger] written[i];
            x.name@ == names::filler_name_of((first + i) as nat) && listing::is_filler(x)
                && !x.is_dir
        }
}

/// Not among the first `k` of the entries.
spec fn past(debris: Seq<Entry>, k: int) -> spec_fn(Entry) -> bool {
    |e: Entry| !debris.take(k).contains(e)
}

/// What is left to reclaim after the first `k` pieces of debris.
spec fn reclaiming(job: Job, debris: Seq<Entry>, k: int) -> PhaseView {
    if k < debris.len() {
        PhaseView::Reclaim { job, current: debris[k], rest: debris.skip(k + 1) }
    } else {
        PhaseView::Marking { job }
    }
}

proof fn lemma_reclaims(w: Ways, f: Filling, job: Job, debris: Seq<Entry>, k: nat)
    requires
        f.fill.phase == reclaiming(job, debris, 0),
        !job.stuck,
        k <= debris.len(),
    ensures
        ({
            let now = played(w, f, never(), k);
            &&& now.fill == (FillState { phase: reclaiming(job, debris, k as int), ..f.fill })
            &&& now.held == (Held { inside: f.held.inside.filter(past(debris, k as int)), ..f.held })
        }),
    decreases k,
{
    let l = f.held.inside;
    if k == 0 {
        order::lemma_filter_all(l, past(debris, 0));
    } else {
        let m = k - 1;
        lemma_reclaims(w, f, job, debris, m as nat);
        let before = played(w, f, never(), m as nat);
        assert(debris.skip(m + 1).len() > 0 ==> debris.skip(m + 1)[0] == debris[m + 1]);
        assert(debris.skip(m + 1).len() > 0 ==> debris.skip(m + 1).drop_first() =~= debris.skip(
            m + 2,
        ));
        assert(Job { stuck: job.stuck || !true, ..job } == job);
        let e = debris[m];
        assert(debris.take(k as int) =~= debris.take(m).push(e));
        lemma_contains_push(debris.take(m), e);
        order::lemma_filter_twice(l, past(debris, m), other_than(e), past(debris, k as int));
        assert(played(w, f, never(), k) == stepped(w, before, false));
    }
}

/// The first steps of a fill: it looks whether the device can be written to and how much
/// is free, and has the folder created.
proof fn lemma_begins(w: Ways, f: Filling)
    requires
        f.fill.wf(),
        f.fill.mounted || w.capacity > 0,
        forall|e: Entry| 0 <= #[trigger] (w.cost)(e),
        w.room <= u64::MAX,
        f.fill.phase is Start,
        f.fill.window.high < w.free(f.held),
    ensures
        ({
            let now = played(w, f, never(), 3);
            &&& now.fill.phase is Survey
            &&& now.fill == (FillState { phase: now.fill.phase, ..f.fill })
            &&& now.held == ensured(w, f.fill.dir, f.held)
        }),
{
    lemma_free(w, f.held);
    reveal_with_fuel(played, 4);
    let one = played(w, f, never(), 1);
    assert(one.fill == FillState { phase: PhaseView::FirstMeasure, ..f.fill });
    assert(one.held == f.held);
    let two = played(w, f, never(), 2);
    assert(two.fill.phase is Ensure);
    assert(two.held == f.held);
}

/// The listing of the folder says where numbering goes on, and what there is to reclaim.
proof fn lemma_surveys(w: Ways, f: Filling) -> (job: Job)
    requires
        f.fill.wf(),
        f.fill.phase is Survey,
        f.held.inside.len() <= usize::MAX,
    ensures
        ({
            let l = f.held.inside;
            let now = stepped(w, f, false);
            &&& !job.stuck
            &&& job.seq == listing::next_sequence_of(listing::fillers_of(l))
            &&& job.seq <= fill::last_seq() + 1
            &&& now.fill == (FillState {
                phase: reclaiming(job, listing::debris_of(l), 0),
                ..f.fill
            })
            &&& now.held == f.held
        }),
{
    let l = f.held.inside;
    let debris = listing::debris_of(l);
    let total = f.fill.phase->Survey_total;
    let job = Job {
        total,
        seq: listing::next_sequence_of(listing::fillers_of(l)) as u64,
        stuck: false,
    };
    assert(debris.len() > 0 ==> debris.drop_first() =~= debris.skip(1));
    assert(fill::surveyed(total, l) == reclaiming(job, debris, 0));
    job
}

/// Everything that a fill puts in place before it writes: the folder, the debris out of
/// the way, and the marker.
proof fn lemma_readies(w: Ways, f: Filling)
    requires
        f.fill.wf(),
        f.fill.mounted || w.capacity > 0,
        forall|e: Entry| 0 <= #[trigger] (w.cost)(e),
        w.room <= u64::MAX,
        f.fill.phase is Start,
        f.held.inside.len() <= usize::MAX,
        f.fill.window.high < w.free(f.held),
    ensures
        ({
            let l = f.held.inside;
            let now = played(w, f, never(), 5 + listing::debris_of(l).len());
            &&& now.held == readied(w, f.fill.dir, f.held)
            &&& now.fill.phase matches PhaseView::Deciding { job } && !job.stuck && job.seq
                == listing::next_sequence_of(listing::fillers_of(l)) && job.seq <= fill::last_seq()
                + 1
            &&& now.fill == (FillState { phase: now.fill.phase, ..f.fill })
        }),
{
    let l = f.held.inside;
    let debris = listing::debris_of(l);
    lemma_begins(w, f);
    let three = played(w, f, never(), 3);
    let job = lemma_surveys(w, three);
    let four = played(w, f, never(), 4);
    assert(four == stepped(w, three, false));
    lemma_reclaims(w, four, job, debris, debris.len());
    lemma_played_on(w, f, 4, debris.len());
    let swept = played(w, f, never(), 4 + debris.len());
    lemma_debris_filtered(l);
    assert(swept.held == reclaimed(four.held));
    assert(swept.fill.phase == PhaseView::Marking { job });
    assert(played(w, f, never(), 5 + debris.len()) == stepped(w, swept, false));
}

/// Leaving out all the debris there is leaves out exactly what is debris.
proof fn lemma_debris_filtered(l: Seq<Entry>)
    ensures
        ({
            let debris = listing::debris_of(l);
            l.filter(past(debris, debris.len() as int)) == if listing::holds_marker(l) {
                l.filter(no_debris())
            } else {
                l
            }
        }),
{
    let debris = listing::debris_of(l);
    let gone = past(debris, debris.len() as int);
    let is_debris = |e: Entry| listing::is_foreign(e) && !e.is_dir;
    assert(debris.take(debris.len() as int) =~= debris);
    if listing::holds_marker(l) {
        assert forall|i: int| 0 <= i < l.len() implies no_debris()(#[trigger] l[i]) == (gone(l[i])
            && any_entry()(l[i])) by {
            if debris.contains(l[i]) {
                listing::lemma_filter_holds(l, is_debris, l[i]);
            }
            if fill::is_debris(l[i]) {
                lemma_filter_finds(l, is_debris, i);
            }
        }
        order::lemma_filter_twice(l, gone, any_entry(), no_debris());
        order::lemma_filter_all(l.filter(gone), any_entry());
    } else {
        order::lemma_filter_all(l, gone);
    }
}

/// What passes a filter is kept.
proof fn lemma_filter_finds(s: Seq<Entry>, keep: spec_fn(Entry) -> bool, i: int)
    requires
        0 <= i < s.len(),
        keep(s[i]),
    ensures
        s.filter(keep).contains(s[i]),
    decreases s.len(),
{
    let rest = s.drop_last();
    order::lemma_filter_push(rest, s.last(), keep);
    assert(rest.push(s.last()) =~= s);
    if i < rest.len() {
        lemma_filter_finds(rest, keep, i);
        lemma_contains_push(rest.filter(keep), s.last());
    } else {
        lemma_contains_push(rest.filter(keep), s.last());
    }
}

/// The filler among the entries, in the order they are listed in.
pub open spec fn filler_in(entries: Seq<Entry>) -> Seq<Entry> {
    entries.filter(|e: Entry| listing::is_filler(e))
}

/// Once everything is in place there is no less than the lower bound free, and the filler
/// is what it was.
proof fn lemma_readied(w: Ways, win: Bounds, dir: Seq<char>, h: Held)
    requires
        w.honest(),
        win.wf(),
        w.costs_within(win.aim() - win.low),
        win.high < w.free(h),
    ensures
        win.low <= w.free(readied(w, dir, h)),
        filler_in(readied(w, dir, h).inside) == filler_in(h.inside),
        !listing::holds_marker(h.inside) ==> unmarked(readied(w, dir, h).inside) == h.inside,
{
    let keep = |e: Entry| listing::is_filler(e);
    let bare = |e: Entry| !listing::is_marker(e);
    let there = ensured(w, dir, h);
    lemma_put(w, h, (w.folder)(h, dir));
    let l = h.inside;
    let clear = reclaimed(there);
    lemma_taken(w.cost, l, no_debris());
    assert(w.free(clear) >= w.free(there));
    let m = (w.marker)(clear);
    lemma_put(w, clear, m);
    names::law_names_have_one_meaning(m.name@);
    if listing::holds_marker(l) {
        let at = choose|i: int| 0 <= i < l.len() && listing::is_marker(#[trigger] l[i]);
        lemma_filter_finds(l, no_debris(), at);
        let k = choose|k: int| 0 <= k < clear.inside.len() && clear.inside[k] == l[at];
        assert(listing::is_marker(clear.inside[k]));
        order::lemma_filter_twice(l, no_debris(), keep, keep);
    } else {
        order::lemma_filter_push(l, m, keep);
        order::lemma_filter_push(l, m, bare);
        order::lemma_filter_all(l, bare);
    }
}

/// A fill resumes where an earlier one left off: with filler in the folder or none, free
/// space above the window, on an honest device whose file system needs no more beside any
/// entry than the margin between the aim and the lower bound, and with nobody stopping it,
///
/// - it ends inside the window;
/// - all filler that was in the folder is still there, as it was, and without a marker of
///   an interrupted fill everything else as well;
/// - what it has written follows after that, under consecutive numbers from one above the
///   highest there was, or from zero, so that no name of filler occurs twice.
///
/// The numbers have to be enough for the writes, of which there is at most one for every
/// mebibyte.
pub proof fn law_a_fill_resumes(w: Ways, f: Filling, n: nat) -> (written: Seq<Entry>)
    requires
        w.honest(),
        w.room <= u64::MAX,
        w.costs_within(f.fill.window.aim() - f.fill.window.low),
        f.fill.wf(),
        f.fill.mounted || w.capacity > 0,
        f.fill.phase is Start,
        f.held.inside.len() <= usize::MAX,
        f.fill.window.high < w.free(f.held),
        ({
            let rounds = plan::rounds_to_settle(
                w.free(readied(w, f.fill.dir, f.held)),
                f.fill.window,
            );
            let first = listing::next_sequence_of(listing::fillers_of(f.held.inside));
            &&& first + rounds <= fill::last_seq() + 1
            &&& n >= 7 + listing::debris_of(f.held.inside).len() + 3 * rounds
        }),
    ensures
        ({
            let l = f.held.inside;
            let first = listing::next_sequence_of(listing::fillers_of(l));
            let end = played(w, f, never(), n);
            &&& end.fill.phase matches PhaseView::Ended { result: Ok(Outcome::InWindow { free }) }
                && f.fill.window.contains(free as int)
            &&& filler_in(end.held.inside) == filler_in(l) + written
            &&& !listing::holds_marker(l) ==> end.held.inside == l + written
            &&& freshly_written(written, first as nat)
            &&& forall|i: int, j: int|
                0 <= i < j < written.len() ==> (#[trigger] written[i]).name@ != (
                #[trigger] written[j]).name@
            &&& forall|i: int, e: Entry|
                0 <= i < written.len() && #[trigger] filler_in(l).contains(e) ==> e.name@ != (
                #[trigger] written[i]).name@
        }),
{
    let l = f.held.inside;
    let win = f.fill.window;
    let debris = listing::debris_of(l);
    let ready = played(w, f, never(), 5 + debris.len());
    let rounds = plan::rounds_to_settle(w.free(readied(w, f.fill.dir, f.held)), win);
    lemma_readies(w, f);
    lemma_readied(w, win, f.fill.dir, f.held);
    let written = lemma_settles(w, ready, rounds);
    let steps = (3 * written.len() + 2) as nat;
    lemma_played_on(w, f, 5 + debris.len(), steps);
    lemma_played_is_over(w, f, 5 + debris.len() + steps, n);
    let end = played(w, f, never(), n);
    let keep = |e: Entry| listing::is_filler(e);
    let bare = |e: Entry| !listing::is_marker(e);
    let put = ready.held.inside;
    assert forall|i: int| 0 <= i < written.len() implies bare(#[trigger] written[i]) && keep(
        written[i],
    ) by {
        names::law_names_have_one_meaning(written[i].name@);
    }
    Seq::filter_distributes_over_add(put, written, bare);
    order::lemma_filter_all(written, bare);
    assert forall|i: int| 0 <= i < put.len() implies keep(#[trigger] put[i]) == (bare(put[i])
        && keep(put[i])) by {
        names::law_names_have_one_meaning(put[i].name@);
    }
    order::lemma_filter_twice(put, bare, keep, keep);
    Seq::filter_distributes_over_add(put.filter(bare), written, keep);
    order::lemma_filter_all(written, keep);
    lemma_names_are_fresh(l, written);
    written
}

/// No filler that is written anew has the name of another.
proof fn lemma_names_are_fresh(l: Seq<Entry>, written: Seq<Entry>)
    requires
        ({
            let first = listing::next_sequence_of(listing::fillers_of(l));
            &&& 0 <= first
            &&& first + written.len() <= fill::last_seq() + 1
            &&& freshly_written(written, first as nat)
        }),
    ensures
        forall|i: int, j: int|
            0 <= i < j < written.len() ==> (#[trigger] written[i]).name@ != (
            #[trigger] written[j]).name@,
        forall|i: int, e: Entry|
            0 <= i < written.len() && #[trigger] filler_in(l).contains(e) ==> e.name@ != (
            #[trigger] written[i]).name@,
{
    broadcast use vstd::seq_lib::group_to_multiset_ensures;

    let fillers = listing::fillers_of(l);
    let first = listing::next_sequence_of(fillers);
    assert forall|i: int, j: int| 0 <= i < j < written.len() implies (#[trigger] written[i]).name@
        != (#[trigger] written[j]).name@ by {
        names::law_filler_names_round_trip(written[i].name@, (first + i) as u32);
        names::law_filler_names_round_trip(written[i].name@, (first + j) as u32);
    }
    order::law_sorted(filler_in(l));
    assert forall|i: int, e: Entry|
        0 <= i < written.len() && #[trigger] filler_in(l).contains(e) implies e.name@ != (
    #[trigger] written[i]).name@ by {
        assert(fillers.to_multiset().count(e) > 0);
        assert(fillers.contains(e));
        let k = choose|k: int| 0 <= k < fillers.len() && fillers[k] == e;
        listing::law_next_names_are_fresh(fillers, (first + i) as u32, k);
    }
}

} // verus!
