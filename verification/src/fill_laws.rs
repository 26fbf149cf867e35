//! What a fill guarantees over a whole run, whatever the device answers.

use crate::events::{EventView, Fault, Outcome};
use crate::fill;
use crate::fill::{FillState, Job, PhaseView, ReplyView, RequestView};
use crate::listing;
use crate::listing::Entry;
use crate::mass_storage::Space;
use crate::names;
use crate::order;
use crate::order::Ranked;
use crate::plan;
use crate::plan::{Removal, Step};
use vstd::prelude::*;

verus! {

/// The state after a sequence of answers.
pub open spec fn run(s: FillState, replies: Seq<ReplyView>) -> FillState
    decreases replies.len(),
{
    if replies.len() == 0 {
        s
    } else {
        fill::after(run(s, replies.drop_last()), replies.last())
    }
}

/// No listing is longer than a vector can be.
pub open spec fn listable(replies: Seq<ReplyView>) -> bool {
    forall|i: int|
        0 <= i < replies.len() ==> (#[trigger] replies[i] matches ReplyView::Listing(l) ==> l.len()
            <= usize::MAX)
}

/// Whatever is answered, a fill stays well formed, and keeps its window and its folder.
pub proof fn law_runs_stay_well_formed(s: FillState, replies: Seq<ReplyView>)
    requires
        s.wf(),
        listable(replies),
    ensures
        run(s, replies).wf(),
        run(s, replies).window == s.window,
        run(s, replies).dir == s.dir,
    decreases replies.len(),
{
    if replies.len() > 0 {
        let before = replies.drop_last();
        assert forall|i: int| 0 <= i < before.len() implies (#[trigger] before[i] matches ReplyView::Listing(
            l,
        ) ==> l.len() <= usize::MAX) by {
            assert(before[i] == replies[i]);
        }
        law_runs_stay_well_formed(s, before);
        assert(replies.last() == replies[replies.len() - 1]);
        fill::law_answers_keep_a_fill_well_formed(run(s, before), replies.last());
    }
}

/// A fill deletes nothing but filler this tool wrote, and that only while free space is
/// below the window, or what an interrupted fill left behind.
pub proof fn law_fill_deletes_only_its_own(s: FillState)
    requires
        s.wf(),
    ensures
        fill::request_of(s) matches RequestView::Delete(e) ==> {
            ||| (s.phase matches PhaseView::Removing { free, .. } && free < s.window.low
                && listing::is_filler(e))
            ||| (s.phase is Reclaim && fill::is_debris(e))
        },
{
}

/// What is deleted stands in the listing it was chosen from; and without the marker in
/// that listing, unrecognized files are left alone.
pub proof fn law_deletions_come_from_the_listing(s: FillState, l: Seq<Entry>, e: Entry)
    requires
        s.wf(),
        l.len() <= usize::MAX,
        fill::request_of(fill::after(s, ReplyView::Listing(l))) == RequestView::Delete(e),
        !(fill::request_of(s) is Delete),
    ensures
        l.contains(e),
        listing::is_filler(e) || listing::holds_marker(l),
        s.phase is Survey || s.phase is Choosing,
{
    match s.phase {
        PhaseView::Survey { total } => {
            let debris = listing::debris_of(l);
            assert(debris.contains(debris[0]));
            listing::lemma_filter_holds(
                l,
                |e: Entry| listing::is_foreign(e) && !e.is_dir,
                debris[0],
            );
        },
        PhaseView::Choosing { job, free } => {
            listing::law_listing_partition(l);
            let fillers = listing::fillers_of(l);
            plan::law_removal_makes_progress(free, s.window, fill::sizes(fillers));
            let i = plan::removal_of(free as int, s.window, fill::sizes(fillers))->Remove_0 as int;
            assert(fillers.contains(fillers[i]));
            listing::lemma_fillers_are_filler(l, fillers[i]);
        },
        _ => {},
    }
}

/// The fill has only been looking so far.
pub open spec fn only_looked(phase: PhaseView) -> bool {
    phase is Start || phase is FirstMeasure || phase is CheckFiller || phase is LookElsewhere
}

/// A device that is refused for being below the window has only been looked at: the
/// listing of the root that the refusal is made of is heeded in one state alone, in which
/// the fill has asked for nothing but readings and listings so far, and such a state is
/// reached from nothing else.
#[verifier::rlimit(40)]
pub proof fn law_refusal_touches_nothing(s: FillState, reply: ReplyView)
    ensures
        only_looked(s.phase) ==> {
            ||| fill::request_of(s) is CheckWritable
            ||| fill::request_of(s) is Measure
            ||| fill::request_of(s) is ListFolder
            ||| fill::request_of(s) is ListRoot
        },
        only_looked(fill::after(s, reply).phase) ==> only_looked(s.phase),
        reply is Root && fill::after(s, reply) != s ==> s.phase is LookElsewhere,
{
    match s.phase {
        PhaseView::Start => {},
        PhaseView::FirstMeasure => {},
        PhaseView::CheckFiller { .. } => {},
        PhaseView::LookElsewhere { .. } => {},
        PhaseView::Ensure { .. } => {},
        PhaseView::Survey { .. } => {},
        PhaseView::Reclaim { .. } => {},
        PhaseView::Choosing { .. } => {},
        PhaseView::Removing { .. } => {},
        PhaseView::Writing { .. } => {},
        _ => {},
    }
}

/// A writable device that reports its space is refused exactly where it is below the
/// window with no filler in the folder, and the refusal names the filler in every other
/// folder; otherwise the work begins.
pub proof fn law_refused_exactly_below_the_window(
    s: FillState,
    space: Space,
    cancelled: bool,
    l: Seq<Entry>,
    root: Seq<listing::RootEntry>,
)
    requires
        s.wf(),
        s.phase is Start,
        s.mounted || space.total > 0,
    ensures
        ({
            let looked = run(
                s,
                seq![
                    ReplyView::Writable,
                    ReplyView::Measured { space, cancelled },
                    ReplyView::Listing(l),
                    ReplyView::Root(root),
                ],
            ).phase;
            if space.free < s.window.low && listing::fillers_of(l).len() == 0 {
                looked == (PhaseView::Ended {
                    result: Err(
                        Fault::AlreadyBelowWindow {
                            free: space.free,
                            low: s.window.low as u64,
                            elsewhere: listing::elsewhere_of(
                                listing::filler_folders_of(root),
                                s.dir,
                            ),
                        },
                    ),
                })
            } else {
                looked == (PhaseView::Ensure { total: fill::to_move(space.free, s.window) })
            }
        }),
{
    let a = ReplyView::Writable;
    let b = ReplyView::Measured { space, cancelled };
    let c = ReplyView::Listing(l);
    let d = ReplyView::Root(root);
    reveal_with_fuel(run, 5);
    assert(seq![a, b, c, d].drop_last() =~= seq![a, b, c]);
    assert(seq![a, b, c].drop_last() =~= seq![a, b]);
    assert(seq![a, b].drop_last() =~= seq![a]);
    assert(seq![a].drop_last() =~= Seq::<ReplyView>::empty());
}

/// Every write is decided from a reading made just before it: a fill that asks for a
/// write has just been handed a reading and no wish to stop, and the write is what the
/// plan makes of that reading.
#[verifier::rlimit(40)]
pub proof fn law_every_write_follows_a_reading(s: FillState, reply: ReplyView)
    requires
        !(fill::request_of(s) is Write),
        fill::request_of(fill::after(s, reply)) is Write,
    ensures
        s.phase is Deciding,
        reply matches ReplyView::Measured { space, cancelled } && !cancelled && !fill::unreported(
            s,
            space,
        ) && plan::step_of(space.free as int, s.window) == Step::Write(
            fill::request_of(fill::after(s, reply))->Write_bytes,
        ),
{
}

/// A wish to stop is heeded at the next reading: nothing more is written or deleted, and
/// the fill ends as cancelled at the free space just read.
pub proof fn law_stopping_is_prompt(s: FillState, space: Space)
    requires
        s.phase is Deciding,
        s.mounted || space.total > 0,
    ensures
        ({
            let next = fill::after(s, ReplyView::Measured { space, cancelled: true }).phase;
            let result = Ok(Outcome::Cancelled { free: space.free });
            next == (PhaseView::Closing { result }) || next == (PhaseView::Ended { result })
        }),
{
}

/// A stopped write leads to a cancelled fill, by way of deleting its partial object and
/// reading free space once more.
pub proof fn law_a_stopped_write_cancels(
    s: FillState,
    partial: Option<u64>,
    discarded: ReplyView,
    space: Space,
    cancelled: bool,
)
    requires
        s.phase is Writing,
        s.mounted || space.total > 0,
        discarded is Done || discarded is Failed,
    ensures
        ({
            let cut = fill::after(s, ReplyView::Stopped { partial });
            let halted = match partial {
                Some(p) => fill::after(cut, discarded),
                None => cut,
            };
            let ended = fill::after(halted, ReplyView::Measured { space, cancelled }).phase;
            let result = Ok(Outcome::Cancelled { free: space.free });
            &&& partial matches Some(p) ==> fill::request_of(cut) == (RequestView::Discard {
                partial: p,
            })
            &&& ended == (PhaseView::Closing { result }) || ended == (PhaseView::Ended { result })
        }),
{
}

/// The fill is on its way out.
pub open spec fn winding_down(phase: PhaseView) -> bool {
    phase is Closing || phase is Ended
}

/// A fill that is on its way out stays on it: the marker is taken away and that is all.
pub proof fn law_the_end_is_the_end(s: FillState, reply: ReplyView)
    requires
        winding_down(s.phase),
    ensures
        winding_down(fill::after(s, reply).phase),
        fill::request_of(s) is Unmark || fill::request_of(s) is Finish,
        s.phase is Ended ==> fill::after(s, reply) == s,
        s.phase is Closing && (reply is Done || reply is Failed) ==> fill::after(
            s,
            reply,
        ).phase is Ended,
{
}

/// The marker goes on every way out: a fill that has put it ends only by way of taking it
/// away, unless something that an interrupted fill left behind would not go.
#[verifier::rlimit(40)]
pub proof fn law_the_marker_goes_on_every_way_out(s: FillState, reply: ReplyView)
    requires
        fill::marked(s.phase) is Some,
    ensures
        ({
            let job = fill::marked(s.phase)->0;
            let next = fill::after(s, reply).phase;
            &&& next is Ended ==> job.stuck
            &&& next is Closing ==> !job.stuck
            &&& fill::marked(next) matches Some(after) ==> after.stuck == job.stuck && after.total
                == job.total
            &&& fill::marked(next) is Some || winding_down(next)
        }),
{
    match s.phase {
        PhaseView::Deciding { .. } => {},
        PhaseView::Choosing { .. } => {},
        PhaseView::Removing { .. } => {},
        PhaseView::Writing { .. } => {},
        PhaseView::Discarding { .. } => {},
        PhaseView::Landed { .. } => {},
        _ => {},
    }
}

/// The marker is kept only on account of debris that would not go: while debris is being
/// deleted, the job is stuck exactly once a deletion has been refused.
pub proof fn law_the_marker_stays_only_for_debris(s: FillState, reply: ReplyView)
    requires
        s.phase is Reclaim,
        reply is Deleted,
    ensures
        ({
            let job = s.phase->Reclaim_job;
            let after = match fill::after(s, reply).phase {
                PhaseView::Reclaim { job, .. } => job,
                PhaseView::Marking { job } => job,
                _ => arbitrary(),
            };
            &&& fill::after(s, reply).phase is Reclaim || fill::after(s, reply).phase is Marking
            &&& after.stuck == (job.stuck || !reply->gone)
        }),
{
}

/// What a sequence of answers makes known.
pub open spec fn told(s: FillState, replies: Seq<ReplyView>) -> Seq<EventView>
    decreases replies.len(),
{
    if replies.len() == 0 {
        Seq::empty()
    } else {
        told(s, replies.drop_last()) + fill::answered(
            run(s, replies.drop_last()),
            replies.last(),
        ).1
    }
}

/// The free space that an outcome reports.
pub open spec fn free_of(outcome: Outcome) -> u64 {
    match outcome {
        Outcome::InWindow { free } => free,
        Outcome::Overfilled { free, .. } => free,
        Outcome::Cancelled { free } => free,
    }
}

/// None of the events is the terminal reading.
pub open spec fn unfinished(events: Seq<EventView>) -> bool {
    forall|i: int| 0 <= i < events.len() ==> !(#[trigger] events[i] is Finished)
}

/// The last of the events, and no other, is the terminal reading, of `free` bytes.
pub open spec fn finished_at(events: Seq<EventView>, free: u64) -> bool {
    &&& events.len() > 0
    &&& events.last() == EventView::Finished { free }
    &&& unfinished(events.drop_last())
}

/// A fill that succeeds says so exactly once, as the last thing it says, and with the
/// free space of its outcome.
pub proof fn law_success_is_told_once_and_last(s: FillState, replies: Seq<ReplyView>)
    requires
        s.phase is Start,
    ensures
        run(s, replies).phase matches PhaseView::Ended { result: Ok(outcome) } ==> finished_at(
            told(s, replies),
            free_of(outcome),
        ),
{
    lemma_told_so_far(s, replies);
}

/// What a fill has said fits the phase it is in.
spec fn fits(phase: PhaseView, events: Seq<EventView>) -> bool {
    match phase {
        PhaseView::Closing { result: Ok(outcome) } => finished_at(events, free_of(outcome)),
        PhaseView::Ended { result: Ok(outcome) } => finished_at(events, free_of(outcome)),
        PhaseView::Closing { result: Err(_) } => true,
        PhaseView::Ended { result: Err(_) } => true,
        _ => unfinished(events),
    }
}

proof fn lemma_told_so_far(s: FillState, replies: Seq<ReplyView>)
    requires
        s.phase is Start,
    ensures
        fits(run(s, replies).phase, told(s, replies)),
    decreases replies.len(),
{
    if replies.len() > 0 {
        let before = replies.drop_last();
        lemma_told_so_far(s, before);
        lemma_telling_goes_on(run(s, before), replies.last(), told(s, before));
    }
}

#[verifier::rlimit(40)]
proof fn lemma_telling_goes_on(s: FillState, reply: ReplyView, events: Seq<EventView>)
    requires
        fits(s.phase, events),
    ensures
        fits(fill::after(s, reply).phase, events + fill::answered(s, reply).1),
{
    let new = fill::answered(s, reply).1;
    let all = events + new;
    assert(new.len() == 0 ==> all =~= events);
    assert(new.len() == 1 ==> all.drop_last() =~= events);
    assert(new.len() == 2 ==> all.drop_last() =~= events.push(new[0]));
    match s.phase {
        PhaseView::Start => {},
        PhaseView::FirstMeasure => {},
        PhaseView::CheckFiller { .. } => {},
        PhaseView::LookElsewhere { .. } => {},
        PhaseView::Ensure { .. } => {},
        PhaseView::Survey { .. } => {},
        PhaseView::Reclaim { .. } => {},
        PhaseView::Marking { .. } => {},
        PhaseView::Deciding { .. } => {},
        PhaseView::Choosing { .. } => {},
        PhaseView::Removing { .. } => {},
        PhaseView::Writing { .. } => {},
        PhaseView::Discarding { .. } => {},
        PhaseView::Landed { .. } => {},
        PhaseView::Halting { .. } => {},
        _ => {},
    }
}

/// A job that is underway, marked already or not yet.
pub open spec fn job_of(phase: PhaseView) -> Option<Job> {
    match phase {
        PhaseView::Reclaim { job, .. } => Some(job),
        PhaseView::Marking { job } => Some(job),
        _ => fill::marked(phase),
    }
}

#[verifier::rlimit(40)]
proof fn lemma_number_grows(s: FillState, reply: ReplyView)
    requires
        job_of(s.phase) is Some,
        s.wf(),
    ensures
        job_of(fill::after(s, reply).phase) matches Some(job) ==> job.seq >= job_of(s.phase)->0.seq,
        job_of(fill::after(s, reply).phase) is Some || winding_down(fill::after(s, reply).phase),
{
    match s.phase {
        PhaseView::Reclaim { .. } => {},
        PhaseView::Marking { .. } => {},
        PhaseView::Deciding { .. } => {},
        PhaseView::Choosing { .. } => {},
        PhaseView::Removing { .. } => {},
        PhaseView::Writing { .. } => {},
        PhaseView::Discarding { .. } => {},
        PhaseView::Landed { .. } => {},
        _ => {},
    }
}

proof fn lemma_numbers_only_grow(s: FillState, replies: Seq<ReplyView>)
    requires
        job_of(s.phase) is Some,
        s.wf(),
        listable(replies),
    ensures
        job_of(run(s, replies).phase) matches Some(job) ==> job.seq >= job_of(s.phase)->0.seq,
        job_of(run(s, replies).phase) is Some || winding_down(run(s, replies).phase),
    decreases replies.len(),
{
    if replies.len() > 0 {
        let before = replies.drop_last();
        assert forall|i: int| 0 <= i < before.len() implies (#[trigger] before[i] matches ReplyView::Listing(
            l,
        ) ==> l.len() <= usize::MAX) by {
            assert(before[i] == replies[i]);
        }
        lemma_numbers_only_grow(s, before);
        law_runs_stay_well_formed(s, before);
        let last = run(s, before);
        if winding_down(last.phase) {
            law_the_end_is_the_end(last, replies.last());
        } else {
            lemma_number_grows(last, replies.last());
        }
    }
}

/// A fill never writes under the name of filler that was there: whatever is answered
/// after the folder was listed, no object is written under a name in that listing.
pub proof fn law_writes_never_collide(
    s: FillState,
    l: Seq<Entry>,
    replies: Seq<ReplyView>,
    i: int,
)
    requires
        s.wf(),
        s.phase is Survey,
        l.len() <= usize::MAX,
        listable(replies),
        0 <= i < listing::fillers_of(l).len(),
    ensures
        fill::request_of(run(fill::after(s, ReplyView::Listing(l)), replies)) matches RequestView::Write {
            name,
            ..
        } ==> name != listing::fillers_of(l)[i].name@,
{
    let start = fill::after(s, ReplyView::Listing(l));
    fill::law_answers_keep_a_fill_well_formed(s, ReplyView::Listing(l));
    lemma_numbers_only_grow(start, replies);
    law_runs_stay_well_formed(start, replies);
    let end = run(start, replies);
    if let PhaseView::Writing { job, .. } = end.phase {
        listing::law_next_names_are_fresh(listing::fillers_of(l), job.seq as u32, i);
    }
}

/// A device that answers honestly: a round of reading, writing, and reading again, at
/// most `rounds` times, starting from `free` bytes. The write of round `i` costs
/// `overhead(i)` bytes beyond its own.
pub open spec fn descended(
    s: FillState,
    capacity: u64,
    free: int,
    overhead: spec_fn(nat) -> int,
    rounds: nat,
) -> FillState
    decreases rounds,
{
    let read = fill::after(
        s,
        ReplyView::Measured {
            space: Space { total: capacity, free: free as u64 },
            cancelled: false,
        },
    );
    match read.phase {
        PhaseView::Writing { bytes, .. } if rounds > 0 => {
            let left = free - bytes - overhead(0);
            let landed = fill::after(
                fill::after(read, ReplyView::Wrote),
                ReplyView::Measured {
                    space: Space { total: capacity, free: left as u64 },
                    cancelled: false,
                },
            );
            descended(landed, capacity, left, |i: nat| overhead(i + 1), (rounds - 1) as nat)
        },
        _ => read,
    }
}

/// A fill lands inside the window: from any free space at or above the lower bound, on a
/// device whose every write costs no more overhead than the margin between the aim and
/// the lower bound, it ends inside the window, with names left to write under.
pub proof fn law_fill_lands_in_the_window(
    s: FillState,
    capacity: u64,
    free: int,
    overhead: spec_fn(nat) -> int,
    rounds: nat,
)
    requires
        s.wf(),
        s.phase is Deciding,
        s.mounted || capacity > 0,
        s.window.low <= free <= u64::MAX,
        plan::overhead_within_margin(s.window, overhead),
        rounds >= plan::rounds_to_settle(free, s.window),
        s.phase->Deciding_job.seq + plan::rounds_to_settle(free, s.window) <= fill::last_seq() + 1,
    ensures
        ({
            let end = descended(s, capacity, free, overhead, rounds).phase;
            let result = match end {
                PhaseView::Closing { result } => result,
                PhaseView::Ended { result } => result,
                _ => arbitrary(),
            };
            &&& winding_down(end)
            &&& result matches Ok(Outcome::InWindow { free: landed }) && s.window.contains(
                landed as int,
            )
        }),
    decreases rounds,
{
    let w = s.window;
    let job = s.phase->Deciding_job;
    plan::law_write_never_undershoots(free as u64, w);
    if free > w.high {
        let bytes = plan::step_of(free, w)->Write_0;
        let space = Space { total: capacity, free: free as u64 };
        let read = fill::after(s, ReplyView::Measured { space, cancelled: false });
        assert(read.phase is Writing && read.phase->Writing_bytes == bytes);
        let left = free - bytes - overhead(0);
        assert(0 <= overhead(0) <= w.aim() - w.low);
        assert(w.low <= left);
        assert(bytes >= 1048576) by {
            assert(plan::largest_rung(free - w.aim()) >= 1048576);
        }
        let landed = fill::after(
            fill::after(read, ReplyView::Wrote),
            ReplyView::Measured {
                space: Space { total: capacity, free: left as u64 },
                cancelled: false,
            },
        );
        let shifted = |i: nat| overhead(i + 1);
        assert forall|i: nat| 0 <= #[trigger] shifted(i) <= w.aim() - w.low by {
            assert(0 <= overhead(i + 1) <= w.aim() - w.low);
        }
        assert(plan::rounds_to_settle(left, w) <= rounds - 1) by {
            assert((left - w.high) / 1048576 <= (free - w.high) / 1048576 - 1);
        }
        law_fill_lands_in_the_window(landed, capacity, left, shifted, (rounds - 1) as nat);
    }
}

/// Progress only ever moves forward: where a write follows another one, and free space
/// has fallen by at least what that one wrote, as much of the job counts as done before
/// it as was shown at any point of the other, and never more than there is to do. It is
/// about a job that free space has not moved away from since it was sized up; a climb
/// that overshoots the aim has more left to write than it set out to move.
pub proof fn law_progress_never_falls(
    s: FillState,
    first: Space,
    second: Space,
    transferred: u64,
)
    requires
        s.wf(),
        s.phase is Deciding,
        fill::to_move(first.free, s.window) <= s.phase->Deciding_job.total,
        ({
            let one = fill::after(s, ReplyView::Measured { space: first, cancelled: false });
            let two = fill::after(s, ReplyView::Measured { space: second, cancelled: false });
            &&& one.phase is Writing
            &&& two.phase is Writing
            &&& second.free + one.phase->Writing_bytes <= first.free
            &&& transferred <= one.phase->Writing_bytes
        }),
    ensures
        ({
            let one = fill::after(s, ReplyView::Measured { space: first, cancelled: false });
            let two = fill::after(s, ReplyView::Measured { space: second, cancelled: false });
            one.phase->Writing_committed + transferred <= two.phase->Writing_committed
                <= s.phase->Deciding_job.total
        }),
{
}

/// A device below the window that answers honestly and lists `fillers`: reading, listing
/// and giving back one object after another, until free space reaches the lower bound or
/// nothing is left to give back. The state the fill is in then, and the free space.
pub open spec fn climbed(s: FillState, capacity: u64, free: int, fillers: Seq<Entry>) -> (
    FillState,
    int,
)
    decreases fillers.len(),
{
    if free >= s.window.low || fillers.len() == 0 {
        (s, free)
    } else {
        let read = fill::after(
            s,
            ReplyView::Measured {
                space: Space { total: capacity, free: free as u64 },
                cancelled: false,
            },
        );
        let removing = fill::after(read, ReplyView::Listing(fillers));
        match plan::removal_of(free, s.window, fill::sizes(fillers)) {
            Removal::Remove(i) if i < fillers.len() => climbed(
                fill::after(removing, ReplyView::Deleted { gone: true }),
                capacity,
                plan::given_back(free, fillers[i as int].bytes),
                fillers.remove(i as int),
            ),
            _ => (s, free),
        }
    }
}

/// The entries are filler, in the order they are listed in.
pub open spec fn listed_fillers(fillers: Seq<Entry>) -> bool {
    &&& order::ascending(fillers)
    &&& forall|i: int| 0 <= i < fillers.len() ==> listing::is_filler(#[trigger] fillers[i])
}

/// A fill that starts below the window climbs back as far as its own filler reaches: it
/// gets to the lower bound, ready to decide again, exactly where everything its filler
/// holds is enough for that.
pub proof fn law_fill_climbs_back(s: FillState, capacity: u64, free: u64, fillers: Seq<Entry>)
    requires
        s.wf(),
        s.phase is Deciding,
        s.mounted || capacity > 0,
        listed_fillers(fillers),
        fillers.len() <= usize::MAX,
    ensures
        climbed(s, capacity, free as int, fillers).0 == s,
        climbed(s, capacity, free as int, fillers).1 >= s.window.low <==> free + plan::total(
            fill::sizes(fillers),
        ) >= s.window.low,
{
    lemma_climbs_as_planned(s, capacity, free, fillers);
    plan::law_removals_reach_the_window(free, s.window, fill::sizes(fillers));
}

proof fn lemma_climbs_as_planned(s: FillState, capacity: u64, free: u64, fillers: Seq<Entry>)
    requires
        s.wf(),
        s.phase is Deciding,
        s.mounted || capacity > 0,
        listed_fillers(fillers),
        fillers.len() <= usize::MAX,
    ensures
        climbed(s, capacity, free as int, fillers).0 == s,
        climbed(s, capacity, free as int, fillers).1 == plan::after_removals(
            free as int,
            s.window,
            fill::sizes(fillers),
        ),
    decreases fillers.len(),
{
    if free < s.window.low && fillers.len() > 0 {
        let i = lemma_one_is_given_back(s, capacity, free, fillers);
        let rest = fillers.remove(i);
        assert(fill::sizes(rest) =~= fill::sizes(fillers).remove(i));
        let next = plan::given_back(free as int, fillers[i].bytes);
        lemma_climbs_as_planned(s, capacity, next as u64, rest);
    }
}

/// The device of [`climbed`], but the deletion of round `i` gives back `more(i)` bytes
/// beyond what the object held. The state the fill is in in the end, the free space, and
/// what is left of the filler.
pub open spec fn climbed_with(
    s: FillState,
    capacity: u64,
    free: int,
    fillers: Seq<Entry>,
    more: spec_fn(nat) -> int,
) -> (FillState, int, Seq<Entry>)
    decreases fillers.len(),
{
    if free >= s.window.low || fillers.len() == 0 {
        (s, free, fillers)
    } else {
        let read = fill::after(
            s,
            ReplyView::Measured {
                space: Space { total: capacity, free: free as u64 },
                cancelled: false,
            },
        );
        let removing = fill::after(read, ReplyView::Listing(fillers));
        match plan::removal_of(free, s.window, fill::sizes(fillers)) {
            Removal::Remove(i) if i < fillers.len() => climbed_with(
                fill::after(removing, ReplyView::Deleted { gone: true }),
                capacity,
                listing::capped(free + fillers[i as int].bytes + more(0)) as int,
                fillers.remove(i as int),
                |k: nat| more(k + 1),
            ),
            _ => (s, free, fillers),
        }
    }
}

/// A fill climbs back on a device that gives back at least what an object held, whatever
/// it gives back beyond that: it ends at the lower bound or above it, ready to decide
/// again, or with nothing of its own left; and where everything its filler holds is
/// enough for the lower bound, it gets there.
pub proof fn law_fill_climbs_back_with_more(
    s: FillState,
    capacity: u64,
    free: u64,
    fillers: Seq<Entry>,
    more: spec_fn(nat) -> int,
)
    requires
        s.wf(),
        s.phase is Deciding,
        s.mounted || capacity > 0,
        listed_fillers(fillers),
        fillers.len() <= usize::MAX,
        forall|k: nat| 0 <= #[trigger] more(k),
    ensures
        ({
            let (end, reached, left) = climbed_with(s, capacity, free as int, fillers, more);
            &&& end == s
            &&& free <= reached <= u64::MAX
            &&& reached >= s.window.low || left.len() == 0
            &&& free + plan::total(fill::sizes(fillers)) >= s.window.low ==> reached
                >= s.window.low
        }),
    decreases fillers.len(),
{
    if free < s.window.low && fillers.len() > 0 {
        let sizes = fill::sizes(fillers);
        let i = lemma_one_is_given_back(s, capacity, free, fillers);
        plan::lemma_total_remove(sizes, i);
        assert(fill::sizes(fillers.remove(i)) =~= sizes.remove(i));
        assert(more(0) >= 0);
        let rest_more = |k: nat| more(k + 1);
        assert forall|k: nat| 0 <= #[trigger] rest_more(k) by {
            assert(more(k + 1) >= 0);
        }
        let next = listing::capped(free + fillers[i].bytes + more(0));
        plan::lemma_total_nonnegative(sizes.remove(i));
        law_fill_climbs_back_with_more(s, capacity, next, fillers.remove(i), rest_more);
    }
}

/// Below the window, one of the listed filler objects is given back, and the fill is
/// ready to decide again.
proof fn lemma_one_is_given_back(s: FillState, capacity: u64, free: u64, fillers: Seq<Entry>) -> (i:
    int)
    requires
        s.wf(),
        s.phase is Deciding,
        s.mounted || capacity > 0,
        free < s.window.low,
        listed_fillers(fillers),
        0 < fillers.len() <= usize::MAX,
    ensures
        0 <= i < fillers.len(),
        plan::removal_of(free as int, s.window, fill::sizes(fillers)) == Removal::Remove(
            i as usize,
        ),
        listed_fillers(fillers.remove(i)),
        ({
            let space = Space { total: capacity, free };
            let read = fill::after(s, ReplyView::Measured { space, cancelled: false });
            let removing = fill::after(read, ReplyView::Listing(fillers));
            fill::after(removing, ReplyView::Deleted { gone: true }) == s
        }),
{
    lemma_listed_as_they_are(fillers);
    plan::law_removal_makes_progress(free, s.window, fill::sizes(fillers));
    let i = plan::removal_of(free as int, s.window, fill::sizes(fillers))->Remove_0 as int;
    let rest = fillers.remove(i);
    assert forall|j: int| 0 <= j < rest.len() implies listing::is_filler(#[trigger] rest[j]) by {
        assert(rest[j] == fillers[if j < i { j } else { j + 1 }]);
    }
    assert forall|j: int, k: int| 0 <= j < k < rest.len() implies (#[trigger] rest[j]).before(
        #[trigger] rest[k],
    ) by {
        assert(rest[j] == fillers[if j < i { j } else { j + 1 }]);
        assert(rest[k] == fillers[if k < i { k } else { k + 1 }]);
    }
    let space = Space { total: capacity, free };
    let read = fill::after(s, ReplyView::Measured { space, cancelled: false });
    let removing = fill::after(read, ReplyView::Listing(fillers));
    assert(read.phase is Choosing);
    assert(removing.phase is Removing);
    assert(fill::after(removing, ReplyView::Deleted { gone: true }) == s);
    i
}

/// A listing of nothing but filler in order is listed as it is.
proof fn lemma_listed_as_they_are(fillers: Seq<Entry>)
    requires
        listed_fillers(fillers),
    ensures
        listing::fillers_of(fillers) == fillers,
    decreases fillers.len(),
{
    listing::lemma_filter_keeps_all(fillers);
    order::lemma_sorted_of_ascending(fillers);
}

/// With nothing of ours left to give back, a fill below the window ends as overfilled,
/// short by exactly what is missing.
pub proof fn law_fill_gives_up_with_nothing_left(s: FillState, space: Space, l: Seq<Entry>)
    requires
        s.wf(),
        s.phase is Deciding,
        s.mounted || space.total > 0,
        space.free < s.window.low,
        listing::fillers_of(l).len() == 0,
    ensures
        ({
            let read = fill::after(s, ReplyView::Measured { space, cancelled: false });
            let end = fill::after(read, ReplyView::Listing(l)).phase;
            let result = Ok(
                Outcome::Overfilled {
                    free: space.free,
                    excess: (s.window.low - space.free) as u64,
                },
            );
            end == (PhaseView::Closing { result }) || end == (PhaseView::Ended { result })
        }),
{
    assert(fill::sizes(listing::fillers_of(l)).len() == 0);
}

} // verus!
