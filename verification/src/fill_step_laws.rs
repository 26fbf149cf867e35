//! What a fill does with each answer: what it asks for next, what becomes known, and how
//! it ends.

use crate::events::{DeletedKind, EventView, Fault, Outcome};
use crate::fill;
use crate::fill::{FillState, Job, PhaseView, ReplyView, RequestView};
use crate::fill_laws;
use crate::listing;
use crate::listing::{Entry, RootEntry};
use crate::mass_storage::Space;
use crate::plan;
use crate::plan::{Bounds, Removal};
use crate::plan_laws;
use crate::text;
use vstd::prelude::*;

verus! {

/// The answer is one to what was asked.
pub open spec fn to_the_point(request: RequestView, reply: ReplyView) -> bool {
    match request {
        RequestView::CheckWritable => reply is Writable || reply is ReadOnly || reply is Failed,
        RequestView::Measure => reply is Measured || reply is Failed,
        RequestView::ListFolder => reply is Listing || reply is Failed,
        RequestView::ListRoot => reply is Root || reply is Failed,
        RequestView::Delete(_) => reply is Deleted || reply is Failed,
        RequestView::Write { .. } => reply is Wrote || reply is Stopped || reply is Broken
            || reply is Failed,
        RequestView::Finish => false,
        _ => reply is Done || reply is Failed,
    }
}

/// An answer to something that was not asked changes nothing and makes nothing known, and
/// no answer changes the window, the folder or the device.
pub proof fn law_only_answers_to_the_point_are_heeded(s: FillState, reply: ReplyView)
    ensures
        !to_the_point(fill::request_of(s), reply) ==> fill::after(s, reply) == s && fill::answered(
            s,
            reply,
        ).1.len() == 0,
        fill::after(s, reply).window == s.window,
        fill::after(s, reply).dir == s.dir,
        fill::after(s, reply).mounted == s.mounted,
{
    match s.phase {
        PhaseView::Start => {},
        PhaseView::FirstMeasure => {},
        PhaseView::CheckFiller { .. } => {},
        PhaseView::LookElsewhere { .. } => {},
        PhaseView::Ensure { .. } => {},
        PhaseView::Survey { .. } => {},
        PhaseView::Reclaim { .. } => {},
        PhaseView::Marking { .. } => {},
        PhaseView::Deciding { .. } => {},
        PhaseView::Choosing { .. } => {},
        PhaseView::Removing { .. } => {},
        PhaseView::Writing { .. } => {},
        PhaseView::Discarding { .. } => {},
        PhaseView::Landed { .. } => {},
        PhaseView::Halting { .. } => {},
        _ => {},
    }
}

/// What is left to move from `free` bytes to the middle of the window.
pub open spec fn left_to_move(w: Bounds, free: u64) -> int {
    plan_laws::off_the_middle(w, free as int)
}

/// The fill sets to work at `free` bytes: it tells so, with what it steers for and how
/// much there is to move, and asks for the folder.
pub open spec fn sets_to_work(s: FillState, reply: ReplyView, free: u64) -> bool {
    let next = fill::after(s, reply);
    &&& fill::request_of(next) is EnsureFolder
    &&& next.phase == (PhaseView::Ensure { total: left_to_move(s.window, free) as u64 })
    &&& fill::answered(s, reply).1 == seq![
        EventView::Started {
            free,
            aim: ((s.window.low + s.window.high) / 2) as u64,
            total: left_to_move(s.window, free) as u64,
        },
    ]
}

/// A fill asks first whether the device takes writes and ends where it does not; then it
/// reads free space, and ends where the device does not report it. A device at the lower
/// bound or above it is worked on; below it the folder is listed first.
pub proof fn law_a_fill_looks_before_it_works(
    s: FillState,
    description: Seq<char>,
    space: Space,
    cancelled: bool,
)
    requires
        s.window.wf(),
    ensures
        s.phase is Start ==> {
            &&& fill::request_of(s) is CheckWritable
            &&& fill::after(s, ReplyView::Writable).phase is FirstMeasure
            &&& fill::answered(s, ReplyView::Writable).1.len() == 0
            &&& fill::after(s, ReplyView::ReadOnly { description }).phase == (PhaseView::Ended {
                result: Err(Fault::ReadOnly { description }),
            })
            &&& fill::answered(s, ReplyView::ReadOnly { description }).1.len() == 0
        },
        s.phase is FirstMeasure ==> {
            let reply = ReplyView::Measured { space, cancelled };
            let next = fill::after(s, reply);
            &&& fill::request_of(s) is Measure
            &&& !s.mounted && space.total == 0 ==> next.phase == (PhaseView::Ended {
                result: Err(Fault::SpaceUnreported),
            }) && fill::answered(s, reply).1.len() == 0
            &&& s.mounted || space.total != 0 ==> {
                &&& space.free >= s.window.low ==> sets_to_work(s, reply, space.free)
                &&& space.free < s.window.low ==> next.phase == (PhaseView::CheckFiller {
                    free: space.free,
                }) && fill::request_of(next) is ListFolder && fill::answered(s, reply).1.len() == 0
            }
        },
{
    assert((s.window.low + s.window.high) / 2 == s.window.low + (s.window.high - s.window.low)
        / 2);
}

/// Below the window a fill sets to work where the folder holds any filler; else it looks
/// at the root and is refused, with the free space, the lower bound, and the folders other
/// than its own that hold filler.
pub proof fn law_below_the_window_filler_is_needed(s: FillState, l: Seq<Entry>, root: Seq<RootEntry>)
    requires
        s.window.wf(),
    ensures
        s.phase matches PhaseView::CheckFiller { free } ==> {
            let reply = ReplyView::Listing(l);
            &&& (exists|i: int| 0 <= i < l.len() && listing::is_filler(#[trigger] l[i]))
                ==> sets_to_work(s, reply, free)
            &&& (forall|i: int| 0 <= i < l.len() ==> !listing::is_filler(#[trigger] l[i]))
                ==> fill::after(s, reply).phase == (PhaseView::LookElsewhere { free })
                && fill::answered(s, reply).1.len() == 0
        },
        s.phase matches PhaseView::LookElsewhere { free } ==> {
            let next = fill::after(s, ReplyView::Root(root));
            &&& fill::request_of(s) is ListRoot
            &&& next.phase == (PhaseView::Ended {
                result: Err(
                    Fault::AlreadyBelowWindow {
                        free,
                        low: s.window.low as u64,
                        elsewhere: listing::elsewhere_of(listing::filler_folders_of(root), s.dir),
                    },
                ),
            })
            &&& fill::answered(s, ReplyView::Root(root)).1.len() == 0
        },
{
    assert((s.window.low + s.window.high) / 2 == s.window.low + (s.window.high - s.window.low)
        / 2);
    let fillers = listing::fillers_of(l);
    listing::law_listing_partition(l);
    if exists|i: int| 0 <= i < l.len() && listing::is_filler(#[trigger] l[i]) {
        let i = choose|i: int| 0 <= i < l.len() && listing::is_filler(#[trigger] l[i]);
        lemma_filler_is_listed(l, i);
    } else if fillers.len() > 0 {
        assert(fillers.contains(fillers[0]));
        listing::lemma_fillers_are_filler(l, fillers[0]);
    }
}

proof fn lemma_filler_is_listed(l: Seq<Entry>, i: int)
    requires
        0 <= i < l.len(),
        listing::is_filler(l[i]),
    ensures
        listing::fillers_of(l).len() > 0,
{
    broadcast use vstd::seq_lib::group_to_multiset_ensures;

    let fillers = listing::fillers_of(l);
    crate::listing_laws::law_all_filler_is_listed_by_name(l, l[i]);
    assert(l.contains(l[i]));
    assert(l.to_multiset().count(l[i]) > 0);
    assert(fillers.contains(l[i]));
}

/// What is left over from an interrupted fill is deleted once the folder is listed: where
/// it leads, what becomes known, and what was to be deleted. `gone` is whether each entry
/// is really no longer there.
pub open spec fn reclaimed(s: FillState, gone: Seq<bool>) -> (FillState, Seq<EventView>, Seq<Entry>)
    decreases gone.len(),
{
    if gone.len() == 0 {
        (s, Seq::empty(), Seq::empty())
    } else {
        let (before, events, asked) = reclaimed(s, gone.drop_last());
        let reply = ReplyView::Deleted { gone: gone.last() };
        (
            fill::after(before, reply),
            events + fill::answered(before, reply).1,
            match fill::request_of(before) {
                RequestView::Delete(e) => asked.push(e),
                _ => asked,
            },
        )
    }
}

/// Once the folder is there it is listed; then everything that an interrupted fill left
/// behind is deleted, each entry once and as such, whatever becomes of the others; then
/// the marker is put, and the first reading is asked for. The job goes by the size that
/// was told, is numbered above what is there, and remembers exactly whether anything
/// would not go.
pub proof fn law_the_folder_is_made_ready(s: FillState, l: Seq<Entry>, gone: Seq<bool>)
    requires
        s.phase is Survey,
        gone.len() == listing::debris_of(l).len(),
    ensures
        ({
            let (end, events, asked) = reclaimed(fill::after(s, ReplyView::Listing(l)), gone);
            let ready = fill::after(end, ReplyView::Done);
            &&& fill::request_of(s) is ListFolder
            &&& fill::answered(s, ReplyView::Listing(l)).1.len() == 0
            &&& asked == listing::debris_of(l)
            &&& events.len() == gone.len()
            &&& forall|i: int|
                0 <= i < events.len() ==> #[trigger] events[i] == if gone[i] {
                    EventView::Deleted {
                        name: asked[i].name@,
                        bytes: asked[i].bytes,
                        kind: DeletedKind::Interrupted,
                    }
                } else {
                    EventView::DeleteRefused { name: asked[i].name@, bytes: asked[i].bytes }
                }
            &&& fill::request_of(end) is Mark
            &&& fill::answered(end, ReplyView::Done).1.len() == 0
            &&& fill::request_of(ready) is Measure
            &&& ready.phase matches PhaseView::Deciding { job } && {
                &&& job.total == s.phase->Survey_total
                &&& job.seq as int == listing::next_sequence_of(listing::fillers_of(l))
                &&& job.stuck <==> exists|i: int| 0 <= i < gone.len() && !#[trigger] gone[i]
            }
        }),
{
    crate::listing_laws::law_numbering_goes_on_above_the_highest(listing::fillers_of(l));
    lemma_reclaimed(s, l, gone);
}

proof fn lemma_reclaimed(s: FillState, l: Seq<Entry>, gone: Seq<bool>)
    requires
        s.phase is Survey,
        gone.len() <= listing::debris_of(l).len(),
    ensures
        ({
            let debris = listing::debris_of(l);
            let n = gone.len() as int;
            let (end, events, asked) = reclaimed(fill::after(s, ReplyView::Listing(l)), gone);
            &&& asked == debris.take(n)
            &&& events.len() == n
            &&& forall|i: int|
                0 <= i < events.len() ==> #[trigger] events[i] == if gone[i] {
                    EventView::Deleted {
                        name: asked[i].name@,
                        bytes: asked[i].bytes,
                        kind: DeletedKind::Interrupted,
                    }
                } else {
                    EventView::DeleteRefused { name: asked[i].name@, bytes: asked[i].bytes }
                }
            &&& {
                let job = Job {
                    total: s.phase->Survey_total,
                    seq: listing::next_sequence_of(listing::fillers_of(l)) as u64,
                    stuck: exists|i: int| 0 <= i < gone.len() && !#[trigger] gone[i],
                };
                end.phase == if n == debris.len() {
                    PhaseView::Marking { job }
                } else {
                    PhaseView::Reclaim { job, current: debris[n], rest: debris.skip(n + 1) }
                }
            }
        }),
    decreases gone.len(),
{
    let debris = listing::debris_of(l);
    let n = gone.len() as int;
    let begun = fill::after(s, ReplyView::Listing(l));
    if n == 0 {
        assert(debris.take(0) =~= Seq::<Entry>::empty());
        if debris.len() > 0 {
            assert(debris.drop_first() =~= debris.skip(1));
        }
    } else {
        let rest = gone.drop_last();
        lemma_reclaimed(s, l, rest);
        let (before, told, asked) = reclaimed(begun, rest);
        let now = reclaimed(begun, gone);
        assert(now.2 =~= debris.take(n));
        if n < debris.len() {
            assert(debris.skip(n)[0] == debris[n]);
            assert(debris.skip(n).drop_first() =~= debris.skip(n + 1));
        } else {
            assert(debris.skip(n).len() == 0);
        }
        assert((exists|i: int| 0 <= i < n && !#[trigger] gone[i]) <==> ((exists|i: int|
            0 <= i < n - 1 && !#[trigger] rest[i]) || !gone.last())) by {
            assert(gone.last() == gone[n - 1]);
            assert forall|i: int| 0 <= i < n - 1 implies #[trigger] gone[i] == rest[i] by {}
            assert forall|i: int| 0 <= i < n - 1 implies #[trigger] rest[i] == gone[i] by {}
        }
        assert forall|i: int| 0 <= i < now.1.len() implies #[trigger] now.1[i] == if gone[i] {
            EventView::Deleted {
                name: now.2[i].name@,
                bytes: now.2[i].bytes,
                kind: DeletedKind::Interrupted,
            }
        } else {
            EventView::DeleteRefused { name: now.2[i].name@, bytes: now.2[i].bytes }
        } by {
            if i < n - 1 {
                assert(now.1[i] == told[i]);
                assert(now.2[i] == asked[i]);
                assert(rest[i] == gone[i]);
            }
        }
    }
}

/// The job ends with this result: with the marker taken away first, unless something that
/// it accounts for would not go.
pub open spec fn ends_with(phase: PhaseView, job: Job, result: Result<Outcome, Fault>) -> bool {
    phase == if job.stuck {
        PhaseView::Ended { result }
    } else {
        PhaseView::Closing { result }
    }
}

/// What a reading decides, in plain arithmetic: a device that does not report its space is
/// a failure, a wish to stop ends the job, so does a reading inside the window, one below
/// it leads to the listing, and one above it to a write under the next name, as long as
/// there is one. What counts as done before that write is what the job set out to move
/// less what there still is to move.
pub proof fn law_a_reading_decides(s: FillState, space: Space, cancelled: bool)
    requires
        s.window.wf(),
    ensures
        s.phase matches PhaseView::Deciding { job } ==> {
            let reply = ReplyView::Measured { space, cancelled };
            let next = fill::after(s, reply);
            let events = fill::answered(s, reply).1;
            let free = space.free;
            let left = left_to_move(s.window, free);
            if !s.mounted && space.total == 0 {
                ends_with(next.phase, job, Err(Fault::SpaceUnreported)) && events.len() == 0
            } else if cancelled {
                ends_with(next.phase, job, Ok(Outcome::Cancelled { free })) && events == seq![
                    EventView::Finished { free },
                ]
            } else if s.window.low <= free <= s.window.high {
                ends_with(next.phase, job, Ok(Outcome::InWindow { free })) && events == seq![
                    EventView::Finished { free },
                ]
            } else if free < s.window.low {
                &&& next.phase == (PhaseView::Choosing { job, free })
                &&& fill::request_of(next) is ListFolder
                &&& events.len() == 0
            } else if job.seq > 0xffff_ffff {
                ends_with(next.phase, job, Err(Fault::NamesExhausted)) && events.len() == 0
            } else {
                &&& next.phase matches PhaseView::Writing { job: same, bytes, committed }
                    && same == job && fill::request_of(next) == (RequestView::Write {
                    name: "fill_"@ + text::padded(job.seq as nat, 4) + ".bin"@,
                    bytes,
                    committed,
                    total: job.total,
                }) && {
                    &&& committed == if job.total >= left {
                        job.total - left
                    } else {
                        0
                    }
                    &&& 0x10_0000 <= bytes <= left
                    &&& left < 4 * bytes || bytes == 0x4000_0000
                }
                &&& events.len() == 0
            }
        },
{
    plan_laws::law_a_reading_calls_for_one_step(space.free, s.window);
    assert((s.window.low + s.window.high) / 2 == s.window.low + (s.window.high - s.window.low)
        / 2);
}

/// Below the window the filler that is best given back is deleted. Where it goes, it is
/// told as filler and free space is read again; where it does not, and where there is
/// none, the job ends as overfilled, short by what is missing to the lower bound.
pub proof fn law_giving_back_goes_on_while_it_can(s: FillState, l: Seq<Entry>, gone: bool)
    requires
        s.wf(),
        l.len() <= usize::MAX,
    ensures
        s.phase matches PhaseView::Choosing { job, free } ==> {
            let reply = ReplyView::Listing(l);
            let next = fill::after(s, reply);
            let events = fill::answered(s, reply).1;
            let fillers = listing::fillers_of(l);
            let short = Outcome::Overfilled { free, excess: (s.window.low - free) as u64 };
            if fillers.len() == 0 {
                ends_with(next.phase, job, Ok(short)) && events == seq![
                    EventView::Finished { free },
                ]
            } else {
                &&& events.len() == 0
                &&& plan::removal_of(free as int, s.window, fill::sizes(fillers)) matches Removal::Remove(i)
                    && i < fillers.len() && next.phase == (PhaseView::Removing {
                    job,
                    free,
                    victim: fillers[i as int],
                }) && fill::request_of(next) == RequestView::Delete(fillers[i as int])
            }
        },
        s.phase matches PhaseView::Removing { job, free, victim } ==> {
            let reply = ReplyView::Deleted { gone };
            let next = fill::after(s, reply);
            let events = fill::answered(s, reply).1;
            let short = Outcome::Overfilled { free, excess: (s.window.low - free) as u64 };
            if gone {
                &&& next.phase == (PhaseView::Deciding { job })
                &&& fill::request_of(next) is Measure
                &&& events == seq![
                    EventView::Deleted {
                        name: victim.name@,
                        bytes: victim.bytes,
                        kind: DeletedKind::Filler,
                    },
                ]
            } else {
                &&& ends_with(next.phase, job, Ok(short))
                &&& events == seq![
                    EventView::DeleteRefused { name: victim.name@, bytes: victim.bytes },
                    EventView::Finished { free },
                ]
            }
        },
{
    listing::law_listing_partition(l);
    if let PhaseView::Choosing { job, free } = s.phase {
        plan::law_removal_makes_progress(free, s.window, fill::sizes(listing::fillers_of(l)));
    }
}

/// The sizes that are weighed against each other are those of the entries, in order.
pub proof fn law_every_size_is_weighed(entries: Seq<Entry>, i: int)
    requires
        0 <= i < entries.len(),
    ensures
        fill::sizes(entries).len() == entries.len(),
        fill::sizes(entries)[i] == entries[i].bytes,
{
}

/// An object that was written in full is told once free space has been read again, under
/// the name and with the size it was asked for and with that reading. The job goes on to
/// decide from a fresh one, with the next number up.
pub proof fn law_a_write_is_told_with_the_reading_after_it(
    s: FillState,
    space: Space,
    cancelled: bool,
)
    requires
        s.wf(),
        s.phase is Writing,
    ensures
        ({
            let landed = fill::after(s, ReplyView::Wrote);
            let reply = ReplyView::Measured { space, cancelled };
            let next = fill::after(landed, reply);
            let job = s.phase->Writing_job;
            let more = Job { total: job.total, seq: (job.seq + 1) as u64, stuck: job.stuck };
            &&& fill::answered(s, ReplyView::Wrote).1.len() == 0
            &&& fill::request_of(landed) is Measure
            &&& !s.mounted && space.total == 0 ==> ends_with(
                next.phase,
                job,
                Err(Fault::SpaceUnreported),
            ) && fill::answered(landed, reply).1.len() == 0
            &&& s.mounted || space.total != 0 ==> {
                &&& next.phase == (PhaseView::Deciding { job: more })
                &&& fill::answered(landed, reply).1 == seq![
                    EventView::Wrote {
                        name: fill::request_of(s)->Write_name,
                        bytes: fill::request_of(s)->Write_bytes,
                        free: space.free,
                    },
                ]
            }
        }),
{
}

/// A write that was cut off is cleared away where it left something, as far as that goes;
/// then a broken one ends the job with what broke it, and a stopped one, after one more
/// reading, as cancelled at that reading.
pub proof fn law_a_write_cut_off_is_cleared_away(
    s: FillState,
    partial: Option<u64>,
    error: Fault,
    discarded: ReplyView,
    space: Space,
    cancelled: bool,
)
    requires
        s.phase is Writing,
        discarded is Done || discarded is Failed,
    ensures
        ({
            let job = s.phase->Writing_job;
            let broken = fill::after(s, ReplyView::Broken { partial, error });
            let stopped = fill::after(s, ReplyView::Stopped { partial });
            let reply = ReplyView::Measured { space, cancelled };
            let cleared = match partial {
                Some(_) => (fill::after(broken, discarded), fill::after(stopped, discarded)),
                None => (broken, stopped),
            };
            &&& fill::answered(s, ReplyView::Broken { partial, error }).1.len() == 0
            &&& fill::answered(s, ReplyView::Stopped { partial }).1.len() == 0
            &&& partial matches Some(p) ==> {
                &&& fill::request_of(broken) == (RequestView::Discard { partial: p })
                &&& fill::request_of(stopped) == (RequestView::Discard { partial: p })
                &&& fill::answered(broken, discarded).1.len() == 0
                &&& fill::answered(stopped, discarded).1.len() == 0
            }
            &&& ends_with(cleared.0.phase, job, Err(error))
            &&& fill::request_of(cleared.1) is Measure
            &&& !s.mounted && space.total == 0 ==> ends_with(
                fill::after(cleared.1, reply).phase,
                job,
                Err(Fault::SpaceUnreported),
            ) && fill::answered(cleared.1, reply).1.len() == 0
            &&& s.mounted || space.total != 0 ==> ends_with(
                fill::after(cleared.1, reply).phase,
                job,
                Ok(Outcome::Cancelled { free: space.free }),
            ) && fill::answered(cleared.1, reply).1 == seq![
                EventView::Finished { free: space.free },
            ]
        }),
{
}

/// A failure ends the fill with that failure, with the marker taken away first where it
/// has been put and nothing holds it; nothing becomes known. Only what clears a write away
/// may fail, and a failure to take the marker away never stands in for one that came
/// before it.
pub proof fn law_a_failure_ends_the_fill(s: FillState, error: Fault)
    ensures
        fill::answered(s, ReplyView::Failed(error)).1.len() == 0,
        fill_laws::only_looked(s.phase) || s.phase is Ensure || s.phase is Survey || s.phase is Reclaim
            || s.phase is Marking ==> fill::after(s, ReplyView::Failed(error)).phase == (
        PhaseView::Ended { result: Err(error) }),
        s.phase matches PhaseView::Deciding { job } ==> ends_with(
            fill::after(s, ReplyView::Failed(error)).phase,
            job,
            Err(error),
        ),
        s.phase matches PhaseView::Choosing { job, .. } ==> ends_with(
            fill::after(s, ReplyView::Failed(error)).phase,
            job,
            Err(error),
        ),
        s.phase matches PhaseView::Removing { job, .. } ==> ends_with(
            fill::after(s, ReplyView::Failed(error)).phase,
            job,
            Err(error),
        ),
        s.phase matches PhaseView::Writing { job, .. } ==> ends_with(
            fill::after(s, ReplyView::Failed(error)).phase,
            job,
            Err(error),
        ),
        s.phase matches PhaseView::Landed { job, .. } ==> ends_with(
            fill::after(s, ReplyView::Failed(error)).phase,
            job,
            Err(error),
        ),
        s.phase matches PhaseView::Halting { job } ==> ends_with(
            fill::after(s, ReplyView::Failed(error)).phase,
            job,
            Err(error),
        ),
        s.phase matches PhaseView::Closing { result } ==> {
            &&& fill::request_of(s) is Unmark
            &&& fill::after(s, ReplyView::Done).phase == (PhaseView::Ended { result })
            &&& result is Ok ==> fill::after(s, ReplyView::Failed(error)).phase == (
            PhaseView::Ended { result: Err(error) })
            &&& result is Err ==> fill::after(s, ReplyView::Failed(error)).phase == (
            PhaseView::Ended { result })
        },
{
}

/// A fill that asks for the folder goes on to list it, and by the same size.
pub proof fn law_the_folder_is_listed_once_it_is_there(s: FillState)
    ensures
        s.phase matches PhaseView::Ensure { total } ==> {
            &&& fill::request_of(s) is EnsureFolder
            &&& fill::after(s, ReplyView::Done).phase == (PhaseView::Survey { total })
            &&& fill::answered(s, ReplyView::Done).1.len() == 0
        },
{
}

} // verus!
