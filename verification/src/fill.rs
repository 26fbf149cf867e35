//! The fill: what to ask of the device next, and what to make of its answer.
//!
//! A fill is a conversation. [`Fill::request`] says what has to be done on the device;
//! whoever drives the fill does it and hands the answer to [`Fill::reply`], which says
//! what happened and what state the fill is in now. The rules that keep it safe:
//!
//! - free space is read again after every single write, and every decision is taken from
//!   the reading just made;
//! - nothing is deleted but filler this tool wrote and, with the marker of an interrupted
//!   fill standing beside it, what that fill left behind;
//! - the marker stands in the folder while the fill is underway and is taken away on the
//!   way out, unless something it accounts for would not go.

use crate::events;
use crate::events::{no_events, one_event, DeletedKind, Event, EventView, Fault, FillError, Outcome};
use crate::listing;
use crate::listing::{
    elsewhere, find_filler_folders, highest_sequence, list_debris, list_fillers, Entry, RootEntry,
};
use crate::mass_storage::Space;
use crate::names;
use crate::names::{filler_name, validate_dir_name};
use crate::plan;
use crate::plan::{abs_diff, next_removal, next_step, Bounds, Removal, Step, Window};
use vstd::prelude::*;

verus! {

/// What has to be done on the device next.
#[derive(Debug)]
pub enum Request {
    /// Find out whether the storage accepts writes.
    CheckWritable,
    /// Read free space from the device, not from a cache.
    Measure,
    /// List the filler folder; empty where there is none.
    ListFolder,
    /// List the storage root with what its folders hold.
    ListRoot,
    /// Create the filler folder unless it is there.
    EnsureFolder,
    /// Put the marker into the filler folder unless it is there.
    Mark,
    /// Delete this entry of the filler folder.
    Delete(Entry),
    /// Write this many zero bytes to the filler folder under this name. `committed` of
    /// the `total` bytes of the job are done before it.
    Write { name: String, bytes: u64, committed: u64, total: u64 },
    /// Delete what a write that did not complete left behind, as far as possible.
    Discard { partial: u64 },
    /// Take the marker out of the filler folder.
    Unmark,
    /// Nothing: the fill is over.
    Finish,
}

/// A [`Request`], with its text as characters.
pub enum RequestView {
    CheckWritable,
    Measure,
    ListFolder,
    ListRoot,
    EnsureFolder,
    Mark,
    Delete(Entry),
    Write { name: Seq<char>, bytes: u64, committed: u64, total: u64 },
    Discard { partial: u64 },
    Unmark,
    Finish,
}

impl View for Request {
    type V = RequestView;

    open spec fn view(&self) -> RequestView {
        match *self {
            Request::CheckWritable => RequestView::CheckWritable,
            Request::Measure => RequestView::Measure,
            Request::ListFolder => RequestView::ListFolder,
            Request::ListRoot => RequestView::ListRoot,
            Request::EnsureFolder => RequestView::EnsureFolder,
            Request::Mark => RequestView::Mark,
            Request::Delete(e) => RequestView::Delete(e),
            Request::Write { name, bytes, committed, total } => RequestView::Write {
                name: name@,
                bytes,
                committed,
                total,
            },
            Request::Discard { partial } => RequestView::Discard { partial },
            Request::Unmark => RequestView::Unmark,
            Request::Finish => RequestView::Finish,
        }
    }
}

/// How the device answered a [`Request`].
#[derive(Debug)]
pub enum Reply {
    Writable,
    ReadOnly { description: String },
    /// A fresh reading, and whether the caller has asked to stop.
    Measured { space: Space, cancelled: bool },
    Listing(Vec<Entry>),
    Root(Vec<RootEntry>),
    /// What was asked for has been done.
    Done,
    /// A deletion was carried out; `gone` is whether the entry is really no longer there.
    Deleted { gone: bool },
    /// The object was written in full.
    Wrote,
    /// The write was stopped by the caller, possibly leaving a partial object.
    Stopped { partial: Option<u64> },
    /// The write failed, possibly leaving a partial object.
    Broken { partial: Option<u64>, error: FillError },
    /// What was asked for failed.
    Failed(FillError),
}

/// A [`Reply`], with its text as characters.
pub enum ReplyView {
    Writable,
    ReadOnly { description: Seq<char> },
    Measured { space: Space, cancelled: bool },
    Listing(Seq<Entry>),
    Root(Seq<RootEntry>),
    Done,
    Deleted { gone: bool },
    Wrote,
    Stopped { partial: Option<u64> },
    Broken { partial: Option<u64>, error: Fault },
    Failed(Fault),
}

impl View for Reply {
    type V = ReplyView;

    open spec fn view(&self) -> ReplyView {
        match *self {
            Reply::Writable => ReplyView::Writable,
            Reply::ReadOnly { description } => ReplyView::ReadOnly { description: description@ },
            Reply::Measured { space, cancelled } => ReplyView::Measured { space, cancelled },
            Reply::Listing(entries) => ReplyView::Listing(entries@),
            Reply::Root(entries) => ReplyView::Root(entries@),
            Reply::Done => ReplyView::Done,
            Reply::Deleted { gone } => ReplyView::Deleted { gone },
            Reply::Wrote => ReplyView::Wrote,
            Reply::Stopped { partial } => ReplyView::Stopped { partial },
            Reply::Broken { partial, error } => ReplyView::Broken { partial, error: error@ },
            Reply::Failed(error) => ReplyView::Failed(error@),
        }
    }
}

/// What a fill carries from one write to the next.
#[derive(Debug, Clone, Copy, PartialEq, Eq, Structural)]
pub struct Job {
    /// What the job set out to move.
    pub total: u64,
    /// The sequence number of the next object.
    pub seq: u64,
    /// Something an interrupted fill left behind would not go, so the marker has to stay.
    pub stuck: bool,
}

/// Where a fill stands.
#[derive(Debug)]
enum Phase {
    Start,
    FirstMeasure,
    CheckFiller { free: u64 },
    LookElsewhere { free: u64 },
    Ensure { total: u64 },
    Survey { total: u64 },
    Reclaim { job: Job, current: Entry, rest: Vec<Entry> },
    Marking { job: Job },
    Deciding { job: Job },
    Choosing { job: Job, free: u64 },
    Removing { job: Job, free: u64, victim: Entry },
    Writing { job: Job, bytes: u64, committed: u64 },
    Discarding { job: Job, partial: u64, cause: Option<FillError> },
    Landed { job: Job, bytes: u64 },
    Halting { job: Job },
    Closing { result: Result<Outcome, FillError> },
    Ended { result: Result<Outcome, FillError> },
}

/// Where a fill stands, with its text as characters.
pub enum PhaseView {
    /// Nothing has been asked yet.
    Start,
    /// Waiting for the first reading.
    FirstMeasure,
    /// Below the window; waiting to hear whether the folder holds filler.
    CheckFiller { free: u64 },
    /// Below the window without filler in the folder; looking where it is.
    LookElsewhere { free: u64 },
    /// Waiting for the folder.
    Ensure { total: u64 },
    /// Waiting for the folder's listing.
    Survey { total: u64 },
    /// Deleting what an interrupted fill left behind.
    Reclaim { job: Job, current: Entry, rest: Seq<Entry> },
    /// Putting the marker.
    Marking { job: Job },
    /// Waiting for the reading that decides the next step.
    Deciding { job: Job },
    /// Below the window; waiting for the listing to choose what to give back.
    Choosing { job: Job, free: u64 },
    /// Below the window; giving an object back.
    Removing { job: Job, free: u64, victim: Entry },
    /// Writing an object.
    Writing { job: Job, bytes: u64, committed: u64 },
    /// Deleting a partial object; `cause` is what broke the write, if it was not stopped.
    Discarding { job: Job, partial: u64, cause: Option<Fault> },
    /// An object landed; waiting for the reading after it.
    Landed { job: Job, bytes: u64 },
    /// Stopped mid-write; waiting for the last reading.
    Halting { job: Job },
    /// Taking the marker away.
    Closing { result: Result<Outcome, Fault> },
    /// Over.
    Ended { result: Result<Outcome, Fault> },
}

impl View for Phase {
    type V = PhaseView;

    closed spec fn view(&self) -> PhaseView {
        match *self {
            Phase::Start => PhaseView::Start,
            Phase::FirstMeasure => PhaseView::FirstMeasure,
            Phase::CheckFiller { free } => PhaseView::CheckFiller { free },
            Phase::LookElsewhere { free } => PhaseView::LookElsewhere { free },
            Phase::Ensure { total } => PhaseView::Ensure { total },
            Phase::Survey { total } => PhaseView::Survey { total },
            Phase::Reclaim { job, current, rest } => PhaseView::Reclaim {
                job,
                current,
                rest: rest@,
            },
            Phase::Marking { job } => PhaseView::Marking { job },
            Phase::Deciding { job } => PhaseView::Deciding { job },
            Phase::Choosing { job, free } => PhaseView::Choosing { job, free },
            Phase::Removing { job, free, victim } => PhaseView::Removing { job, free, victim },
            Phase::Writing { job, bytes, committed } => PhaseView::Writing {
                job,
                bytes,
                committed,
            },
            Phase::Discarding { job, partial, cause } => PhaseView::Discarding {
                job,
                partial,
                cause: match cause {
                    Some(e) => Some(e@),
                    None => None,
                },
            },
            Phase::Landed { job, bytes } => PhaseView::Landed { job, bytes },
            Phase::Halting { job } => PhaseView::Halting { job },
            Phase::Closing { result } => PhaseView::Closing { result: events::verdict(result) },
            Phase::Ended { result } => PhaseView::Ended { result: events::verdict(result) },
        }
    }
}

/// A fill as its contract speaks of it.
pub struct FillState {
    pub window: Bounds,
    pub dir: Seq<char>,
    /// The device is a volume that the OS mounts, whose free space is taken as it reads.
    pub mounted: bool,
    pub phase: PhaseView,
}

/// A fill that has not asked for anything yet.
pub open spec fn started(window: Bounds, dir: Seq<char>, mounted: bool) -> FillState {
    FillState { window, dir, mounted, phase: PhaseView::Start }
}

/// The highest sequence number there is.
pub open spec fn last_seq() -> int {
    u32::MAX as int
}

/// A result says what is true of the free space it reports.
pub open spec fn honest(w: Bounds, result: Result<Outcome, Fault>) -> bool {
    match result {
        Ok(Outcome::InWindow { free }) => w.contains(free as int),
        Ok(Outcome::Overfilled { free, excess }) => free < w.low && excess == w.low - free,
        _ => true,
    }
}

/// An entry that an interrupted fill can have left behind.
pub open spec fn is_debris(e: Entry) -> bool {
    listing::is_foreign(e) && !e.is_dir
}

impl FillState {
    /// What holds of every fill, in whatever state.
    pub open spec fn wf(self) -> bool {
        &&& self.window.wf()
        &&& names::usable(self.dir)
        &&& match self.phase {
            PhaseView::CheckFiller { free } => free < self.window.low,
            PhaseView::LookElsewhere { free } => free < self.window.low,
            PhaseView::Reclaim { job, current, rest } => {
                &&& job.seq <= last_seq() + 1
                &&& is_debris(current)
                &&& forall|i: int| 0 <= i < rest.len() ==> is_debris(#[trigger] rest[i])
            },
            PhaseView::Marking { job } => job.seq <= last_seq() + 1,
            PhaseView::Deciding { job } => job.seq <= last_seq() + 1,
            PhaseView::Choosing { job, free } => job.seq <= last_seq() + 1 && free < self.window.low,
            PhaseView::Removing { job, free, victim } => {
                &&& job.seq <= last_seq() + 1
                &&& free < self.window.low
                &&& listing::is_filler(victim)
            },
            PhaseView::Writing { job, bytes, committed } => {
                &&& job.seq <= last_seq()
                &&& 0 < bytes < u32::MAX
                &&& committed <= job.total
            },
            PhaseView::Discarding { job, partial, cause } => job.seq <= last_seq(),
            PhaseView::Landed { job, bytes } => 1 <= job.seq <= last_seq() + 1,
            PhaseView::Halting { job } => job.seq <= last_seq(),
            PhaseView::Closing { result } => honest(self.window, result),
            PhaseView::Ended { result } => honest(self.window, result),
            _ => true,
        }
    }
}

/// What a fill in this state asks for.
pub open spec fn request_of(s: FillState) -> RequestView {
    match s.phase {
        PhaseView::Start => RequestView::CheckWritable,
        PhaseView::FirstMeasure => RequestView::Measure,
        PhaseView::CheckFiller { .. } => RequestView::ListFolder,
        PhaseView::LookElsewhere { .. } => RequestView::ListRoot,
        PhaseView::Ensure { .. } => RequestView::EnsureFolder,
        PhaseView::Survey { .. } => RequestView::ListFolder,
        PhaseView::Reclaim { current, .. } => RequestView::Delete(current),
        PhaseView::Marking { .. } => RequestView::Mark,
        PhaseView::Deciding { .. } => RequestView::Measure,
        PhaseView::Choosing { .. } => RequestView::ListFolder,
        PhaseView::Removing { victim, .. } => RequestView::Delete(victim),
        PhaseView::Writing { job, bytes, committed } => RequestView::Write {
            name: names::filler_name_of(job.seq as nat),
            bytes,
            committed,
            total: job.total,
        },
        PhaseView::Discarding { partial, .. } => RequestView::Discard { partial },
        PhaseView::Landed { .. } => RequestView::Measure,
        PhaseView::Halting { .. } => RequestView::Measure,
        PhaseView::Closing { .. } => RequestView::Unmark,
        PhaseView::Ended { .. } => RequestView::Finish,
    }
}

/// A job ends: the marker goes first, unless it has to stay.
pub open spec fn ending(job: Job, result: Result<Outcome, Fault>) -> PhaseView {
    if job.stuck {
        PhaseView::Ended { result }
    } else {
        PhaseView::Closing { result }
    }
}

/// What there is to move from `free` bytes to the aim, in whichever direction.
pub open spec fn to_move(free: u64, w: Bounds) -> u64 {
    plan::distance(free as int, w.aim()) as u64
}

/// How much of a job is done at `free` bytes: how much closer to the aim the device is
/// than when the job started, taken from the device rather than from a tally.
pub open spec fn committed_at(total: u64, free: u64, w: Bounds) -> u64 {
    if total >= to_move(free, w) {
        (total - to_move(free, w)) as u64
    } else {
        0
    }
}

/// The work begins at `free` bytes.
pub open spec fn begun(s: FillState, free: u64) -> (PhaseView, Seq<EventView>) {
    let total = to_move(free, s.window);
    (
        PhaseView::Ensure { total },
        seq![EventView::Started { free, aim: s.window.aim() as u64, total }],
    )
}

/// The folder was listed: where numbering goes on, and what there is to reclaim first.
pub open spec fn surveyed(total: u64, listing: Seq<Entry>) -> PhaseView {
    let job = Job {
        total,
        seq: listing::next_sequence_of(listing::fillers_of(listing)) as u64,
        stuck: false,
    };
    let debris = listing::debris_of(listing);
    if debris.len() == 0 {
        PhaseView::Marking { job }
    } else {
        PhaseView::Reclaim { job, current: debris[0], rest: debris.drop_first() }
    }
}

/// The reading is no reading: over MTP, a capacity of zero is a placeholder for a device
/// that did not answer.
pub open spec fn unreported(s: FillState, space: Space) -> bool {
    !s.mounted && space.total == 0
}

/// What a reading decides.
pub open spec fn decided(s: FillState, job: Job, space: Space, cancelled: bool) -> (
    PhaseView,
    Seq<EventView>,
) {
    if unreported(s, space) {
        (ending(job, Err(Fault::SpaceUnreported)), Seq::empty())
    } else if cancelled {
        (
            ending(job, Ok(Outcome::Cancelled { free: space.free })),
            seq![EventView::Finished { free: space.free }],
        )
    } else {
        match plan::step_of(space.free as int, s.window) {
            Step::Done => (
                ending(job, Ok(Outcome::InWindow { free: space.free })),
                seq![EventView::Finished { free: space.free }],
            ),
            Step::Overfilled { .. } => (
                PhaseView::Choosing { job, free: space.free },
                Seq::empty(),
            ),
            Step::Write(bytes) => if job.seq > last_seq() {
                (ending(job, Err(Fault::NamesExhausted)), Seq::empty())
            } else {
                (
                    PhaseView::Writing {
                        job,
                        bytes,
                        committed: committed_at(job.total, space.free, s.window),
                    },
                    Seq::empty(),
                )
            },
        }
    }
}

/// The sizes of the entries.
pub open spec fn sizes(entries: Seq<Entry>) -> Seq<u64> {
    entries.map_values(|e: Entry| e.bytes)
}

/// The shortfall is not ours to make up.
pub open spec fn overfilled(s: FillState, job: Job, free: u64) -> PhaseView {
    ending(job, Ok(Outcome::Overfilled { free, excess: (s.window.low - free) as u64 }))
}

/// Which object is given back.
pub open spec fn picked(s: FillState, job: Job, free: u64, listing: Seq<Entry>) -> (
    PhaseView,
    Seq<EventView>,
) {
    let fillers = listing::fillers_of(listing);
    match plan::removal_of(free as int, s.window, sizes(fillers)) {
        Removal::Remove(i) => (
            PhaseView::Removing { job, free, victim: fillers[i as int] },
            Seq::empty(),
        ),
        Removal::Exhausted => (overfilled(s, job, free), seq![EventView::Finished { free }]),
    }
}

/// Whether the marker stands on the device on account of this fill.
pub open spec fn marked(phase: PhaseView) -> Option<Job> {
    match phase {
        PhaseView::Deciding { job } => Some(job),
        PhaseView::Choosing { job, .. } => Some(job),
        PhaseView::Removing { job, .. } => Some(job),
        PhaseView::Writing { job, .. } => Some(job),
        PhaseView::Discarding { job, .. } => Some(job),
        PhaseView::Landed { job, .. } => Some(job),
        PhaseView::Halting { job } => Some(job),
        _ => None,
    }
}

/// Where a write that did not complete leads, once its partial object is out of the way.
pub open spec fn after_discard(job: Job, cause: Option<Fault>) -> PhaseView {
    match cause {
        Some(error) => ending(job, Err(error)),
        None => PhaseView::Halting { job },
    }
}

/// Where a write that did not complete leads.
pub open spec fn cut_off(job: Job, partial: Option<u64>, cause: Option<Fault>) -> PhaseView {
    match partial {
        Some(partial) => PhaseView::Discarding { job, partial, cause },
        None => after_discard(job, cause),
    }
}

/// Where an answer leads, and what it makes known. An answer to something that was not
/// asked changes nothing.
pub open spec fn answered(s: FillState, reply: ReplyView) -> (PhaseView, Seq<EventView>) {
    match (s.phase, reply) {
        (PhaseView::Start, ReplyView::Writable) => (PhaseView::FirstMeasure, Seq::empty()),
        (PhaseView::Start, ReplyView::ReadOnly { description }) => (
            PhaseView::Ended { result: Err(Fault::ReadOnly { description }) },
            Seq::empty(),
        ),
        (PhaseView::FirstMeasure, ReplyView::Measured { space, .. }) => if unreported(s, space) {
            (PhaseView::Ended { result: Err(Fault::SpaceUnreported) }, Seq::empty())
        } else if space.free < s.window.low {
            (PhaseView::CheckFiller { free: space.free }, Seq::empty())
        } else {
            begun(s, space.free)
        },
        (PhaseView::CheckFiller { free }, ReplyView::Listing(listing)) => if listing::fillers_of(
            listing,
        ).len() == 0 {
            (PhaseView::LookElsewhere { free }, Seq::empty())
        } else {
            begun(s, free)
        },
        (PhaseView::LookElsewhere { free }, ReplyView::Root(root)) => (
            PhaseView::Ended {
                result: Err(
                    Fault::AlreadyBelowWindow {
                        free,
                        low: s.window.low as u64,
                        elsewhere: listing::elsewhere_of(listing::filler_folders_of(root), s.dir),
                    },
                ),
            },
            Seq::empty(),
        ),
        (PhaseView::Ensure { total }, ReplyView::Done) => (
            PhaseView::Survey { total },
            Seq::empty(),
        ),
        (PhaseView::Survey { total }, ReplyView::Listing(listing)) => (
            surveyed(total, listing),
            Seq::empty(),
        ),
        (PhaseView::Reclaim { job, current, rest }, ReplyView::Deleted { gone }) => {
            let job = Job { stuck: job.stuck || !gone, ..job };
            (
                if rest.len() == 0 {
                    PhaseView::Marking { job }
                } else {
                    PhaseView::Reclaim { job, current: rest[0], rest: rest.drop_first() }
                },
                if gone {
                    seq![
                        EventView::Deleted {
                            name: current.name@,
                            bytes: current.bytes,
                            kind: DeletedKind::Interrupted,
                        },
                    ]
                } else {
                    seq![
                        EventView::DeleteRefused { name: current.name@, bytes: current.bytes },
                    ]
                },
            )
        },
        (PhaseView::Marking { job }, ReplyView::Done) => (PhaseView::Deciding { job }, Seq::empty()),
        (PhaseView::Deciding { job }, ReplyView::Measured { space, cancelled }) => decided(
            s,
            job,
            space,
            cancelled,
        ),
        (PhaseView::Choosing { job, free }, ReplyView::Listing(listing)) => picked(
            s,
            job,
            free,
            listing,
        ),
        (PhaseView::Removing { job, free, victim }, ReplyView::Deleted { gone }) => if gone {
            (
                PhaseView::Deciding { job },
                seq![
                    EventView::Deleted {
                        name: victim.name@,
                        bytes: victim.bytes,
                        kind: DeletedKind::Filler,
                    },
                ],
            )
        } else {
            (
                overfilled(s, job, free),
                seq![
                    EventView::DeleteRefused { name: victim.name@, bytes: victim.bytes },
                    EventView::Finished { free },
                ],
            )
        },
        (PhaseView::Writing { job, bytes, .. }, ReplyView::Wrote) => (
            PhaseView::Landed { job: Job { seq: (job.seq + 1) as u64, ..job }, bytes },
            Seq::empty(),
        ),
        (PhaseView::Writing { job, .. }, ReplyView::Stopped { partial }) => (
            cut_off(job, partial, None),
            Seq::empty(),
        ),
        (PhaseView::Writing { job, .. }, ReplyView::Broken { partial, error }) => (
            cut_off(job, partial, Some(error)),
            Seq::empty(),
        ),
        (PhaseView::Discarding { job, cause, .. }, ReplyView::Done) => (
            after_discard(job, cause),
            Seq::empty(),
        ),
        (PhaseView::Discarding { job, cause, .. }, ReplyView::Failed(_)) => (
            after_discard(job, cause),
            Seq::empty(),
        ),
        (PhaseView::Landed { job, bytes }, ReplyView::Measured { space, .. }) => if unreported(
            s,
            space,
        ) {
            (ending(job, Err(Fault::SpaceUnreported)), Seq::empty())
        } else {
            (
                PhaseView::Deciding { job },
                seq![
                    EventView::Wrote {
                        name: names::filler_name_of((job.seq - 1) as nat),
                        bytes,
                        free: space.free,
                    },
                ],
            )
        },
        (PhaseView::Halting { job }, ReplyView::Measured { space, .. }) => if unreported(s, space) {
            (ending(job, Err(Fault::SpaceUnreported)), Seq::empty())
        } else {
            (
                ending(job, Ok(Outcome::Cancelled { free: space.free })),
                seq![EventView::Finished { free: space.free }],
            )
        },
        (PhaseView::Closing { result }, ReplyView::Done) => (
            PhaseView::Ended { result },
            Seq::empty(),
        ),
        (PhaseView::Closing { result }, ReplyView::Failed(error)) => (
            PhaseView::Ended {
                result: match result {
                    Ok(_) => Err(error),
                    Err(first) => Err(first),
                },
            },
            Seq::empty(),
        ),
        (PhaseView::Ended { result }, _) => (s.phase, Seq::empty()),
        (phase, ReplyView::Failed(error)) => (
            match marked(phase) {
                Some(job) => ending(job, Err(error)),
                None => PhaseView::Ended { result: Err(error) },
            },
            Seq::empty(),
        ),
        _ => (s.phase, Seq::empty()),
    }
}

/// The state an answer leads to.
pub open spec fn after(s: FillState, reply: ReplyView) -> FillState {
    FillState { phase: answered(s, reply).0, ..s }
}


/// Whatever the device answers, what holds of every fill goes on holding.
pub proof fn law_answers_keep_a_fill_well_formed(s: FillState, reply: ReplyView)
    requires
        s.wf(),
        reply matches ReplyView::Listing(listing) ==> listing.len() <= usize::MAX,
    ensures
        after(s, reply).wf(),
{
    match (s.phase, reply) {
        (PhaseView::Survey { total }, ReplyView::Listing(listing)) => {
            lemma_debris(listing);
            lemma_next_sequence_fits(listing::fillers_of(listing));
        },
        (PhaseView::Reclaim { job, current, rest }, ReplyView::Deleted { gone }) => {
            if rest.len() > 0 {
                assert forall|i: int| 0 <= i < rest.drop_first().len() implies is_debris(
                    #[trigger] rest.drop_first()[i],
                ) by {
                    assert(rest.drop_first()[i] == rest[i + 1]);
                }
            }
        },
        (PhaseView::Deciding { job }, ReplyView::Measured { space, cancelled }) => {
            plan::law_write_never_undershoots(space.free, s.window);
        },
        (PhaseView::Choosing { job, free }, ReplyView::Listing(listing)) => {
            lemma_fillers_fit(listing);
            let fillers = listing::fillers_of(listing);
            plan::law_removal_makes_progress(free, s.window, sizes(fillers));
            match plan::removal_of(free as int, s.window, sizes(fillers)) {
                Removal::Remove(i) => {
                    assert(fillers.contains(fillers[i as int]));
                    listing::lemma_fillers_are_filler(listing, fillers[i as int]);
                },
                Removal::Exhausted => {},
            }
        },
        _ => {},
    }
}

proof fn lemma_debris(listing: Seq<Entry>)
    ensures
        forall|i: int|
            0 <= i < listing::debris_of(listing).len() ==> is_debris(
                #[trigger] listing::debris_of(listing)[i],
            ),
{
    let debris = listing::debris_of(listing);
    assert forall|i: int| 0 <= i < debris.len() implies is_debris(#[trigger] debris[i]) by {
        assert(debris.contains(debris[i]));
        listing::lemma_filter_holds(
            listing,
            |e: Entry| listing::is_foreign(e) && !e.is_dir,
            debris[i],
        );
    }
}

proof fn lemma_next_sequence_fits(existing: Seq<Entry>)
    ensures
        0 <= listing::next_sequence_of(existing) <= last_seq() + 1,
{
}

proof fn lemma_fillers_fit(listing: Seq<Entry>)
    ensures
        listing::fillers_of(listing).len() <= listing.len(),
{
    listing::law_listing_partition(listing);
}

/// A fill in progress.
#[derive(Debug)]
pub struct Fill {
    window: Window,
    dir: String,
    mounted: bool,
    phase: Phase,
}

impl View for Fill {
    type V = FillState;

    closed spec fn view(&self) -> FillState {
        FillState {
            window: self.window@,
            dir: self.dir@,
            mounted: self.mounted,
            phase: self.phase@,
        }
    }
}

fn ending_phase(job: Job, result: Result<Outcome, FillError>) -> (phase: Phase)
    ensures
        phase@ == ending(job, events::verdict(result)),
{
    if job.stuck {
        Phase::Ended { result }
    } else {
        Phase::Closing { result }
    }
}

fn discarded_phase(job: Job, cause: Option<FillError>) -> (phase: Phase)
    ensures
        phase@ == after_discard(
            job,
            match cause {
                Some(e) => Some(e@),
                None => None,
            },
        ),
{
    match cause {
        Some(error) => ending_phase(job, Err(error)),
        None => Phase::Halting { job },
    }
}

fn cut_off_phase(job: Job, partial: Option<u64>, cause: Option<FillError>) -> (phase: Phase)
    ensures
        phase@ == cut_off(
            job,
            partial,
            match cause {
                Some(e) => Some(e@),
                None => None,
            },
        ),
{
    match partial {
        Some(partial) => Phase::Discarding { job, partial, cause },
        None => discarded_phase(job, cause),
    }
}

fn sizes_of(entries: &Vec<Entry>) -> (out: Vec<u64>)
    ensures
        out@ == sizes(entries@),
{
    let mut out: Vec<u64> = Vec::new();
    let mut i: usize = 0;
    while i < entries.len()
        invariant
            i <= entries.len(),
            out@ == sizes(entries@.take(i as int)),
        decreases entries.len() - i,
    {
        out.push(entries[i].bytes);
        i += 1;
        assert(out@ =~= sizes(entries@.take(i as int)));
    }
    assert(entries@.take(i as int) =~= entries@);
    out
}

impl Fill {
    /// Every fill that exists is well formed.
    #[verifier::type_invariant]
    pub open spec fn inv(self) -> bool {
        self@.wf()
    }

    /// A fill of the folder `dir_name` to `window`, on a device over MTP. Nothing has been
    /// asked of the device yet; a name that can't be used is refused here.
    pub fn new(window: Window, dir_name: &str) -> (fill: Result<Fill, FillError>)
        ensures
            match fill {
                Ok(f) => names::usable(dir_name@) && f@ == started(window@, dir_name@, false),
                Err(e) => !names::usable(dir_name@) && e@ == events::bad_name(dir_name@),
            },
    {
        Self::start(window, dir_name, false)
    }

    /// A fill of the folder `dir_name` to `window`, on a volume that the OS mounts.
    pub fn on_volume(window: Window, dir_name: &str) -> (fill: Result<Fill, FillError>)
        ensures
            match fill {
                Ok(f) => names::usable(dir_name@) && f@ == started(window@, dir_name@, true),
                Err(e) => !names::usable(dir_name@) && e@ == events::bad_name(dir_name@),
            },
    {
        Self::start(window, dir_name, true)
    }

    fn start(window: Window, dir_name: &str, mounted: bool) -> (fill: Result<Fill, FillError>)
        ensures
            match fill {
                Ok(f) => names::usable(dir_name@) && f@ == started(window@, dir_name@, mounted),
                Err(e) => !names::usable(dir_name@) && e@ == events::bad_name(dir_name@),
            },
    {
        proof {
            use_type_invariant(window);
        }
        match validate_dir_name(dir_name) {
            Ok(()) => Ok(Fill { window, dir: dir_name.to_owned(), mounted, phase: Phase::Start }),
            Err(e) => Err(FillError::BadName(e)),
        }
    }

    /// What has to be done on the device next.
    pub fn request(&self) -> (request: Request)
        ensures
            request@ == request_of(self@),
    {
        proof {
            use_type_invariant(self);
        }
        match &self.phase {
            Phase::Start => Request::CheckWritable,
            Phase::FirstMeasure => Request::Measure,
            Phase::CheckFiller { .. } => Request::ListFolder,
            Phase::LookElsewhere { .. } => Request::ListRoot,
            Phase::Ensure { .. } => Request::EnsureFolder,
            Phase::Survey { .. } => Request::ListFolder,
            Phase::Reclaim { current, .. } => Request::Delete(current.clone()),
            Phase::Marking { .. } => Request::Mark,
            Phase::Deciding { .. } => Request::Measure,
            Phase::Choosing { .. } => Request::ListFolder,
            Phase::Removing { victim, .. } => Request::Delete(victim.clone()),
            Phase::Writing { job, bytes, committed } => Request::Write {
                name: filler_name(job.seq as u32),
                bytes: *bytes,
                committed: *committed,
                total: job.total,
            },
            Phase::Discarding { partial, .. } => Request::Discard { partial: *partial },
            Phase::Landed { .. } => Request::Measure,
            Phase::Halting { .. } => Request::Measure,
            Phase::Closing { .. } => Request::Unmark,
            Phase::Ended { .. } => Request::Finish,
        }
    }

    /// How the fill ended, once [`Request::Finish`] is what it asks for.
    pub fn result(self) -> (result: Option<Result<Outcome, FillError>>)
        ensures
            match (result, self@.phase) {
                (Some(r), PhaseView::Ended { result }) => events::verdict(r) == result,
                (None, PhaseView::Ended { result }) => false,
                (Some(r), _) => false,
                (None, _) => true,
            },
    {
        match self.phase {
            Phase::Ended { result } => Some(result),
            _ => None,
        }
    }

    fn begin(window: &Window, free: u64) -> (out: (Phase, Vec<Event>))
        ensures
            forall|s: FillState|
                s.window == window@ ==> (out.0@, events::seen(out.1@)) == #[trigger] begun(s, free),
    {
        let aim: u64 = window.aim();
        let total: u64 = abs_diff(free, aim);
        (Phase::Ensure { total }, one_event(Event::Started { free, aim, total }))
    }

    fn survey(total: u64, entries: &Vec<Entry>) -> (phase: Phase)
        ensures
            phase@ == surveyed(total, entries@),
    {
        let fillers = list_fillers(entries);
        let seq: u64 = match highest_sequence(&fillers) {
            Some(n) => n as u64 + 1,
            None => 0,
        };
        let job = Job { total, seq, stuck: false };
        let mut debris = list_debris(entries);
        if debris.len() == 0 {
            Phase::Marking { job }
        } else {
            let ghost all = debris@;
            let current = debris.remove(0);
            assert(debris@ =~= all.drop_first());
            Phase::Reclaim { job, current, rest: debris }
        }
    }

    fn decide(
        window: &Window,
        mounted: bool,
        job: Job,
        space: Space,
        cancelled: bool,
    ) -> (out: (Phase, Vec<Event>))
        requires
            job.seq <= last_seq() + 1,
        ensures
            forall|s: FillState|
                s.window == window@ && s.mounted == mounted ==> (out.0@, events::seen(out.1@))
                    == #[trigger] decided(
                    s,
                    job,
                    space,
                    cancelled,
                ),
    {
        proof {
            use_type_invariant(window);
        }
        let free: u64 = space.free;
        if !mounted && space.total == 0 {
            return (ending_phase(job, Err(FillError::SpaceUnreported)), no_events());
        }
        if cancelled {
            return (
                ending_phase(job, Ok(Outcome::Cancelled { free })),
                one_event(Event::Finished { free }),
            );
        }
        match next_step(free, *window) {
            Step::Done => (
                ending_phase(job, Ok(Outcome::InWindow { free })),
                one_event(Event::Finished { free }),
            ),
            Step::Overfilled { .. } => (Phase::Choosing { job, free }, no_events()),
            Step::Write(bytes) => {
                if job.seq > u32::MAX as u64 {
                    (ending_phase(job, Err(FillError::NamesExhausted)), no_events())
                } else {
                    let committed: u64 = job.total.saturating_sub(abs_diff(free, window.aim()));
                    (Phase::Writing { job, bytes, committed }, no_events())
                }
            },
        }
    }

    fn overfill(window: &Window, job: Job, free: u64) -> (phase: Phase)
        requires
            free < window@.low,
        ensures
            forall|s: FillState|
                s.window == window@ ==> phase@ == #[trigger] overfilled(s, job, free),
    {
        ending_phase(job, Ok(Outcome::Overfilled { free, excess: window.low() - free }))
    }

    fn pick(window: &Window, job: Job, free: u64, entries: &Vec<Entry>) -> (out: (
        Phase,
        Vec<Event>,
    ))
        requires
            free < window@.low,
        ensures
            forall|s: FillState|
                s.window == window@ ==> (out.0@, events::seen(out.1@)) == #[trigger] picked(
                    s,
                    job,
                    free,
                    entries@,
                ),
    {
        let fillers = list_fillers(entries);
        let sizes = sizes_of(&fillers);
        match next_removal(free, *window, sizes.as_slice()) {
            Removal::Remove(i) => (
                Phase::Removing { job, free, victim: fillers[i].clone() },
                no_events(),
            ),
            Removal::Exhausted => (
                Self::overfill(window, job, free),
                one_event(Event::Finished { free }),
            ),
        }
    }

    /// Hand the fill an answer to what it asked for: the fill as it stands now, and what
    /// the answer made known. An answer to something else changes nothing.
    pub fn reply(self, reply: Reply) -> (out: (Fill, Vec<Event>))
        ensures
            out.0@ == after(self@, reply@),
            events::seen(out.1@) == answered(self@, reply@).1,
    {
        let ghost s = self@;
        let ghost r = reply@;
        proof {
            use_type_invariant(&self);
            if reply is Listing {
                assert(reply->Listing_0@.len() == reply->Listing_0.len());
            }
            law_answers_keep_a_fill_well_formed(s, r);
        }
        let Fill { window, dir, mounted, phase } = self;
        let (next, happened): (Phase, Vec<Event>) = match phase {
            Phase::Start => match reply {
                Reply::Writable => (Phase::FirstMeasure, no_events()),
                Reply::ReadOnly { description } => (
                    Phase::Ended { result: Err(FillError::ReadOnly { description }) },
                    no_events(),
                ),
                Reply::Failed(error) => (Phase::Ended { result: Err(error) }, no_events()),
                _ => (Phase::Start, no_events()),
            },
            Phase::FirstMeasure => match reply {
                Reply::Measured { space, .. } => {
                    if !mounted && space.total == 0 {
                        (Phase::Ended { result: Err(FillError::SpaceUnreported) }, no_events())
                    } else if space.free < window.low() {
                        (Phase::CheckFiller { free: space.free }, no_events())
                    } else {
                        Self::begin(&window, space.free)
                    }
                },
                Reply::Failed(error) => (Phase::Ended { result: Err(error) }, no_events()),
                _ => (Phase::FirstMeasure, no_events()),
            },
            Phase::CheckFiller { free } => match reply {
                Reply::Listing(entries) => {
                    if list_fillers(&entries).len() == 0 {
                        (Phase::LookElsewhere { free }, no_events())
                    } else {
                        Self::begin(&window, free)
                    }
                },
                Reply::Failed(error) => (Phase::Ended { result: Err(error) }, no_events()),
                _ => (Phase::CheckFiller { free }, no_events()),
            },
            Phase::LookElsewhere { free } => match reply {
                Reply::Root(root) => {
                    let others = elsewhere(&find_filler_folders(&root), dir.as_str());
                    let error = FillError::AlreadyBelowWindow {
                        free,
                        low: window.low(),
                        elsewhere: others,
                    };
                    (Phase::Ended { result: Err(error) }, no_events())
                },
                Reply::Failed(error) => (Phase::Ended { result: Err(error) }, no_events()),
                _ => (Phase::LookElsewhere { free }, no_events()),
            },
            Phase::Ensure { total } => match reply {
                Reply::Done => (Phase::Survey { total }, no_events()),
                Reply::Failed(error) => (Phase::Ended { result: Err(error) }, no_events()),
                _ => (Phase::Ensure { total }, no_events()),
            },
            Phase::Survey { total } => match reply {
                Reply::Listing(entries) => (Self::survey(total, &entries), no_events()),
                Reply::Failed(error) => (Phase::Ended { result: Err(error) }, no_events()),
                _ => (Phase::Survey { total }, no_events()),
            },
            Phase::Reclaim { job, current, rest } => match reply {
                Reply::Deleted { gone } => {
                    let job = Job { total: job.total, seq: job.seq, stuck: job.stuck || !gone };
                    let Entry { name, bytes, .. } = current;
                    let happened = one_event(
                        if gone {
                            Event::Deleted { name, bytes, kind: DeletedKind::Interrupted }
                        } else {
                            Event::DeleteRefused { name, bytes }
                        },
                    );
                    let mut rest = rest;
                    if rest.len() == 0 {
                        (Phase::Marking { job }, happened)
                    } else {
                        let ghost all = rest@;
                        let current = rest.remove(0);
                        assert(rest@ =~= all.drop_first());
                        (Phase::Reclaim { job, current, rest }, happened)
                    }
                },
                Reply::Failed(error) => (Phase::Ended { result: Err(error) }, no_events()),
                _ => (Phase::Reclaim { job, current, rest }, no_events()),
            },
            Phase::Marking { job } => match reply {
                Reply::Done => (Phase::Deciding { job }, no_events()),
                Reply::Failed(error) => (Phase::Ended { result: Err(error) }, no_events()),
                _ => (Phase::Marking { job }, no_events()),
            },
            Phase::Deciding { job } => match reply {
                Reply::Measured { space, cancelled } => Self::decide(
                    &window,
                    mounted,
                    job,
                    space,
                    cancelled,
                ),
                Reply::Failed(error) => (ending_phase(job, Err(error)), no_events()),
                _ => (Phase::Deciding { job }, no_events()),
            },
            Phase::Choosing { job, free } => match reply {
                Reply::Listing(entries) => Self::pick(&window, job, free, &entries),
                Reply::Failed(error) => (ending_phase(job, Err(error)), no_events()),
                _ => (Phase::Choosing { job, free }, no_events()),
            },
            Phase::Removing { job, free, victim } => match reply {
                Reply::Deleted { gone } => {
                    let Entry { name, bytes, .. } = victim;
                    if gone {
                        (
                            Phase::Deciding { job },
                            one_event(Event::Deleted { name, bytes, kind: DeletedKind::Filler }),
                        )
                    } else {
                        let mut happened = one_event(Event::DeleteRefused { name, bytes });
                        let ghost first = happened@;
                        happened.push(Event::Finished { free });
                        assert(events::seen(happened@) =~= events::seen(first).push(
                            EventView::Finished { free },
                        ));
                        assert(events::seen(happened@) =~= seq![
                            EventView::DeleteRefused { name: name@, bytes },
                            EventView::Finished { free },
                        ]);
                        (Self::overfill(&window, job, free), happened)
                    }
                },
                Reply::Failed(error) => (ending_phase(job, Err(error)), no_events()),
                _ => (Phase::Removing { job, free, victim }, no_events()),
            },
            Phase::Writing { job, bytes, committed } => match reply {
                Reply::Wrote => {
                    let job = Job { total: job.total, seq: job.seq + 1, stuck: job.stuck };
                    (Phase::Landed { job, bytes }, no_events())
                },
                Reply::Stopped { partial } => (cut_off_phase(job, partial, None), no_events()),
                Reply::Broken { partial, error } => (
                    cut_off_phase(job, partial, Some(error)),
                    no_events(),
                ),
                Reply::Failed(error) => (ending_phase(job, Err(error)), no_events()),
                _ => (Phase::Writing { job, bytes, committed }, no_events()),
            },
            Phase::Discarding { job, partial, cause } => match reply {
                Reply::Done => (discarded_phase(job, cause), no_events()),
                Reply::Failed(_) => (discarded_phase(job, cause), no_events()),
                _ => (Phase::Discarding { job, partial, cause }, no_events()),
            },
            Phase::Landed { job, bytes } => match reply {
                Reply::Measured { space, .. } => {
                    if !mounted && space.total == 0 {
                        (ending_phase(job, Err(FillError::SpaceUnreported)), no_events())
                    } else {
                        let name = filler_name((job.seq - 1) as u32);
                        (
                            Phase::Deciding { job },
                            one_event(Event::Wrote { name, bytes, free: space.free }),
                        )
                    }
                },
                Reply::Failed(error) => (ending_phase(job, Err(error)), no_events()),
                _ => (Phase::Landed { job, bytes }, no_events()),
            },
            Phase::Halting { job } => match reply {
                Reply::Measured { space, .. } => {
                    if !mounted && space.total == 0 {
                        (ending_phase(job, Err(FillError::SpaceUnreported)), no_events())
                    } else {
                        (
                            ending_phase(job, Ok(Outcome::Cancelled { free: space.free })),
                            one_event(Event::Finished { free: space.free }),
                        )
                    }
                },
                Reply::Failed(error) => (ending_phase(job, Err(error)), no_events()),
                _ => (Phase::Halting { job }, no_events()),
            },
            Phase::Closing { result } => match reply {
                Reply::Done => (Phase::Ended { result }, no_events()),
                Reply::Failed(error) => {
                    let result: Result<Outcome, FillError> = match result {
                        Ok(_) => Err(error),
                        Err(first) => Err(first),
                    };
                    (Phase::Ended { result }, no_events())
                },
                _ => (Phase::Closing { result }, no_events()),
            },
            Phase::Ended { result } => (Phase::Ended { result }, no_events()),
        };
        assert(next@ == answered(s, r).0);
        (Fill { window, dir, mounted, phase: next }, happened)
    }
}

} // verus!
