//! Undoing a fill: every filler object goes, then what an interrupted fill left behind,
//! then the marker, and then the folder if nothing else is in it.
//!
//! Debris and marker go together, never the marker alone: the marker is what makes a file
//! under an unrecognized name attributable to a fill, so taking it away while the file
//! stays would strand that space for good.

use crate::events;
use crate::events::{
    no_events, one_event, CleanReport, DeletedKind, Event, EventView, Fault, FillError,
};
use crate::listing;
use crate::listing::{find_fill_dir, list_debris, list_fillers, marker_entry, Entry};
use crate::names;
use crate::names::validate_dir_name;
use crate::order;
use crate::sweep;
use crate::sweep::{count_one_more, deletion, Answer, AnswerView, Ask};
use vstd::prelude::*;

verus! {

/// An entry that is going to be deleted, and as what.
#[derive(Debug)]
pub struct Doomed {
    pub entry: Entry,
    pub kind: DeletedKind,
}

/// What a clean carries along.
#[derive(Debug, Clone, Copy, PartialEq, Eq, Structural)]
pub struct Tally {
    pub removed: usize,
    pub bytes: u64,
    /// Debris would not go, so the marker has to stay.
    pub stuck: bool,
}

/// Where a clean stands.
#[derive(Debug)]
#[allow(inconsistent_fields)]
enum Phase {
    Locating,
    Surveying { folder: Entry },
    Sweeping {
        folder: Entry,
        current: Doomed,
        rest: Vec<Doomed>,
        marker: Option<Entry>,
        tally: Tally,
    },
    Unmarking { folder: Entry, marker: Entry, tally: Tally },
    Checking { folder: Entry, tally: Tally },
    Removing { folder: Entry, tally: Tally },
    Measuring { tally: Tally },
    Ended { result: Result<CleanReport, FillError> },
}

/// Where a clean stands, as its contract speaks of it.
#[allow(inconsistent_fields)]
pub enum PhaseView {
    /// Looking for the folder.
    Locating,
    /// Waiting for the folder's listing.
    Surveying { folder: Entry },
    /// Deleting one entry after another.
    Sweeping {
        folder: Entry,
        current: Doomed,
        rest: Seq<Doomed>,
        marker: Option<Entry>,
        tally: Tally,
    },
    /// Deleting the marker.
    Unmarking { folder: Entry, marker: Entry, tally: Tally },
    /// Looking whether anything is left in the folder.
    Checking { folder: Entry, tally: Tally },
    /// Deleting the empty folder.
    Removing { folder: Entry, tally: Tally },
    /// Waiting for the last reading.
    Measuring { tally: Tally },
    /// Over.
    Ended { result: Result<CleanReport, Fault> },
}

impl View for Phase {
    type V = PhaseView;

    closed spec fn view(&self) -> PhaseView {
        match *self {
            Phase::Locating => PhaseView::Locating,
            Phase::Surveying { folder } => PhaseView::Surveying { folder },
            Phase::Sweeping { folder, current, rest, marker, tally } => PhaseView::Sweeping {
                folder,
                current,
                rest: rest@,
                marker,
                tally,
            },
            Phase::Unmarking { folder, marker, tally } => PhaseView::Unmarking {
                folder,
                marker,
                tally,
            },
            Phase::Checking { folder, tally } => PhaseView::Checking { folder, tally },
            Phase::Removing { folder, tally } => PhaseView::Removing { folder, tally },
            Phase::Measuring { tally } => PhaseView::Measuring { tally },
            Phase::Ended { result } => PhaseView::Ended { result: events::verdict(result) },
        }
    }
}

/// A clean as its contract speaks of it.
pub struct CleanState {
    pub dir: Seq<char>,
    pub phase: PhaseView,
}

/// What a clean in this state asks for.
pub open spec fn ask_of(s: CleanState) -> Ask {
    match s.phase {
        PhaseView::Locating => Ask::ListRoot,
        PhaseView::Surveying { folder } => Ask::List(folder),
        PhaseView::Sweeping { current, .. } => Ask::Delete(current.entry),
        PhaseView::Unmarking { marker, .. } => Ask::Delete(marker),
        PhaseView::Checking { folder, .. } => Ask::List(folder),
        PhaseView::Removing { folder, .. } => Ask::Delete(folder),
        PhaseView::Measuring { .. } => Ask::Measure,
        PhaseView::Ended { .. } => Ask::Finish,
    }
}

/// Nothing has been removed yet.
pub open spec fn nothing() -> Tally {
    Tally { removed: 0, bytes: 0, stuck: false }
}

/// The entries as doomed, all of one kind.
pub open spec fn all_as(entries: Seq<Entry>, kind: DeletedKind) -> Seq<Doomed> {
    entries.map_values(|e: Entry| Doomed { entry: e, kind })
}

/// What goes: the filler, and then the debris.
pub open spec fn doomed_of(listing: Seq<Entry>) -> Seq<Doomed> {
    all_as(listing::fillers_of(listing), DeletedKind::Filler) + all_as(
        listing::debris_of(listing),
        DeletedKind::Interrupted,
    )
}

/// The marker in a listing.
pub open spec fn marker_of(listing: Seq<Entry>) -> Option<Entry>
    decreases listing.len(),
{
    if listing.len() == 0 {
        None
    } else if listing::is_marker(listing[0]) {
        Some(listing[0])
    } else {
        marker_of(listing.drop_first())
    }
}

/// On to the next doomed entry; after the last one, to the marker, unless it stays; and
/// then to the folder.
pub open spec fn onward(
    folder: Entry,
    doomed: Seq<Doomed>,
    marker: Option<Entry>,
    tally: Tally,
) -> PhaseView {
    if doomed.len() > 0 {
        PhaseView::Sweeping { folder, current: doomed[0], rest: doomed.drop_first(), marker, tally }
    } else {
        match marker {
            Some(m) if !tally.stuck => PhaseView::Unmarking { folder, marker: m, tally },
            _ => PhaseView::Checking { folder, tally },
        }
    }
}

/// The tally after the deletion of an entry was carried out.
pub open spec fn tallied(tally: Tally, d: Doomed, gone: bool) -> Tally {
    if gone {
        Tally {
            removed: sweep::one_more(tally.removed),
            bytes: listing::capped(tally.bytes + d.entry.bytes),
            stuck: tally.stuck,
        }
    } else {
        Tally { stuck: tally.stuck || d.kind == DeletedKind::Interrupted, ..tally }
    }
}

/// Where an answer leads, and what it makes known. An answer to something that was not
/// asked changes nothing.
pub open spec fn answered(s: CleanState, answer: AnswerView) -> (PhaseView, Seq<EventView>) {
    match (s.phase, answer) {
        (PhaseView::Locating, AnswerView::Listing(root)) => (
            match listing::folder_named(root, s.dir) {
                Some(folder) => PhaseView::Surveying { folder },
                None => PhaseView::Measuring { tally: nothing() },
            },
            Seq::empty(),
        ),
        (PhaseView::Surveying { folder }, AnswerView::Listing(listing)) => (
            onward(folder, doomed_of(listing), marker_of(listing), nothing()),
            Seq::empty(),
        ),
        (
            PhaseView::Sweeping { folder, current, rest, marker, tally },
            AnswerView::Deleted { gone },
        ) => (
            onward(folder, rest, marker, tallied(tally, current, gone)),
            seq![sweep::deletion_event(current.entry, current.kind, gone)],
        ),
        (PhaseView::Unmarking { folder, tally, .. }, AnswerView::Deleted { .. }) => (
            PhaseView::Checking { folder, tally },
            Seq::empty(),
        ),
        (PhaseView::Checking { folder, tally }, AnswerView::Listing(left)) => (
            if left.len() == 0 {
                PhaseView::Removing { folder, tally }
            } else {
                PhaseView::Measuring { tally }
            },
            Seq::empty(),
        ),
        (PhaseView::Removing { tally, .. }, AnswerView::Deleted { .. }) => (
            PhaseView::Measuring { tally },
            Seq::empty(),
        ),
        (PhaseView::Measuring { tally }, AnswerView::Measured { free }) => (
            PhaseView::Ended {
                result: Ok(CleanReport { free, removed: tally.removed, bytes: tally.bytes }),
            },
            seq![EventView::Finished { free }],
        ),
        (PhaseView::Ended { .. }, _) => (s.phase, Seq::empty()),
        (_, AnswerView::Failed(error)) => (
            PhaseView::Ended { result: Err(error) },
            Seq::empty(),
        ),
        _ => (s.phase, Seq::empty()),
    }
}

/// The state an answer leads to.
pub open spec fn after(s: CleanState, answer: AnswerView) -> CleanState {
    CleanState { phase: answered(s, answer).0, ..s }
}

/// A clean in progress.
#[derive(Debug)]
pub struct Clean {
    dir: String,
    phase: Phase,
}

impl View for Clean {
    type V = CleanState;

    closed spec fn view(&self) -> CleanState {
        CleanState { dir: self.dir@, phase: self.phase@ }
    }
}

fn push_all(out: &mut Vec<Doomed>, entries: &Vec<Entry>, kind: DeletedKind)
    ensures
        final(out)@ == old(out)@ + all_as(entries@, kind),
{
    let mut i: usize = 0;
    while i < entries.len()
        invariant
            i <= entries.len(),
            out@ == old(out)@ + all_as(entries@.take(i as int), kind),
        decreases entries.len() - i,
    {
        out.push(Doomed { entry: entries[i].clone(), kind });
        i += 1;
        assert(out@ =~= old(out)@ + all_as(entries@.take(i as int), kind));
    }
    assert(entries@.take(i as int) =~= entries@);
}

fn doomed(entries: &Vec<Entry>) -> (out: Vec<Doomed>)
    ensures
        out@ == doomed_of(entries@),
{
    let mut out: Vec<Doomed> = Vec::new();
    push_all(&mut out, &list_fillers(entries), DeletedKind::Filler);
    push_all(&mut out, &list_debris(entries), DeletedKind::Interrupted);
    assert(out@ =~= doomed_of(entries@));
    out
}

fn find_marker(entries: &Vec<Entry>) -> (marker: Option<Entry>)
    ensures
        marker == marker_of(entries@),
{
    let mut i: usize = 0;
    assert(entries@.skip(0) =~= entries@);
    while i < entries.len()
        invariant
            i <= entries.len(),
            marker_of(entries@) == marker_of(entries@.skip(i as int)),
        decreases entries.len() - i,
    {
        assert(entries@.skip(i as int).drop_first() =~= entries@.skip(i + 1));
        if marker_entry(&entries[i]) {
            return Some(entries[i].clone());
        }
        i += 1;
    }
    None
}

fn onward_phase(folder: Entry, doomed: Vec<Doomed>, marker: Option<Entry>, tally: Tally) -> (phase:
    Phase)
    ensures
        phase@ == onward(folder, doomed@, marker, tally),
{
    if doomed.len() > 0 {
        let ghost all = doomed@;
        let mut rest = doomed;
        let current = rest.remove(0);
        assert(rest@ =~= all.drop_first());
        return Phase::Sweeping { folder, current, rest, marker, tally };
    }
    match marker {
        Some(marker) => {
            if tally.stuck {
                Phase::Checking { folder, tally }
            } else {
                Phase::Unmarking { folder, marker, tally }
            }
        },
        None => Phase::Checking { folder, tally },
    }
}

impl Clean {
    /// A clean of the folder `dir_name`. A name that can't be used is refused here rather
    /// than left to callers: a guard that each front end has to remember is a guard one
    /// of them will eventually forget.
    pub fn new(dir_name: &str) -> (clean: Result<Clean, FillError>)
        ensures
            match clean {
                Ok(c) => names::usable(dir_name@) && c@ == (CleanState {
                    dir: dir_name@,
                    phase: PhaseView::Locating,
                }),
                Err(e) => !names::usable(dir_name@) && e@ == events::bad_name(dir_name@),
            },
    {
        match validate_dir_name(dir_name) {
            Ok(()) => Ok(Clean { dir: dir_name.to_owned(), phase: Phase::Locating }),
            Err(e) => Err(FillError::BadName(e)),
        }
    }

    /// What has to be done on the device next.
    pub fn ask(&self) -> (ask: Ask)
        ensures
            ask == ask_of(self@),
    {
        match &self.phase {
            Phase::Locating => Ask::ListRoot,
            Phase::Surveying { folder } => Ask::List(folder.clone()),
            Phase::Sweeping { current, .. } => Ask::Delete(current.entry.clone()),
            Phase::Unmarking { marker, .. } => Ask::Delete(marker.clone()),
            Phase::Checking { folder, .. } => Ask::List(folder.clone()),
            Phase::Removing { folder, .. } => Ask::Delete(folder.clone()),
            Phase::Measuring { .. } => Ask::Measure,
            Phase::Ended { .. } => Ask::Finish,
        }
    }

    /// How the clean ended, once [`Ask::Finish`] is what it asks for.
    pub fn result(self) -> (result: Option<Result<CleanReport, FillError>>)
        ensures
            match (result, self@.phase) {
                (Some(r), PhaseView::Ended { result }) => events::verdict(r) == result,
                (None, PhaseView::Ended { result }) => false,
                (Some(r), _) => false,
                (None, _) => true,
            },
    {
        match self.phase {
            Phase::Ended { result } => Some(result),
            _ => None,
        }
    }

    /// Hand the clean an answer to what it asked for: the clean as it stands now, and what
    /// the answer made known. An answer to something else changes nothing.
    pub fn answer(self, answer: Answer) -> (out: (Clean, Vec<Event>))
        ensures
            out.0@ == after(self@, answer@),
            events::seen(out.1@) == answered(self@, answer@).1,
    {
        let Clean { dir, phase } = self;
        let (next, happened): (Phase, Vec<Event>) = match phase {
            Phase::Locating => match answer {
                Answer::Listing(root) => {
                    let next = match find_fill_dir(&root, dir.as_str()) {
                        Some(folder) => Phase::Surveying { folder },
                        None => Phase::Measuring {
                            tally: Tally { removed: 0, bytes: 0, stuck: false },
                        },
                    };
                    (next, no_events())
                },
                Answer::Failed(error) => (Phase::Ended { result: Err(error) }, no_events()),
                _ => (Phase::Locating, no_events()),
            },
            Phase::Surveying { folder } => match answer {
                Answer::Listing(entries) => {
                    let tally = Tally { removed: 0, bytes: 0, stuck: false };
                    (
                        onward_phase(folder, doomed(&entries), find_marker(&entries), tally),
                        no_events(),
                    )
                },
                Answer::Failed(error) => (Phase::Ended { result: Err(error) }, no_events()),
                _ => (Phase::Surveying { folder }, no_events()),
            },
            Phase::Sweeping { folder, current, rest, marker, tally } => match answer {
                Answer::Deleted { gone } => {
                    let event = deletion(&current.entry, current.kind, gone);
                    let tally = if gone {
                        Tally {
                            removed: count_one_more(tally.removed),
                            bytes: tally.bytes.saturating_add(current.entry.bytes),
                            stuck: tally.stuck,
                        }
                    } else {
                        Tally {
                            removed: tally.removed,
                            bytes: tally.bytes,
                            stuck: tally.stuck || current.kind == DeletedKind::Interrupted,
                        }
                    };
                    (onward_phase(folder, rest, marker, tally), one_event(event))
                },
                Answer::Failed(error) => (Phase::Ended { result: Err(error) }, no_events()),
                _ => (Phase::Sweeping { folder, current, rest, marker, tally }, no_events()),
            },
            Phase::Unmarking { folder, marker, tally } => match answer {
                Answer::Deleted { .. } => (Phase::Checking { folder, tally }, no_events()),
                Answer::Failed(error) => (Phase::Ended { result: Err(error) }, no_events()),
                _ => (Phase::Unmarking { folder, marker, tally }, no_events()),
            },
            Phase::Checking { folder, tally } => match answer {
                Answer::Listing(left) => {
                    if left.len() == 0 {
                        (Phase::Removing { folder, tally }, no_events())
                    } else {
                        (Phase::Measuring { tally }, no_events())
                    }
                },
                Answer::Failed(error) => (Phase::Ended { result: Err(error) }, no_events()),
                _ => (Phase::Checking { folder, tally }, no_events()),
            },
            Phase::Removing { folder, tally } => match answer {
                Answer::Deleted { .. } => (Phase::Measuring { tally }, no_events()),
                Answer::Failed(error) => (Phase::Ended { result: Err(error) }, no_events()),
                _ => (Phase::Removing { folder, tally }, no_events()),
            },
            Phase::Measuring { tally } => match answer {
                Answer::Measured { free } => {
                    let report = CleanReport { free, removed: tally.removed, bytes: tally.bytes };
                    (Phase::Ended { result: Ok(report) }, one_event(Event::Finished { free }))
                },
                Answer::Failed(error) => (Phase::Ended { result: Err(error) }, no_events()),
                _ => (Phase::Measuring { tally }, no_events()),
            },
            Phase::Ended { result } => (Phase::Ended { result }, no_events()),
        };
        (Clean { dir, phase: next }, happened)
    }
}

/// Every entry that is doomed may be deleted: filler as filler, and debris of an
/// interrupted fill as that.
pub open spec fn rightly_doomed(d: Doomed) -> bool {
    match d.kind {
        DeletedKind::Filler => listing::is_filler(d.entry),
        DeletedKind::Interrupted => listing::is_foreign(d.entry) && !d.entry.is_dir,
        _ => false,
    }
}

/// What holds of every clean, in whatever state it got to.
pub open spec fn sound(s: CleanState) -> bool {
    match s.phase {
        PhaseView::Surveying { folder } => folder.is_dir && folder.name@ == s.dir,
        PhaseView::Sweeping { folder, current, rest, marker, tally } => {
            &&& folder.is_dir && folder.name@ == s.dir
            &&& rightly_doomed(current)
            &&& forall|i: int| 0 <= i < rest.len() ==> rightly_doomed(#[trigger] rest[i])
            &&& marker matches Some(m) ==> listing::is_marker(m)
            &&& current.kind == DeletedKind::Interrupted ==> marker is Some
            &&& forall|i: int|
                0 <= i < rest.len() && (#[trigger] rest[i]).kind == DeletedKind::Interrupted
                    ==> marker is Some
        },
        PhaseView::Unmarking { folder, marker, tally } => {
            &&& folder.is_dir && folder.name@ == s.dir
            &&& listing::is_marker(marker)
            &&& !tally.stuck
        },
        PhaseView::Checking { folder, .. } => folder.is_dir && folder.name@ == s.dir,
        PhaseView::Removing { folder, .. } => folder.is_dir && folder.name@ == s.dir,
        _ => true,
    }
}

/// A clean deletes only what it may: filler this tool wrote; with the marker there, what
/// an interrupted fill left behind, and the marker itself only if all of that went; and
/// the folder it was asked about, once that was listed empty. Whatever the device
/// answers, this goes on holding.
pub proof fn law_clean_deletes_only_its_own(s: CleanState, answer: AnswerView)
    requires
        sound(s),
    ensures
        sound(after(s, answer)),
        ask_of(s) matches Ask::Delete(e) ==> {
            ||| s.phase is Sweeping && (listing::is_filler(e) || (s.phase->Sweeping_marker is Some
                && listing::is_foreign(e) && !e.is_dir))
            ||| s.phase is Unmarking && listing::is_marker(e) && !s.phase->Unmarking_tally.stuck
            ||| s.phase is Removing && e.is_dir && e.name@ == s.dir
        },
        after(s, answer).phase is Removing && !(s.phase is Removing) ==> (answer matches AnswerView::Listing(
            left,
        ) && left.len() == 0),
{
    match (s.phase, answer) {
        (PhaseView::Locating, AnswerView::Listing(root)) => {
            lemma_folder_named(root, s.dir);
        },
        (PhaseView::Surveying { folder }, AnswerView::Listing(l)) => {
            lemma_doomed(l);
            let doomed = doomed_of(l);
            if doomed.len() > 0 {
                assert forall|i: int| 0 <= i < doomed.drop_first().len() implies rightly_doomed(
                    #[trigger] doomed.drop_first()[i],
                ) by {
                    assert(doomed.drop_first()[i] == doomed[i + 1]);
                }
                assert forall|i: int|
                    0 <= i < doomed.drop_first().len() && (#[trigger] doomed.drop_first()[i]).kind
                        == DeletedKind::Interrupted implies marker_of(l) is Some by {
                    assert(doomed.drop_first()[i] == doomed[i + 1]);
                }
            }
        },
        (PhaseView::Sweeping { rest, marker, .. }, AnswerView::Deleted { gone }) => {
            if rest.len() > 0 {
                assert forall|i: int| 0 <= i < rest.drop_first().len() implies rightly_doomed(
                    #[trigger] rest.drop_first()[i],
                ) by {
                    assert(rest.drop_first()[i] == rest[i + 1]);
                }
                assert forall|i: int|
                    0 <= i < rest.drop_first().len() && (#[trigger] rest.drop_first()[i]).kind
                        == DeletedKind::Interrupted implies marker is Some by {
                    assert(rest.drop_first()[i] == rest[i + 1]);
                }
            }
        },
        _ => {},
    }
}

proof fn lemma_folder_named(root: Seq<Entry>, name: Seq<char>)
    ensures
        listing::folder_named(root, name) matches Some(d) ==> d.is_dir && d.name@ == name,
    decreases root.len(),
{
    if root.len() > 0 {
        lemma_folder_named(root.drop_first(), name);
    }
}

/// The marker is found exactly where the listing holds one.
pub proof fn lemma_marker_of(l: Seq<Entry>)
    ensures
        marker_of(l) is Some <==> listing::holds_marker(l),
        marker_of(l) matches Some(m) ==> listing::is_marker(m),
    decreases l.len(),
{
    if l.len() > 0 {
        lemma_marker_of(l.drop_first());
        if listing::is_marker(l[0]) {
        } else if listing::holds_marker(l) {
            let i = choose|i: int| 0 <= i < l.len() && listing::is_marker(#[trigger] l[i]);
            assert(l.drop_first()[i - 1] == l[i]);
        } else {
            assert forall|i: int| 0 <= i < l.drop_first().len() implies !listing::is_marker(
                #[trigger] l.drop_first()[i],
            ) by {
                assert(l.drop_first()[i] == l[i + 1]);
            }
        }
    }
}

proof fn lemma_doomed(l: Seq<Entry>)
    ensures
        forall|i: int| 0 <= i < doomed_of(l).len() ==> rightly_doomed(#[trigger] doomed_of(l)[i]),
        forall|i: int|
            0 <= i < doomed_of(l).len() && (#[trigger] doomed_of(l)[i]).kind
                == DeletedKind::Interrupted ==> marker_of(l) is Some,
        marker_of(l) matches Some(m) ==> listing::is_marker(m),
{
    lemma_marker_of(l);
    let fillers = listing::fillers_of(l);
    let debris = listing::debris_of(l);
    let doomed = doomed_of(l);
    assert forall|i: int| 0 <= i < doomed.len() implies rightly_doomed(#[trigger] doomed[i]) && (
    doomed[i].kind == DeletedKind::Interrupted ==> marker_of(l) is Some) by {
        if i < fillers.len() {
            assert(doomed[i].entry == fillers[i]);
            assert(fillers.contains(fillers[i]));
            listing::lemma_fillers_are_filler(l, fillers[i]);
        } else {
            let j = i - fillers.len();
            assert(doomed[i].entry == debris[j]);
            assert(debris.contains(debris[j]));
            listing::lemma_filter_holds(
                l,
                |e: Entry| listing::is_foreign(e) && !e.is_dir,
                debris[j],
            );
        }
    }
}

/// The device carries out every deletion of a sweep: the answers to it, one per entry.
pub open spec fn swept(s: CleanState, n: nat) -> (CleanState, Seq<EventView>)
    decreases n,
{
    if n == 0 {
        (s, Seq::empty())
    } else {
        let (before, events) = swept(s, (n - 1) as nat);
        let done = AnswerView::Deleted { gone: true };
        (after(before, done), events + answered(before, done).1)
    }
}

/// What the first `n` of the doomed entries hold.
pub open spec fn doomed_bytes(doomed: Seq<Doomed>, n: nat) -> int
    decreases n,
{
    if n == 0 {
        0
    } else {
        doomed_bytes(doomed, (n - 1) as nat) + doomed[n - 1].entry.bytes
    }
}

/// A clean removes all of it: on a device that carries out every deletion, each doomed
/// entry is deleted and reported exactly once, in order, and the tally counts all of
/// them.
pub proof fn law_clean_removes_everything_doomed(
    dir: Seq<char>,
    folder: Entry,
    l: Seq<Entry>,
    n: nat,
)
    requires
        n <= doomed_of(l).len() <= usize::MAX,
    ensures
        ({
            let doomed = doomed_of(l);
            let start = after(
                CleanState { dir, phase: PhaseView::Surveying { folder } },
                AnswerView::Listing(l),
            );
            let (end, events) = swept(start, n);
            &&& events == Seq::new(
                n,
                |i: int| sweep::deletion_event(doomed[i].entry, doomed[i].kind, true),
            )
            &&& end == (CleanState {
                dir,
                phase: onward(
                    folder,
                    doomed.skip(n as int),
                    marker_of(l),
                    Tally {
                        removed: n as usize,
                        bytes: listing::capped(doomed_bytes(doomed, n)),
                        stuck: false,
                    },
                ),
            })
        }),
    decreases n,
{
    let doomed = doomed_of(l);
    if n == 0 {
        assert(doomed.skip(0) =~= doomed);
        assert(Seq::new(
            n,
            |i: int| sweep::deletion_event(doomed[i].entry, doomed[i].kind, true),
        ) =~= Seq::<EventView>::empty());
    } else {
        let m = (n - 1) as nat;
        law_clean_removes_everything_doomed(dir, folder, l, m);
        lemma_doomed_bytes(doomed, m);
        assert(doomed.skip(m as int)[0] == doomed[m as int]);
        assert(doomed.skip(m as int).drop_first() =~= doomed.skip(n as int));
        let start = after(
            CleanState { dir, phase: PhaseView::Surveying { folder } },
            AnswerView::Listing(l),
        );
        assert(swept(start, n).1 =~= Seq::new(
            n,
            |i: int| sweep::deletion_event(doomed[i].entry, doomed[i].kind, true),
        ));
    }
}

/// A clean undoes a fill: of a folder that holds nothing but what a fill leaves, on a
/// device that carries out what it is asked, every object is deleted, each exactly once,
/// then the folder itself, and the report counts all of them and all they held.
pub proof fn law_clean_undoes_a_fill(
    dir: Seq<char>,
    root: Seq<Entry>,
    folder: Entry,
    l: Seq<Entry>,
    free: u64,
)
    requires
        listing::folder_named(root, dir) == Some(folder),
        forall|i: int| 0 <= i < l.len() ==> listing::is_filler(#[trigger] l[i]),
        l.len() <= usize::MAX,
    ensures
        ({
            let doomed = doomed_of(l);
            let found = after(
                CleanState { dir, phase: PhaseView::Locating },
                AnswerView::Listing(root),
            );
            let cleared = swept(after(found, AnswerView::Listing(l)), doomed.len()).0;
            let empty = after(cleared, AnswerView::Listing(Seq::empty()));
            let removed = after(empty, AnswerView::Deleted { gone: true });
            let end = after(removed, AnswerView::Measured { free });
            &&& doomed.map_values(|d: Doomed| d.entry).to_multiset() == l.to_multiset()
            &&& ask_of(found) == Ask::List(folder)
            &&& ask_of(empty) == Ask::Delete(folder)
            &&& end.phase == (PhaseView::Ended {
                result: Ok(
                    CleanReport {
                        free,
                        removed: l.len() as usize,
                        bytes: listing::capped(listing::total_bytes(l)),
                    },
                ),
            })
        }),
{
    let doomed = doomed_of(l);
    let fillers = listing::fillers_of(l);
    let debris = listing::debris_of(l);
    lemma_only_filler(l);
    lemma_marker_of(l);
    assert(doomed.map_values(|d: Doomed| d.entry) =~= fillers);
    listing::law_listing_partition(l);
    order::law_sorted(l);
    law_clean_removes_everything_doomed(dir, folder, l, doomed.len());
    assert(doomed.skip(doomed.len() as int) =~= Seq::<Doomed>::empty());
    lemma_doomed_total(doomed, fillers, doomed.len());
    assert(fillers.take(fillers.len() as int) =~= fillers);
    listing::lemma_total_of_permutation(fillers, l);
}

/// In a listing of nothing but filler, all of it is filler, and there is neither debris
/// nor a marker.
pub proof fn lemma_only_filler(l: Seq<Entry>)
    requires
        forall|i: int| 0 <= i < l.len() ==> listing::is_filler(#[trigger] l[i]),
    ensures
        listing::fillers_of(l) == order::sorted(l),
        listing::fillers_of(l).len() == l.len(),
        listing::debris_of(l).len() == 0,
        !listing::holds_marker(l),
{
    assert forall|i: int| 0 <= i < l.len() implies !listing::is_marker(#[trigger] l[i]) by {
        names::law_names_have_one_meaning(l[i].name@);
    }
    listing::lemma_filter_keeps_all(l);
    order::law_sorted(l);
}

proof fn lemma_doomed_total(doomed: Seq<Doomed>, entries: Seq<Entry>, n: nat)
    requires
        n <= doomed.len(),
        doomed.len() == entries.len(),
        forall|i: int| 0 <= i < doomed.len() ==> (#[trigger] doomed[i]).entry == entries[i],
    ensures
        doomed_bytes(doomed, n) == listing::total_bytes(entries.take(n as int)),
    decreases n,
{
    if n > 0 {
        lemma_doomed_total(doomed, entries, (n - 1) as nat);
        assert(entries.take(n as int).drop_last() =~= entries.take(n - 1));
        assert(doomed[n - 1].entry == entries[n - 1]);
    } else {
        assert(entries.take(0) =~= Seq::<Entry>::empty());
    }
}

proof fn lemma_doomed_bytes(doomed: Seq<Doomed>, n: nat)
    ensures
        doomed_bytes(doomed, n) >= 0,
    decreases n,
{
    if n > 0 {
        lemma_doomed_bytes(doomed, (n - 1) as nat);
    }
}

} // verus!
