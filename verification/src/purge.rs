//! Emptying the filler folder completely, including content this tool did not write.
//!
//! The only operation that removes device content nobody can prove this tool created. It
//! exists because a caller asked to take the folder over wholesale, and nothing reaches
//! it implicitly. With a confirmation, the folder is emptied only if what is in it is
//! still what the confirmation was given for.
//!
//! Depth first, because MTP will not delete a folder that still has children; the folder
//! itself stays.

use crate::events;
use crate::events::{no_events, one_event, DeletedKind, Event, EventView, Fault, FillError};
use crate::listing;
use crate::listing::{filler_entry, find_fill_dir, Entry};
use crate::names;
use crate::names::validate_dir_name;
use crate::sweep;
use crate::sweep::{count_one_more, deletion, Answer, AnswerView, Ask};
use crate::text::same;
use crate::token;
use crate::token::current_overwrite_token;
use vstd::prelude::*;

verus! {

/// A folder on the way from the filler folder down to where the walk is: the folder, and
/// what is left to visit of its contents.
#[derive(Debug)]
pub struct Level {
    pub owner: Entry,
    pub rest: Vec<Entry>,
}

/// A [`Level`] as contracts speak of it.
pub struct LevelView {
    pub owner: Entry,
    pub rest: Seq<Entry>,
}

impl View for Level {
    type V = LevelView;

    open spec fn view(&self) -> LevelView {
        LevelView { owner: self.owner, rest: self.rest@ }
    }
}

spec fn levels_of(levels: Seq<Level>) -> Seq<LevelView> {
    levels.map_values(|l: Level| l@)
}

/// Where a purge stands.
#[derive(Debug)]
enum Phase {
    Locating,
    Confirming { folder: Entry },
    Opening { levels: Vec<Level>, folder: Entry, removed: usize },
    Deleting { levels: Vec<Level>, entry: Entry, removed: usize },
    Measuring { removed: usize },
    Ended { result: Result<usize, FillError> },
}

/// Where a purge stands, as its contract speaks of it.
pub enum PhaseView {
    /// Looking for the folder.
    Locating,
    /// Waiting for the listing that the confirmation is held against.
    Confirming { folder: Entry },
    /// Waiting for the listing of a folder. The levels above it come first to last.
    Opening { levels: Seq<LevelView>, folder: Entry, removed: usize },
    /// Deleting an entry.
    Deleting { levels: Seq<LevelView>, entry: Entry, removed: usize },
    /// Waiting for the last reading.
    Measuring { removed: usize },
    /// Over.
    Ended { result: Result<usize, Fault> },
}

impl View for Phase {
    type V = PhaseView;

    closed spec fn view(&self) -> PhaseView {
        match *self {
            Phase::Locating => PhaseView::Locating,
            Phase::Confirming { folder } => PhaseView::Confirming { folder },
            Phase::Opening { levels, folder, removed } => PhaseView::Opening {
                levels: levels_of(levels@),
                folder,
                removed,
            },
            Phase::Deleting { levels, entry, removed } => PhaseView::Deleting {
                levels: levels_of(levels@),
                entry,
                removed,
            },
            Phase::Measuring { removed } => PhaseView::Measuring { removed },
            Phase::Ended { result } => PhaseView::Ended { result: events::verdict(result) },
        }
    }
}

/// A purge as its contract speaks of it.
pub struct PurgeState {
    pub dir: Seq<char>,
    /// The token of the contents that the caller was shown, where there has to be one.
    pub confirmed: Option<Seq<char>>,
    pub phase: PhaseView,
}

/// What a purge in this state asks for.
pub open spec fn ask_of(s: PurgeState) -> Ask {
    match s.phase {
        PhaseView::Locating => Ask::ListRoot,
        PhaseView::Confirming { folder } => Ask::List(folder),
        PhaseView::Opening { folder, .. } => Ask::List(folder),
        PhaseView::Deleting { entry, .. } => Ask::Delete(entry),
        PhaseView::Measuring { .. } => Ask::Measure,
        PhaseView::Ended { .. } => Ask::Finish,
    }
}

/// What the deletion of an entry is reported as. A purge removes both filler and the
/// folder's other contents.
pub open spec fn kind_of(e: Entry) -> DeletedKind {
    if listing::is_filler(e) {
        DeletedKind::Filler
    } else {
        DeletedKind::Foreign
    }
}

/// On to what comes next: the next entry of the deepest level, a folder being emptied
/// before it is deleted; after the last entry of a level, its folder; and after the last
/// entry of the filler folder, the end.
pub open spec fn onward(levels: Seq<LevelView>, removed: usize) -> PhaseView {
    if levels.len() == 0 {
        PhaseView::Measuring { removed }
    } else {
        let top = levels.last();
        if top.rest.len() > 0 {
            let next = top.rest[0];
            let levels = levels.drop_last().push(
                LevelView { owner: top.owner, rest: top.rest.drop_first() },
            );
            if next.is_dir {
                PhaseView::Opening { levels, folder: next, removed }
            } else {
                PhaseView::Deleting { levels, entry: next, removed }
            }
        } else if levels.len() == 1 {
            PhaseView::Measuring { removed }
        } else {
            PhaseView::Deleting { levels: levels.drop_last(), entry: top.owner, removed }
        }
    }
}

/// Where an answer leads, and what it makes known. An answer to something that was not
/// asked changes nothing.
pub open spec fn answered(s: PurgeState, answer: AnswerView) -> (PhaseView, Seq<EventView>) {
    match (s.phase, answer) {
        (PhaseView::Locating, AnswerView::Listing(root)) => (
            match (listing::folder_named(root, s.dir), s.confirmed) {
                (Some(folder), Some(_)) => PhaseView::Confirming { folder },
                (Some(folder), None) => PhaseView::Opening {
                    levels: Seq::empty(),
                    folder,
                    removed: 0,
                },
                (None, Some(_)) => PhaseView::Ended { result: Err(Fault::StaleConfirmation) },
                (None, None) => PhaseView::Ended { result: Ok(0) },
            },
            Seq::empty(),
        ),
        (PhaseView::Confirming { folder }, AnswerView::Listing(listing)) => (
            if s.confirmed is Some && token::folder_token(s.dir, listing) == s.confirmed {
                PhaseView::Opening { levels: Seq::empty(), folder, removed: 0 }
            } else {
                PhaseView::Ended { result: Err(Fault::StaleConfirmation) }
            },
            Seq::empty(),
        ),
        (PhaseView::Opening { levels, folder, removed }, AnswerView::Listing(listing)) => (
            onward(levels.push(LevelView { owner: folder, rest: listing }), removed),
            Seq::empty(),
        ),
        (PhaseView::Deleting { levels, entry, removed }, AnswerView::Deleted { gone }) => (
            onward(
                levels,
                if gone {
                    sweep::one_more(removed)
                } else {
                    removed
                },
            ),
            seq![sweep::deletion_event(entry, kind_of(entry), gone)],
        ),
        (PhaseView::Measuring { removed }, AnswerView::Measured { free }) => (
            PhaseView::Ended { result: Ok(removed) },
            seq![EventView::Finished { free }],
        ),
        (PhaseView::Ended { .. }, _) => (s.phase, Seq::empty()),
        (_, AnswerView::Failed(error)) => (
            PhaseView::Ended { result: Err(error) },
            Seq::empty(),
        ),
        _ => (s.phase, Seq::empty()),
    }
}

/// The state an answer leads to.
pub open spec fn after(s: PurgeState, answer: AnswerView) -> PurgeState {
    PurgeState { phase: answered(s, answer).0, ..s }
}

/// A purge in progress.
#[derive(Debug)]
pub struct Purge {
    dir: String,
    confirmed: Option<String>,
    phase: Phase,
}

impl View for Purge {
    type V = PurgeState;

    closed spec fn view(&self) -> PurgeState {
        PurgeState {
            dir: self.dir@,
            confirmed: match self.confirmed {
                Some(t) => Some(t@),
                None => None,
            },
            phase: self.phase@,
        }
    }
}

fn onward_phase(levels: Vec<Level>, removed: usize) -> (phase: Phase)
    ensures
        phase@ == onward(levels_of(levels@), removed),
{
    let ghost all = levels@;
    let mut levels = levels;
    match levels.pop() {
        None => {
            assert(levels_of(all) =~= Seq::<LevelView>::empty());
            Phase::Measuring { removed }
        },
        Some(top) => {
            assert(levels_of(all).last() == top@);
            assert(levels_of(levels@) =~= levels_of(all).drop_last());
            let Level { owner, rest } = top;
            let mut rest = rest;
            if rest.len() > 0 {
                let ghost before = rest@;
                let next = rest.remove(0);
                assert(rest@ =~= before.drop_first());
                let ghost above = levels@;
                levels.push(Level { owner, rest });
                assert(levels_of(levels@) =~= levels_of(above).push(
                    LevelView { owner, rest: before.drop_first() },
                ));
                if next.is_dir {
                    Phase::Opening { levels, folder: next, removed }
                } else {
                    Phase::Deleting { levels, entry: next, removed }
                }
            } else if levels.len() == 0 {
                Phase::Measuring { removed }
            } else {
                Phase::Deleting { levels, entry: owner, removed }
            }
        },
    }
}

impl Purge {
    fn start(dir_name: &str, confirmed: Option<String>) -> (purge: Result<Purge, FillError>)
        ensures
            match purge {
                Ok(p) => names::usable(dir_name@) && p@ == (PurgeState {
                    dir: dir_name@,
                    confirmed: match confirmed {
                        Some(t) => Some(t@),
                        None => None,
                    },
                    phase: PhaseView::Locating,
                }),
                Err(e) => !names::usable(dir_name@) && e@ == events::bad_name(dir_name@),
            },
    {
        match validate_dir_name(dir_name) {
            Ok(()) => Ok(Purge { dir: dir_name.to_owned(), confirmed, phase: Phase::Locating }),
            Err(e) => Err(FillError::BadName(e)),
        }
    }

    /// A purge of the folder `dir_name`, whatever is in it.
    pub fn new(dir_name: &str) -> (purge: Result<Purge, FillError>)
        ensures
            match purge {
                Ok(p) => names::usable(dir_name@) && p@ == (PurgeState {
                    dir: dir_name@,
                    confirmed: None,
                    phase: PhaseView::Locating,
                }),
                Err(e) => !names::usable(dir_name@) && e@ == events::bad_name(dir_name@),
            },
    {
        Self::start(dir_name, None)
    }

    /// A purge of the folder `dir_name`, but only if what is in it is still what the
    /// caller was shown: `confirmed` is the token of that.
    pub fn confirmed(dir_name: &str, confirmed: &str) -> (purge: Result<Purge, FillError>)
        ensures
            match purge {
                Ok(p) => names::usable(dir_name@) && p@ == (PurgeState {
                    dir: dir_name@,
                    confirmed: Some(confirmed@),
                    phase: PhaseView::Locating,
                }),
                Err(e) => !names::usable(dir_name@) && e@ == events::bad_name(dir_name@),
            },
    {
        Self::start(dir_name, Some(confirmed.to_owned()))
    }

    /// What has to be done on the device next.
    pub fn ask(&self) -> (ask: Ask)
        ensures
            ask == ask_of(self@),
    {
        match &self.phase {
            Phase::Locating => Ask::ListRoot,
            Phase::Confirming { folder } => Ask::List(folder.clone()),
            Phase::Opening { folder, .. } => Ask::List(folder.clone()),
            Phase::Deleting { entry, .. } => Ask::Delete(entry.clone()),
            Phase::Measuring { .. } => Ask::Measure,
            Phase::Ended { .. } => Ask::Finish,
        }
    }

    /// How the purge ended, once [`Ask::Finish`] is what it asks for: the number of
    /// entries that were deleted.
    pub fn result(self) -> (result: Option<Result<usize, FillError>>)
        ensures
            match (result, self@.phase) {
                (Some(r), PhaseView::Ended { result }) => events::verdict(r) == result,
                (None, PhaseView::Ended { result }) => false,
                (Some(r), _) => false,
                (None, _) => true,
            },
    {
        match self.phase {
            Phase::Ended { result } => Some(result),
            _ => None,
        }
    }

    /// Hand the purge an answer to what it asked for: the purge as it stands now, and what
    /// the answer made known. An answer to something else changes nothing.
    pub fn answer(self, answer: Answer) -> (out: (Purge, Vec<Event>))
        ensures
            out.0@ == after(self@, answer@),
            events::seen(out.1@) == answered(self@, answer@).1,
    {
        let Purge { dir, confirmed, phase } = self;
        let (next, happened): (Phase, Vec<Event>) = match phase {
            Phase::Locating => match answer {
                Answer::Listing(root) => {
                    let next = match find_fill_dir(&root, dir.as_str()) {
                        Some(folder) => {
                            if confirmed.is_some() {
                                Phase::Confirming { folder }
                            } else {
                                let levels: Vec<Level> = Vec::new();
                                assert(levels_of(levels@) =~= Seq::<LevelView>::empty());
                                Phase::Opening { levels, folder, removed: 0 }
                            }
                        },
                        None => {
                            if confirmed.is_some() {
                                Phase::Ended { result: Err(FillError::StaleConfirmation) }
                            } else {
                                Phase::Ended { result: Ok(0) }
                            }
                        },
                    };
                    (next, no_events())
                },
                Answer::Failed(error) => (Phase::Ended { result: Err(error) }, no_events()),
                _ => (Phase::Locating, no_events()),
            },
            Phase::Confirming { folder } => match answer {
                Answer::Listing(entries) => {
                    let current = current_overwrite_token(dir.as_str(), &entries);
                    let holds: bool = match (&current, &confirmed) {
                        (Some(now), Some(then)) => same(now.as_str(), then.as_str()),
                        _ => false,
                    };
                    if holds {
                        let levels: Vec<Level> = Vec::new();
                        assert(levels_of(levels@) =~= Seq::<LevelView>::empty());
                        (Phase::Opening { levels, folder, removed: 0 }, no_events())
                    } else {
                        (
                            Phase::Ended { result: Err(FillError::StaleConfirmation) },
                            no_events(),
                        )
                    }
                },
                Answer::Failed(error) => (Phase::Ended { result: Err(error) }, no_events()),
                _ => (Phase::Confirming { folder }, no_events()),
            },
            Phase::Opening { levels, folder, removed } => match answer {
                Answer::Listing(entries) => {
                    let mut levels = levels;
                    let ghost above = levels@;
                    levels.push(Level { owner: folder, rest: entries });
                    assert(levels_of(levels@) =~= levels_of(above).push(
                        LevelView { owner: folder, rest: entries@ },
                    ));
                    (onward_phase(levels, removed), no_events())
                },
                Answer::Failed(error) => (Phase::Ended { result: Err(error) }, no_events()),
                _ => (Phase::Opening { levels, folder, removed }, no_events()),
            },
            Phase::Deleting { levels, entry, removed } => match answer {
                Answer::Deleted { gone } => {
                    let kind = if filler_entry(&entry) {
                        DeletedKind::Filler
                    } else {
                        DeletedKind::Foreign
                    };
                    let event = deletion(&entry, kind, gone);
                    let removed: usize = if gone {
                        count_one_more(removed)
                    } else {
                        removed
                    };
                    (onward_phase(levels, removed), one_event(event))
                },
                Answer::Failed(error) => (Phase::Ended { result: Err(error) }, no_events()),
                _ => (Phase::Deleting { levels, entry, removed }, no_events()),
            },
            Phase::Measuring { removed } => match answer {
                Answer::Measured { free } => (
                    Phase::Ended { result: Ok(removed) },
                    one_event(Event::Finished { free }),
                ),
                Answer::Failed(error) => (Phase::Ended { result: Err(error) }, no_events()),
                _ => (Phase::Measuring { removed }, no_events()),
            },
            Phase::Ended { result } => (Phase::Ended { result }, no_events()),
        };
        (Purge { dir, confirmed, phase: next }, happened)
    }
}

/// The purge has not deleted anything yet, nor started on the folder's contents.
pub open spec fn not_begun(phase: PhaseView) -> bool {
    phase is Locating || phase is Confirming
}

/// A confirmed purge is refused unless the folder holds exactly what was confirmed: its
/// walk begins only with a listing whose token is the confirmed one, and a folder that is
/// gone, or that holds nothing foreign, is no match for any token.
pub proof fn law_purge_needs_the_confirmation_to_hold(s: PurgeState, answer: AnswerView)
    requires
        not_begun(s.phase),
        s.confirmed is Some,
    ensures
        !not_begun(after(s, answer).phase) && !(after(s, answer).phase is Ended) ==> {
            &&& s.phase is Confirming
            &&& answer matches AnswerView::Listing(l) && token::folder_token(s.dir, l)
                == s.confirmed && listing::foreign_of(l).len() > 0
        },
        !(ask_of(s) is Delete),
        s.phase is Confirming && (answer matches AnswerView::Listing(l) && token::folder_token(
            s.dir,
            l,
        ) != s.confirmed) ==> after(s, answer).phase == (PhaseView::Ended {
            result: Err(Fault::StaleConfirmation),
        }),
{
}

/// What a device holds: an entry, and what is in it.
pub struct Tree {
    pub entry: Entry,
    pub kids: Seq<Tree>,
}

/// Only folders hold anything.
pub open spec fn well_grown(trees: Seq<Tree>) -> bool
    decreases trees,
{
    forall|i: int|
        #![trigger trees[i]]
        0 <= i < trees.len() ==> (trees[i].kids.len() > 0 ==> trees[i].entry.is_dir) && well_grown(
            trees[i].kids,
        )
}

/// The listing of a folder that holds `trees`.
pub open spec fn listing_of(trees: Seq<Tree>) -> Seq<Entry> {
    trees.map_values(|t: Tree| t.entry)
}

/// Everything in `trees`, what a folder holds before the folder.
pub open spec fn bottom_up(trees: Seq<Tree>) -> Seq<Entry>
    decreases trees, trees.len(),
{
    if trees.len() == 0 {
        Seq::empty()
    } else {
        bottom_up(trees.drop_last()) + bottom_up(trees.last().kids).push(trees.last().entry)
    }
}

/// The answers of a device that holds `trees` and carries out every deletion, from the
/// first entry of their listing to the last.
pub open spec fn answers_for(trees: Seq<Tree>) -> Seq<AnswerView>
    decreases trees, trees.len(),
{
    if trees.len() == 0 {
        Seq::empty()
    } else {
        let t = trees.last();
        let done = AnswerView::Deleted { gone: true };
        answers_for(trees.drop_last()) + if t.entry.is_dir {
            (seq![AnswerView::Listing(listing_of(t.kids))] + answers_for(t.kids)).push(done)
        } else {
            seq![done]
        }
    }
}

/// The state after a sequence of answers, and what they made known.
pub open spec fn run(s: PurgeState, answers: Seq<AnswerView>) -> (PurgeState, Seq<EventView>)
    decreases answers.len(),
{
    if answers.len() == 0 {
        (s, Seq::empty())
    } else {
        let (before, events) = run(s, answers.drop_last());
        (after(before, answers.last()), events + answered(before, answers.last()).1)
    }
}

/// The events of deleting `entries`, one after another.
pub open spec fn deletions(entries: Seq<Entry>) -> Seq<EventView> {
    entries.map_values(|e: Entry| sweep::deletion_event(e, kind_of(e), true))
}

proof fn lemma_run_continues(s: PurgeState, a: Seq<AnswerView>, b: Seq<AnswerView>)
    ensures
        run(s, a + b) == (run(run(s, a).0, b).0, run(s, a).1 + run(run(s, a).0, b).1),
    decreases b.len(),
{
    if b.len() == 0 {
        assert(a + b =~= a);
        assert(run(s, a).1 + Seq::<EventView>::empty() =~= run(s, a).1);
    } else {
        lemma_run_continues(s, a, b.drop_last());
        assert((a + b).drop_last() =~= a + b.drop_last());
        assert(run(s, a + b).1 =~= run(s, a).1 + run(run(s, a).0, b).1);
    }
}

proof fn lemma_run_one(s: PurgeState, a: AnswerView)
    ensures
        run(s, seq![a]) == (after(s, a), answered(s, a).1),
{
    reveal_with_fuel(run, 2);
    assert(seq![a].drop_last() =~= Seq::<AnswerView>::empty());
    assert(Seq::<EventView>::empty() + answered(s, a).1 =~= answered(s, a).1);
}

/// The levels with `trees` and then `more` left to visit on the deepest one.
spec fn facing(above: Seq<LevelView>, owner: Entry, trees: Seq<Tree>, more: Seq<Entry>) -> Seq<
    LevelView,
> {
    above.push(LevelView { owner, rest: listing_of(trees) + more })
}

/// Deleting one entry that is no folder.
proof fn lemma_delete_file(s: PurgeState, left: Seq<LevelView>, e: Entry, removed: usize)
    requires
        s.phase == (PhaseView::Deleting { levels: left, entry: e, removed }),
        removed < usize::MAX,
    ensures
        run(s, seq![AnswerView::Deleted { gone: true }]) == (
            PurgeState { phase: onward(left, (removed + 1) as usize), ..s },
            deletions(seq![e]),
        ),
{
    lemma_run_one(s, AnswerView::Deleted { gone: true });
    assert(deletions(seq![e]) =~= seq![sweep::deletion_event(e, kind_of(e), true)]);
}

/// Opening a folder, deleting what is in it, and then the folder.
proof fn lemma_delete_folder(s: PurgeState, left: Seq<LevelView>, t: Tree, removed: usize)
    requires
        s.phase == (PhaseView::Opening { levels: left, folder: t.entry, removed }),
        removed + bottom_up(t.kids).len() < usize::MAX,
        run(after(s, AnswerView::Listing(listing_of(t.kids))), answers_for(t.kids)) == (
            PurgeState {
                phase: onward(
                    facing(left, t.entry, Seq::empty(), Seq::empty()),
                    (removed + bottom_up(t.kids).len()) as usize,
                ),
                ..s
            },
            deletions(bottom_up(t.kids)),
        ),
        left.len() > 0,
    ensures
        run(
            s,
            (seq![AnswerView::Listing(listing_of(t.kids))] + answers_for(t.kids)).push(
                AnswerView::Deleted { gone: true },
            ),
        ) == (
            PurgeState {
                phase: onward(left, (removed + bottom_up(t.kids).len() + 1) as usize),
                ..s
            },
            deletions(bottom_up(t.kids).push(t.entry)),
        ),
{
    let opened = AnswerView::Listing(listing_of(t.kids));
    let done = AnswerView::Deleted { gone: true };
    let inside = after(s, opened);
    let emptied = run(inside, answers_for(t.kids)).0;
    let counted = (removed + bottom_up(t.kids).len()) as usize;
    let bare = facing(left, t.entry, Seq::empty(), Seq::empty());
    assert(bare.last().rest =~= Seq::<Entry>::empty());
    assert(bare.drop_last() =~= left);
    assert(bare.len() > 1);
    assert(emptied.phase == (PhaseView::Deleting {
        levels: left,
        entry: t.entry,
        removed: counted,
    }));
    lemma_run_one(s, opened);
    lemma_delete_file(emptied, left, t.entry, counted);
    lemma_run_continues(s, seq![opened], answers_for(t.kids));
    lemma_run_continues(s, seq![opened] + answers_for(t.kids), seq![done]);
    assert((seq![opened] + answers_for(t.kids)).push(done) =~= seq![opened] + answers_for(t.kids)
        + seq![done]);
    assert(Seq::<EventView>::empty() + deletions(bottom_up(t.kids)) + deletions(seq![t.entry])
        =~= deletions(bottom_up(t.kids).push(t.entry)));
}

/// Taking the next entry off the deepest level.
proof fn lemma_next_entry(
    above: Seq<LevelView>,
    owner: Entry,
    e: Entry,
    more: Seq<Entry>,
    removed: usize,
)
    ensures
        ({
            let left = above.push(LevelView { owner, rest: more });
            let phase = onward(facing(above, owner, Seq::empty(), seq![e] + more), removed);
            &&& facing(above, owner, Seq::empty(), more) == left
            &&& e.is_dir ==> phase == (PhaseView::Opening { levels: left, folder: e, removed })
            &&& !e.is_dir ==> phase == (PhaseView::Deleting { levels: left, entry: e, removed })
        }),
{
    let rest = seq![e] + more;
    let here = facing(above, owner, Seq::empty(), rest);
    let left = above.push(LevelView { owner, rest: more });
    assert(here.last().rest =~= rest);
    assert(rest[0] == e);
    assert(rest.drop_first() =~= more);
    assert(here.drop_last() =~= above);
    assert(listing_of(Seq::<Tree>::empty()) + more =~= more);
}

proof fn lemma_walk(
    s: PurgeState,
    above: Seq<LevelView>,
    owner: Entry,
    trees: Seq<Tree>,
    more: Seq<Entry>,
    removed: usize,
)
    requires
        well_grown(trees),
        removed + bottom_up(trees).len() <= usize::MAX,
        s.phase == onward(facing(above, owner, trees, more), removed),
    ensures
        run(s, answers_for(trees)) == (
            PurgeState {
                phase: onward(
                    facing(above, owner, Seq::empty(), more),
                    (removed + bottom_up(trees).len()) as usize,
                ),
                ..s
            },
            deletions(bottom_up(trees)),
        ),
    decreases trees, trees.len(),
{
    if trees.len() == 0 {
        assert(listing_of(trees) + more =~= listing_of(Seq::<Tree>::empty()) + more);
        assert(deletions(bottom_up(trees)) =~= Seq::<EventView>::empty());
    } else {
        let front = trees.drop_last();
        let t = trees.last();
        let done = AnswerView::Deleted { gone: true };
        assert(t == trees[trees.len() - 1]);
        assert forall|i: int| #![trigger front[i]] 0 <= i < front.len() implies (front[i].kids.len()
            > 0 ==> front[i].entry.is_dir) && well_grown(front[i].kids) by {
            assert(front[i] == trees[i]);
        }
        let rest = seq![t.entry] + more;
        assert(listing_of(front) + rest =~= listing_of(trees) + more);
        lemma_walk(s, above, owner, front, rest, removed);
        let middle = run(s, answers_for(front)).0;
        let so_far = (removed + bottom_up(front).len()) as usize;
        let left = above.push(LevelView { owner, rest: more });
        lemma_next_entry(above, owner, t.entry, more, so_far);
        let tail = if t.entry.is_dir {
            (seq![AnswerView::Listing(listing_of(t.kids))] + answers_for(t.kids)).push(done)
        } else {
            seq![done]
        };
        lemma_run_continues(s, answers_for(front), tail);
        if t.entry.is_dir {
            let inside = after(middle, AnswerView::Listing(listing_of(t.kids)));
            assert(listing_of(t.kids) + Seq::<Entry>::empty() =~= listing_of(t.kids));
            lemma_walk(inside, left, t.entry, t.kids, Seq::empty(), so_far);
            lemma_delete_folder(middle, left, t, so_far);
        } else {
            assert(bottom_up(t.kids) =~= Seq::<Entry>::empty());
            assert(bottom_up(t.kids).push(t.entry) =~= seq![t.entry]);
            lemma_delete_file(middle, left, t.entry, so_far);
        }
        assert(deletions(bottom_up(front)) + deletions(bottom_up(t.kids).push(t.entry))
            =~= deletions(bottom_up(trees)));
    }
}

/// A purge empties the folder and nothing else: on a device that holds `trees` in it and
/// carries out every deletion, everything in `trees` is deleted and reported exactly
/// once, what a folder holds before the folder, and the purge is then left with the
/// number of entries it deleted. The folder itself is not among them.
pub proof fn law_purge_deletes_exactly_what_it_walks(
    s: PurgeState,
    folder: Entry,
    trees: Seq<Tree>,
)
    requires
        s.phase == (PhaseView::Opening { levels: Seq::empty(), folder, removed: 0 }),
        well_grown(trees),
        bottom_up(trees).len() <= usize::MAX,
    ensures
        run(s, seq![AnswerView::Listing(listing_of(trees))] + answers_for(trees)) == (
            PurgeState {
                phase: PhaseView::Measuring { removed: bottom_up(trees).len() as usize },
                ..s
            },
            deletions(bottom_up(trees)),
        ),
{
    let opened = AnswerView::Listing(listing_of(trees));
    let above = Seq::<LevelView>::empty();
    let inside = after(s, opened);
    assert(listing_of(trees) + Seq::<Entry>::empty() =~= listing_of(trees));
    lemma_walk(inside, above, folder, trees, Seq::empty(), 0);
    lemma_run_one(s, opened);
    lemma_run_continues(s, seq![opened], answers_for(trees));
    let bare = facing(above, folder, Seq::empty(), Seq::empty());
    assert(bare.last().rest =~= Seq::<Entry>::empty());
    assert(run(s, seq![opened] + answers_for(trees)).1 =~= deletions(bottom_up(trees)));
}

} // verus!
