//! Deleting staged firmware images that the user picked by name.
//!
//! Three independent gates, all of which must agree before anything is deleted: the file
//! is at the **root**, its name matches the **staged-update shape**, and it is in the
//! caller's **explicit list**. The list alone is not trusted: it arrives from a UI, and a
//! name in it that isn't a root-level update image is ignored rather than deleted. That
//! is what keeps "delete the update" from ever becoming "delete a book that was named
//! convincingly".

use crate::events;
use crate::events::{no_events, one_event, DeletedKind, Event, EventView, Fault, FillError};
use crate::listing;
use crate::listing::{list_staged_updates, Entry};
use crate::order;
use crate::sweep;
use crate::sweep::{deletion, Answer, AnswerView, Ask};
use crate::text::same;
use vstd::prelude::*;

verus! {

/// `name` is in the list.
pub open spec fn named(names: Seq<String>, name: Seq<char>) -> bool {
    exists|i: int| 0 <= i < names.len() && (#[trigger] names[i])@ == name
}

/// The staged images among the root entries that the list names, by name.
pub open spec fn doomed_of(root: Seq<Entry>, names: Seq<String>) -> Seq<Entry> {
    listing::updates_of(root).filter(|e: Entry| named(names, e.name@))
}

fn is_named(names: &Vec<String>, name: &str) -> (yes: bool)
    ensures
        yes == named(names@, name@),
{
    let mut i: usize = 0;
    while i < names.len()
        invariant
            i <= names.len(),
            forall|j: int| 0 <= j < i ==> (#[trigger] names@[j])@ != name@,
        decreases names.len() - i,
    {
        if same(names[i].as_str(), name) {
            assert(names@[i as int]@ == name@);
            return true;
        }
        i += 1;
    }
    false
}

/// The staged images at the root that the user asked for.
pub fn doomed_updates(root: &Vec<Entry>, names: &Vec<String>) -> (doomed: Vec<Entry>)
    ensures
        doomed@ == doomed_of(root@, names@),
{
    let staged = list_staged_updates(root);
    let ghost keep = |e: Entry| named(names@, e.name@);
    let mut doomed: Vec<Entry> = Vec::new();
    let mut i: usize = 0;
    proof {
        reveal(Seq::filter);
    }
    while i < staged.len()
        invariant
            i <= staged.len(),
            keep == (|e: Entry| named(names@, e.name@)),
            doomed@ == staged@.take(i as int).filter(keep),
        decreases staged.len() - i,
    {
        proof {
            order::lemma_filter_push(staged@.take(i as int), staged@[i as int], keep);
            assert(staged@.take(i + 1) =~= staged@.take(i as int).push(staged@[i as int]));
        }
        if is_named(names, staged[i].name.as_str()) {
            doomed.push(staged[i].clone());
        }
        i += 1;
    }
    assert(staged@.take(i as int) =~= staged@);
    doomed
}

/// All three gates: an entry is deleted exactly where it stands at the root, is no folder
/// and of the staged-update shape, and is named in the list.
pub proof fn law_three_gates(root: Seq<Entry>, names: Seq<String>, e: Entry)
    ensures
        doomed_of(root, names).contains(e) <==> {
            &&& root.contains(e)
            &&& listing::is_update(e)
            &&& named(names, e.name@)
        },
{
    broadcast use vstd::seq_lib::group_to_multiset_ensures;

    let update = |e: Entry| listing::is_update(e);
    let keep = |e: Entry| named(names, e.name@);
    let kept = root.filter(update);
    let staged = listing::updates_of(root);
    order::law_sorted(kept);
    assert(staged.contains(e) <==> staged.to_multiset().count(e) > 0);
    assert(kept.contains(e) <==> kept.to_multiset().count(e) > 0);
    if doomed_of(root, names).contains(e) {
        listing::lemma_filter_holds(staged, keep, e);
        listing::lemma_filter_holds(root, update, e);
    }
    if root.contains(e) && update(e) && keep(e) {
        lemma_filter_keeps(root, update, e);
        lemma_filter_keeps(staged, keep, e);
    }
}

proof fn lemma_filter_keeps(s: Seq<Entry>, keep: spec_fn(Entry) -> bool, e: Entry)
    requires
        s.contains(e),
        keep(e),
    ensures
        s.filter(keep).contains(e),
    decreases s.len(),
{
    let rest = s.drop_last();
    order::lemma_filter_push(rest, s.last(), keep);
    assert(rest.push(s.last()) =~= s);
    let i = choose|i: int| 0 <= i < s.len() && s[i] == e;
    let kept = s.filter(keep);
    if i < rest.len() {
        assert(rest[i] == e);
        lemma_filter_keeps(rest, keep, e);
        let j = choose|j: int| 0 <= j < rest.filter(keep).len() && rest.filter(keep)[j] == e;
        assert(kept[j] == e);
    } else {
        assert(kept[kept.len() - 1] == e);
    }
}

/// Where the deletion stands.
#[derive(Debug)]
enum Phase {
    Locating,
    Deleting { current: Entry, rest: Vec<Entry>, removed: Vec<Entry> },
    Measuring { removed: Vec<Entry> },
    Ended { result: Result<Vec<Entry>, FillError> },
}

/// Where the deletion stands, as its contract speaks of it.
pub enum PhaseView {
    /// Waiting for the listing of the root.
    Locating,
    /// Deleting one image after another.
    Deleting { current: Entry, rest: Seq<Entry>, removed: Seq<Entry> },
    /// Waiting for the last reading.
    Measuring { removed: Seq<Entry> },
    /// Over.
    Ended { result: Result<Seq<Entry>, Fault> },
}

impl View for Phase {
    type V = PhaseView;

    closed spec fn view(&self) -> PhaseView {
        match *self {
            Phase::Locating => PhaseView::Locating,
            Phase::Deleting { current, rest, removed } => PhaseView::Deleting {
                current,
                rest: rest@,
                removed: removed@,
            },
            Phase::Measuring { removed } => PhaseView::Measuring { removed: removed@ },
            Phase::Ended { result } => PhaseView::Ended {
                result: match result {
                    Ok(removed) => Ok(removed@),
                    Err(e) => Err(e@),
                },
            },
        }
    }
}

/// A deletion of staged images as its contract speaks of it.
pub struct UpdatesState {
    pub names: Seq<String>,
    pub phase: PhaseView,
}

/// What the deletion in this state asks for.
pub open spec fn ask_of(s: UpdatesState) -> Ask {
    match s.phase {
        PhaseView::Locating => Ask::ListRoot,
        PhaseView::Deleting { current, .. } => Ask::Delete(current),
        PhaseView::Measuring { .. } => Ask::Measure,
        PhaseView::Ended { .. } => Ask::Finish,
    }
}

/// On to the next doomed image; after the last, to the reading.
pub open spec fn onward(doomed: Seq<Entry>, removed: Seq<Entry>) -> PhaseView {
    if doomed.len() > 0 {
        PhaseView::Deleting { current: doomed[0], rest: doomed.drop_first(), removed }
    } else {
        PhaseView::Measuring { removed }
    }
}

/// Where an answer leads, and what it makes known. An answer to something that was not
/// asked changes nothing.
pub open spec fn answered(s: UpdatesState, answer: AnswerView) -> (PhaseView, Seq<EventView>) {
    match (s.phase, answer) {
        (PhaseView::Locating, AnswerView::Listing(root)) => (
            onward(doomed_of(root, s.names), Seq::empty()),
            Seq::empty(),
        ),
        (PhaseView::Deleting { current, rest, removed }, AnswerView::Deleted { gone }) => (
            onward(
                rest,
                if gone {
                    removed.push(current)
                } else {
                    removed
                },
            ),
            seq![sweep::deletion_event(current, DeletedKind::Update, gone)],
        ),
        (PhaseView::Measuring { removed }, AnswerView::Measured { free }) => (
            PhaseView::Ended { result: Ok(removed) },
            seq![EventView::Finished { free }],
        ),
        (PhaseView::Ended { .. }, _) => (s.phase, Seq::empty()),
        (_, AnswerView::Failed(error)) => (
            PhaseView::Ended { result: Err(error) },
            Seq::empty(),
        ),
        _ => (s.phase, Seq::empty()),
    }
}

/// The state an answer leads to.
pub open spec fn after(s: UpdatesState, answer: AnswerView) -> UpdatesState {
    UpdatesState { phase: answered(s, answer).0, ..s }
}

/// A deletion of staged images in progress.
#[derive(Debug)]
pub struct Updates {
    names: Vec<String>,
    phase: Phase,
}

impl View for Updates {
    type V = UpdatesState;

    closed spec fn view(&self) -> UpdatesState {
        UpdatesState { names: self.names@, phase: self.phase@ }
    }
}

fn onward_phase(doomed: Vec<Entry>, removed: Vec<Entry>) -> (phase: Phase)
    ensures
        phase@ == onward(doomed@, removed@),
{
    if doomed.len() > 0 {
        let ghost all = doomed@;
        let mut rest = doomed;
        let current = rest.remove(0);
        assert(rest@ =~= all.drop_first());
        Phase::Deleting { current, rest, removed }
    } else {
        Phase::Measuring { removed }
    }
}

impl Updates {
    /// The deletion of the staged images called `names`.
    pub fn new(names: Vec<String>) -> (updates: Updates)
        ensures
            updates@ == (UpdatesState { names: names@, phase: PhaseView::Locating }),
    {
        Updates { names, phase: Phase::Locating }
    }

    /// What has to be done on the device next.
    pub fn ask(&self) -> (ask: Ask)
        ensures
            ask == ask_of(self@),
    {
        match &self.phase {
            Phase::Locating => Ask::ListRoot,
            Phase::Deleting { current, .. } => Ask::Delete(current.clone()),
            Phase::Measuring { .. } => Ask::Measure,
            Phase::Ended { .. } => Ask::Finish,
        }
    }

    /// How the deletion ended, once [`Ask::Finish`] is what it asks for: the images that
    /// were actually removed.
    pub fn result(self) -> (result: Option<Result<Vec<Entry>, FillError>>)
        ensures
            match (result, self@.phase) {
                (Some(Ok(removed)), PhaseView::Ended { result }) => result == Ok::<
                    Seq<Entry>,
                    Fault,
                >(removed@),
                (Some(Err(e)), PhaseView::Ended { result }) => result == Err::<Seq<Entry>, Fault>(
                    e@,
                ),
                (None, PhaseView::Ended { result }) => false,
                (Some(r), _) => false,
                (None, _) => true,
            },
    {
        match self.phase {
            Phase::Ended { result } => Some(result),
            _ => None,
        }
    }

    /// Hand the deletion an answer to what it asked for: how it stands now, and what the
    /// answer made known. An answer to something else changes nothing.
    pub fn answer(self, answer: Answer) -> (out: (Updates, Vec<Event>))
        ensures
            out.0@ == after(self@, answer@),
            events::seen(out.1@) == answered(self@, answer@).1,
    {
        let Updates { names, phase } = self;
        let (next, happened): (Phase, Vec<Event>) = match phase {
            Phase::Locating => match answer {
                Answer::Listing(root) => {
                    let removed: Vec<Entry> = Vec::new();
                    assert(removed@ =~= Seq::<Entry>::empty());
                    (onward_phase(doomed_updates(&root, &names), removed), no_events())
                },
                Answer::Failed(error) => (Phase::Ended { result: Err(error) }, no_events()),
                _ => (Phase::Locating, no_events()),
            },
            Phase::Deleting { current, rest, removed } => match answer {
                Answer::Deleted { gone } => {
                    let event = deletion(&current, DeletedKind::Update, gone);
                    let mut removed = removed;
                    if gone {
                        removed.push(current);
                    }
                    (onward_phase(rest, removed), one_event(event))
                },
                Answer::Failed(error) => (Phase::Ended { result: Err(error) }, no_events()),
                _ => (Phase::Deleting { current, rest, removed }, no_events()),
            },
            Phase::Measuring { removed } => match answer {
                Answer::Measured { free } => (
                    Phase::Ended { result: Ok(removed) },
                    one_event(Event::Finished { free }),
                ),
                Answer::Failed(error) => (Phase::Ended { result: Err(error) }, no_events()),
                _ => (Phase::Measuring { removed }, no_events()),
            },
            Phase::Ended { result } => (Phase::Ended { result }, no_events()),
        };
        (Updates { names, phase: next }, happened)
    }
}

/// The device carries out the deletions, one after another, `n` of them.
pub open spec fn swept(s: UpdatesState, n: nat) -> (UpdatesState, Seq<EventView>)
    decreases n,
{
    if n == 0 {
        (s, Seq::empty())
    } else {
        let (before, events) = swept(s, (n - 1) as nat);
        let done = AnswerView::Deleted { gone: true };
        (after(before, done), events + answered(before, done).1)
    }
}

/// What becomes known once the first `n` doomed images are deleted.
pub open spec fn deletions(doomed: Seq<Entry>, n: nat) -> Seq<EventView> {
    Seq::new(n, |i: int| sweep::deletion_event(doomed[i], DeletedKind::Update, true))
}

/// Every image that was asked for goes: on a device that carries out every deletion, each
/// doomed image is deleted and reported exactly once, in order, and all of them are what
/// is returned as removed.
pub proof fn law_every_doomed_update_is_deleted(
    names: Seq<String>,
    root: Seq<Entry>,
    n: nat,
    free: u64,
)
    requires
        n <= doomed_of(root, names).len(),
    ensures
        ({
            let doomed = doomed_of(root, names);
            let start = after(
                UpdatesState { names, phase: PhaseView::Locating },
                AnswerView::Listing(root),
            );
            let (so_far, events) = swept(start, n);
            let end = after(so_far, AnswerView::Measured { free });
            &&& events == deletions(doomed, n)
            &&& n < doomed.len() ==> ask_of(so_far) == Ask::Delete(doomed[n as int])
            &&& n == doomed.len() ==> {
                &&& ask_of(so_far) == Ask::Measure
                &&& end.phase == (PhaseView::Ended { result: Ok(doomed) })
                &&& answered(so_far, AnswerView::Measured { free }).1 == seq![
                    EventView::Finished { free },
                ]
            }
        }),
{
    let doomed = doomed_of(root, names);
    lemma_swept(names, root, n);
    if n == doomed.len() {
        assert(doomed.take(n as int) =~= doomed);
    }
}

proof fn lemma_swept(names: Seq<String>, root: Seq<Entry>, n: nat)
    requires
        n <= doomed_of(root, names).len(),
    ensures
        ({
            let doomed = doomed_of(root, names);
            let start = after(
                UpdatesState { names, phase: PhaseView::Locating },
                AnswerView::Listing(root),
            );
            &&& swept(start, n).1 == deletions(doomed, n)
            &&& swept(start, n).0 == (UpdatesState {
                names,
                phase: onward(doomed.skip(n as int), doomed.take(n as int)),
            })
        }),
    decreases n,
{
    let doomed = doomed_of(root, names);
    let start = after(
        UpdatesState { names, phase: PhaseView::Locating },
        AnswerView::Listing(root),
    );
    if n == 0 {
        assert(doomed.skip(0) =~= doomed);
        assert(doomed.take(0) =~= Seq::<Entry>::empty());
        assert(deletions(doomed, 0) =~= Seq::<EventView>::empty());
    } else {
        let m = (n - 1) as nat;
        lemma_swept(names, root, m);
        assert(doomed.skip(m as int)[0] == doomed[m as int]);
        assert(doomed.skip(m as int).drop_first() =~= doomed.skip(n as int));
        assert(doomed.take(m as int).push(doomed[m as int]) =~= doomed.take(n as int));
        assert(swept(start, n).1 =~= deletions(doomed, n));
    }
}

/// Everything that is still to be deleted passes all three gates.
pub open spec fn sound(s: UpdatesState) -> bool {
    match s.phase {
        PhaseView::Deleting { current, rest, .. } => {
            &&& listing::is_update(current) && named(s.names, current.name@)
            &&& forall|i: int|
                0 <= i < rest.len() ==> listing::is_update(#[trigger] rest[i]) && named(
                    s.names,
                    rest[i].name@,
                )
        },
        _ => true,
    }
}

/// Nothing but a staged image that the user named is ever asked to be deleted, and the
/// first one asked for stands in the listing of the root. Whatever the device answers,
/// this goes on holding.
pub proof fn law_only_named_updates_are_deleted(s: UpdatesState, answer: AnswerView)
    requires
        sound(s),
    ensures
        sound(after(s, answer)),
        ask_of(s) matches Ask::Delete(e) ==> listing::is_update(e) && named(s.names, e.name@),
        s.phase is Locating ==> (ask_of(after(s, answer)) matches Ask::Delete(e) ==> (
        answer matches AnswerView::Listing(root) && root.contains(e))),
{
    match (s.phase, answer) {
        (PhaseView::Locating, AnswerView::Listing(root)) => {
            let doomed = doomed_of(root, s.names);
            assert forall|i: int| 0 <= i < doomed.len() implies listing::is_update(
                #[trigger] doomed[i],
            ) && named(s.names, doomed[i].name@) && root.contains(doomed[i]) by {
                assert(doomed.contains(doomed[i]));
                law_three_gates(root, s.names, doomed[i]);
            }
            if doomed.len() > 0 {
                assert forall|i: int| 0 <= i < doomed.drop_first().len() implies listing::is_update(
                    #[trigger] doomed.drop_first()[i],
                ) && named(s.names, doomed.drop_first()[i].name@) by {
                    assert(doomed.drop_first()[i] == doomed[i + 1]);
                }
            }
        },
        (PhaseView::Deleting { rest, .. }, AnswerView::Deleted { .. }) => {
            if rest.len() > 0 {
                assert forall|i: int| 0 <= i < rest.drop_first().len() implies listing::is_update(
                    #[trigger] rest.drop_first()[i],
                ) && named(s.names, rest.drop_first()[i].name@) by {
                    assert(rest.drop_first()[i] == rest[i + 1]);
                }
            }
        },
        _ => {},
    }
}

} // verus!
