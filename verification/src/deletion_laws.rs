//! What a deletion of staged images and a purge come to, whatever the device makes of the
//! deletions, and what no deletion heeds.

use crate::clean;
use crate::clean::CleanState;
use crate::events::{DeletedKind, EventView, Fault};
use crate::listing;
use crate::listing::Entry;
use crate::listing_laws;
use crate::order;
use crate::purge;
use crate::purge::PurgeState;
use crate::sweep;
use crate::sweep::{AnswerView, Ask};
use crate::text;
use crate::token;
use crate::updates;
use crate::updates::{PhaseView, UpdatesState};
use vstd::prelude::*;
use vstd::seq_lib;

verus! {

/// A run of deletions: where it leads, what becomes known, and the entries whose deletion
/// was asked for. `gone` is whether each of them is really no longer there.
pub open spec fn carried_out(s: UpdatesState, gone: Seq<bool>) -> (
    UpdatesState,
    Seq<EventView>,
    Seq<Entry>,
)
    decreases gone.len(),
{
    if gone.len() == 0 {
        (s, Seq::empty(), Seq::empty())
    } else {
        let (before, events, asked) = carried_out(s, gone.drop_last());
        let answer = AnswerView::Deleted { gone: gone.last() };
        (
            updates::after(before, answer),
            events + updates::answered(before, answer).1,
            match updates::ask_of(before) {
                Ask::Delete(e) => asked.push(e),
                _ => asked,
            },
        )
    }
}

/// Those of the entries that are gone, in order.
pub open spec fn those_gone(entries: Seq<Entry>, gone: Seq<bool>) -> Seq<Entry>
    decreases gone.len(),
{
    if gone.len() == 0 {
        Seq::empty()
    } else if gone.last() {
        those_gone(entries, gone.drop_last()).push(entries[gone.len() - 1])
    } else {
        those_gone(entries, gone.drop_last())
    }
}

/// The entry is a staged image that the list names.
pub open spec fn asked_for(names: Seq<String>, e: Entry) -> bool {
    &&& !e.is_dir
    &&& exists|mid: Seq<char>| text::lowered(e.name@) == #[trigger] ("update_"@ + mid + ".bin"@)
    &&& exists|i: int| 0 <= i < names.len() && (#[trigger] names[i])@ == e.name@
}

/// Any entry that is a staged image the list names.
pub open spec fn all_asked_for(names: Seq<String>) -> spec_fn(Entry) -> bool {
    |e: Entry| asked_for(names, e)
}

/// Of the entries at the root exactly the staged images that were asked for are deleted,
/// each once, by name, however long their names and however often the list names them.
/// Each deletion becomes known, and whether it happened; the images that are gone are what
/// is returned, and the free space read at the end becomes known last.
pub proof fn law_exactly_the_named_updates_are_deleted(
    names: Seq<String>,
    root: Seq<Entry>,
    gone: Seq<bool>,
    free: u64,
)
    requires
        gone.len() == root.filter(all_asked_for(names)).len(),
    ensures
        ({
            let start = UpdatesState { names, phase: PhaseView::Locating };
            let begun = updates::after(start, AnswerView::Listing(root));
            let (end, events, asked) = carried_out(begun, gone);
            &&& updates::ask_of(start) == Ask::ListRoot
            &&& updates::answered(start, AnswerView::Listing(root)).1.len() == 0
            &&& asked.len() == gone.len()
            &&& asked.to_multiset() == root.filter(all_asked_for(names)).to_multiset()
            &&& forall|i: int, j: int|
                0 <= i < j < asked.len() ==> text::precedes(
                    (#[trigger] asked[i]).name@,
                    (#[trigger] asked[j]).name@,
                )
            &&& events.len() == gone.len()
            &&& forall|i: int|
                0 <= i < events.len() ==> #[trigger] events[i] == if gone[i] {
                    EventView::Deleted {
                        name: asked[i].name@,
                        bytes: asked[i].bytes,
                        kind: DeletedKind::Update,
                    }
                } else {
                    EventView::DeleteRefused { name: asked[i].name@, bytes: asked[i].bytes }
                }
            &&& updates::ask_of(end) == Ask::Measure
            &&& updates::after(end, AnswerView::Measured { free }).phase == (PhaseView::Ended {
                result: Ok(those_gone(asked, gone)),
            })
            &&& updates::answered(end, AnswerView::Measured { free }).1 == seq![
                EventView::Finished { free },
            ]
        }),
{
    broadcast use seq_lib::group_to_multiset_ensures;

    let doomed = updates::doomed_of(root, names);
    let wanted = root.filter(all_asked_for(names));
    lemma_doomed(root, names);
    assert(doomed.len() == doomed.to_multiset().len());
    assert(wanted.len() == wanted.to_multiset().len());
    lemma_carried_out(names, root, gone);
    let begun = updates::after(
        UpdatesState { names, phase: PhaseView::Locating },
        AnswerView::Listing(root),
    );
    let (end, events, asked) = carried_out(begun, gone);
    assert(asked =~= doomed);
    assert(doomed.skip(gone.len() as int).len() == 0);
}

proof fn lemma_doomed(root: Seq<Entry>, names: Seq<String>)
    ensures
        updates::doomed_of(root, names).to_multiset() == root.filter(
            all_asked_for(names),
        ).to_multiset(),
        forall|i: int, j: int|
            0 <= i < j < updates::doomed_of(root, names).len() ==> text::precedes(
                (#[trigger] updates::doomed_of(root, names)[i]).name@,
                (#[trigger] updates::doomed_of(root, names)[j]).name@,
            ),
{
    let doomed = updates::doomed_of(root, names);
    let wanted = root.filter(all_asked_for(names));
    let staged = listing::updates_of(root);
    let keep = |e: Entry| updates::named(names, e.name@);
    assert forall|e: Entry| doomed.to_multiset().count(e) == #[trigger] wanted.to_multiset().count(
        e,
    ) by {
        listing_laws::lemma_filter_counts(staged, keep, e);
        listing_laws::lemma_filter_counts(root, all_asked_for(names), e);
        listing_laws::law_all_updates_are_listed_by_name(root, e);
    }
    assert(doomed.to_multiset() =~= wanted.to_multiset());
    if staged.len() > 0 {
        listing_laws::law_all_updates_are_listed_by_name(root, staged[0]);
    }
    lemma_filter_keeps_order(staged, keep);
}

/// Filtering keeps what is in order in order.
proof fn lemma_filter_keeps_order(s: Seq<Entry>, keep: spec_fn(Entry) -> bool)
    requires
        forall|i: int, j: int|
            0 <= i < j < s.len() ==> text::precedes(
                (#[trigger] s[i]).name@,
                (#[trigger] s[j]).name@,
            ),
    ensures
        forall|i: int, j: int|
            0 <= i < j < s.filter(keep).len() ==> text::precedes(
                (#[trigger] s.filter(keep)[i]).name@,
                (#[trigger] s.filter(keep)[j]).name@,
            ),
    decreases s.len(),
{
    if s.len() == 0 {
        reveal(Seq::filter);
    } else {
        let rest = s.drop_last();
        let f = rest.filter(keep);
        assert forall|i: int, j: int| 0 <= i < j < rest.len() implies text::precedes(
            (#[trigger] rest[i]).name@,
            (#[trigger] rest[j]).name@,
        ) by {
            assert(rest[i] == s[i] && rest[j] == s[j]);
        }
        lemma_filter_keeps_order(rest, keep);
        order::lemma_filter_push(rest, s.last(), keep);
        assert(rest.push(s.last()) =~= s);
        if keep(s.last()) {
            let g = f.push(s.last());
            assert forall|i: int, j: int| 0 <= i < j < g.len() implies text::precedes(
                (#[trigger] g[i]).name@,
                (#[trigger] g[j]).name@,
            ) by {
                assert(g[i] == f[i]);
                if j == f.len() {
                    assert(f.contains(f[i]));
                    listing::lemma_filter_holds(rest, keep, f[i]);
                    let k = choose|k: int| 0 <= k < rest.len() && rest[k] == f[i];
                    assert(s[k] == f[i] && s[s.len() - 1] == g[j]);
                } else {
                    assert(g[j] == f[j]);
                }
            }
        }
    }
}

proof fn lemma_carried_out(names: Seq<String>, root: Seq<Entry>, gone: Seq<bool>)
    requires
        gone.len() <= updates::doomed_of(root, names).len(),
    ensures
        ({
            let doomed = updates::doomed_of(root, names);
            let begun = updates::after(
                UpdatesState { names, phase: PhaseView::Locating },
                AnswerView::Listing(root),
            );
            let (end, events, asked) = carried_out(begun, gone);
            &&& asked == doomed.take(gone.len() as int)
            &&& events.len() == gone.len()
            &&& forall|i: int|
                0 <= i < events.len() ==> #[trigger] events[i] == if gone[i] {
                    EventView::Deleted {
                        name: asked[i].name@,
                        bytes: asked[i].bytes,
                        kind: DeletedKind::Update,
                    }
                } else {
                    EventView::DeleteRefused { name: asked[i].name@, bytes: asked[i].bytes }
                }
            &&& end == (UpdatesState {
                names,
                phase: updates::onward(
                    doomed.skip(gone.len() as int),
                    those_gone(asked, gone),
                ),
            })
        }),
    decreases gone.len(),
{
    let doomed = updates::doomed_of(root, names);
    let begun = updates::after(
        UpdatesState { names, phase: PhaseView::Locating },
        AnswerView::Listing(root),
    );
    if gone.len() == 0 {
        assert(doomed.skip(0) =~= doomed);
        assert(doomed.take(0) =~= Seq::<Entry>::empty());
    } else {
        let rest = gone.drop_last();
        lemma_carried_out(names, root, rest);
        let (before, told, asked) = carried_out(begun, rest);
        let m = rest.len() as int;
        assert(doomed.skip(m)[0] == doomed[m]);
        assert(doomed.skip(m).drop_first() =~= doomed.skip(m + 1));
        let now = carried_out(begun, gone);
        assert(now.2 =~= doomed.take(m + 1));
        assert(now.2.take(m) =~= asked);
        lemma_those_gone_of_more(asked, now.2, rest);
        assert forall|i: int| 0 <= i < now.1.len() implies #[trigger] now.1[i] == if gone[i] {
            EventView::Deleted {
                name: now.2[i].name@,
                bytes: now.2[i].bytes,
                kind: DeletedKind::Update,
            }
        } else {
            EventView::DeleteRefused { name: now.2[i].name@, bytes: now.2[i].bytes }
        } by {
            if i < m {
                assert(now.1[i] == told[i]);
                assert(now.2[i] == asked[i]);
                assert(rest[i] == gone[i]);
            }
        }
    }
}

proof fn lemma_those_gone_of_more(a: Seq<Entry>, b: Seq<Entry>, gone: Seq<bool>)
    requires
        gone.len() <= a.len(),
        a.len() <= b.len(),
        b.take(a.len() as int) == a,
    ensures
        those_gone(a, gone) == those_gone(b, gone),
    decreases gone.len(),
{
    if gone.len() > 0 {
        lemma_those_gone_of_more(a, b, gone.drop_last());
        assert(b.take(a.len() as int)[gone.len() - 1] == b[gone.len() - 1]);
    }
}

/// Whatever fails ends the deletion with that failure, and nothing more becomes known.
pub proof fn law_a_failure_ends_the_deletion(s: UpdatesState, error: Fault)
    requires
        !(s.phase is Ended),
    ensures
        updates::after(s, AnswerView::Failed(error)).phase == (PhaseView::Ended {
            result: Err(error),
        }),
        updates::answered(s, AnswerView::Failed(error)).1.len() == 0,
{
}

/// A purge begins with the root: without the folder there is nothing to empty, which is no
/// failure unless something was confirmed. With it, and nothing to be confirmed, the folder
/// is opened; otherwise it is listed first to hold the confirmation against.
pub proof fn law_a_purge_begins_with_the_folder(s: PurgeState, root: Seq<Entry>)
    requires
        s.phase is Locating,
    ensures
        purge::ask_of(s) == Ask::ListRoot,
        purge::answered(s, AnswerView::Listing(root)).1.len() == 0,
        match listing::folder_named(root, s.dir) {
            Some(folder) => purge::ask_of(purge::after(s, AnswerView::Listing(root))) == Ask::List(
                folder,
            ) && (purge::after(s, AnswerView::Listing(root)).phase is Opening
                <==> s.confirmed is None),
            None => purge::after(s, AnswerView::Listing(root)).phase == (
            purge::PhaseView::Ended {
                result: if s.confirmed is Some {
                    Err(Fault::StaleConfirmation)
                } else {
                    Ok(0)
                },
            }),
        },
{
}

/// A confirmation holds exactly where the token of what the folder holds now is the one
/// that was given: then the folder is opened to be emptied, and otherwise nothing is
/// touched.
pub proof fn law_a_confirmation_decides(s: PurgeState, folder: Entry, now: Seq<Entry>)
    requires
        s.phase == (purge::PhaseView::Confirming { folder }),
        s.confirmed is Some,
    ensures
        ({
            let next = purge::after(s, AnswerView::Listing(now));
            let token = token::token_of(
                s.dir,
                now.filter(|e: Entry| !listing::is_filler(e) && !listing::is_marker(e)),
            );
            &&& token == s.confirmed ==> purge::ask_of(next) == Ask::List(folder) && next.phase
                == (purge::PhaseView::Opening { levels: Seq::empty(), folder, removed: 0 })
            &&& token != s.confirmed ==> next.phase == (purge::PhaseView::Ended {
                result: Err(Fault::StaleConfirmation),
            })
        }),
{
    crate::token_laws::law_a_confirmation_is_of_what_is_not_ours(s.dir, now);
}

/// What a purge deletes becomes known as filler or as somebody else's, with its name and
/// size, and it is counted exactly where it is gone; what comes next does not depend on
/// that.
pub proof fn law_a_purge_counts_what_is_gone(s: PurgeState, gone: bool, free: u64)
    ensures
        s.phase matches purge::PhaseView::Deleting { levels, entry, removed } ==> {
            let next = purge::after(s, AnswerView::Deleted { gone });
            let other = purge::after(s, AnswerView::Deleted { gone: !gone });
            &&& purge::answered(s, AnswerView::Deleted { gone }).1 == seq![
                if gone {
                    EventView::Deleted {
                        name: entry.name@,
                        bytes: entry.bytes,
                        kind: if listing::is_filler(entry) {
                            DeletedKind::Filler
                        } else {
                            DeletedKind::Foreign
                        },
                    }
                } else {
                    EventView::DeleteRefused { name: entry.name@, bytes: entry.bytes }
                },
            ]
            &&& purge::ask_of(next) == purge::ask_of(other)
            &&& removed < usize::MAX ==> counted(next.phase) == removed + if gone {
                1int
            } else {
                0
            }
        },
        s.phase matches purge::PhaseView::Measuring { removed } ==> purge::after(
            s,
            AnswerView::Measured { free },
        ).phase == (purge::PhaseView::Ended { result: Ok(removed) }) && purge::answered(
            s,
            AnswerView::Measured { free },
        ).1 == seq![EventView::Finished { free }],
{
}

/// How many entries a purge has deleted so far.
pub open spec fn counted(phase: purge::PhaseView) -> int {
    match phase {
        purge::PhaseView::Opening { removed, .. } => removed as int,
        purge::PhaseView::Deleting { removed, .. } => removed as int,
        purge::PhaseView::Measuring { removed } => removed as int,
        purge::PhaseView::Ended { result: Ok(removed) } => removed as int,
        _ => 0,
    }
}

/// Whatever fails ends the purge with that failure, and nothing more becomes known.
pub proof fn law_a_failure_ends_the_purge(s: PurgeState, error: Fault)
    requires
        !(s.phase is Ended),
    ensures
        purge::after(s, AnswerView::Failed(error)).phase == (purge::PhaseView::Ended {
            result: Err(error),
        }),
        purge::answered(s, AnswerView::Failed(error)).1.len() == 0,
{
}

/// The events of a purge of `entries`: each is told as gone, under its name, with its size,
/// as filler where it is filler and as somebody else's otherwise.
pub proof fn law_purged_entries_are_told_as_what_they_are(entries: Seq<Entry>, i: int)
    requires
        0 <= i < entries.len(),
    ensures
        purge::deletions(entries).len() == entries.len(),
        purge::deletions(entries)[i] == (EventView::Deleted {
            name: entries[i].name@,
            bytes: entries[i].bytes,
            kind: if listing::is_filler(entries[i]) {
                DeletedKind::Filler
            } else {
                DeletedKind::Foreign
            },
        }),
{
}

/// A deletion becomes known under the name of the entry, with its size: as one that
/// happened, or as one that was refused.
pub proof fn law_a_deletion_is_told_as_it_went(e: Entry, kind: DeletedKind, gone: bool)
    ensures
        sweep::deletion_event(e, kind, gone) == if gone {
            EventView::Deleted { name: e.name@, bytes: e.bytes, kind }
        } else {
            EventView::DeleteRefused { name: e.name@, bytes: e.bytes }
        },
{
}

/// The answer is one to what was asked.
pub open spec fn to_the_point(ask: Ask, answer: AnswerView) -> bool {
    match ask {
        Ask::ListRoot => answer is Listing || answer is Failed,
        Ask::List(_) => answer is Listing || answer is Failed,
        Ask::Delete(_) => answer is Deleted || answer is Failed,
        Ask::Measure => answer is Measured || answer is Failed,
        Ask::Finish => false,
    }
}

/// An answer to something that was not asked changes nothing and makes nothing known, in a
/// clean, a purge, or a deletion of staged images.
pub proof fn law_only_answers_to_the_point_are_heeded(
    c: CleanState,
    p: PurgeState,
    u: UpdatesState,
    answer: AnswerView,
)
    ensures
        !to_the_point(clean::ask_of(c), answer) ==> clean::after(c, answer) == c && clean::answered(
            c,
            answer,
        ).1.len() == 0,
        !to_the_point(purge::ask_of(p), answer) ==> purge::after(p, answer) == p && purge::answered(
            p,
            answer,
        ).1.len() == 0,
        !to_the_point(updates::ask_of(u), answer) ==> updates::after(u, answer) == u
            && updates::answered(u, answer).1.len() == 0,
{
}

} // verus!
