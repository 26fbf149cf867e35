//! What a clean does to a folder, whatever is in it and whatever the device makes of the
//! deletions.

use crate::clean;
use crate::clean::{CleanState, Doomed, PhaseView, Tally};
use crate::events::{CleanReport, DeletedKind, EventView, Fault};
use crate::listing;
use crate::listing::Entry;
use crate::listing_laws;
use crate::order;
use crate::order::Ranked;
use crate::sweep::{AnswerView, Ask};
use crate::text;
use vstd::prelude::*;
use vstd::seq_lib;

verus! {

/// A run of deletions: where it leads, what becomes known, and the entries whose deletion
/// was asked for. `gone` is whether each of them is really no longer there.
pub open spec fn carried_out(s: CleanState, gone: Seq<bool>) -> (
    CleanState,
    Seq<EventView>,
    Seq<Entry>,
)
    decreases gone.len(),
{
    if gone.len() == 0 {
        (s, Seq::empty(), Seq::empty())
    } else {
        let (before, events, asked) = carried_out(s, gone.drop_last());
        let answer = AnswerView::Deleted { gone: gone.last() };
        (
            clean::after(before, answer),
            events + clean::answered(before, answer).1,
            match clean::ask_of(before) {
                Ask::Delete(e) => asked.push(e),
                _ => asked,
            },
        )
    }
}

/// How many of the entries are gone.
pub open spec fn count_gone(gone: Seq<bool>) -> nat
    decreases gone.len(),
{
    if gone.len() == 0 {
        0
    } else {
        count_gone(gone.drop_last()) + if gone.last() {
            1nat
        } else {
            0
        }
    }
}

/// What those of the entries that are gone held.
pub open spec fn bytes_gone(entries: Seq<Entry>, gone: Seq<bool>) -> int
    decreases gone.len(),
{
    if gone.len() == 0 {
        0
    } else {
        bytes_gone(entries, gone.drop_last()) + if gone.last() {
            entries[gone.len() - 1].bytes as int
        } else {
            0
        }
    }
}

/// The files in a listing that are neither filler nor the marker.
pub open spec fn foreign_files(l: Seq<Entry>) -> Seq<Entry> {
    l.filter(|e: Entry| !listing::is_filler(e) && !listing::is_marker(e) && !e.is_dir)
}

/// What of a listing a clean is to delete beside the filler: with the marker in it every
/// file that is not ours, and nothing without.
pub open spec fn left_behind(l: Seq<Entry>) -> Seq<Entry> {
    if exists|i: int| 0 <= i < l.len() && listing::is_marker(#[trigger] l[i]) {
        foreign_files(l)
    } else {
        Seq::empty()
    }
}

/// The listing of the filler folder was handed to a clean.
pub open spec fn listed(dir: Seq<char>, folder: Entry, l: Seq<Entry>) -> CleanState {
    clean::after(
        CleanState { dir, phase: PhaseView::Surveying { folder } },
        AnswerView::Listing(l),
    )
}

/// A clean deletes all filler in the folder and, beside a marker, all files that are not
/// ours, and deletes nothing else in there, whatever else the folder holds: the filler
/// first, by name, then the rest as it was listed, each entry exactly once. Every deletion
/// becomes known as what it is, and whether it happened.
pub proof fn law_a_clean_deletes_all_filler_and_only_that(
    dir: Seq<char>,
    folder: Entry,
    l: Seq<Entry>,
    gone: Seq<bool>,
)
    requires
        l.len() <= usize::MAX,
        gone.len() == listing_laws::filler_in(l).len() + left_behind(l).len(),
    ensures
        ({
            let n = listing_laws::filler_in(l).len();
            let (end, events, asked) = carried_out(listed(dir, folder, l), gone);
            &&& asked.len() == gone.len()
            &&& asked.take(n as int).to_multiset() == listing_laws::filler_in(l).to_multiset()
            &&& asked.skip(n as int) == left_behind(l)
            &&& forall|i: int, j: int|
                0 <= i < j < n ==> text::precedes(
                    (#[trigger] asked[i]).name@,
                    (#[trigger] asked[j]).name@,
                )
            &&& events.len() == gone.len()
            &&& forall|i: int|
                0 <= i < events.len() ==> #[trigger] events[i] == if gone[i] {
                    EventView::Deleted {
                        name: asked[i].name@,
                        bytes: asked[i].bytes,
                        kind: if i < n {
                            DeletedKind::Filler
                        } else {
                            DeletedKind::Interrupted
                        },
                    }
                } else {
                    EventView::DeleteRefused { name: asked[i].name@, bytes: asked[i].bytes }
                }
            &&& !(end.phase is Sweeping)
        }),
{
    broadcast use seq_lib::group_to_multiset_ensures;

    let n = listing_laws::filler_in(l).len();
    let doomed = clean::doomed_of(l);
    lemma_doomed(l);
    lemma_carried_out(dir, folder, l, gone);
    let (end, events, asked) = carried_out(listed(dir, folder, l), gone);
    let fillers = listing::fillers_of(l);
    order::law_sorted(listing_laws::filler_in(l));
    assert(asked.take(n as int) =~= fillers);
    assert(asked.skip(n as int) =~= left_behind(l));
    assert forall|i: int, j: int| 0 <= i < j < n implies text::precedes(
        (#[trigger] asked[i]).name@,
        (#[trigger] asked[j]).name@,
    ) by {
        assert(asked[i] == fillers[i] && asked[j] == fillers[j]);
        assert(fillers[i].before(fillers[j]));
    }
}

/// How a clean ends once the deletions are over: the marker goes too, unless debris would
/// not go; the folder goes exactly where a fresh listing of it is empty; and what is
/// reported is the number of entries that are gone, all they held, and the free space just
/// read.
pub proof fn law_a_clean_reports_what_is_gone(
    dir: Seq<char>,
    folder: Entry,
    l: Seq<Entry>,
    gone: Seq<bool>,
    left: Seq<Entry>,
    marker_gone: bool,
    folder_gone: bool,
    free: u64,
)
    requires
        l.len() <= usize::MAX,
        gone.len() == listing_laws::filler_in(l).len() + left_behind(l).len(),
    ensures
        ({
            let n = listing_laws::filler_in(l).len();
            let (end, _, asked) = carried_out(listed(dir, folder, l), gone);
            let marked = exists|i: int| 0 <= i < l.len() && listing::is_marker(#[trigger] l[i]);
            let stuck = exists|i: int| n <= i < gone.len() && !#[trigger] gone[i];
            let checking = if marked && !stuck {
                clean::after(end, AnswerView::Deleted { gone: marker_gone })
            } else {
                end
            };
            let checked = clean::after(checking, AnswerView::Listing(left));
            let measuring = if left.len() == 0 {
                clean::after(checked, AnswerView::Deleted { gone: folder_gone })
            } else {
                checked
            };
            &&& marked && !stuck ==> (clean::ask_of(end) matches Ask::Delete(m)
                && listing::is_marker(m) && l.contains(m))
            &&& clean::ask_of(checking) == Ask::List(folder)
            &&& left.len() == 0 ==> clean::ask_of(checked) == Ask::Delete(folder)
            &&& clean::ask_of(measuring) == Ask::Measure
            &&& clean::answered(measuring, AnswerView::Measured { free }).1 == seq![
                EventView::Finished { free },
            ]
            &&& clean::after(measuring, AnswerView::Measured { free }).phase matches PhaseView::Ended {
                result: Ok(report),
            } && report.free == free && report.removed == count_gone(gone) && report.bytes == if bytes_gone(
                asked,
                gone,
            ) <= u64::MAX {
                bytes_gone(asked, gone)
            } else {
                u64::MAX as int
            }
        }),
{
    let n = listing_laws::filler_in(l).len();
    let doomed = clean::doomed_of(l);
    lemma_doomed(l);
    lemma_carried_out(dir, folder, l, gone);
    let (end, events, asked) = carried_out(listed(dir, folder, l), gone);
    assert(doomed.skip(gone.len() as int) =~= Seq::<Doomed>::empty());
    lemma_marker_stands(l);
    lemma_counts(asked, gone);
}

/// A folder that is not there has nothing to clean: free space is read, and that is all.
/// Otherwise the first folder of that name is what is listed.
pub proof fn law_a_clean_begins_with_the_folder(dir: Seq<char>, root: Seq<Entry>, free: u64)
    ensures
        ({
            let start = CleanState { dir, phase: PhaseView::Locating };
            let found = clean::after(start, AnswerView::Listing(root));
            &&& clean::ask_of(start) == Ask::ListRoot
            &&& clean::answered(start, AnswerView::Listing(root)).1.len() == 0
            &&& match listing::folder_named(root, dir) {
                Some(folder) => clean::ask_of(found) == Ask::List(folder) && found == (CleanState {
                    dir,
                    phase: PhaseView::Surveying { folder },
                }),
                None => clean::ask_of(found) == Ask::Measure && clean::after(
                    found,
                    AnswerView::Measured { free },
                ).phase == (PhaseView::Ended {
                    result: Ok(CleanReport { free, removed: 0, bytes: 0 }),
                }),
            }
        }),
{
}

/// Whatever fails ends the clean with that failure, and nothing more becomes known.
pub proof fn law_a_failure_ends_the_clean(s: CleanState, error: Fault)
    requires
        !(s.phase is Ended),
    ensures
        clean::after(s, AnswerView::Failed(error)).phase == (PhaseView::Ended {
            result: Err(error),
        }),
        clean::answered(s, AnswerView::Failed(error)).1.len() == 0,
{
}

proof fn lemma_doomed(l: Seq<Entry>)
    ensures
        ({
            let doomed = clean::doomed_of(l);
            let n = listing_laws::filler_in(l).len();
            &&& listing::fillers_of(l).len() == n
            &&& doomed.len() == n + left_behind(l).len()
            &&& n + left_behind(l).len() <= l.len()
            &&& forall|i: int|
                0 <= i < n ==> (#[trigger] doomed[i]) == (Doomed {
                    entry: listing::fillers_of(l)[i],
                    kind: DeletedKind::Filler,
                })
            &&& forall|i: int|
                n <= i < doomed.len() ==> (#[trigger] doomed[i]) == (Doomed {
                    entry: left_behind(l)[i - n],
                    kind: DeletedKind::Interrupted,
                })
        }),
{
    order::law_sorted(listing_laws::filler_in(l));
    let one = |e: Entry| !listing::is_filler(e) && !listing::is_marker(e) && !e.is_dir;
    let other = |e: Entry| listing::is_foreign(e) && !e.is_dir;
    lemma_same_filter(l, one, other);
    assert(left_behind(l) =~= listing::debris_of(l));
    lemma_parts_fit(l);
}

proof fn lemma_same_filter(s: Seq<Entry>, a: spec_fn(Entry) -> bool, b: spec_fn(Entry) -> bool)
    requires
        forall|e: Entry| #[trigger] a(e) == b(e),
    ensures
        s.filter(a) == s.filter(b),
    decreases s.len(),
{
    if s.len() == 0 {
        reveal(Seq::filter);
        assert(s.filter(a) =~= s.filter(b));
    } else {
        lemma_same_filter(s.drop_last(), a, b);
        order::lemma_filter_push(s.drop_last(), s.last(), a);
        order::lemma_filter_push(s.drop_last(), s.last(), b);
        assert(s.drop_last().push(s.last()) =~= s);
    }
}

proof fn lemma_parts_fit(l: Seq<Entry>)
    ensures
        listing_laws::filler_in(l).len() + foreign_files(l).len() <= l.len(),
    decreases l.len(),
{
    let filler = |e: Entry| listing::is_filler(e);
    let foreign = |e: Entry|
        !listing::is_filler(e) && !listing::is_marker(e) && !e.is_dir;
    if l.len() == 0 {
        reveal(Seq::filter);
    } else {
        let rest = l.drop_last();
        lemma_parts_fit(rest);
        order::lemma_filter_push(rest, l.last(), filler);
        order::lemma_filter_push(rest, l.last(), foreign);
        assert(rest.push(l.last()) =~= l);
    }
}

proof fn lemma_marker_stands(l: Seq<Entry>)
    ensures
        clean::marker_of(l) is Some <==> exists|i: int|
            0 <= i < l.len() && listing::is_marker(#[trigger] l[i]),
        clean::marker_of(l) matches Some(m) ==> listing::is_marker(m) && l.contains(m),
    decreases l.len(),
{
    clean::lemma_marker_of(l);
    if l.len() > 0 {
        let rest = l.drop_first();
        lemma_marker_stands(rest);
        if listing::is_marker(l[0]) {
            assert(l.contains(l[0]));
        } else if let Some(m) = clean::marker_of(rest) {
            let i = choose|i: int| 0 <= i < rest.len() && rest[i] == m;
            assert(l[i + 1] == m);
        }
    }
}

proof fn lemma_counts(entries: Seq<Entry>, gone: Seq<bool>)
    ensures
        count_gone(gone) <= gone.len(),
        bytes_gone(entries, gone) >= 0,
    decreases gone.len(),
{
    if gone.len() > 0 {
        lemma_counts(entries, gone.drop_last());
    }
}

/// The entries that are doomed.
spec fn entries_of(doomed: Seq<Doomed>) -> Seq<Entry> {
    doomed.map_values(|d: Doomed| d.entry)
}

proof fn lemma_carried_out(dir: Seq<char>, folder: Entry, l: Seq<Entry>, gone: Seq<bool>)
    requires
        l.len() <= usize::MAX,
        gone.len() <= clean::doomed_of(l).len(),
    ensures
        ({
            let n = listing_laws::filler_in(l).len();
            let doomed = clean::doomed_of(l);
            let (end, events, asked) = carried_out(listed(dir, folder, l), gone);
            &&& asked == entries_of(doomed).take(gone.len() as int)
            &&& events.len() == gone.len()
            &&& forall|i: int|
                0 <= i < events.len() ==> #[trigger] events[i] == if gone[i] {
                    EventView::Deleted {
                        name: asked[i].name@,
                        bytes: asked[i].bytes,
                        kind: if i < n {
                            DeletedKind::Filler
                        } else {
                            DeletedKind::Interrupted
                        },
                    }
                } else {
                    EventView::DeleteRefused { name: asked[i].name@, bytes: asked[i].bytes }
                }
            &&& end == (CleanState {
                dir,
                phase: clean::onward(
                    folder,
                    doomed.skip(gone.len() as int),
                    clean::marker_of(l),
                    Tally {
                        removed: count_gone(gone) as usize,
                        bytes: listing::capped(bytes_gone(asked, gone)),
                        stuck: exists|i: int| n <= i < gone.len() && !#[trigger] gone[i],
                    },
                ),
            })
        }),
    decreases gone.len(),
{
    let n = listing_laws::filler_in(l).len();
    let doomed = clean::doomed_of(l);
    lemma_doomed(l);
    if gone.len() == 0 {
        assert(doomed.skip(0) =~= doomed);
        assert(entries_of(doomed).take(0) =~= Seq::<Entry>::empty());
    } else {
        let rest = gone.drop_last();
        lemma_carried_out(dir, folder, l, rest);
        let (before, told, asked) = carried_out(listed(dir, folder, l), rest);
        let m = rest.len() as int;
        lemma_counts(asked, rest);
        assert(doomed.skip(m)[0] == doomed[m]);
        assert(doomed.skip(m).drop_first() =~= doomed.skip(m + 1));
        let now = carried_out(listed(dir, folder, l), gone);
        assert(now.2 =~= entries_of(doomed).take(m + 1));
        assert(now.2.take(asked.len() as int) =~= asked);
        lemma_bytes_of_more(asked, now.2, rest);
        assert(now.2[m] == doomed[m].entry);
        let was = exists|i: int| n <= i < rest.len() && !#[trigger] rest[i];
        let is = exists|i: int| n <= i < gone.len() && !#[trigger] gone[i];
        assert(is == (was || (m >= n && !gone[m]))) by {
            if was {
                let i = choose|i: int| n <= i < rest.len() && !#[trigger] rest[i];
                assert(!gone[i]);
            }
            if is {
                let i = choose|i: int| n <= i < gone.len() && !#[trigger] gone[i];
                if i < m {
                    assert(!rest[i]);
                }
            }
        }
        assert forall|i: int| 0 <= i < now.1.len() implies #[trigger] now.1[i] == if gone[i] {
            EventView::Deleted {
                name: now.2[i].name@,
                bytes: now.2[i].bytes,
                kind: if i < n {
                    DeletedKind::Filler
                } else {
                    DeletedKind::Interrupted
                },
            }
        } else {
            EventView::DeleteRefused { name: now.2[i].name@, bytes: now.2[i].bytes }
        } by {
            if i < m {
                assert(now.1[i] == told[i]);
                assert(now.2[i] == asked[i]);
                assert(rest[i] == gone[i]);
            }
        }
    }
}

proof fn lemma_bytes_of_more(a: Seq<Entry>, b: Seq<Entry>, gone: Seq<bool>)
    requires
        gone.len() <= a.len(),
        a.len() <= b.len(),
        b.take(a.len() as int) == a,
    ensures
        bytes_gone(a, gone) == bytes_gone(b, gone),
    decreases gone.len(),
{
    if gone.len() > 0 {
        lemma_bytes_of_more(a, b, gone.drop_last());
        assert(b.take(a.len() as int)[gone.len() - 1] == b[gone.len() - 1]);
    }
}

} // verus!
