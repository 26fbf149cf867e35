//! What the listings are, said of the entries one by one.

use crate::listing;
use crate::listing::{Entry, FillerFolder, RootEntry};
use crate::names;
use crate::order;
use crate::order::Ranked;
use crate::text;
use vstd::prelude::*;
use vstd::seq_lib;

verus! {

/// How often a value is left after filtering: as often as before if it passes, else never.
pub proof fn lemma_filter_counts<T>(s: Seq<T>, keep: spec_fn(T) -> bool, e: T)
    ensures
        s.filter(keep).to_multiset().count(e) == if keep(e) {
            s.to_multiset().count(e)
        } else {
            0
        },
    decreases s.len(),
{
    broadcast use seq_lib::group_to_multiset_ensures;

    if s.len() == 0 {
        reveal(Seq::filter);
        assert(s.filter(keep) =~= s);
    } else {
        let rest = s.drop_last();
        lemma_filter_counts(rest, keep, e);
        order::lemma_filter_push(rest, s.last(), keep);
        assert(rest.push(s.last()) =~= s);
    }
}

/// An entry is filler exactly where it is a regular file under a name that this tool would
/// write.
pub proof fn law_filler_is_a_file_under_a_filler_name(e: Entry)
    ensures
        listing::is_filler(e) <==> e.is_file && exists|n: u32|
            e.name@ == "fill_"@ + #[trigger] text::padded(n as nat, 4) + ".bin"@,
{
    names::law_filler_names_are_all_of_that_form(e.name@, 0);
}

/// The marker is a regular file of that one name.
pub proof fn law_the_marker_is_a_file_of_that_name(e: Entry)
    ensures
        listing::is_marker(e) <==> e.is_file && e.name@ == "kindlefill_inflight.txt"@,
        listing::is_foreign(e) <==> !listing::is_filler(e) && !(e.is_file && e.name@
            == "kindlefill_inflight.txt"@),
{
}

/// A staged image is anything but a folder whose name has the shape.
pub proof fn law_an_update_is_no_folder_and_has_the_shape(e: Entry)
    ensures
        listing::is_update(e) <==> !e.is_dir && exists|mid: Seq<char>|
            text::lowered(e.name@) == #[trigger] ("update_"@ + mid + ".bin"@),
{
    names::law_staged_updates_are_all_of_that_form(e.name@);
}

/// Listing the filler leaves none out, adds none, and goes by name; entries under the same
/// name stay in the order they were listed in.
pub proof fn law_all_filler_is_listed_by_name(l: Seq<Entry>, e: Entry)
    ensures
        listing::fillers_of(l).to_multiset().count(e) == if listing::is_filler(e) {
            l.to_multiset().count(e)
        } else {
            0
        },
        forall|i: int, j: int|
            0 <= i < j < listing::fillers_of(l).len() ==> text::precedes(
                (#[trigger] listing::fillers_of(l)[i]).name@,
                (#[trigger] listing::fillers_of(l)[j]).name@,
            ),
{
    let keep = |e: Entry| listing::is_filler(e);
    lemma_filter_counts(l, keep, e);
    order::law_sorted(l.filter(keep));
    let f = listing::fillers_of(l);
    assert forall|i: int, j: int| 0 <= i < j < f.len() implies text::precedes(
        (#[trigger] f[i]).name@,
        (#[trigger] f[j]).name@,
    ) by {
        assert(f[i].before(f[j]));
    }
}

/// Listing the staged images leaves none out, adds none, and goes by name.
pub proof fn law_all_updates_are_listed_by_name(root: Seq<Entry>, e: Entry)
    ensures
        listing::updates_of(root).to_multiset().count(e) == if !e.is_dir && exists|
            mid: Seq<char>,
        | text::lowered(e.name@) == #[trigger] ("update_"@ + mid + ".bin"@) {
            root.to_multiset().count(e)
        } else {
            0
        },
        forall|i: int, j: int|
            0 <= i < j < listing::updates_of(root).len() ==> text::precedes(
                (#[trigger] listing::updates_of(root)[i]).name@,
                (#[trigger] listing::updates_of(root)[j]).name@,
            ),
{
    let keep = |e: Entry| listing::is_update(e);
    law_an_update_is_no_folder_and_has_the_shape(e);
    lemma_filter_counts(root, keep, e);
    order::law_sorted(root.filter(keep));
    let f = listing::updates_of(root);
    assert forall|i: int, j: int| 0 <= i < j < f.len() implies text::precedes(
        (#[trigger] f[i]).name@,
        (#[trigger] f[j]).name@,
    ) by {
        assert(f[i].before(f[j]));
    }
}

/// What is not ours is listed as it comes: an entry more in the folder is one more at the
/// end of the list if it is neither filler nor the marker, and changes nothing otherwise.
pub proof fn law_foreign_content_is_listed_as_it_comes(l: Seq<Entry>, e: Entry)
    ensures
        listing::foreign_of(Seq::<Entry>::empty()) == Seq::<Entry>::empty(),
        listing::foreign_of(l.push(e)) == if listing::is_filler(e) || listing::is_marker(e) {
            listing::foreign_of(l)
        } else {
            listing::foreign_of(l).push(e)
        },
{
    reveal(Seq::filter);
    order::lemma_filter_push(l, e, |e: Entry| listing::is_foreign(e));
}

/// What an interrupted fill left behind: with a marker in the folder every file that is
/// not ours, in the order it was listed in; without one, nothing at all.
pub proof fn law_debris_is_foreign_files_beside_a_marker(l: Seq<Entry>, e: Entry)
    ensures
        (forall|i: int| 0 <= i < l.len() ==> !listing::is_marker(#[trigger] l[i]))
            ==> listing::debris_of(l).len() == 0,
        (exists|i: int| 0 <= i < l.len() && listing::is_marker(#[trigger] l[i])) ==> {
            &&& listing::debris_of(l).to_multiset().count(e) == if listing::is_filler(e)
                || listing::is_marker(e) || e.is_dir {
                0
            } else {
                l.to_multiset().count(e)
            }
            &&& listing::debris_of(l.push(e)) == if listing::is_filler(e) || listing::is_marker(e)
                || e.is_dir {
                listing::debris_of(l)
            } else {
                listing::debris_of(l).push(e)
            }
        },
{
    let keep = |e: Entry| listing::is_foreign(e) && !e.is_dir;
    lemma_filter_counts(l, keep, e);
    order::lemma_filter_push(l, e, keep);
    if exists|i: int| 0 <= i < l.len() && listing::is_marker(#[trigger] l[i]) {
        let i = choose|i: int| 0 <= i < l.len() && listing::is_marker(#[trigger] l[i]);
        assert(l.push(e)[i] == l[i]);
    }
}

/// A folder is found by its exact name, the first of several, and anything else of that
/// name is passed over; none is found only where there is none.
pub proof fn law_a_folder_is_found_by_its_name(root: Seq<Entry>, name: Seq<char>)
    ensures
        match listing::folder_named(root, name) {
            Some(d) => exists|i: int|
                {
                    &&& 0 <= i < root.len()
                    &&& #[trigger] root[i] == d
                    &&& d.is_dir
                    &&& d.name@ == name
                    &&& forall|j: int|
                        0 <= j < i ==> !((#[trigger] root[j]).is_dir && root[j].name@ == name)
                },
            None => forall|j: int|
                0 <= j < root.len() ==> !((#[trigger] root[j]).is_dir && root[j].name@ == name),
        },
    decreases root.len(),
{
    if root.len() > 0 {
        let rest = root.drop_first();
        if root[0].is_dir && root[0].name@ == name {
            assert(root[0] == listing::folder_named(root, name)->0);
        } else {
            law_a_folder_is_found_by_its_name(rest, name);
            match listing::folder_named(rest, name) {
                Some(d) => {
                    let i = choose|i: int|
                        {
                            &&& 0 <= i < rest.len()
                            &&& #[trigger] rest[i] == d
                            &&& d.is_dir
                            &&& d.name@ == name
                            &&& forall|j: int|
                                0 <= j < i ==> !((#[trigger] rest[j]).is_dir && rest[j].name@
                                    == name)
                        };
                    assert(root[i + 1] == d);
                    assert forall|j: int| 0 <= j < i + 1 implies !((#[trigger] root[j]).is_dir
                        && root[j].name@ == name) by {
                        if j > 0 {
                            assert(rest[j - 1] == root[j]);
                        }
                    }
                },
                None => {
                    assert forall|j: int| 0 <= j < root.len() implies !((
                    #[trigger] root[j]).is_dir && root[j].name@ == name) by {
                        if j > 0 {
                            assert(rest[j - 1] == root[j]);
                        }
                    }
                },
            }
        }
    }
}

/// What entries hold adds up: nothing holds nothing, one holds its bytes, and two lists
/// together hold what each of them does.
pub proof fn law_bytes_add_up(a: Seq<Entry>, b: Seq<Entry>, e: Entry)
    ensures
        listing::total_bytes(Seq::<Entry>::empty()) == 0,
        listing::total_bytes(seq![e]) == e.bytes,
        listing::total_bytes(a + b) == listing::total_bytes(a) + listing::total_bytes(b),
        listing::total_bytes(a) >= 0,
    decreases a.len() + b.len(),
{
    reveal_with_fuel(listing::total_bytes, 2);
    assert(seq![e].drop_last() =~= Seq::<Entry>::empty());
    if b.len() > 0 {
        law_bytes_add_up(a, b.drop_last(), e);
        assert((a + b).drop_last() =~= a + b.drop_last());
    } else {
        assert(a + b =~= a);
        if a.len() > 0 {
            law_bytes_add_up(a.drop_last(), Seq::empty(), e);
        }
    }
}

/// A count of bytes stops at the largest there is, and below that is what it is.
pub proof fn law_counts_stop_at_the_largest(n: int)
    ensures
        0 <= n <= 0xffff_ffff_ffff_ffff ==> listing::capped(n) == n,
        n > 0xffff_ffff_ffff_ffff ==> listing::capped(n) == 0xffff_ffff_ffff_ffffu64,
{
}

/// The filler in a listing.
pub open spec fn filler_in(l: Seq<Entry>) -> Seq<Entry> {
    l.filter(|e: Entry| listing::is_filler(e))
}

/// The entry is a folder that could be read, with filler in it.
pub open spec fn holds_filler(r: RootEntry) -> bool {
    r.entry.is_dir && r.contents is Some && filler_in(r.contents->0@).len() > 0
}

/// `f` tells of the folder `r`: its name, how many files of filler are in it, and what all
/// of them hold together.
pub open spec fn tells_of(f: FillerFolder, r: RootEntry) -> bool {
    let inside = filler_in(r.contents->0@);
    &&& f.name@ == r.entry.name@
    &&& f.files == inside.len()
    &&& f.bytes == if listing::total_bytes(inside) <= u64::MAX {
        listing::total_bytes(inside)
    } else {
        u64::MAX as int
    }
}

/// Every folder at the root that holds filler is reported exactly once, under its name,
/// with the number of its filler files and the sum of all their sizes; no other is. The
/// fullest comes first, and of folders that hold the same the one whose name does.
/// `places` is where in the root each one stands.
pub proof fn law_every_folder_with_filler_is_reported_once(root: Seq<RootEntry>) -> (places: Seq<
    int,
>)
    ensures
        ({
            let found = listing::filler_folders_of(root);
            &&& places.len() == found.len()
            &&& forall|k: int|
                0 <= k < found.len() ==> 0 <= #[trigger] places[k] < root.len() && holds_filler(
                    root[places[k]],
                ) && tells_of(found[k], root[places[k]])
            &&& forall|j: int, k: int|
                0 <= j < k < found.len() ==> #[trigger] places[j] != #[trigger] places[k]
            &&& forall|i: int|
                0 <= i < root.len() && holds_filler(#[trigger] root[i]) ==> places.contains(i)
            &&& forall|j: int, k: int|
                0 <= j < k < found.len() ==> {
                    ||| (#[trigger] found[j]).bytes > (#[trigger] found[k]).bytes
                    ||| found[j].bytes == found[k].bytes && text::precedes(
                        found[j].name@,
                        found[k].name@,
                    )
                }
        }),
{
    let plain = listing::folder_summaries(root);
    let found = listing::filler_folders_of(root);
    let at = lemma_summaries(root);
    order::law_sorted(plain);
    let turn = lemma_rearranged(found, plain);
    let places = Seq::new(found.len(), |k: int| at[turn[k]]);
    assert forall|k: int| 0 <= k < found.len() implies 0 <= #[trigger] places[k] < root.len()
        && holds_filler(root[places[k]]) && tells_of(found[k], root[places[k]]) by {
        assert(found[k] == plain[turn[k]]);
        assert(0 <= at[turn[k]] < root.len());
    }
    assert forall|j: int, k: int| 0 <= j < k < found.len() implies #[trigger] places[j]
        != #[trigger] places[k] by {
        assert(turn[j] != turn[k]);
        if turn[j] < turn[k] {
            assert(at[turn[j]] < at[turn[k]]);
        } else {
            assert(at[turn[k]] < at[turn[j]]);
        }
    }
    assert forall|i: int| 0 <= i < root.len() && holds_filler(#[trigger] root[i]) implies places.contains(
        i,
    ) by {
        assert(at.contains(i));
        let m = choose|m: int| 0 <= m < at.len() && at[m] == i;
        assert(turn.contains(m));
        let k = choose|k: int| 0 <= k < turn.len() && turn[k] == m;
        assert(places[k] == i);
    }
    assert forall|j: int, k: int| 0 <= j < k < found.len() implies {
        ||| (#[trigger] found[j]).bytes > (#[trigger] found[k]).bytes
        ||| found[j].bytes == found[k].bytes && text::precedes(found[j].name@, found[k].name@)
    } by {
        assert(found[j].before(found[k]));
    }
    places
}

/// The summaries tell of the folders that hold filler, in the order of the root.
proof fn lemma_summaries(root: Seq<RootEntry>) -> (at: Seq<int>)
    ensures
        at.len() == listing::folder_summaries(root).len(),
        forall|k: int|
            0 <= k < at.len() ==> 0 <= #[trigger] at[k] < root.len() && holds_filler(root[at[k]])
                && tells_of(listing::folder_summaries(root)[k], root[at[k]]),
        forall|j: int, k: int| 0 <= j < k < at.len() ==> #[trigger] at[j] < #[trigger] at[k],
        forall|i: int| 0 <= i < root.len() && holds_filler(#[trigger] root[i]) ==> at.contains(i),
    decreases root.len(),
{
    if root.len() == 0 {
        Seq::empty()
    } else {
        let rest = root.drop_last();
        let before = lemma_summaries(rest);
        let r = root.last();
        let n = rest.len() as int;
        assert(root[n] == r);
        assert forall|i: int| 0 <= i < rest.len() implies #[trigger] rest[i] == root[i] by {}
        if r.entry.is_dir && r.contents is Some {
            assert(r.contents->0@.len() == r.contents->0.len());
            order::law_sorted(filler_in(r.contents->0@));
            lemma_filter_shortens(r.contents->0@);
            law_bytes_add_up(listing::held_fillers(r), Seq::empty(), r.entry);
            listing::lemma_total_of_permutation(
                listing::held_fillers(r),
                filler_in(r.contents->0@),
            );
        }
        let at = if holds_filler(r) {
            before.push(n)
        } else {
            before
        };
        assert forall|k: int| 0 <= k < at.len() implies 0 <= #[trigger] at[k] < root.len()
            && holds_filler(root[at[k]]) && tells_of(
            listing::folder_summaries(root)[k],
            root[at[k]],
        ) by {
            if k < before.len() {
                assert(at[k] == before[k]);
                assert(listing::folder_summaries(root)[k] == listing::folder_summaries(rest)[k]);
                assert(rest[before[k]] == root[before[k]]);
            }
        }
        assert forall|j: int, k: int| 0 <= j < k < at.len() implies #[trigger] at[j]
            < #[trigger] at[k] by {
            assert(at[j] == before[j]);
            if k < before.len() {
                assert(at[k] == before[k]);
            }
        }
        assert forall|i: int| 0 <= i < root.len() && holds_filler(#[trigger] root[i]) implies at.contains(
            i,
        ) by {
            if i < n {
                assert(holds_filler(rest[i]));
                let k = choose|k: int| 0 <= k < before.len() && before[k] == i;
                assert(at[k] == i);
            } else {
                assert(at[at.len() - 1] == n);
            }
        }
        at
    }
}

proof fn lemma_filter_shortens(l: Seq<Entry>)
    ensures
        filler_in(l).len() <= l.len(),
    decreases l.len(),
{
    let keep = |e: Entry| listing::is_filler(e);
    if l.len() == 0 {
        reveal(Seq::filter);
    } else {
        lemma_filter_shortens(l.drop_last());
        order::lemma_filter_push(l.drop_last(), l.last(), keep);
        assert(l.drop_last().push(l.last()) =~= l);
    }
}

/// Two sequences that hold the same, each value as often, are rearrangements of each
/// other.
pub proof fn lemma_rearranged<T>(a: Seq<T>, b: Seq<T>) -> (turn: Seq<int>)
    requires
        a.to_multiset() == b.to_multiset(),
    ensures
        turn.len() == a.len(),
        a.len() == b.len(),
        forall|k: int| 0 <= k < a.len() ==> 0 <= #[trigger] turn[k] < b.len() && a[k] == b[turn[k]],
        forall|j: int, k: int| 0 <= j < k < a.len() ==> #[trigger] turn[j] != #[trigger] turn[k],
        forall|m: int| 0 <= m < b.len() ==> turn.contains(m),
    decreases a.len(),
{
    broadcast use seq_lib::group_to_multiset_ensures;

    assert(a.len() == a.to_multiset().len());
    assert(b.len() == b.to_multiset().len());
    if a.len() == 0 {
        Seq::empty()
    } else {
        let x = a.last();
        assert(a.to_multiset().count(x) > 0);
        assert(b.contains(x));
        let i = choose|i: int| 0 <= i < b.len() && b[i] == x;
        let a2 = a.drop_last();
        let b2 = b.remove(i);
        assert(a2.push(x) =~= a);
        b.to_multiset_ensures();
        assert(a2.to_multiset() =~= b2.to_multiset());
        let before = lemma_rearranged(a2, b2);
        let turn = Seq::new(
            a.len(),
            |k: int|
                if k < a2.len() {
                    if before[k] < i {
                        before[k]
                    } else {
                        before[k] + 1
                    }
                } else {
                    i
                },
        );
        assert forall|k: int| 0 <= k < a.len() implies 0 <= #[trigger] turn[k] < b.len() && a[k]
            == b[turn[k]] by {
            if k < a2.len() {
                assert(a2[k] == b2[before[k]]);
                assert(0 <= before[k] < b2.len());
            }
        }
        assert forall|j: int, k: int| 0 <= j < k < a.len() implies #[trigger] turn[j]
            != #[trigger] turn[k] by {
            if k < a2.len() {
                assert(before[j] != before[k]);
            }
        }
        assert forall|m: int| 0 <= m < b.len() implies turn.contains(m) by {
            if m == i {
                assert(turn[a.len() - 1] == m);
            } else {
                let m2 = if m < i {
                    m
                } else {
                    m - 1
                };
                assert(before.contains(m2));
                let k = choose|k: int| 0 <= k < before.len() && before[k] == m2;
                assert(turn[k] == m);
            }
        }
        turn
    }
}

/// Filler elsewhere is filler in every other folder, in the order it was found in.
pub proof fn law_elsewhere_is_every_other_folder(
    folders: Seq<FillerFolder>,
    f: FillerFolder,
    name: Seq<char>,
)
    ensures
        listing::elsewhere_of(Seq::<FillerFolder>::empty(), name) == Seq::<FillerFolder>::empty(),
        listing::elsewhere_of(folders.push(f), name) == if f.name@ == name {
            listing::elsewhere_of(folders, name)
        } else {
            listing::elsewhere_of(folders, name).push(f)
        },
{
    reveal(Seq::filter);
    order::lemma_filter_push(folders, f, listing::called_otherwise(name));
}

/// Numbering goes on one above the highest number in use, which some entry has and none
/// exceeds; where no entry has one, from zero.
pub proof fn law_numbering_goes_on_above_the_highest(existing: Seq<Entry>)
    ensures
        listing::next_sequence_of(existing) == 0 ==> forall|i: int|
            0 <= i < existing.len() ==> names::sequence_of((#[trigger] existing[i]).name@) is None,
        listing::next_sequence_of(existing) > 0 ==> exists|i: int|
            0 <= i < existing.len() && names::sequence_of((#[trigger] existing[i]).name@) == Some(
                (listing::next_sequence_of(existing) - 1) as u32,
            ),
        forall|i: int|
            0 <= i < existing.len() ==> (names::sequence_of((#[trigger] existing[i]).name@) matches Some(
                n,
            ) ==> n < listing::next_sequence_of(existing)),
        0 <= listing::next_sequence_of(existing) <= 0x1_0000_0000,
    decreases existing.len(),
{
    if existing.len() > 0 {
        let rest = existing.drop_last();
        law_numbering_goes_on_above_the_highest(rest);
        let top = existing.len() - 1;
        assert forall|i: int| 0 <= i < rest.len() implies #[trigger] rest[i] == existing[i] by {}
        let n = listing::next_sequence_of(existing);
        if n > 0 {
            if names::sequence_of(existing[top].name@) == Some((n - 1) as u32) {
            } else {
                assert(listing::next_sequence_of(rest) == n);
                let i = choose|i: int|
                    0 <= i < rest.len() && names::sequence_of((#[trigger] rest[i]).name@) == Some(
                        (n - 1) as u32,
                    );
                assert(existing[i] == rest[i]);
            }
        }
        assert forall|i: int| 0 <= i < existing.len() implies (names::sequence_of(
            (#[trigger] existing[i]).name@,
        ) matches Some(m) ==> m < n) by {
            if i < top {
                assert(rest[i] == existing[i]);
            }
        }
    }
}

/// The highest sequence number is one of those in use, and none in use is higher; there is
/// none exactly where no name is that of filler. The next one follows on it.
pub proof fn law_the_highest_number_is_in_use(existing: Seq<Entry>)
    ensures
        match listing::highest_of(existing) {
            Some(h) => {
                &&& exists|i: int|
                    0 <= i < existing.len() && names::sequence_of((#[trigger] existing[i]).name@)
                        == Some(h)
                &&& forall|i: int|
                    0 <= i < existing.len() ==> (names::sequence_of(
                        (#[trigger] existing[i]).name@,
                    ) matches Some(n) ==> n <= h)
                &&& listing::next_sequence_of(existing) == h + 1
            },
            None => {
                &&& forall|i: int|
                    0 <= i < existing.len() ==> names::sequence_of(
                        (#[trigger] existing[i]).name@,
                    ) is None
                &&& listing::next_sequence_of(existing) == 0
            },
        },
{
    law_numbering_goes_on_above_the_highest(existing);
}

} // verus!
