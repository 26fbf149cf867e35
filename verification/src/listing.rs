//! What a folder listing says: which entries are filler, which are someone else's, and
//! which are staged firmware images.
//!
//! A listing is whatever the device answered, in whatever order; nothing here recurses
//! or looks further than the entries it is given.

use crate::names;
use crate::names::{filler_sequence, is_inflight_marker, is_staged_update};
use crate::order;
use crate::order::{sort, Ranked};
use crate::text;
use crate::text::{in_order, same};
use vstd::prelude::*;

verus! {

/// One entry of a folder listing, as either transport reports it.
#[derive(Debug, PartialEq, Eq)]
pub struct Entry {
    /// The transport's handle for the entry.
    pub id: u64,
    pub name: String,
    pub bytes: u64,
    pub is_dir: bool,
    /// A regular file: neither a folder nor something that merely wears a name, such
    /// as a symbolic link.
    pub is_file: bool,
}

impl Clone for Entry {
    fn clone(&self) -> (copy: Self)
        ensures
            copy == *self,
    {
        Entry {
            id: self.id,
            name: self.name.clone(),
            bytes: self.bytes,
            is_dir: self.is_dir,
            is_file: self.is_file,
        }
    }
}

/// Entries rank by name.
impl Ranked for Entry {
    open spec fn before(self, other: Self) -> bool {
        text::precedes(self.name@, other.name@)
    }

    proof fn ranks_all(a: Self, b: Self) {
        text::lemma_precedes_total(a.name@, b.name@);
    }

    proof fn ranks_through(a: Self, b: Self, c: Self) {
        text::lemma_precedes_transitive(a.name@, b.name@, c.name@);
    }

    fn is_before(&self, other: &Self) -> (yes: bool) {
        in_order(self.name.as_str(), other.name.as_str())
    }
}

/// The entry is filler that this tool wrote.
pub open spec fn is_filler(e: Entry) -> bool {
    e.is_file && names::sequence_of(e.name@) is Some
}

/// The entry is the marker of a fill underway.
pub open spec fn is_marker(e: Entry) -> bool {
    e.is_file && e.name@ == names::INFLIGHT_MARKER@
}

/// The entry is not ours.
pub open spec fn is_foreign(e: Entry) -> bool {
    !is_filler(e) && !is_marker(e)
}

/// The entry is a staged firmware image, provided that it stands at the storage root.
pub open spec fn is_update(e: Entry) -> bool {
    !e.is_dir && names::staged_update_shape(e.name@)
}

/// The filler in a folder, by name.
pub open spec fn fillers_of(listing: Seq<Entry>) -> Seq<Entry> {
    order::sorted(listing.filter(|e: Entry| is_filler(e)))
}

/// What is not ours in a folder, as it was listed.
pub open spec fn foreign_of(listing: Seq<Entry>) -> Seq<Entry> {
    listing.filter(|e: Entry| is_foreign(e))
}

/// The staged firmware images at the storage root, by name.
pub open spec fn updates_of(root: Seq<Entry>) -> Seq<Entry> {
    order::sorted(root.filter(|e: Entry| is_update(e)))
}

pub fn filler_entry(e: &Entry) -> (yes: bool)
    ensures
        yes == is_filler(*e),
{
    e.is_file && filler_sequence(e.name.as_str()).is_some()
}

pub fn marker_entry(e: &Entry) -> (yes: bool)
    ensures
        yes == is_marker(*e),
{
    e.is_file && is_inflight_marker(e.name.as_str())
}

/// Filler currently in a folder.
///
/// Only files this tool would have written are matched. Anything else in the folder is
/// left strictly alone: a clean must never delete a stray book.
pub fn list_fillers(listing: &Vec<Entry>) -> (fillers: Vec<Entry>)
    ensures
        fillers@ == fillers_of(listing@),
{
    let ghost keep = |e: Entry| is_filler(e);
    let mut found: Vec<Entry> = Vec::new();
    let mut i: usize = 0;
    proof {
        reveal(Seq::filter);
    }
    while i < listing.len()
        invariant
            i <= listing.len(),
            keep == (|e: Entry| is_filler(e)),
            found@ == listing@.take(i as int).filter(keep),
        decreases listing.len() - i,
    {
        proof {
            order::lemma_filter_push(listing@.take(i as int), listing@[i as int], keep);
            assert(listing@.take(i + 1) =~= listing@.take(i as int).push(listing@[i as int]));
        }
        if filler_entry(&listing[i]) {
            found.push(listing[i].clone());
        }
        i += 1;
    }
    assert(listing@.take(i as int) =~= listing@);
    sort(found)
}

/// Everything in a folder that is *not* ours, so a caller can refuse to touch a folder
/// someone else's content is living in. The in-flight marker is ours.
pub fn list_foreign(listing: &Vec<Entry>) -> (foreign: Vec<Entry>)
    ensures
        foreign@ == foreign_of(listing@),
{
    let ghost keep = |e: Entry| is_foreign(e);
    let mut found: Vec<Entry> = Vec::new();
    let mut i: usize = 0;
    proof {
        reveal(Seq::filter);
    }
    while i < listing.len()
        invariant
            i <= listing.len(),
            keep == (|e: Entry| is_foreign(e)),
            found@ == listing@.take(i as int).filter(keep),
        decreases listing.len() - i,
    {
        proof {
            order::lemma_filter_push(listing@.take(i as int), listing@[i as int], keep);
            assert(listing@.take(i + 1) =~= listing@.take(i as int).push(listing@[i as int]));
        }
        if !filler_entry(&listing[i]) && !marker_entry(&listing[i]) {
            found.push(listing[i].clone());
        }
        i += 1;
    }
    assert(listing@.take(i as int) =~= listing@);
    found
}

/// Staged over-the-air firmware images at the storage root.
///
/// Read-only: this reports what is there. Deleting any of it needs
/// [`crate::updates::doomed_updates`] and an explicit list of names from the user.
pub fn list_staged_updates(root: &Vec<Entry>) -> (updates: Vec<Entry>)
    ensures
        updates@ == updates_of(root@),
{
    let ghost keep = |e: Entry| is_update(e);
    let mut found: Vec<Entry> = Vec::new();
    let mut i: usize = 0;
    proof {
        reveal(Seq::filter);
    }
    while i < root.len()
        invariant
            i <= root.len(),
            keep == (|e: Entry| is_update(e)),
            found@ == root@.take(i as int).filter(keep),
        decreases root.len() - i,
    {
        proof {
            order::lemma_filter_push(root@.take(i as int), root@[i as int], keep);
            assert(root@.take(i + 1) =~= root@.take(i as int).push(root@[i as int]));
        }
        if !root[i].is_dir && is_staged_update(root[i].name.as_str()) {
            found.push(root[i].clone());
        }
        i += 1;
    }
    assert(root@.take(i as int) =~= root@);
    sort(found)
}

/// The listing holds the marker.
pub open spec fn holds_marker(listing: Seq<Entry>) -> bool {
    exists|i: int| 0 <= i < listing.len() && is_marker(#[trigger] listing[i])
}

/// Whether the marker of an interrupted fill stands in a folder.
pub fn has_marker(listing: &Vec<Entry>) -> (yes: bool)
    ensures
        yes == holds_marker(listing@),
{
    let mut i: usize = 0;
    while i < listing.len()
        invariant
            i <= listing.len(),
            forall|j: int| 0 <= j < i ==> !is_marker(#[trigger] listing@[j]),
        decreases listing.len() - i,
    {
        if marker_entry(&listing[i]) {
            assert(is_marker(listing@[i as int]));
            return true;
        }
        i += 1;
    }
    false
}

/// What an interrupted fill left behind in a folder: with the marker there, every
/// foreign entry that is not a folder; without it, nothing.
pub open spec fn debris_of(listing: Seq<Entry>) -> Seq<Entry> {
    if holds_marker(listing) {
        listing.filter(|e: Entry| is_foreign(e) && !e.is_dir)
    } else {
        Seq::empty()
    }
}

/// Debris of an interrupted fill. A device can file an object whose transfer was cut off
/// under a name this tool does not recognize, so such a file is attributable to a fill
/// only by the marker standing beside it.
pub fn list_debris(listing: &Vec<Entry>) -> (debris: Vec<Entry>)
    ensures
        debris@ == debris_of(listing@),
{
    let mut found: Vec<Entry> = Vec::new();
    if !has_marker(listing) {
        return found;
    }
    let ghost keep = |e: Entry| is_foreign(e) && !e.is_dir;
    let mut i: usize = 0;
    proof {
        reveal(Seq::filter);
    }
    while i < listing.len()
        invariant
            i <= listing.len(),
            keep == (|e: Entry| is_foreign(e) && !e.is_dir),
            found@ == listing@.take(i as int).filter(keep),
        decreases listing.len() - i,
    {
        proof {
            order::lemma_filter_push(listing@.take(i as int), listing@[i as int], keep);
            assert(listing@.take(i + 1) =~= listing@.take(i as int).push(listing@[i as int]));
        }
        if !listing[i].is_dir && !filler_entry(&listing[i]) && !marker_entry(&listing[i]) {
            found.push(listing[i].clone());
        }
        i += 1;
    }
    assert(listing@.take(i as int) =~= listing@);
    found
}

/// The first folder called `name`.
pub open spec fn folder_named(root: Seq<Entry>, name: Seq<char>) -> Option<Entry>
    decreases root.len(),
{
    if root.len() == 0 {
        None
    } else if root[0].is_dir && root[0].name@ == name {
        Some(root[0])
    } else {
        folder_named(root.drop_first(), name)
    }
}

/// Whether an entry is in a listing, by its handle. A deletion is believed only once a
/// fresh listing no longer shows what was deleted: devices report one that they refused
/// as a success.
pub fn is_listed(listing: &Vec<Entry>, id: u64) -> (yes: bool)
    ensures
        yes == exists|i: int| 0 <= i < listing@.len() && (#[trigger] listing@[i]).id == id,
{
    let mut i: usize = 0;
    while i < listing.len()
        invariant
            i <= listing.len(),
            forall|j: int| 0 <= j < i ==> (#[trigger] listing@[j]).id != id,
        decreases listing.len() - i,
    {
        if listing[i].id == id {
            return true;
        }
        i += 1;
    }
    false
}

/// Locate the filler folder at the storage root, if it exists.
///
/// Root only, and an exact name match. The one folder this tool will touch is the one
/// named here.
pub fn find_fill_dir(root: &Vec<Entry>, dir_name: &str) -> (dir: Option<Entry>)
    ensures
        dir == folder_named(root@, dir_name@),
        dir matches Some(d) ==> d.is_dir && d.name@ == dir_name@ && root@.contains(d),
{
    let mut i: usize = 0;
    assert(root@.skip(0) =~= root@);
    while i < root.len()
        invariant
            i <= root.len(),
            folder_named(root@, dir_name@) == folder_named(root@.skip(i as int), dir_name@),
        decreases root.len() - i,
    {
        assert(root@.skip(i as int).drop_first() =~= root@.skip(i + 1));
        if root[i].is_dir && same(root[i].name.as_str(), dir_name) {
            return Some(root[i].clone());
        }
        i += 1;
    }
    None
}

/// Everything the entries hold.
pub open spec fn total_bytes(entries: Seq<Entry>) -> int
    decreases entries.len(),
{
    if entries.len() == 0 {
        0
    } else {
        total_bytes(entries.drop_last()) + entries.last().bytes
    }
}

/// `n`, or the largest `u64` where that is smaller.
pub open spec fn capped(n: int) -> u64 {
    if n <= u64::MAX {
        n as u64
    } else {
        u64::MAX
    }
}

/// Everything the entries hold, up to the largest count of bytes there is.
pub fn sum_bytes(entries: &Vec<Entry>) -> (total: u64)
    ensures
        total == capped(total_bytes(entries@)),
{
    let mut total: u64 = 0;
    let mut i: usize = 0;
    while i < entries.len()
        invariant
            i <= entries.len(),
            total == capped(total_bytes(entries@.take(i as int))),
            total_bytes(entries@.take(i as int)) >= 0,
        decreases entries.len() - i,
    {
        assert(entries@.take(i + 1).drop_last() =~= entries@.take(i as int));
        total = total.saturating_add(entries[i].bytes);
        i += 1;
    }
    assert(entries@.take(i as int) =~= entries@);
    total
}

/// A root-level folder holding filler this tool wrote.
#[derive(Debug, PartialEq, Eq)]
pub struct FillerFolder {
    pub name: String,
    pub files: usize,
    pub bytes: u64,
}

impl Clone for FillerFolder {
    fn clone(&self) -> (copy: Self)
        ensures
            copy == *self,
    {
        FillerFolder { name: self.name.clone(), files: self.files, bytes: self.bytes }
    }
}

/// Folders rank by what they hold, the fullest first, and then by name.
impl Ranked for FillerFolder {
    open spec fn before(self, other: Self) -> bool {
        self.bytes > other.bytes || (self.bytes == other.bytes && text::precedes(
            self.name@,
            other.name@,
        ))
    }

    proof fn ranks_all(a: Self, b: Self) {
        text::lemma_precedes_total(a.name@, b.name@);
    }

    proof fn ranks_through(a: Self, b: Self, c: Self) {
        if a.bytes == b.bytes && b.bytes == c.bytes {
            text::lemma_precedes_transitive(a.name@, b.name@, c.name@);
        }
    }

    fn is_before(&self, other: &Self) -> (yes: bool) {
        self.bytes > other.bytes || (self.bytes == other.bytes && in_order(
            self.name.as_str(),
            other.name.as_str(),
        ))
    }
}

/// An entry of the storage root together with what it holds.
#[derive(Debug)]
pub struct RootEntry {
    pub entry: Entry,
    /// The listing of a folder; `None` where there is none to be had, because the entry
    /// is no folder or because it could not be read.
    pub contents: Option<Vec<Entry>>,
}

/// The filler that a root entry holds; nothing where it is no folder or unreadable.
pub open spec fn held_fillers(r: RootEntry) -> Seq<Entry> {
    match r.contents {
        Some(listing) if r.entry.is_dir => fillers_of(listing@),
        _ => Seq::empty(),
    }
}

/// The folder that a root entry is reported as.
pub open spec fn folder_summary(r: RootEntry) -> FillerFolder {
    FillerFolder {
        name: r.entry.name,
        files: held_fillers(r).len() as usize,
        bytes: capped(total_bytes(held_fillers(r))),
    }
}

/// The summaries of those root entries that hold filler, in listing order.
pub open spec fn folder_summaries(root: Seq<RootEntry>) -> Seq<FillerFolder>
    decreases root.len(),
{
    if root.len() == 0 {
        Seq::empty()
    } else if held_fillers(root.last()).len() == 0 {
        folder_summaries(root.drop_last())
    } else {
        folder_summaries(root.drop_last()).push(folder_summary(root.last()))
    }
}

/// The folders that hold filler, the fullest first.
pub open spec fn filler_folders_of(root: Seq<RootEntry>) -> Seq<FillerFolder> {
    order::sorted(folder_summaries(root))
}

/// Find filler wherever it actually is, not only where it was expected.
///
/// Nothing remembers the folder name between launches, so it resets to the default while
/// the filler may be under any name the user chose. Root level only, and a folder counts
/// only if it holds something [`list_fillers`] recognizes, so this can't mistake a books
/// folder for ours. The fullest comes first: if there are several, it is the one whose
/// space someone is trying to get back.
pub fn find_filler_folders(root: &Vec<RootEntry>) -> (folders: Vec<FillerFolder>)
    ensures
        folders@ == filler_folders_of(root@),
{
    let mut found: Vec<FillerFolder> = Vec::new();
    let mut i: usize = 0;
    while i < root.len()
        invariant
            i <= root.len(),
            found@ == folder_summaries(root@.take(i as int)),
        decreases root.len() - i,
    {
        assert(root@.take(i + 1).drop_last() =~= root@.take(i as int));
        let here: &RootEntry = &root[i];
        if here.entry.is_dir {
            match &here.contents {
                Some(listing) => {
                    let fillers = list_fillers(listing);
                    if fillers.len() > 0 {
                        found.push(
                            FillerFolder {
                                name: here.entry.name.clone(),
                                files: fillers.len(),
                                bytes: sum_bytes(&fillers),
                            },
                        );
                    }
                },
                None => {},
            }
        }
        i += 1;
    }
    assert(root@.take(i as int) =~= root@);
    sort(found)
}

/// Any folder but the one called `name`.
pub open spec fn called_otherwise(name: Seq<char>) -> spec_fn(FillerFolder) -> bool {
    |f: FillerFolder| f.name@ != name
}

/// The folders other than the one called `name`.
pub open spec fn elsewhere_of(folders: Seq<FillerFolder>, name: Seq<char>) -> Seq<FillerFolder> {
    folders.filter(called_otherwise(name))
}

/// The folders other than the one called `name`.
pub fn elsewhere(folders: &Vec<FillerFolder>, name: &str) -> (others: Vec<FillerFolder>)
    ensures
        others@ == elsewhere_of(folders@, name@),
{
    let ghost keep = called_otherwise(name@);
    let mut others: Vec<FillerFolder> = Vec::new();
    let mut i: usize = 0;
    proof {
        reveal(Seq::filter);
    }
    while i < folders.len()
        invariant
            i <= folders.len(),
            keep == called_otherwise(name@),
            others@ == folders@.take(i as int).filter(keep),
        decreases folders.len() - i,
    {
        proof {
            order::lemma_filter_push(folders@.take(i as int), folders@[i as int], keep);
            assert(folders@.take(i + 1) =~= folders@.take(i as int).push(folders@[i as int]));
        }
        if !same(folders[i].name.as_str(), name) {
            others.push(folders[i].clone());
        }
        i += 1;
    }
    assert(folders@.take(i as int) =~= folders@);
    others
}

/// The highest sequence number among the names of the entries.
pub open spec fn highest_of(existing: Seq<Entry>) -> Option<u32>
    decreases existing.len(),
{
    if existing.len() == 0 {
        None
    } else {
        match (highest_of(existing.drop_last()), names::sequence_of(existing.last().name@)) {
            (Some(a), Some(b)) => Some(if a < b { b } else { a }),
            (Some(a), None) => Some(a),
            (None, b) => b,
        }
    }
}

/// The sequence number after the highest one in use, or zero.
pub open spec fn next_sequence_of(existing: Seq<Entry>) -> int {
    match highest_of(existing) {
        Some(n) => n + 1,
        None => 0,
    }
}

/// The highest sequence number among the names of the entries.
pub fn highest_sequence(existing: &Vec<Entry>) -> (highest: Option<u32>)
    ensures
        highest == highest_of(existing@),
{
    let mut highest: Option<u32> = None;
    let mut i: usize = 0;
    while i < existing.len()
        invariant
            i <= existing.len(),
            highest == highest_of(existing@.take(i as int)),
        decreases existing.len() - i,
    {
        assert(existing@.take(i + 1).drop_last() =~= existing@.take(i as int));
        highest = match (highest, filler_sequence(existing[i].name.as_str())) {
            (Some(a), Some(b)) => Some(if a < b { b } else { a }),
            (Some(a), None) => Some(a),
            (None, b) => b,
        };
        i += 1;
    }
    assert(existing@.take(i as int) =~= existing@);
    highest
}

/// Next unused sequence number, so an interrupted run tops up instead of colliding.
pub fn next_sequence(existing: &Vec<Entry>) -> (n: u32)
    requires
        highest_of(existing@) != Some(u32::MAX),
    ensures
        n == next_sequence_of(existing@),
{
    match highest_sequence(existing) {
        Some(n) => n + 1,
        None => 0,
    }
}

proof fn lemma_highest_is_highest(existing: Seq<Entry>, i: int)
    requires
        0 <= i < existing.len(),
    ensures
        names::sequence_of(existing[i].name@) matches Some(n) ==> {
            highest_of(existing) matches Some(h) && n <= h
        },
    decreases existing.len(),
{
    if i < existing.len() - 1 {
        lemma_highest_is_highest(existing.drop_last(), i);
        assert(existing.drop_last()[i] == existing[i]);
    }
}

/// A fill never writes over what is there: from the next sequence number on, no name it
/// would write is the name of an entry.
pub proof fn law_next_names_are_fresh(existing: Seq<Entry>, n: u32, i: int)
    requires
        next_sequence_of(existing) <= n,
        0 <= i < existing.len(),
    ensures
        existing[i].name@ != names::filler_name_of(n as nat),
{
    names::law_filler_names_round_trip(existing[i].name@, n);
    lemma_highest_is_highest(existing, i);
}

/// Filler, foreign content and the marker partition a folder: every entry is one of the
/// three and no entry is two of them, so nothing can be both deletable and foreign, and
/// nothing escapes both listings.
pub proof fn law_listing_partition(listing: Seq<Entry>)
    ensures
        fillers_of(listing).to_multiset().add(foreign_of(listing).to_multiset()).add(
            listing.filter(|e: Entry| is_marker(e)).to_multiset(),
        ) == listing.to_multiset(),
        fillers_of(listing).len() + foreign_of(listing).len() + listing.filter(
            |e: Entry| is_marker(e),
        ).len() == listing.len(),
        forall|e: Entry| fillers_of(listing).contains(e) ==> !foreign_of(listing).contains(e),
{
    broadcast use vstd::seq_lib::group_to_multiset_ensures;

    order::law_sorted(listing.filter(|e: Entry| is_filler(e)));
    lemma_partition(listing);
    assert forall|e: Entry| fillers_of(listing).contains(e) implies !foreign_of(listing).contains(
        e,
    ) by {
        lemma_fillers_are_filler(listing, e);
        if foreign_of(listing).contains(e) {
            lemma_filter_holds(listing, |e: Entry| is_foreign(e), e);
        }
    }
}

/// What [`list_fillers`] returns is filler and stands in the listing.
pub proof fn lemma_fillers_are_filler(listing: Seq<Entry>, e: Entry)
    requires
        fillers_of(listing).contains(e),
    ensures
        is_filler(e),
        listing.contains(e),
{
    broadcast use vstd::seq_lib::group_to_multiset_ensures;

    let kept = listing.filter(|e: Entry| is_filler(e));
    order::law_sorted(kept);
    assert(fillers_of(listing).to_multiset().count(e) > 0);
    assert(kept.contains(e));
    lemma_filter_holds(listing, |e: Entry| is_filler(e), e);
}

/// What a filter keeps passes it, and stands in what was filtered.
pub proof fn lemma_filter_holds(s: Seq<Entry>, keep: spec_fn(Entry) -> bool, e: Entry)
    requires
        s.filter(keep).contains(e),
    ensures
        keep(e),
        s.contains(e),
    decreases s.len(),
{
    reveal(Seq::filter);
    if s.len() > 0 {
        let rest = s.drop_last();
        order::lemma_filter_push(rest, s.last(), keep);
        assert(rest.push(s.last()) =~= s);
        if rest.filter(keep).contains(e) {
            lemma_filter_holds(rest, keep, e);
            let i = choose|i: int| 0 <= i < rest.len() && rest[i] == e;
            assert(s[i] == e);
        } else {
            let kept = s.filter(keep);
            let i = choose|i: int| 0 <= i < kept.len() && kept[i] == e;
            if i < rest.filter(keep).len() {
                assert(rest.filter(keep)[i] == e);
            }
            assert(s[s.len() - 1] == e);
        }
    }
}

/// Listing the filler of nothing but filler leaves nothing out.
pub proof fn lemma_filter_keeps_all(fillers: Seq<Entry>)
    requires
        forall|i: int| 0 <= i < fillers.len() ==> is_filler(#[trigger] fillers[i]),
    ensures
        fillers.filter(|e: Entry| is_filler(e)) == fillers,
    decreases fillers.len(),
{
    let keep = |e: Entry| is_filler(e);
    if fillers.len() == 0 {
        reveal(Seq::filter);
        assert(fillers.filter(keep) =~= fillers);
    } else {
        let rest = fillers.drop_last();
        assert forall|i: int| 0 <= i < rest.len() implies is_filler(#[trigger] rest[i]) by {
            assert(rest[i] == fillers[i]);
        }
        lemma_filter_keeps_all(rest);
        order::lemma_filter_push(rest, fillers.last(), keep);
        assert(rest.push(fillers.last()) =~= fillers);
        assert(fillers.last() == fillers[fillers.len() - 1]);
    }
}

/// What entries hold together does not depend on their order.
pub proof fn lemma_total_of_permutation(a: Seq<Entry>, b: Seq<Entry>)
    requires
        a.to_multiset() == b.to_multiset(),
    ensures
        total_bytes(a) == total_bytes(b),
    decreases a.len(),
{
    broadcast use vstd::seq_lib::group_to_multiset_ensures;

    assert(a.to_multiset().len() == a.len());
    assert(b.to_multiset().len() == b.len());
    if a.len() > 0 {
        let e = a.last();
        assert(a.to_multiset().count(e) > 0) by {
            assert(a.contains(e));
        }
        assert(b.contains(e));
        let i = choose|i: int| 0 <= i < b.len() && b[i] == e;
        let rest = b.remove(i);
        assert(a.drop_last() =~= a.remove(a.len() - 1));
        assert(a.drop_last().to_multiset() =~= rest.to_multiset());
        lemma_total_of_permutation(a.drop_last(), rest);
        lemma_total_without(b, i);
    }
}

proof fn lemma_total_without(s: Seq<Entry>, i: int)
    requires
        0 <= i < s.len(),
    ensures
        total_bytes(s) == total_bytes(s.remove(i)) + s[i].bytes,
    decreases s.len(),
{
    if i == s.len() - 1 {
        assert(s.remove(i) =~= s.drop_last());
    } else {
        let rest = s.drop_last();
        lemma_total_without(rest, i);
        assert(s.remove(i).drop_last() =~= rest.remove(i));
        assert(s.remove(i).last() == s.last());
    }
}

proof fn lemma_partition(s: Seq<Entry>)
    ensures
        s.filter(|e: Entry| is_filler(e)).to_multiset().add(
            s.filter(|e: Entry| is_foreign(e)).to_multiset(),
        ).add(s.filter(|e: Entry| is_marker(e)).to_multiset()) == s.to_multiset(),
        s.filter(|e: Entry| is_filler(e)).len() + s.filter(|e: Entry| is_foreign(e)).len()
            + s.filter(|e: Entry| is_marker(e)).len() == s.len(),
    decreases s.len(),
{
    broadcast use vstd::seq_lib::group_to_multiset_ensures;

    let filler = |e: Entry| is_filler(e);
    let foreign = |e: Entry| is_foreign(e);
    let marker = |e: Entry| is_marker(e);
    if s.len() == 0 {
        reveal(Seq::filter);
        assert(s.filter(filler).to_multiset().add(s.filter(foreign).to_multiset()).add(
            s.filter(marker).to_multiset(),
        ) =~= s.to_multiset());
    } else {
        let rest = s.drop_last();
        lemma_partition(rest);
        names::law_names_have_one_meaning(s.last().name@);
        order::lemma_filter_push(rest, s.last(), filler);
        order::lemma_filter_push(rest, s.last(), foreign);
        order::lemma_filter_push(rest, s.last(), marker);
        assert(rest.push(s.last()) =~= s);
        assert(s.filter(filler).to_multiset().add(s.filter(foreign).to_multiset()).add(
            s.filter(marker).to_multiset(),
        ) =~= rest.filter(filler).to_multiset().add(rest.filter(foreign).to_multiset()).add(
            rest.filter(marker).to_multiset(),
        ).insert(s.last()));
    }
}

} // verus!
