//! What the operations that only delete ask of a device, and what it answers.

use crate::events::{DeletedKind, Event, EventView, Fault, FillError};
use crate::listing::Entry;
use vstd::prelude::*;

verus! {

/// What has to be done on the device next.
#[derive(Debug)]
pub enum Ask {
    /// List the storage root.
    ListRoot,
    /// List this folder.
    List(Entry),
    /// Delete this entry.
    Delete(Entry),
    /// Read free space from the device, not from a cache.
    Measure,
    /// Nothing: the operation is over.
    Finish,
}

/// How the device answered an [`Ask`].
#[derive(Debug)]
pub enum Answer {
    Listing(Vec<Entry>),
    /// A deletion was carried out; `gone` is whether the entry is really no longer there.
    Deleted { gone: bool },
    Measured { free: u64 },
    /// What was asked for failed.
    Failed(FillError),
}

/// An [`Answer`], with its text as characters.
pub enum AnswerView {
    Listing(Seq<Entry>),
    Deleted { gone: bool },
    Measured { free: u64 },
    Failed(Fault),
}

impl View for Answer {
    type V = AnswerView;

    open spec fn view(&self) -> AnswerView {
        match *self {
            Answer::Listing(entries) => AnswerView::Listing(entries@),
            Answer::Deleted { gone } => AnswerView::Deleted { gone },
            Answer::Measured { free } => AnswerView::Measured { free },
            Answer::Failed(error) => AnswerView::Failed(error@),
        }
    }
}

/// What becomes known once the deletion of `e` was carried out.
pub open spec fn deletion_event(e: Entry, kind: DeletedKind, gone: bool) -> EventView {
    if gone {
        EventView::Deleted { name: e.name@, bytes: e.bytes, kind }
    } else {
        EventView::DeleteRefused { name: e.name@, bytes: e.bytes }
    }
}

pub(crate) fn deletion(e: &Entry, kind: DeletedKind, gone: bool) -> (event: Event)
    ensures
        event@ == deletion_event(*e, kind, gone),
{
    if gone {
        Event::Deleted { name: e.name.clone(), bytes: e.bytes, kind }
    } else {
        Event::DeleteRefused { name: e.name.clone(), bytes: e.bytes }
    }
}

/// `n + 1`, as far as that can be counted.
pub open spec fn one_more(n: usize) -> usize {
    if n < usize::MAX {
        (n + 1) as usize
    } else {
        n
    }
}

pub(crate) fn count_one_more(n: usize) -> (m: usize)
    ensures
        m == one_more(n),
{
    n.saturating_add(1)
}

} // verus!
