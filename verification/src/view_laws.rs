//! What contracts speak of is all that a value holds: nothing of an event, an error, a
//! request or an answer is lost in its view.

use crate::bench;
use crate::events;
use crate::events::{DeletedKind, Event, EventView, Fault, FillError, MtpError};
use crate::fill::{Reply, ReplyView, Request, RequestView};
use crate::listing::{Entry, FillerFolder, RootEntry};
use crate::mass_storage::Space;
use crate::names::NameError;
use crate::ops::{Due, DueView, Overwrite, OverwriteView};
use crate::rate::{Duration, FillProgress};
use crate::sweep::{Answer, AnswerView};
use crate::text;
use vstd::prelude::*;

verus! {

/// An event is seen with all it tells.
pub proof fn law_events_are_seen_in_full(
    name: String,
    bytes: u64,
    free: u64,
    aim: u64,
    total: u64,
    kind: DeletedKind,
    p: FillProgress,
    all: Seq<Event>,
    i: int,
)
    ensures
        (Event::Started { free, aim, total })@ == (EventView::Started { free, aim, total }),
        Event::Progress(p)@ == EventView::Progress(p),
        (Event::Wrote { name, bytes, free })@ == (EventView::Wrote { name: name@, bytes, free }),
        (Event::Deleted { name, bytes, kind })@ == (EventView::Deleted { name: name@, bytes, kind }),
        (Event::DeleteRefused { name, bytes })@ == (EventView::DeleteRefused { name: name@, bytes }),
        (Event::Finished { free })@ == (EventView::Finished { free }),
        events::seen(all).len() == all.len(),
        0 <= i < all.len() ==> events::seen(all)[i] == all[i]@,
{
}

/// An error is seen with all it tells.
pub proof fn law_errors_are_seen_in_full(
    name: String,
    free: u64,
    low: u64,
    elsewhere: Vec<FillerFolder>,
    failure: MtpError,
    outcome: u64,
)
    ensures
        (FillError::ReadOnly { description: name })@ == (Fault::ReadOnly { description: name@ }),
        (FillError::AlreadyBelowWindow { free, low, elsewhere })@ == (Fault::AlreadyBelowWindow {
            free,
            low,
            elsewhere: elsewhere@,
        }),
        FillError::BadName(NameError::Empty)@ == Fault::BadName(events::NameFault::Empty),
        FillError::BadName(NameError::Illegal { name })@ == Fault::BadName(
            events::NameFault::Illegal(name@),
        ),
        FillError::StaleConfirmation@ == Fault::StaleConfirmation,
        FillError::SpaceUnreported@ == Fault::SpaceUnreported,
        FillError::NamesExhausted@ == Fault::NamesExhausted,
        FillError::Mtp(failure)@ == (Fault::Mtp { kind: failure.kind, text: failure.text@ }),
        FillError::Io(name)@ == Fault::Io(name@),
        events::verdict(Err::<u64, FillError>(FillError::Io(name))) == Err::<u64, Fault>(
            Fault::Io(name@),
        ),
        events::verdict(Ok::<u64, FillError>(outcome)) == Ok::<u64, Fault>(outcome),
{
}

/// What a fill asks for, and what it is answered, are seen with all they hold.
pub proof fn law_a_fill_is_asked_and_answered_in_full(
    name: String,
    bytes: u64,
    committed: u64,
    total: u64,
    e: Entry,
    space: Space,
    flag: bool,
    entries: Vec<Entry>,
    root: Vec<RootEntry>,
    partial: Option<u64>,
    error: FillError,
)
    ensures
        Request::CheckWritable@ is CheckWritable,
        Request::Measure@ is Measure,
        Request::ListFolder@ is ListFolder,
        Request::ListRoot@ is ListRoot,
        Request::EnsureFolder@ is EnsureFolder,
        Request::Mark@ is Mark,
        Request::Delete(e)@ == RequestView::Delete(e),
        (Request::Write { name, bytes, committed, total })@ == (RequestView::Write {
            name: name@,
            bytes,
            committed,
            total,
        }),
        (Request::Discard { partial: bytes })@ == (RequestView::Discard { partial: bytes }),
        Request::Unmark@ is Unmark,
        Request::Finish@ is Finish,
        Reply::Writable@ is Writable,
        (Reply::ReadOnly { description: name })@ == (ReplyView::ReadOnly { description: name@ }),
        (Reply::Measured { space, cancelled: flag })@ == (ReplyView::Measured {
            space,
            cancelled: flag,
        }),
        Reply::Listing(entries)@ == ReplyView::Listing(entries@),
        Reply::Root(root)@ == ReplyView::Root(root@),
        Reply::Done@ is Done,
        (Reply::Deleted { gone: flag })@ == (ReplyView::Deleted { gone: flag }),
        Reply::Wrote@ is Wrote,
        (Reply::Stopped { partial })@ == (ReplyView::Stopped { partial }),
        (Reply::Broken { partial, error })@ == (ReplyView::Broken { partial, error: error@ }),
        Reply::Failed(error)@ == ReplyView::Failed(error@),
{
}

/// What the operations that only delete are answered, and what a measurement asks for and
/// is answered, are seen with all they hold.
pub proof fn law_other_answers_are_seen_in_full(
    name: String,
    n: u64,
    flag: bool,
    entries: Vec<Entry>,
    partial: Option<u64>,
    error: FillError,
    elapsed: Duration,
)
    ensures
        Answer::Listing(entries)@ == AnswerView::Listing(entries@),
        (Answer::Deleted { gone: flag })@ == (AnswerView::Deleted { gone: flag }),
        (Answer::Measured { free: n })@ == (AnswerView::Measured { free: n }),
        Answer::Failed(error)@ == AnswerView::Failed(error@),
        bench::Request::Measure@ is Measure,
        bench::Request::CreateFolder@ is CreateFolder,
        (bench::Request::Upload { name, bytes: n })@ == (bench::RequestView::Upload {
            name: name@,
            bytes: n,
        }),
        bench::Request::Delete(n)@ == bench::RequestView::Delete(n),
        bench::Request::Finish@ is Finish,
        (bench::Reply::Measured { free: n })@ == (bench::ReplyView::Measured { free: n }),
        (bench::Reply::Created { id: n })@ == (bench::ReplyView::Created { id: n }),
        (bench::Reply::Uploaded { id: n, elapsed })@ == (bench::ReplyView::Uploaded {
            id: n,
            elapsed: elapsed@,
        }),
        (bench::Reply::Broken { partial, why: name })@ == (bench::ReplyView::Broken {
            partial,
            why: name@,
        }),
        bench::Reply::Deleted@ is Deleted,
        (bench::Reply::Failed { why: name })@ == (bench::ReplyView::Failed { why: name@ }),
{
}

/// What is to become of a folder's content, and what is due, are seen with the token; and
/// lines are seen one by one.
pub proof fn law_commands_are_seen_in_full(token: String, lines: Seq<String>, i: int)
    ensures
        Overwrite::Keep@ is Keep,
        Overwrite::Anything@ is Anything,
        (Overwrite::Confirmed { token })@ == (OverwriteView::Confirmed { token: token@ }),
        Due::Open@ is Open,
        (Due::Purge { confirmed: Some(token) })@ == (DueView::Purge { confirmed: Some(token@) }),
        (Due::Purge { confirmed: None })@ == (DueView::Purge { confirmed: None }),
        Due::Fill@ is Fill,
        Due::Nothing@ is Nothing,
        text::texts(lines).len() == lines.len(),
        0 <= i < lines.len() ==> text::texts(lines)[i] == lines[i]@,
{
}

} // verus!
