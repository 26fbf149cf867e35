//! What happens during an operation, how it ends, and what is said about it.

use crate::listing::FillerFolder;
use crate::names::NameError;
use crate::plan::WindowError;
use crate::rate::FillProgress;
use crate::text;
use crate::text::push_decimal;
use crate::units;
use crate::units::human_bytes;
use vstd::prelude::*;
use vstd::string::*;

verus! {

/// What an MTP failure comes down to.
#[derive(Debug, Clone, Copy, PartialEq, Eq, Structural)]
pub enum ErrorKind {
    ExclusiveAccess,
    PermissionDenied,
    Timeout,
    Disconnected,
    NoDevice,
    DeviceReset,
    Cancelled,
    Other,
}

/// An MTP failure: its kind, and how it describes itself.
#[derive(Debug, PartialEq, Eq)]
pub struct MtpError {
    pub kind: ErrorKind,
    pub text: String,
}

/// Whether this failure is another process holding the device open.
///
/// On macOS that is almost always `ptpcamerad`, Apple's PTP camera daemon, which grabs
/// any MTP device on connect and never lets go.
#[must_use]
pub fn is_exclusive_access(error: &MtpError) -> (yes: bool)
    ensures
        yes == (error.kind == ErrorKind::ExclusiveAccess),
{
    error.kind == ErrorKind::ExclusiveAccess
}

/// Whether this failure is the OS refusing access, with nothing else holding the device.
///
/// Deliberately distinct from [`is_exclusive_access`]: the fixes point opposite ways.
/// Exclusive access means *close another program*; this means *grant this program
/// permission*.
#[must_use]
pub fn is_permission_denied(error: &MtpError) -> (yes: bool)
    ensures
        yes == (error.kind == ErrorKind::PermissionDenied),
{
    error.kind == ErrorKind::PermissionDenied
}

/// Whether the device stopped answering.
#[must_use]
pub fn is_timeout(error: &MtpError) -> (yes: bool)
    ensures
        yes == (error.kind == ErrorKind::Timeout),
{
    error.kind == ErrorKind::Timeout
}

/// The device is gone, in one of the three ways it can be.
pub open spec fn gone(kind: ErrorKind) -> bool {
    kind == ErrorKind::Disconnected || kind == ErrorKind::NoDevice || kind == ErrorKind::DeviceReset
}

/// Whether the device went away mid-operation, or its session was reset.
#[must_use]
pub fn is_disconnected(error: &MtpError) -> (yes: bool)
    ensures
        yes == gone(error.kind),
{
    error.kind == ErrorKind::Disconnected || error.kind == ErrorKind::NoDevice || error.kind
        == ErrorKind::DeviceReset
}

/// What an [`Event::Deleted`] was.
///
/// Unrelated operations emit that event, and a consumer that keeps a tally of filler has
/// to be able to tell which deletions were filler. Classified where the fact is known
/// rather than inferred downstream.
#[derive(Debug, Clone, Copy, PartialEq, Eq, Structural)]
pub enum DeletedKind {
    /// Filler this tool wrote.
    Filler,
    /// Something in the filler folder that this tool did not write.
    Foreign,
    /// A staged over-the-air firmware image.
    Update,
    /// What a fill left behind when it was killed mid-write.
    Interrupted,
}

/// Emitted as work happens so a UI can show progress without polling.
#[derive(Debug)]
pub enum Event {
    /// Free space as measured before any work.
    Started { free: u64, aim: u64, total: u64 },
    /// Throughput and remaining time, emitted during uploads.
    Progress(FillProgress),
    /// One filler object landed. `free` is the freshly measured value.
    Wrote { name: String, bytes: u64, free: u64 },
    /// One object was removed.
    Deleted { name: String, bytes: u64, kind: DeletedKind },
    /// One object was to be removed and is still there.
    DeleteRefused { name: String, bytes: u64 },
    /// Terminal reading.
    Finished { free: u64 },
}

impl Clone for Event {
    fn clone(&self) -> (copy: Self)
        ensures
            copy == *self,
    {
        match self {
            Event::Started { free, aim, total } => Event::Started {
                free: *free,
                aim: *aim,
                total: *total,
            },
            Event::Progress(p) => Event::Progress(*p),
            Event::Wrote { name, bytes, free } => Event::Wrote {
                name: name.clone(),
                bytes: *bytes,
                free: *free,
            },
            Event::Deleted { name, bytes, kind } => Event::Deleted {
                name: name.clone(),
                bytes: *bytes,
                kind: *kind,
            },
            Event::DeleteRefused { name, bytes } => Event::DeleteRefused {
                name: name.clone(),
                bytes: *bytes,
            },
            Event::Finished { free } => Event::Finished { free: *free },
        }
    }
}

/// An [`Event`], with its text as characters.
pub enum EventView {
    Started { free: u64, aim: u64, total: u64 },
    Progress(FillProgress),
    Wrote { name: Seq<char>, bytes: u64, free: u64 },
    Deleted { name: Seq<char>, bytes: u64, kind: DeletedKind },
    DeleteRefused { name: Seq<char>, bytes: u64 },
    Finished { free: u64 },
}

impl View for Event {
    type V = EventView;

    open spec fn view(&self) -> EventView {
        match *self {
            Event::Started { free, aim, total } => EventView::Started { free, aim, total },
            Event::Progress(p) => EventView::Progress(p),
            Event::Wrote { name, bytes, free } => EventView::Wrote { name: name@, bytes, free },
            Event::Deleted { name, bytes, kind } => EventView::Deleted { name: name@, bytes, kind },
            Event::DeleteRefused { name, bytes } => EventView::DeleteRefused { name: name@, bytes },
            Event::Finished { free } => EventView::Finished { free },
        }
    }
}

/// A sequence of events, each with its text as characters.
pub open spec fn seen(events: Seq<Event>) -> Seq<EventView> {
    events.map_values(|e: Event| e@)
}

/// No events.
pub fn no_events() -> (events: Vec<Event>)
    ensures
        seen(events@) == Seq::<EventView>::empty(),
{
    let events: Vec<Event> = Vec::new();
    assert(seen(events@) =~= Seq::<EventView>::empty());
    events
}

/// One event.
pub fn one_event(event: Event) -> (events: Vec<Event>)
    ensures
        seen(events@) == seq![event@],
{
    let mut events: Vec<Event> = Vec::new();
    events.push(event);
    assert(seen(events@) =~= seq![event@]);
    events
}

/// How a fill ended.
#[derive(Debug, Clone, Copy, PartialEq, Eq, Structural)]
pub enum Outcome {
    /// Free space is inside the requested window.
    InWindow { free: u64 },
    /// Free space was still below the window, and no more of ours could be given back:
    /// nothing was left, or the device kept an object that it was told to delete. The
    /// excess may be the device's own doing.
    Overfilled { free: u64, excess: u64 },
    /// The caller cancelled. Not an error: the filler written so far is intact and valid,
    /// and filling again resumes from it.
    Cancelled { free: u64 },
}

/// What a clean actually did.
///
/// `removed` exists so a caller can tell "there was nothing to remove" from "removed
/// everything", which reporting only free space cannot.
#[derive(Debug, Clone, Copy, PartialEq, Eq, Structural)]
pub struct CleanReport {
    pub free: u64,
    pub removed: usize,
    pub bytes: u64,
}

/// Why an operation failed.
#[derive(Debug)]
pub enum FillError {
    /// The storage reported itself read-only.
    ReadOnly { description: String },
    /// The device is already fuller than the target. Distinct from
    /// [`Outcome::Overfilled`]: nothing was written.
    AlreadyBelowWindow {
        free: u64,
        low: u64,
        /// Filler found under root folders other than the one asked for. Empty is
        /// meaningful: the space genuinely isn't ours to give back.
        elsewhere: Vec<FillerFolder>,
    },
    /// The requested filler folder name isn't usable.
    BadName(NameError),
    /// The folder no longer holds what the caller was shown when they confirmed emptying
    /// it.
    StaleConfirmation,
    /// The device did not say how much space it has.
    SpaceUnreported,
    /// Every name that filler can have is taken.
    NamesExhausted,
    Mtp(MtpError),
    /// The file system of a mounted volume failed, in its own words.
    Io(String),
}

/// Why a folder name can't be used, with its text as characters.
pub enum NameFault {
    Empty,
    Illegal(Seq<char>),
}

impl View for NameError {
    type V = NameFault;

    open spec fn view(&self) -> NameFault {
        match *self {
            NameError::Empty => NameFault::Empty,
            NameError::Illegal { name } => NameFault::Illegal(name@),
        }
    }
}

/// A [`FillError`], with its text as characters.
pub enum Fault {
    ReadOnly { description: Seq<char> },
    AlreadyBelowWindow { free: u64, low: u64, elsewhere: Seq<FillerFolder> },
    BadName(NameFault),
    StaleConfirmation,
    SpaceUnreported,
    NamesExhausted,
    Mtp { kind: ErrorKind, text: Seq<char> },
    Io(Seq<char>),
}

impl View for FillError {
    type V = Fault;

    open spec fn view(&self) -> Fault {
        match *self {
            FillError::ReadOnly { description } => Fault::ReadOnly { description: description@ },
            FillError::AlreadyBelowWindow { free, low, elsewhere } => Fault::AlreadyBelowWindow {
                free,
                low,
                elsewhere: elsewhere@,
            },
            FillError::BadName(e) => Fault::BadName(e@),
            FillError::StaleConfirmation => Fault::StaleConfirmation,
            FillError::SpaceUnreported => Fault::SpaceUnreported,
            FillError::NamesExhausted => Fault::NamesExhausted,
            FillError::Mtp(e) => Fault::Mtp { kind: e.kind, text: e.text@ },
            FillError::Io(text) => Fault::Io(text@),
        }
    }
}

/// What a result stands for, with the text of an error as characters.
pub open spec fn verdict<T>(r: Result<T, FillError>) -> Result<T, Fault> {
    match r {
        Ok(v) => Ok(v),
        Err(e) => Err(e@),
    }
}

/// How `{:?}` of the standard library quotes a string.
pub uninterp spec fn quoted(s: Seq<char>) -> Seq<char>;

/// `format!` with `{:?}` on a string: the string between double quotes, with what is not
/// printable escaped. Claimed is only that the result depends on the string alone.
#[verifier::external_body]
pub(crate) fn quote(s: &str) -> (q: String)
    ensures
        q@ == quoted(s@),
{
    format!("{:?}", s)
}

/// What is said of a folder name, given the name in quotes, that can't be used.
pub open spec fn illegal_name_text(quoted_name: Seq<char>) -> Seq<char> {
    quoted_name
        + " isn't a usable folder name — use letters, digits, spaces, dot, dash or underscore, and no leading or trailing space"@
}

/// The fault of a folder name that can't be used.
pub open spec fn bad_name(name: Seq<char>) -> Fault {
    Fault::BadName(
        if name.len() == 0 {
            NameFault::Empty
        } else {
            NameFault::Illegal(name)
        },
    )
}

/// What is said of a folder name that can't be used.
pub open spec fn name_fault_text(fault: NameFault) -> Seq<char> {
    match fault {
        NameFault::Empty => "the folder name can't be empty"@,
        NameFault::Illegal(name) => illegal_name_text(quoted(name)),
    }
}

/// What is said of a folder name, given in quotes, that can't be used.
pub fn illegal_name_message(quoted_name: &str) -> (message: String)
    ensures
        message@ == illegal_name_text(quoted_name@),
{
    let mut out = quoted_name.to_owned();
    out.append(
        " isn't a usable folder name — use letters, digits, spaces, dot, dash or underscore, and no leading or trailing space",
    );
    out
}

impl NameError {
    /// The error in words.
    pub fn message(&self) -> (message: String)
        ensures
            message@ == name_fault_text(self@),
    {
        match self {
            NameError::Empty => "the folder name can't be empty".to_owned(),
            NameError::Illegal { name } => illegal_name_message(quote(name.as_str()).as_str()),
        }
    }
}

/// What is said of a window that can't be used.
pub open spec fn window_error_text(error: WindowError) -> Seq<char> {
    match error {
        WindowError::Inverted { low, high } => "lower bound "@ + text::decimal(low as nat)
            + " must be below upper bound "@ + text::decimal(high as nat),
        WindowError::TooNarrow { width, minimum } => "window is "@ + text::decimal(width as nat)
            + " bytes wide; needs at least "@ + text::decimal(minimum as nat)
            + " to absorb filesystem overhead on the final write"@,
    }
}

impl WindowError {
    /// The error in words.
    pub fn message(&self) -> (message: String)
        ensures
            message@ == window_error_text(*self),
    {
        match self {
            WindowError::Inverted { low, high } => {
                let mut out = "lower bound ".to_owned();
                push_decimal(&mut out, *low);
                out.append(" must be below upper bound ");
                push_decimal(&mut out, *high);
                out
            },
            WindowError::TooNarrow { width, minimum } => {
                let mut out = "window is ".to_owned();
                push_decimal(&mut out, *width);
                out.append(" bytes wide; needs at least ");
                push_decimal(&mut out, *minimum);
                out.append(" to absorb filesystem overhead on the final write");
                out
            },
        }
    }
}

/// What is said of a read-only storage, given its description in quotes.
pub open spec fn read_only_text(quoted_description: Seq<char>) -> Seq<char> {
    "storage "@ + quoted_description + " is read-only"@
}

/// What is said of a device that is already below the target. "Nothing to fill" is true
/// and, on its own, misleading: the space this tool could give back is routinely sitting
/// under another folder's name, so the fullest such folder is named.
pub open spec fn below_window_text(free: u64, low: u64, elsewhere: Seq<FillerFolder>) -> Seq<char> {
    let start = "only "@ + text::decimal(free as nat) + " bytes free, already below the "@
        + text::decimal(low as nat) + "-byte target; nothing to fill"@;
    if elsewhere.len() == 0 {
        start
    } else {
        start + " — but "@ + units::bytes_text(elsewhere[0].bytes as nat) + " of filler is in "@
            + elsewhere[0].name@ + "; switch to that folder and try again"@
    }
}

/// What is said of a failed operation.
pub open spec fn fault_text(fault: Fault) -> Seq<char> {
    match fault {
        Fault::ReadOnly { description } => read_only_text(quoted(description)),
        Fault::AlreadyBelowWindow { free, low, elsewhere } => below_window_text(
            free,
            low,
            elsewhere,
        ),
        Fault::BadName(name) => name_fault_text(name),
        Fault::StaleConfirmation =>
            "the folder's contents changed since they were confirmed — re-check the folder and confirm again"@,
        Fault::SpaceUnreported =>
            "the device did not report its free space — unlock the device and replug"@,
        Fault::NamesExhausted => "every filler name is taken — remove the filler first"@,
        Fault::Mtp { kind, text } => text,
        Fault::Io(text) => text,
    }
}

/// What is said of a read-only storage, given its description in quotes.
pub fn read_only_message(quoted_description: &str) -> (message: String)
    ensures
        message@ == read_only_text(quoted_description@),
{
    let mut out = "storage ".to_owned();
    out.append(quoted_description);
    out.append(" is read-only");
    out
}

impl FillError {
    /// The error in words.
    pub fn message(&self) -> (message: String)
        ensures
            message@ == fault_text(self@),
    {
        match self {
            FillError::ReadOnly { description } => read_only_message(
                quote(description.as_str()).as_str(),
            ),
            FillError::AlreadyBelowWindow { free, low, elsewhere } => {
                let mut out = "only ".to_owned();
                push_decimal(&mut out, *free);
                out.append(" bytes free, already below the ");
                push_decimal(&mut out, *low);
                out.append("-byte target; nothing to fill");
                if elsewhere.len() > 0 {
                    out.append(" — but ");
                    out.append(human_bytes(elsewhere[0].bytes).as_str());
                    out.append(" of filler is in ");
                    out.append(elsewhere[0].name.as_str());
                    out.append("; switch to that folder and try again");
                }
                out
            },
            FillError::BadName(e) => e.message(),
            FillError::StaleConfirmation =>
                "the folder's contents changed since they were confirmed — re-check the folder and confirm again".to_owned(),
            FillError::SpaceUnreported =>
                "the device did not report its free space — unlock the device and replug".to_owned(),
            FillError::NamesExhausted =>
                "every filler name is taken — remove the filler first".to_owned(),
            FillError::Mtp(e) => e.text.clone(),
            FillError::Io(text) => text.clone(),
        }
    }
}

} // verus!
