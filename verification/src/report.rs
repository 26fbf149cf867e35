//! What the desktop app says: guidance for failures, the log, the device panel, and the
//! messages that operations end with.

use crate::console;
use crate::double;
use crate::double::rate_tenths;
use crate::events;
use crate::events::{
    is_disconnected, is_exclusive_access, is_permission_denied, is_timeout, CleanReport,
    DeletedKind, ErrorKind, Event, EventView, Fault, FillError, MtpError, Outcome,
};
use crate::listing;
use crate::listing::{
    elsewhere, find_filler_folders, list_fillers, list_foreign, list_staged_updates, sum_bytes,
    Entry, FillerFolder, RootEntry,
};
use crate::mass_storage::Space;
use crate::plan::MIB;
use crate::rate;
use crate::rate::{human_eta, FillProgress, Throughput};
use crate::text;
use crate::text::{push_decimal, push_decimal_wide};
use crate::token;
use crate::token::overwrite_token;
use crate::units;
use crate::units::human_bytes;
use vstd::prelude::*;
use vstd::string::*;

verus! {

/// Guidance for an MTP failure. A failed open that means *close another program* and one
/// that means *grant this program permission* point in opposite directions, so they are
/// kept apart; anything without guidance is said in the failure's own words.
pub open spec fn explained(kind: ErrorKind, words: Seq<char>) -> Seq<char> {
    if kind == ErrorKind::ExclusiveAccess {
        "Another program is holding the Kindle. On macOS this is usually ptpcamerad, Apple's camera daemon; Android File Transfer and OpenMTP do it too. Quit those and unplug/replug the cable."@
    } else if kind == ErrorKind::PermissionDenied {
        "The system refused access to the device (nothing else is holding it). On Linux this usually means missing udev rules. Underlying error: "@
            + words
    } else if kind == ErrorKind::Timeout {
        "The Kindle stopped responding. Its MTP session can end up wedged after an interrupted transfer — often it still answers reads while refusing every write, so the device looks fine here but nothing can be written. Unplug and replug the cable; if that doesn't clear it, restart the Kindle (hold the power button, then Restart)."@
    } else if events::gone(kind) {
        "The Kindle disconnected. Replug the cable and press Refresh. Anything already written is intact — Fill again resumes from it."@
    } else {
        words
    }
}

/// Turn an MTP failure into something a person can act on.
pub fn explain(error: &MtpError) -> (guidance: String)
    ensures
        guidance@ == explained(error.kind, error.text@),
{
    if is_exclusive_access(error) {
        return "Another program is holding the Kindle. On macOS this is usually ptpcamerad, Apple's camera daemon; Android File Transfer and OpenMTP do it too. Quit those and unplug/replug the cable.".to_owned();
    }
    if is_permission_denied(error) {
        let mut out =
            "The system refused access to the device (nothing else is holding it). On Linux this usually means missing udev rules. Underlying error: ".to_owned();
        out.append(error.text.as_str());
        return out;
    }
    if is_timeout(error) {
        return "The Kindle stopped responding. Its MTP session can end up wedged after an interrupted transfer — often it still answers reads while refusing every write, so the device looks fine here but nothing can be written. Unplug and replug the cable; if that doesn't clear it, restart the Kindle (hold the power button, then Restart).".to_owned();
    }
    if is_disconnected(error) {
        return "The Kindle disconnected. Replug the cable and press Refresh. Anything already written is intact — Fill again resumes from it.".to_owned();
    }
    error.text.clone()
}

/// Guidance for a failed operation: that for an MTP failure where it is one, else what is
/// said of it anyway.
pub open spec fn explained_fault(fault: Fault) -> Seq<char> {
    match fault {
        Fault::Mtp { kind, text } => explained(kind, text),
        other => events::fault_text(other),
    }
}

/// [`explain`] for a failed operation: one that fails because something else holds the
/// device deserves the same guidance as a failed open.
pub fn explain_fill(error: &FillError) -> (guidance: String)
    ensures
        guidance@ == explained_fault(error@),
{
    match error {
        FillError::Mtp(e) => explain(e),
        _ => error.message(),
    }
}

/// A live correction to the device panel, sent as work happens. The panel is otherwise
/// painted by opening the device, which is held for the length of a fill.
#[derive(Debug)]
pub struct DeviceUpdate {
    /// Absent for events that come without a reading.
    pub free: Option<u64>,
    pub free_human: Option<String>,
    pub files_delta: i32,
    pub bytes_delta: i64,
}

/// The correction that an event calls for: free space as just read, and by how much the
/// tally of filler moves. Only filler moves it: deleting a firmware image, or a purge of
/// other contents, does not.
pub open spec fn correction(event: EventView) -> Option<(Option<u64>, int, i64)> {
    match event {
        EventView::Started { free, .. } => Some((Some(free), 0, 0)),
        EventView::Wrote { bytes, free, .. } => Some((Some(free), 1, bytes as i64)),
        EventView::Deleted { bytes, kind: DeletedKind::Filler, .. } => Some(
            (None, -1, 0i64.wrapping_sub(bytes as i64)),
        ),
        EventView::Finished { free } => Some((Some(free), 0, 0)),
        _ => None,
    }
}

/// The correction to the device panel that an event calls for.
pub fn device_update(event: &Event) -> (update: Option<DeviceUpdate>)
    ensures
        match update {
            Some(u) => correction(event@) == Some((u.free, u.files_delta as int, u.bytes_delta))
                && match (u.free, u.free_human) {
                (Some(free), Some(human)) => human@ == units::bytes_text(free as nat),
                (None, None) => true,
                _ => false,
            },
            None => correction(event@) is None,
        },
{
    match event {
        Event::Started { free, .. } => Some(
            DeviceUpdate {
                free: Some(*free),
                free_human: Some(human_bytes(*free)),
                files_delta: 0,
                bytes_delta: 0,
            },
        ),
        Event::Wrote { bytes, free, .. } => Some(
            DeviceUpdate {
                free: Some(*free),
                free_human: Some(human_bytes(*free)),
                files_delta: 1,
                bytes_delta: #[verifier::truncate] (*bytes as i64),
            },
        ),
        Event::Deleted { bytes, kind, .. } => {
            if *kind == DeletedKind::Filler {
                let size: i64 = #[verifier::truncate] (*bytes as i64);
                Some(
                    DeviceUpdate {
                        free: None,
                        free_human: None,
                        files_delta: -1,
                        bytes_delta: 0i64.wrapping_sub(size),
                    },
                )
            } else {
                None
            }
        },
        Event::DeleteRefused { .. } => None,
        Event::Finished { free } => Some(
            DeviceUpdate {
                free: Some(*free),
                free_human: Some(human_bytes(*free)),
                files_delta: 0,
                bytes_delta: 0,
            },
        ),
        Event::Progress(_) => None,
    }
}

/// The tally of filler moves by exactly what happened to it: one file more, with its
/// bytes, for every object written, one less for every filler deleted, and not at all
/// otherwise.
pub proof fn law_only_filler_moves_the_tally(event: EventView)
    ensures
        ({
            let (files, bytes) = match correction(event) {
                Some((_, files, bytes)) => (files, bytes),
                None => (0, 0i64),
            };
            match event {
                EventView::Wrote { bytes: size, .. } => files == 1 && (size <= i64::MAX ==> bytes
                    == size),
                EventView::Deleted { bytes: size, kind: DeletedKind::Filler, .. } => files == -1
                    && (size <= i64::MAX ==> bytes == -size),
                _ => files == 0 && bytes == 0,
            }
        }),
{
}

/// The line of the log for an event; progress has none.
pub open spec fn logged(event: EventView) -> Option<Seq<char>> {
    match event {
        EventView::Started { free, aim, total } => Some(
            "Starting at "@ + units::bytes_text(free as nat) + " free, steering to "@
                + units::bytes_text(aim as nat) + " — "@ + units::bytes_text(total as nat)
                + " to write."@,
        ),
        EventView::Progress(_) => None,
        EventView::Wrote { name, bytes, free } => Some(
            "Wrote "@ + name + " ("@ + units::bytes_text(bytes as nat) + ") — "@
                + units::bytes_text(free as nat) + " free."@,
        ),
        EventView::Deleted { name, bytes, .. } => Some(
            "Deleted "@ + name + " ("@ + units::bytes_text(bytes as nat) + ")."@,
        ),
        EventView::DeleteRefused { name, bytes } => Some(
            name + " ("@ + units::bytes_text(bytes as nat)
                + ") could not be deleted — the device refused it. Unplug and replug the Kindle, then try again."@,
        ),
        EventView::Finished { free } => Some(
            "Finished at "@ + units::bytes_text(free as nat) + " free."@,
        ),
    }
}

/// The line of the log for an event.
pub fn log_line(event: &Event) -> (line: Option<String>)
    ensures
        match line {
            Some(l) => logged(event@) == Some(l@),
            None => logged(event@) is None,
        },
{
    match event {
        Event::Started { free, aim, total } => {
            let mut out = "Starting at ".to_owned();
            out.append(human_bytes(*free).as_str());
            out.append(" free, steering to ");
            out.append(human_bytes(*aim).as_str());
            out.append(" — ");
            out.append(human_bytes(*total).as_str());
            out.append(" to write.");
            Some(out)
        },
        Event::Progress(_) => None,
        Event::Wrote { name, bytes, free } => {
            let mut out = "Wrote ".to_owned();
            out.append(name.as_str());
            out.append(" (");
            out.append(human_bytes(*bytes).as_str());
            out.append(") — ");
            out.append(human_bytes(*free).as_str());
            out.append(" free.");
            Some(out)
        },
        Event::Deleted { name, bytes, .. } => {
            let mut out = "Deleted ".to_owned();
            out.append(name.as_str());
            out.append(" (");
            out.append(human_bytes(*bytes).as_str());
            out.append(").");
            Some(out)
        },
        Event::DeleteRefused { name, bytes } => {
            let mut out = name.clone();
            out.append(" (");
            out.append(human_bytes(*bytes).as_str());
            out.append(
                ") could not be deleted — the device refused it. Unplug and replug the Kindle, then try again.",
            );
            Some(out)
        },
        Event::Finished { free } => {
            let mut out = "Finished at ".to_owned();
            out.append(human_bytes(*free).as_str());
            out.append(" free.");
            Some(out)
        },
    }
}

/// What is said of how a fill ended.
pub open spec fn outcome_text(outcome: Outcome) -> Seq<char> {
    match outcome {
        Outcome::InWindow { free } => "Done — "@ + units::bytes_text(free as nat)
            + " free, inside the target window."@,
        Outcome::Overfilled { free, excess } => "Overfilled: "@ + units::bytes_text(free as nat)
            + " free, "@ + units::bytes_text(excess as nat)
            + " below target. Use Remove filler & folder to recover."@,
        Outcome::Cancelled { free } => "Stopped at "@ + units::bytes_text(free as nat)
            + " free. What's written is intact — Fill again to resume."@,
    }
}

/// What is said of how a fill ended.
pub fn outcome_message(outcome: Outcome) -> (message: String)
    ensures
        message@ == outcome_text(outcome),
{
    match outcome {
        Outcome::InWindow { free } => {
            let mut out = "Done — ".to_owned();
            out.append(human_bytes(free).as_str());
            out.append(" free, inside the target window.");
            out
        },
        Outcome::Overfilled { free, excess } => {
            let mut out = "Overfilled: ".to_owned();
            out.append(human_bytes(free).as_str());
            out.append(" free, ");
            out.append(human_bytes(excess).as_str());
            out.append(" below target. Use Remove filler & folder to recover.");
            out
        },
        Outcome::Cancelled { free } => {
            let mut out = "Stopped at ".to_owned();
            out.append(human_bytes(free).as_str());
            out.append(" free. What's written is intact — Fill again to resume.");
            out
        },
    }
}

/// `s` after anything but one.
pub open spec fn plural(n: nat) -> Seq<char> {
    if n == 1 {
        ""@
    } else {
        "s"@
    }
}

fn plural_ending(n: usize) -> (s: &'static str)
    ensures
        s@ == plural(n as nat),
{
    if n == 1 {
        ""
    } else {
        "s"
    }
}

/// What is said of a clean. One that removed nothing says where filler is, if it is
/// somewhere else: saying no more than that it succeeded is how someone concludes their
/// device is clean while gigabytes of filler sit in a folder under another name.
pub open spec fn clean_text(
    report: CleanReport,
    dir_name: Seq<char>,
    folders: Seq<FillerFolder>,
) -> Seq<char> {
    let others = listing::elsewhere_of(folders, dir_name);
    if report.removed > 0 {
        "Removed "@ + text::decimal(report.removed as nat) + " filler file"@ + plural(
            report.removed as nat,
        ) + " ("@ + units::bytes_text(report.bytes as nat) + ") from "@ + dir_name + " — "@
            + units::bytes_text(report.free as nat) + " free."@
    } else if others.len() > 0 {
        "Nothing to remove in "@ + dir_name + ", but "@ + units::bytes_text(others[0].bytes as nat)
            + " of filler is in "@ + others[0].name@ + " — switch to that folder and try again."@
    } else {
        "No filler to remove — "@ + units::bytes_text(report.free as nat) + " free."@
    }
}

/// What is said of a clean, given the folders that hold filler. They are not looked at
/// where something was removed.
pub fn clean_message(report: CleanReport, dir_name: &str, folders: &Vec<FillerFolder>) -> (message:
    String)
    ensures
        message@ == clean_text(report, dir_name@, folders@),
{
    if report.removed > 0 {
        let mut out = "Removed ".to_owned();
        push_decimal(&mut out, report.removed as u64);
        out.append(" filler file");
        out.append(plural_ending(report.removed));
        out.append(" (");
        out.append(human_bytes(report.bytes).as_str());
        out.append(") from ");
        out.append(dir_name);
        out.append(" — ");
        out.append(human_bytes(report.free).as_str());
        out.append(" free.");
        return out;
    }
    let others = elsewhere(folders, dir_name);
    if others.len() > 0 {
        let mut out = "Nothing to remove in ".to_owned();
        out.append(dir_name);
        out.append(", but ");
        out.append(human_bytes(others[0].bytes).as_str());
        out.append(" of filler is in ");
        out.append(others[0].name.as_str());
        out.append(" — switch to that folder and try again.");
        out
    } else {
        let mut out = "No filler to remove — ".to_owned();
        out.append(human_bytes(report.free).as_str());
        out.append(" free.");
        out
    }
}

/// What is said of a deletion of staged updates.
pub open spec fn updates_text(selected: nat, removed: Seq<Entry>) -> Seq<char> {
    if selected == 0 {
        "Nothing selected."@
    } else if removed.len() == 0 {
        "Nothing was deleted — no staged update matched."@
    } else {
        "Deleted "@ + text::decimal(removed.len()) + " staged update"@ + plural(removed.len())
            + " ("@ + units::bytes_text(listing::capped(listing::total_bytes(removed)) as nat)
            + ")."@
    }
}

/// What is said of a deletion of staged updates, given how many names were selected and
/// what was removed.
pub fn updates_message(selected: usize, removed: &Vec<Entry>) -> (message: String)
    ensures
        message@ == updates_text(selected as nat, removed@),
{
    if selected == 0 {
        return "Nothing selected.".to_owned();
    }
    if removed.len() == 0 {
        return "Nothing was deleted — no staged update matched.".to_owned();
    }
    let mut out = "Deleted ".to_owned();
    push_decimal(&mut out, removed.len() as u64);
    out.append(" staged update");
    out.append(plural_ending(removed.len()));
    out.append(" (");
    out.append(human_bytes(sum_bytes(removed)).as_str());
    out.append(").");
    out
}

/// What is said of a folder that was emptied before a fill.
pub fn emptied_message(dir_name: &str, removed: usize) -> (message: String)
    ensures
        message@ == "Emptied "@ + dir_name@ + " — "@ + text::decimal(removed as nat)
            + " item(s) deleted."@,
{
    let mut out = "Emptied ".to_owned();
    out.append(dir_name);
    out.append(" — ");
    push_decimal(&mut out, removed as u64);
    out.append(" item(s) deleted.");
    out
}

/// A rate in megabytes per second, with one decimal.
pub open spec fn rate_text(bytes: nat, nanos: nat) -> Seq<char> {
    let tenths = double::to_integer(double::rate(bytes, nanos), 10, MIB as nat);
    text::decimal(tenths / 10) + "."@ + text::decimal(tenths % 10) + " MB/s"@
}

/// A rate in megabytes per second, with one decimal.
pub fn human_rate(t: &Throughput) -> (rendered: String)
    requires
        t.span@ > 0,
    ensures
        rendered@ == rate_text(t.bytes as nat, t.span@),
{
    let whole: u64 = t.span.as_secs();
    let nanos: u32 = t.span.subsec_nanos();
    assert(t.span@ == whole * 1_000_000_000 + nanos);
    let tenths: u128 = rate_tenths(t.bytes, whole, nanos, 1_048_576);
    let mut out = String::new();
    push_decimal_wide(&mut out, tenths / 10);
    out.append(".");
    push_decimal(&mut out, (tenths % 10) as u64);
    out.append(" MB/s");
    assert(out@ =~= rate_text(t.bytes as nat, t.span@));
    out
}

/// Progress as the window shows it.
#[derive(Debug)]
pub struct ProgressShown {
    pub done_human: String,
    pub total_human: String,
    pub rate_human: String,
    pub eta_human: String,
}

/// `s` shows `p`: what is not known yet is said to be so, never shown as zero.
pub open spec fn shows_progress(s: ProgressShown, p: FillProgress) -> bool {
    &&& s.done_human@ == units::bytes_text(p.done as nat)
    &&& s.total_human@ == units::bytes_text(p.total as nat)
    &&& s.rate_human@ == match p.rate {
        Some(t) => rate_text(t.bytes as nat, t.span@),
        None => "—"@,
    }
    &&& s.eta_human@ == match p.eta {
        Some(d) => rate::duration_text(rate::eta_rounded(d@)),
        None => "estimating…"@,
    }
}

/// Progress as the window shows it.
pub fn progress_shown(p: &FillProgress) -> (s: ProgressShown)
    requires
        console::displayable(*p),
    ensures
        shows_progress(s, *p),
{
    ProgressShown {
        done_human: human_bytes(p.done),
        total_human: human_bytes(p.total),
        rate_human: match &p.rate {
            Some(t) => human_rate(t),
            None => "—".to_owned(),
        },
        eta_human: match p.eta {
            Some(d) => human_eta(d),
            None => "estimating…".to_owned(),
        },
    }
}

/// One object on the device, named for a person to recognize. Names are carried to the UI
/// so nothing is ever deleted from behind a count.
#[derive(Debug)]
pub struct NamedObject {
    pub name: String,
    pub bytes: u64,
    pub human: String,
}

/// `n` names the entry `e`.
pub open spec fn names_entry(n: NamedObject, e: Entry) -> bool {
    n.name == e.name && n.bytes == e.bytes && n.human@ == units::bytes_text(e.bytes as nat)
}

/// The objects name the entries, one for one.
pub open spec fn names_entries(objects: Seq<NamedObject>, entries: Seq<Entry>) -> bool {
    objects.len() == entries.len() && forall|i: int|
        0 <= i < entries.len() ==> names_entry(#[trigger] objects[i], entries[i])
}

fn named_objects(entries: &Vec<Entry>) -> (objects: Vec<NamedObject>)
    ensures
        names_entries(objects@, entries@),
{
    let mut objects: Vec<NamedObject> = Vec::new();
    let mut i: usize = 0;
    while i < entries.len()
        invariant
            i <= entries.len(),
            objects@.len() == i,
            forall|j: int| 0 <= j < i ==> names_entry(#[trigger] objects@[j], entries@[j]),
        decreases entries.len() - i,
    {
        objects.push(
            NamedObject {
                name: entries[i].name.clone(),
                bytes: entries[i].bytes,
                human: human_bytes(entries[i].bytes),
            },
        );
        i += 1;
    }
    objects
}

/// What the device panel shows.
#[derive(Debug)]
pub struct DeviceSnapshot {
    pub storage: String,
    pub total: u64,
    pub free: u64,
    pub total_human: String,
    pub free_human: String,
    pub writable: bool,
    /// The folder filler goes in: someone who wants to undo this by hand needs to know what
    /// to look for.
    pub fill_dir: String,
    pub fill_dir_exists: bool,
    pub filler_files: usize,
    pub filler_bytes: u64,
    pub filler_human: String,
    /// Things in the filler folder that this tool did not write.
    pub foreign: Vec<NamedObject>,
    /// Identifies the `foreign` set above; none where nothing foreign is there and no
    /// confirmation is needed.
    pub overwrite_token: Option<String>,
    /// Staged firmware images at the storage root.
    pub updates: Vec<NamedObject>,
    /// Filler found under a *different* folder name.
    pub elsewhere: Vec<FillerFolder>,
}

/// What a scan of the device came back with.
#[derive(Debug)]
pub struct Scan {
    /// How the storage describes itself.
    pub storage: String,
    pub space: Space,
    pub writable: bool,
    /// The listing of the storage root.
    pub root: Vec<Entry>,
    /// The listing of the filler folder, if it exists.
    pub folder: Option<Vec<Entry>>,
    /// What the folders at the root hold. Only needed where the filler folder holds no
    /// filler: scanning every root folder costs a listing each.
    pub folders: Vec<RootEntry>,
}

/// What the filler folder holds, nothing where there is none.
pub open spec fn folder_of(scan: Scan) -> Seq<Entry> {
    match scan.folder {
        Some(l) => l@,
        None => Seq::empty(),
    }
}

/// A snapshot shows a scan: the filler in the folder counted, what is not ours named and
/// tied to its token, staged updates named, and filler elsewhere where there is none
/// here.
pub open spec fn shows_scan(s: DeviceSnapshot, scan: Scan, dir_name: Seq<char>) -> bool {
    let fillers = listing::fillers_of(folder_of(scan));
    let foreign = listing::foreign_of(folder_of(scan));
    &&& s.storage@ == scan.storage@
    &&& s.total == scan.space.total && s.free == scan.space.free
    &&& s.total_human@ == units::bytes_text(s.total as nat)
    &&& s.free_human@ == units::bytes_text(s.free as nat)
    &&& s.writable == scan.writable
    &&& s.fill_dir@ == dir_name
    &&& s.fill_dir_exists == scan.folder is Some
    &&& s.filler_files == fillers.len()
    &&& s.filler_bytes == listing::capped(listing::total_bytes(fillers))
    &&& s.filler_human@ == units::bytes_text(s.filler_bytes as nat)
    &&& names_entries(s.foreign@, foreign)
    &&& match s.overwrite_token {
        Some(t) => token::token_of(dir_name, foreign) == Some(t@),
        None => token::token_of(dir_name, foreign) is None,
    }
    &&& names_entries(s.updates@, listing::updates_of(scan.root@))
    &&& s.elsewhere@ == if fillers.len() == 0 {
        listing::elsewhere_of(listing::filler_folders_of(scan.folders@), dir_name)
    } else {
        Seq::empty()
    }
}

/// Whether the folders at the root have to be looked into: the filler folder, as listed,
/// holds no filler.
pub fn should_look_elsewhere(folder: Option<&Vec<Entry>>) -> (yes: bool)
    ensures
        yes == match folder {
            Some(l) => listing::fillers_of(l@).len() == 0,
            None => true,
        },
{
    match folder {
        Some(l) => list_fillers(l).len() == 0,
        None => true,
    }
}

/// What the device panel shows of a scan.
pub fn snapshot(scan: &Scan, dir_name: &str) -> (s: DeviceSnapshot)
    ensures
        shows_scan(s, *scan, dir_name@),
{
    let (fillers, foreign): (Vec<Entry>, Vec<Entry>) = match &scan.folder {
        Some(l) => (list_fillers(l), list_foreign(l)),
        None => {
            let none: Vec<Entry> = Vec::new();
            assert(none@ =~= Seq::<Entry>::empty());
            (list_fillers(&none), list_foreign(&none))
        },
    };
    let filler_bytes: u64 = sum_bytes(&fillers);
    let others: Vec<FillerFolder> = if fillers.len() == 0 {
        elsewhere(&find_filler_folders(&scan.folders), dir_name)
    } else {
        Vec::new()
    };
    DeviceSnapshot {
        storage: scan.storage.clone(),
        total: scan.space.total,
        free: scan.space.free,
        total_human: human_bytes(scan.space.total),
        free_human: human_bytes(scan.space.free),
        writable: scan.writable,
        fill_dir: dir_name.to_owned(),
        fill_dir_exists: scan.folder.is_some(),
        filler_files: fillers.len(),
        filler_bytes,
        filler_human: human_bytes(filler_bytes),
        foreign: named_objects(&foreign),
        overwrite_token: overwrite_token(dir_name, &foreign),
        updates: named_objects(&list_staged_updates(&scan.root)),
        elsewhere: others,
    }
}

} // verus!
