//! What is said to people: which of it is said when, and what it tells.

use crate::console;
use crate::double;
use crate::double_laws;
use crate::events;
use crate::events::{CleanReport, DeletedKind, ErrorKind, EventView, Fault, NameFault, Outcome};
use crate::listing;
use crate::listing::{Entry, FillerFolder};
use crate::mass_storage::Space;
use crate::plan::WindowError;
use crate::ptpcamerad::PrivilegeCheck;
use crate::rate;
use crate::rate::FillProgress;
use crate::report;
use crate::report::{DeviceSnapshot, ProgressShown, Scan};
use crate::text;
use crate::token;
use crate::units;
use vstd::prelude::*;

verus! {

/// A count of bytes as it is told.
pub open spec fn told(bytes: u64) -> Seq<char> {
    units::bytes_text(bytes as nat)
}

/// The panel is corrected by what an event says: free space is taken from the reading it
/// comes with, and the tally of filler moves by the object that was written or given back.
/// What is not filler moves nothing, and neither does a refusal or mere progress.
pub proof fn law_the_panel_follows_the_events(
    name: Seq<char>,
    bytes: u64,
    free: u64,
    aim: u64,
    total: u64,
    kind: DeletedKind,
    p: FillProgress,
)
    ensures
        report::correction(EventView::Started { free, aim, total }) == Some(
            (Some(free), 0int, 0i64),
        ),
        bytes <= i64::MAX ==> report::correction(EventView::Wrote { name, bytes, free }) == Some(
            (Some(free), 1int, bytes as i64),
        ),
        bytes <= i64::MAX ==> report::correction(
            EventView::Deleted { name, bytes, kind: DeletedKind::Filler },
        ) == Some((None::<u64>, -1int, (-bytes) as i64)),
        kind != DeletedKind::Filler ==> report::correction(
            EventView::Deleted { name, bytes, kind },
        ) is None,
        report::correction(EventView::DeleteRefused { name, bytes }) is None,
        report::correction(EventView::Finished { free }) == Some((Some(free), 0int, 0i64)),
        report::correction(EventView::Progress(p)) is None,
{
}

/// The log has a line for everything but progress. It tells the object by its name and
/// its size, and free space where there is a reading.
pub proof fn law_the_log_tells_what_happened(
    name: Seq<char>,
    bytes: u64,
    free: u64,
    aim: u64,
    total: u64,
    kind: DeletedKind,
    p: FillProgress,
)
    ensures
        report::logged(EventView::Started { free, aim, total }) == Some(
            "Starting at "@ + told(free) + " free, steering to "@ + told(aim) + " — "@ + told(total)
                + " to write."@,
        ),
        report::logged(EventView::Progress(p)) is None,
        report::logged(EventView::Wrote { name, bytes, free }) == Some(
            "Wrote "@ + name + " ("@ + told(bytes) + ") — "@ + told(free) + " free."@,
        ),
        report::logged(EventView::Deleted { name, bytes, kind }) == Some(
            "Deleted "@ + name + " ("@ + told(bytes) + ")."@,
        ),
        report::logged(EventView::DeleteRefused { name, bytes }) matches Some(line) && line
            == name + " ("@ + told(bytes)
            + ") could not be deleted — the device refused it. Unplug and replug the Kindle, then try again."@,
        report::logged(EventView::Finished { free }) == Some(
            "Finished at "@ + told(free) + " free."@,
        ),
{
}

/// On the console a fill tells of everything but progress and what it gives back of its
/// own; of what it deletes it tells what an interrupted one left behind. A refused deletion
/// is urgent, and nothing else is.
pub proof fn law_the_console_tells_of_a_fill(
    name: Seq<char>,
    bytes: u64,
    free: u64,
    aim: u64,
    total: u64,
    kind: DeletedKind,
    p: FillProgress,
)
    ensures
        console::fill_line_of(EventView::Started { free, aim, total }) == Some(
            (
                "starting at "@ + told(free) + " free, steering to "@ + told(aim) + " — "@ + told(
                    total,
                ) + " to write"@,
                false,
            ),
        ),
        console::fill_line_of(EventView::Progress(p)) is None,
        console::fill_line_of(EventView::Wrote { name, bytes, free }) == Some(
            ("  wrote "@ + name + " ("@ + told(bytes) + ") -> "@ + told(free) + " free"@, false),
        ),
        console::fill_line_of(
            EventView::Deleted { name, bytes, kind: DeletedKind::Interrupted },
        ) == Some(
            (
                "  reclaimed "@ + name + " ("@ + told(bytes)
                    + ") — left by a run that was killed mid-write"@,
                false,
            ),
        ),
        kind != DeletedKind::Interrupted ==> console::fill_line_of(
            EventView::Deleted { name, bytes, kind },
        ) is None,
        console::fill_line_of(EventView::DeleteRefused { name, bytes }) == Some(
            (
                "  !! "@ + name + " ("@ + told(bytes)
                    + ") could not be deleted — the device refused it. Unplug and replug the Kindle, then try again."@,
                true,
            ),
        ),
        console::fill_line_of(EventView::Finished { free }) == Some(
            ("finished at "@ + told(free) + " free"@, false),
        ),
{
}

/// On the console a clean and a purge tell of every deletion, whatever it was of, and of
/// every refusal, which is urgent; a clean tells the free space in the end as well.
pub proof fn law_the_console_tells_of_every_deletion(
    name: Seq<char>,
    bytes: u64,
    free: u64,
    kind: DeletedKind,
    other: EventView,
)
    ensures
        console::clean_line_of(EventView::Deleted { name, bytes, kind }) == Some(
            ("  deleted "@ + name + " ("@ + told(bytes) + ")"@, false),
        ),
        console::purge_line_of(EventView::Deleted { name, bytes, kind }) == Some(
            ("  deleted "@ + name + " ("@ + told(bytes) + ")"@, false),
        ),
        console::clean_line_of(EventView::DeleteRefused { name, bytes }) == Some(
            (
                "  !! "@ + name + " ("@ + told(bytes)
                    + ") was NOT deleted — the device refused it. Unplug and replug the Kindle, then run this again."@,
                true,
            ),
        ),
        console::purge_line_of(EventView::DeleteRefused { name, bytes }) == Some(
            (
                "  !! "@ + name + " ("@ + told(bytes)
                    + ") was NOT deleted — the device refused it."@,
                true,
            ),
        ),
        console::clean_line_of(EventView::Finished { free }) == Some(
            ("free now "@ + told(free), false),
        ),
        console::purge_line_of(EventView::Finished { free }) is None,
        other is Started || other is Wrote || other is Progress ==> console::clean_line_of(
            other,
        ) is None && console::purge_line_of(other) is None,
{
}

/// How a fill ended is told with the free space it ended at: as done where that is inside
/// the window, as overfilled with what is missing, or as stopped.
pub proof fn law_the_outcome_is_told(free: u64, excess: u64, nanos: nat, low: u64, high: u64)
    ensures
        report::outcome_text(Outcome::InWindow { free }) == "Done — "@ + told(free)
            + " free, inside the target window."@,
        report::outcome_text(Outcome::Overfilled { free, excess }) == "Overfilled: "@ + told(free)
            + " free, "@ + told(excess)
            + " below target. Use Remove filler & folder to recover."@,
        report::outcome_text(Outcome::Cancelled { free }) == "Stopped at "@ + told(free)
            + " free. What's written is intact — Fill again to resume."@,
        console::fill_summary_of(Outcome::InWindow { free }, nanos, low, high) == "done in "@
            + text::decimal(
            double::to_integer(double::seconds(nanos), 1, 1),
        ) + "s — "@ + told(free) + " free, inside "@ + told(low) + ".."@ + told(high),
        console::fill_summary_of(Outcome::Overfilled { free, excess }, nanos, low, high)
            == "overfilled: "@ + told(free) + " free, "@ + told(excess)
            + " below target. Run `kindlefill clean` to recover."@,
        console::fill_summary_of(Outcome::Cancelled { free }, nanos, low, high) == "stopped at "@
            + told(free)
            + " free. Filler written so far is intact — re-run `fill` to resume, or `clean` to undo."@,
{
}

/// A clean that removed something tells how much, from where, and what is free. One that
/// removed nothing names the first other folder with filler, where there is one, and only
/// without any says that there is none.
pub proof fn law_a_clean_says_where_filler_is(
    removed: usize,
    bytes: u64,
    free: u64,
    dir_name: Seq<char>,
    folders: Seq<FillerFolder>,
)
    ensures
        ({
            let message = report::clean_text(
                CleanReport { removed, bytes, free },
                dir_name,
                folders,
            );
            let others = listing::elsewhere_of(folders, dir_name);
            &&& removed > 0 ==> message == "Removed "@ + text::decimal(removed as nat)
                + " filler file"@ + if removed == 1 {
                ""@
            } else {
                "s"@
            } + " ("@ + told(bytes) + ") from "@ + dir_name + " — "@ + told(free) + " free."@
            &&& removed == 0 && others.len() > 0 ==> message == "Nothing to remove in "@ + dir_name
                + ", but "@ + told(others[0].bytes) + " of filler is in "@ + others[0].name@
                + " — switch to that folder and try again."@
            &&& removed == 0 && others.len() == 0 ==> message == "No filler to remove — "@ + told(
                free,
            ) + " free."@
        }),
{
}

/// After a clean the console says what came back and what is free; before that, where
/// nothing was removed, it says so and names every folder with filler, each on a line of
/// its own, in order.
pub proof fn law_a_clean_names_every_folder_with_filler(
    removed: usize,
    bytes: u64,
    free: u64,
    dir_name: Seq<char>,
    folders: Seq<FillerFolder>,
    i: int,
)
    ensures
        ({
            let lines = console::clean_summary_of(
                CleanReport { removed, bytes, free },
                dir_name,
                folders,
            );
            &&& lines.last() == "reclaimed "@ + told(bytes) + " — "@ + told(free) + " free"@
            &&& removed > 0 ==> lines.len() == 1
            &&& removed == 0 ==> lines.len() == folders.len() + 2 && lines[0]
                == "nothing to remove in "@ + dir_name
            &&& removed == 0 && 0 <= i < folders.len() ==> lines[i + 1] == "  filler is in "@
                + folders[i].name@ + ": "@ + told(folders[i].bytes) + " in "@ + text::decimal(
                folders[i].files as nat,
            ) + " file(s)"@
        }),
{
}

/// A deletion of staged images tells how many are gone and what they held together; that
/// nothing was selected and that nothing matched are told apart.
pub proof fn law_deleted_updates_are_counted(selected: nat, removed: Seq<Entry>)
    ensures
        selected == 0 ==> report::updates_text(selected, removed) == "Nothing selected."@,
        selected > 0 && removed.len() == 0 ==> report::updates_text(selected, removed)
            == "Nothing was deleted — no staged update matched."@,
        selected > 0 && removed.len() > 0 ==> report::updates_text(selected, removed)
            == "Deleted "@ + text::decimal(removed.len()) + " staged update"@ + if removed.len()
            == 1 {
            ""@
        } else {
            "s"@
        } + " ("@ + told(listing::capped(listing::total_bytes(removed))) + ")."@,
{
}

/// After a purge refusals come first, with how many there were; then that there was
/// nothing to remove; and else how many entries are gone.
pub proof fn law_a_purge_tells_refusals_first(dir_name: Seq<char>, removed: nat, refused: nat)
    ensures
        refused > 0 ==> text::decimal(refused).is_prefix_of(
            console::purge_summary_of(dir_name, removed, refused),
        ) && console::purge_summary_of(dir_name, removed, refused)
            == console::purge_summary_of(Seq::empty(), 0, refused),
        refused == 0 && removed == 0 ==> console::purge_summary_of(dir_name, removed, refused)
            == "nothing to remove — no "@ + dir_name
            + " folder at the storage root, or it was empty"@,
        refused == 0 && removed > 0 ==> console::purge_summary_of(dir_name, removed, refused)
            == "emptied "@ + dir_name + ": "@ + text::decimal(removed)
            + " item(s) deleted (the folder itself is left)"@,
{
    if refused > 0 {
        let line = console::purge_summary_of(dir_name, removed, refused);
        let n = text::decimal(refused);
        assert(n =~= line.take(n.len() as int));
    }
}

/// Guidance depends on what the failure comes down to, and where it is passed on, on its
/// own words: a device that went away in whichever way calls for the same, a refusal to
/// let this program in keeps the words at the end, and what has no guidance is its words
/// alone. On the console only a device that another process holds has any.
pub proof fn law_guidance_goes_by_the_kind(words: Seq<char>, more: Seq<char>)
    ensures
        report::explained(ErrorKind::Other, words) == words,
        report::explained(ErrorKind::Cancelled, words) == words,
        words.is_suffix_of(report::explained(ErrorKind::PermissionDenied, words)),
        report::explained(ErrorKind::PermissionDenied, words).len() == report::explained(
            ErrorKind::PermissionDenied,
            more,
        ).len() + words.len() - more.len(),
        report::explained(ErrorKind::ExclusiveAccess, words) == report::explained(
            ErrorKind::ExclusiveAccess,
            more,
        ),
        report::explained(ErrorKind::Timeout, words) == report::explained(
            ErrorKind::Timeout,
            more,
        ),
        report::explained(ErrorKind::Disconnected, words) == report::explained(
            ErrorKind::NoDevice,
            more,
        ),
        report::explained(ErrorKind::NoDevice, words) == report::explained(
            ErrorKind::DeviceReset,
            more,
        ),
        console::open_guidance_of(ErrorKind::ExclusiveAccess, words) matches Some(guidance)
            && words.is_suffix_of(guidance),
        console::open_guidance_of(ErrorKind::PermissionDenied, words) is None,
        console::open_guidance_of(ErrorKind::Timeout, words) is None,
        console::open_guidance_of(ErrorKind::Disconnected, words) is None,
        console::open_guidance_of(ErrorKind::NoDevice, words) is None,
        console::open_guidance_of(ErrorKind::DeviceReset, words) is None,
        console::open_guidance_of(ErrorKind::Cancelled, words) is None,
        console::open_guidance_of(ErrorKind::Other, words) is None,
{
    let denied = report::explained(ErrorKind::PermissionDenied, words);
    assert(denied.skip(denied.len() - words.len()) =~= words);
    assert(words =~= denied.subrange(denied.len() - words.len(), denied.len() as int));
    let held = console::open_guidance_of(ErrorKind::ExclusiveAccess, words)->0;
    assert(words =~= held.subrange(held.len() - words.len(), held.len() as int));
}

/// A failure of the device is explained as such; any other is told as it is anywhere.
pub proof fn law_a_device_failure_is_explained(kind: ErrorKind, words: Seq<char>, fault: Fault)
    ensures
        report::explained_fault(Fault::Mtp { kind, text: words }) == report::explained(kind, words),
        !(fault is Mtp) ==> report::explained_fault(fault) == events::fault_text(fault),
        events::fault_text(Fault::Mtp { kind, text: words }) == words,
        events::fault_text(Fault::Io(words)) == words,
{
}

/// A device below the window is told so with what is free and what is wanted; where there
/// is filler in other folders, the first of them is named with what it holds.
pub proof fn law_a_device_below_the_window_is_told_where_filler_is(
    free: u64,
    low: u64,
    elsewhere: Seq<FillerFolder>,
)
    ensures
        ({
            let message = events::fault_text(Fault::AlreadyBelowWindow { free, low, elsewhere });
            let start = "only "@ + text::decimal(free as nat) + " bytes free, already below the "@
                + text::decimal(low as nat) + "-byte target; nothing to fill"@;
            &&& elsewhere.len() == 0 ==> message == start
            &&& elsewhere.len() > 0 ==> message == start + " — but "@ + told(elsewhere[0].bytes)
                + " of filler is in "@ + elsewhere[0].name@
                + "; switch to that folder and try again"@
        }),
{
}

/// A name that can't be used is told as it was typed, and an empty one as empty; a storage
/// that takes no writes is told by what it calls itself.
pub proof fn law_refusals_name_what_they_refuse(name: Seq<char>)
    ensures
        name.len() == 0 ==> events::fault_text(events::bad_name(name))
            == "the folder name can't be empty"@,
        name.len() > 0 ==> events::bad_name(name) == Fault::BadName(NameFault::Illegal(name))
            && events::quoted(name).is_prefix_of(events::fault_text(events::bad_name(name))),
        events::fault_text(Fault::ReadOnly { description: name }) == "storage "@ + events::quoted(
            name,
        ) + " is read-only"@,
{
    if name.len() > 0 {
        let message = events::fault_text(events::bad_name(name));
        let q = events::quoted(name);
        assert(q =~= message.take(q.len() as int));
    }
}

/// A window that can't be used is told with its own numbers.
pub proof fn law_a_refused_window_is_told_in_numbers(a: u64, b: u64)
    ensures
        events::window_error_text(WindowError::Inverted { low: a, high: b }) == "lower bound "@
            + text::decimal(a as nat) + " must be below upper bound "@ + text::decimal(b as nat),
        events::window_error_text(WindowError::TooNarrow { width: a, minimum: b })
            == "window is "@ + text::decimal(a as nat) + " bytes wide; needs at least "@
            + text::decimal(b as nat)
            + " to absorb filesystem overhead on the final write"@,
{
}

/// How many of the entries hold exactly so many bytes is counted one by one.
pub proof fn law_sizes_are_counted_one_by_one(entries: Seq<Entry>, e: Entry, bytes: u64)
    ensures
        console::count_of(Seq::empty(), bytes) == 0,
        console::count_of(entries.push(e), bytes) == console::count_of(entries, bytes) + if e.bytes
            == bytes {
            1nat
        } else {
            0
        },
{
    assert(entries.push(e).drop_last() =~= entries);
}

/// The status of a folder tells how much filler there is, then its sizes, one line for
/// each, and then every entry that is not ours by its name; of a folder that is not there,
/// that there is none.
pub proof fn law_the_status_tells_all_that_is_there(
    dir_name: Seq<char>,
    l: Seq<Entry>,
    g: Seq<(u64, usize)>,
    i: int,
    j: int,
)
    ensures
        console::folder_lines_of(dir_name, None, g) == seq!["no "@ + dir_name + " folder"@],
        ({
            let lines = console::folder_lines_of(dir_name, Some(l), g);
            let fillers = listing::fillers_of(l);
            let foreign = listing::foreign_of(l);
            &&& lines.len() == 1 + g.len() + foreign.len()
            &&& lines[0] == dir_name + ": "@ + text::decimal(fillers.len())
                + " filler object(s), "@ + told(listing::capped(listing::total_bytes(fillers)))
            &&& 0 <= i < g.len() ==> lines[1 + i] == "  "@ + text::decimal(g[i].1 as nat) + " x "@
                + told(g[i].0)
            &&& 0 <= j < foreign.len() ==> lines[1 + g.len() + j]
                == "  (not ours, will be left alone: "@ + foreign[j].name@ + ")"@
        }),
{
}

/// The status names every staged image with its size, or says that there is none, and
/// tells the space of the storage by what it calls itself.
pub proof fn law_the_status_names_every_update(
    root: Seq<Entry>,
    i: int,
    quoted: Seq<char>,
    space: Space,
)
    ensures
        ({
            let updates = listing::updates_of(root);
            let lines = console::update_lines_of(root);
            &&& updates.len() == 0 ==> lines == seq!["no staged firmware update"@]
            &&& updates.len() > 0 ==> lines.len() == updates.len() + 1
            &&& 0 <= i < updates.len() ==> lines[i] == "staged firmware update: "@
                + updates[i].name@ + " ("@ + told(updates[i].bytes) + ")"@
        }),
        console::space_line_of(quoted, space) == quoted + ": "@ + told(space.free) + " free of "@
            + told(space.total),
{
}

/// A storage is told with its capacity and its free space, unless it reports none, and in
/// either case with whether it takes writes and with its file system.
pub proof fn law_a_storage_is_told_in_full(
    quoted: Seq<char>,
    space: Space,
    writable: bool,
    filesystem: Seq<char>,
)
    ensures
        ({
            let line = console::storage_line_of(quoted, space, writable, filesystem);
            let end = if writable {
                "true"@
            } else {
                "false"@
            } + ", fs="@ + filesystem;
            &&& space.total > 0 ==> line == "  "@ + quoted + ": "@ + told(space.total)
                + " total, "@ + told(space.free) + " free, writable="@ + end
            &&& space.total == 0 ==> end.is_suffix_of(line) && line == console::storage_line_of(
                quoted,
                Space { total: 0, free: 0 },
                writable,
                filesystem,
            )
        }),
{
    let line = console::storage_line_of(quoted, space, writable, filesystem);
    let end = if writable {
        "true"@
    } else {
        "false"@
    } + ", fs="@ + filesystem;
    if space.total > 0 {
        assert(line =~= "  "@ + quoted + ": "@ + told(space.total) + " total, "@ + told(space.free)
            + " free, writable="@ + end);
    } else {
        assert(end =~= line.subrange(line.len() - end.len(), line.len() as int));
    }
}

/// Every device of a scan is told on a line of its own; a daemon that can't be signalled
/// is told with the reason.
pub proof fn law_a_scan_tells_every_device(devices: Seq<String>, i: int, check: PrivilegeCheck)
    ensures
        devices.len() == 0 ==> console::scan_lines_of(devices) == seq!["  none in the USB scan"@],
        devices.len() > 0 ==> console::scan_lines_of(devices).len() == devices.len(),
        0 <= i < devices.len() ==> console::scan_lines_of(devices)[i] == "  "@ + devices[i]@,
        console::privilege_lines_of(check).len() == if check is NotRunning {
            1int
        } else {
            2
        },
        check matches PrivilegeCheck::NeedsElevation { reason } ==> reason@.is_suffix_of(
            console::privilege_lines_of(check)[0],
        ),
{
    if let PrivilegeCheck::NeedsElevation { reason } = check {
        let line = console::privilege_lines_of(check)[0];
        assert(reason@ =~= line.subrange(line.len() - reason@.len(), line.len() as int));
    }
}

/// The share of a job that is done is what has gone out of what there is, never more than
/// all of it; a job of nothing is done.
pub proof fn law_the_share_is_what_has_gone_out(p: FillProgress)
    ensures
        p.total > 0 && p.done <= p.total ==> console::share(p) == (p.done as nat, p.total as nat),
        p.total > 0 && p.done >= p.total ==> console::share(p).0 == console::share(p).1,
        p.total == 0 ==> console::share(p).0 == console::share(p).1,
        console::share(p).1 > 0,
{
}

/// Progress is told with what is done, what there is to do, how fast it goes and how long
/// it still takes; what is not known yet is told as such.
pub proof fn law_progress_is_told_in_full(p: FillProgress, s: ProgressShown)
    requires
        report::shows_progress(s, p),
    ensures
        s.done_human@ == told(p.done),
        s.total_human@ == told(p.total),
        p.rate matches Some(t) ==> s.rate_human@ == report::rate_text(t.bytes as nat, t.span@)
            && console::speed_text(p) == s.rate_human@,
        p.rate is None ==> s.rate_human@ == "—"@ && console::speed_text(p) == "--"@,
        p.eta matches Some(d) ==> s.eta_human@ == rate::duration_text(rate::eta_rounded(d@))
            && console::left_text(p) == s.eta_human@,
        p.eta is None ==> s.eta_human@ == "estimating…"@ && console::left_text(p)
            == "estimating"@,
        console::plain_line_of(p) == "  "@ + text::decimal(
            double::to_integer(
                double::percent(console::share(p).0, console::share(p).1),
                1,
                1,
            ),
        ) + "% | "@ + told(p.done) + " of "@ + told(p.total) + " | "@ + console::speed_text(p)
            + " | "@ + console::left_text(p) + " left"@,
{
}

/// A snapshot of the device shows what the scan found: its space, whether it takes writes,
/// how much filler the folder holds, every entry there that is not ours with its token,
/// every staged image, and where the folder holds no filler, every other folder that does.
pub proof fn law_a_snapshot_shows_the_scan(
    s: DeviceSnapshot,
    scan: Scan,
    dir_name: Seq<char>,
    i: int,
)
    requires
        report::shows_scan(s, scan, dir_name),
    ensures
        ({
            let held: Seq<Entry> = match scan.folder {
                Some(l) => l@,
                None => Seq::empty(),
            };
            let fillers = listing::fillers_of(held);
            let foreign = listing::foreign_of(held);
            let updates = listing::updates_of(scan.root@);
            &&& s.storage@ == scan.storage@ && s.writable == scan.writable && s.fill_dir@
                == dir_name
            &&& s.total == scan.space.total && s.total_human@ == told(scan.space.total)
            &&& s.free == scan.space.free && s.free_human@ == told(scan.space.free)
            &&& s.fill_dir_exists <==> scan.folder is Some
            &&& s.filler_files as nat == fillers.len()
            &&& s.filler_bytes == listing::capped(listing::total_bytes(fillers))
            &&& s.filler_human@ == told(s.filler_bytes)
            &&& s.foreign@.len() == foreign.len()
            &&& 0 <= i < foreign.len() ==> s.foreign@[i].name@ == foreign[i].name@
                && s.foreign@[i].bytes == foreign[i].bytes && s.foreign@[i].human@ == told(
                foreign[i].bytes,
            )
            &&& s.updates@.len() == updates.len()
            &&& 0 <= i < updates.len() ==> s.updates@[i].name@ == updates[i].name@
                && s.updates@[i].bytes == updates[i].bytes && s.updates@[i].human@ == told(
                updates[i].bytes,
            )
            &&& s.overwrite_token is None <==> foreign.len() == 0
            &&& s.overwrite_token matches Some(t) ==> token::token_of(dir_name, foreign) == Some(t@)
            &&& fillers.len() > 0 ==> s.elsewhere@.len() == 0
            &&& fillers.len() == 0 ==> s.elsewhere@ == listing::elsewhere_of(
                listing::filler_folders_of(scan.folders@),
                dir_name,
            )
        }),
{
    let held = report::folder_of(scan);
    let foreign = listing::foreign_of(held);
    let updates = listing::updates_of(scan.root@);
    if 0 <= i < foreign.len() {
        assert(report::names_entry(s.foreign@[i], foreign[i]));
    }
    if 0 <= i < updates.len() {
        assert(report::names_entry(s.updates@[i], updates[i]));
    }
}

/// A rate is told in megabytes per second to the nearest tenth.
pub proof fn law_a_rate_is_told_to_the_tenth(bytes: nat, nanos: nat) -> (tenths: nat)
    requires
        bytes > 0,
        nanos > 0,
    ensures
        report::rate_text(bytes, nanos) == text::decimal(tenths / 10) + "."@ + text::decimal(
            tenths % 10,
        ) + " MB/s"@,
        double_laws::nearest(
            tenths as int,
            10 * ((bytes * 1_000_000_000) as int),
            (nanos * 1_048_576) as int,
            14,
        ),
{
    double_laws::law_rates_are_shown_to_the_nearest_tenth(bytes, nanos);
    double::to_integer(double::rate(bytes, nanos), 10, 1_048_576)
}

/// What does not move is told to move at no rate at all.
pub proof fn law_nothing_moves_at_no_rate(nanos: nat)
    ensures
        report::rate_text(0, nanos) == "0.0 MB/s"@,
{
    double_laws::law_of_nothing_there_is_nothing(nanos, 10, 1_048_576);
    reveal_strlit(".");
    reveal_strlit(" MB/s");
    reveal_strlit("0.0 MB/s");
    assert(text::decimal(0) == seq![text::digit(0)]);
    assert(text::digit(0) == '0');
    assert(report::rate_text(0, nanos) =~= "0.0 MB/s"@);
}

/// A bar of progress is 32 cells wide and full as far as the job is done, to the nearest
/// cell; beside it stands the share in percent, to the nearest tenth and in line, and then
/// what a plain line tells.
pub proof fn law_a_bar_is_full_as_far_as_the_job_is_done(p: FillProgress) -> (shown: (nat, nat))
    ensures
        ({
            let (part, whole) = console::share(p);
            let (cells, tenths) = shown;
            let percent = text::decimal(tenths / 10) + "."@ + text::decimal(tenths % 10);
            &&& cells <= 32
            &&& double_laws::shows(cells as int, (32 * part) as int, whole as int)
            &&& double_laws::shows(tenths as int, (1000 * part) as int, whole as int)
            &&& console::bar_line_of(p) == "\r  ["@ + text::repeated('#', cells as int)
                + text::repeated('-', 32 - cells) + "] "@ + (text::repeated(
                ' ',
                5 - percent.len(),
            ) + percent) + "% | "@ + told(p.done) + " / "@ + told(p.total) + " | "@
                + console::speed_text(p) + " | "@ + console::left_text(p) + " left    "@
            &&& console::trace_of(p) == "Progress "@ + text::decimal(tenths / 10) + "."@
                + text::decimal(tenths % 10) + "% "@ + told(p.done) + "/"@ + told(p.total)
        }),
{
    let (part, whole) = console::share(p);
    double_laws::law_cells_are_filled_to_the_nearest(part, whole, 32);
    double_laws::law_percents_are_shown_to_the_nearest(part, whole);
    (
        double::cells_filled(part, whole, 32),
        double::to_integer(double::percent(part, whole), 10, 1),
    )
}

/// A character repeated is that character and nothing else, as often as was asked.
pub proof fn law_a_repeated_character_fills(c: char, n: int, i: int)
    ensures
        n <= 0 ==> text::repeated(c, n).len() == 0,
        n > 0 ==> text::repeated(c, n).len() == n,
        0 <= i < n ==> text::repeated(c, n)[i] == c,
{
}

/// All that the groups count together.
pub open spec fn counted(g: Seq<(u64, usize)>) -> int
    decreases g.len(),
{
    if g.len() == 0 {
        0
    } else {
        counted(g.drop_last()) + g.last().1
    }
}

/// All the entries whose size is that of one of the groups.
spec fn matched(g: Seq<(u64, usize)>, entries: Seq<Entry>) -> int
    decreases g.len(),
{
    if g.len() == 0 {
        0
    } else {
        matched(g.drop_last(), entries) + console::count_of(entries, g.last().0)
    }
}

/// Grouped by size, every object is counted exactly once.
pub proof fn law_every_object_is_counted_once(g: Seq<(u64, usize)>, entries: Seq<Entry>)
    requires
        console::groups(g, entries),
    ensures
        counted(g) == entries.len(),
        forall|i: int| 0 <= i < g.len() ==> (#[trigger] g[i]).1 > 0,
        forall|i: int, j: int|
            0 <= i < j < g.len() ==> (#[trigger] g[i]).0 > (#[trigger] g[j]).0,
{
    lemma_counted_is_matched(g, entries);
    lemma_all_matched(g, entries);
}

proof fn lemma_counted_is_matched(g: Seq<(u64, usize)>, entries: Seq<Entry>)
    requires
        forall|i: int| 0 <= i < g.len() ==> (#[trigger] g[i]).1 == console::count_of(entries, g[i].0),
    ensures
        counted(g) == matched(g, entries),
    decreases g.len(),
{
    if g.len() > 0 {
        let rest = g.drop_last();
        assert forall|i: int| 0 <= i < rest.len() implies (#[trigger] rest[i]).1
            == console::count_of(entries, rest[i].0) by {
            assert(rest[i] == g[i]);
        }
        lemma_counted_is_matched(rest, entries);
        assert(g.last() == g[g.len() - 1]);
    }
}

proof fn lemma_all_matched(g: Seq<(u64, usize)>, entries: Seq<Entry>)
    requires
        forall|i: int, j: int| 0 <= i < j < g.len() ==> (#[trigger] g[i]).0 > (#[trigger] g[j]).0,
        forall|k: int|
            0 <= k < entries.len() ==> exists|i: int|
                0 <= i < g.len() && #[trigger] g[i].0 == (#[trigger] entries[k]).bytes,
    ensures
        matched(g, entries) == entries.len(),
    decreases entries.len(),
{
    if entries.len() == 0 {
        lemma_matched_none(g);
        assert(entries =~= Seq::<Entry>::empty());
    } else {
        let rest = entries.drop_last();
        let e = entries.last();
        assert forall|k: int| 0 <= k < rest.len() implies exists|i: int|
            0 <= i < g.len() && #[trigger] g[i].0 == (#[trigger] rest[k]).bytes by {
            assert(rest[k] == entries[k]);
        }
        lemma_all_matched(g, rest);
        assert(entries[entries.len() - 1] == e);
        let i = choose|i: int| 0 <= i < g.len() && #[trigger] g[i].0 == e.bytes;
        lemma_matched_one_more(g, rest, e, i);
        assert(rest.push(e) =~= entries);
    }
}

proof fn lemma_matched_none(g: Seq<(u64, usize)>)
    ensures
        matched(g, Seq::empty()) == 0,
    decreases g.len(),
{
    if g.len() > 0 {
        lemma_matched_none(g.drop_last());
    }
}

/// One entry more is matched by the one group of its size.
proof fn lemma_matched_one_more(g: Seq<(u64, usize)>, entries: Seq<Entry>, e: Entry, at: int)
    requires
        forall|i: int, j: int| 0 <= i < j < g.len() ==> (#[trigger] g[i]).0 > (#[trigger] g[j]).0,
        at == -1 && (forall|i: int| 0 <= i < g.len() ==> (#[trigger] g[i]).0 != e.bytes) || 0 <= at
            < g.len() && g[at].0 == e.bytes,
    ensures
        matched(g, entries.push(e)) == matched(g, entries) + if at >= 0 {
            1int
        } else {
            0
        },
    decreases g.len(),
{
    if g.len() > 0 {
        let rest = g.drop_last();
        let last = g.len() - 1;
        law_sizes_are_counted_one_by_one(entries, e, g.last().0);
        assert forall|i: int, j: int| 0 <= i < j < rest.len() implies (#[trigger] rest[i]).0 > (
        #[trigger] rest[j]).0 by {
            assert(rest[i] == g[i] && rest[j] == g[j]);
        }
        if at == last {
            assert forall|i: int| 0 <= i < rest.len() implies (#[trigger] rest[i]).0 != e.bytes by {
                assert(rest[i] == g[i]);
                assert(g[i].0 > g[last].0);
            }
            lemma_matched_one_more(rest, entries, e, -1);
        } else {
            if at >= 0 {
                assert(rest[at] == g[at]);
                assert(g[at].0 > g[last].0);
            } else {
                assert(g[last].0 != e.bytes);
                assert forall|i: int| 0 <= i < rest.len() implies (#[trigger] rest[i]).0
                    != e.bytes by {
                    assert(rest[i] == g[i]);
                }
            }
            lemma_matched_one_more(rest, entries, e, at);
        }
    }
}

/// A refusal that passes words on puts its own before them, the same whatever they are.
pub proof fn law_words_are_passed_on_unchanged(words: Seq<char>)
    ensures
        report::explained(ErrorKind::PermissionDenied, words) == report::explained(
            ErrorKind::PermissionDenied,
            Seq::empty(),
        ) + words,
        console::open_guidance_of(ErrorKind::ExclusiveAccess, words) == Some(
            console::open_guidance_of(ErrorKind::ExclusiveAccess, Seq::empty())->0 + words,
        ),
{
    assert(report::explained(ErrorKind::PermissionDenied, words) =~= report::explained(
        ErrorKind::PermissionDenied,
        Seq::empty(),
    ) + words);
    assert(console::open_guidance_of(ErrorKind::ExclusiveAccess, words)->0
        =~= console::open_guidance_of(ErrorKind::ExclusiveAccess, Seq::empty())->0 + words);
}

/// What is said after a number or a name does not depend on it: not after the count of
/// refusals of a purge, nor after a name that can't be used, nor of a storage that reports
/// no space.
pub proof fn law_the_same_is_said_whatever_it_is_said_of(
    dir: Seq<char>,
    removed: nat,
    refused: nat,
    name: Seq<char>,
    writable: bool,
    filesystem: Seq<char>,
    free: u64,
)
    requires
        refused > 0,
    ensures
        console::purge_summary_of(dir, removed, refused) == text::decimal(refused)
            + console::purge_summary_of(Seq::empty(), 0, 1).skip(text::decimal(1).len() as int),
        events::illegal_name_text(name) == name + events::illegal_name_text(Seq::empty()),
        name.len() > 0 ==> events::fault_text(events::bad_name(name)) == events::quoted(name)
            + events::illegal_name_text(Seq::empty()),
        console::storage_line_of(name, Space { total: 0, free }, writable, filesystem) == "  "@
            + name + console::storage_line_of(
            Seq::empty(),
            Space { total: 0, free: 0 },
            writable,
            Seq::empty(),
        ).skip(2) + filesystem,
{
    reveal_strlit("  ");
    assert(console::purge_summary_of(dir, removed, refused) =~= text::decimal(refused)
        + console::purge_summary_of(Seq::empty(), 0, 1).skip(text::decimal(1).len() as int));
    assert(events::illegal_name_text(name) =~= name + events::illegal_name_text(Seq::empty()));
    if name.len() > 0 {
        let q = events::quoted(name);
        assert(events::illegal_name_text(q) =~= q + events::illegal_name_text(Seq::empty()));
    }
    assert(console::storage_line_of(name, Space { total: 0, free }, writable, filesystem)
        =~= "  "@ + name + console::storage_line_of(
        Seq::empty(),
        Space { total: 0, free: 0 },
        writable,
        Seq::empty(),
    ).skip(2) + filesystem);
}

/// The lines on the camera daemon say whether it has to be dealt with, and how.
pub proof fn law_the_daemon_is_told_of(check: PrivilegeCheck)
    ensures
        console::privilege_lines_of(check) == match check {
            PrivilegeCheck::NotRunning => seq!["  not running (nothing to work around)"@],
            PrivilegeCheck::KillableUnprivileged => seq![
                "  running, and killable WITHOUT sudo"@,
                "  -> the GUI app will not need an admin prompt"@,
            ],
            PrivilegeCheck::NeedsElevation { reason } => seq![
                "  running, and NOT killable as this user: "@ + reason@,
                "  -> the GUI app will need an admin prompt or a privileged helper"@,
            ],
        },
{
}

/// Failures that say no more than that they happened are told apart.
pub proof fn law_plain_failures_are_told_apart()
    ensures
        events::fault_text(Fault::StaleConfirmation)
            == "the folder's contents changed since they were confirmed — re-check the folder and confirm again"@,
        events::fault_text(Fault::SpaceUnreported)
            == "the device did not report its free space — unlock the device and replug"@,
        events::fault_text(Fault::NamesExhausted)
            == "every filler name is taken — remove the filler first"@,
{
}

/// The panel counts even what is too large to be counted with a sign: the tally moves by
/// the bytes of the object, modulo two to the power of 64.
pub proof fn law_the_tally_moves_by_the_object(name: Seq<char>, bytes: u64, free: u64)
    ensures
        report::correction(EventView::Wrote { name, bytes, free }) matches Some((_, _, delta))
            && delta as u64 == bytes,
        report::correction(
            EventView::Deleted { name, bytes, kind: DeletedKind::Filler },
        ) matches Some((_, _, delta)) && (delta as u64) as int == if bytes == 0 {
            0
        } else {
            0x1_0000_0000_0000_0000 - bytes
        },
{
    let size = bytes as i64;
    assert((bytes as i64) as u64 == bytes) by (bit_vector);
    let back = 0i64.wrapping_sub(size);
    assert(size != i64::MIN ==> back == -size);
    assert(size == i64::MIN ==> back == i64::MIN);
    assert(bytes == 0 && back == 0 || (back as u64) + bytes == 0x1_0000_0000_0000_0000u128)
        by (bit_vector)
        requires
            size == bytes as i64,
            back + size == 0 || (size == i64::MIN && back == i64::MIN),
    ;
}

} // verus!
