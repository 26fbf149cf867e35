//! What the command line prints.

use crate::double;
use crate::double::{percent_times, seconds_times};
use crate::events;
use crate::events::{
    is_exclusive_access, quote, CleanReport, DeletedKind, ErrorKind, Event, EventView, MtpError,
    Outcome,
};
use crate::listing;
use crate::listing::{
    list_fillers, list_foreign, list_staged_updates, sum_bytes, Entry, FillerFolder,
};
use crate::mass_storage::Space;
use crate::ptpcamerad::PrivilegeCheck;
use crate::rate;
use crate::rate::{human_eta, Duration, FillProgress, NANOS_PER_SEC};
use crate::report;
use crate::report::human_rate;
use crate::text;
use crate::text::{no_lines, one_line, push_decimal, push_decimal_wide, push_line};
use crate::units;
use crate::units::human_bytes;
use vstd::prelude::*;
use vstd::string::*;

verus! {

/// A line to print.
#[derive(Debug)]
pub struct Line {
    pub text: String,
    /// To the error stream.
    pub urgent: bool,
}

/// A line to print, as contracts speak of it: its text, and whether it is urgent.
pub type LineView = (Seq<char>, bool);

impl View for Line {
    type V = LineView;

    open spec fn view(&self) -> LineView {
        (self.text@, self.urgent)
    }
}

/// The line for an event of a fill. Reclaimed debris is worth a line: it is space
/// appearing from somewhere the user did not ask about. The fill's own trimming stays
/// quiet.
pub open spec fn fill_line_of(event: EventView) -> Option<LineView> {
    match event {
        EventView::Started { free, aim, total } => Some(
            (
                "starting at "@ + units::bytes_text(free as nat) + " free, steering to "@
                    + units::bytes_text(aim as nat) + " — "@ + units::bytes_text(total as nat)
                    + " to write"@,
                false,
            ),
        ),
        EventView::Progress(_) => None,
        EventView::Wrote { name, bytes, free } => Some(
            (
                "  wrote "@ + name + " ("@ + units::bytes_text(bytes as nat) + ") -> "@
                    + units::bytes_text(free as nat) + " free"@,
                false,
            ),
        ),
        EventView::Finished { free } => Some(
            ("finished at "@ + units::bytes_text(free as nat) + " free"@, false),
        ),
        EventView::Deleted { name, bytes, kind } => if kind == DeletedKind::Interrupted {
            Some(
                (
                    "  reclaimed "@ + name + " ("@ + units::bytes_text(bytes as nat)
                        + ") — left by a run that was killed mid-write"@,
                    false,
                ),
            )
        } else {
            None
        },
        EventView::DeleteRefused { name, bytes } => Some(
            (
                "  !! "@ + name + " ("@ + units::bytes_text(bytes as nat)
                    + ") could not be deleted — the device refused it. Unplug and replug the Kindle, then try again."@,
                true,
            ),
        ),
    }
}

/// The line for an event of a fill.
pub fn fill_line(event: &Event) -> (line: Option<Line>)
    ensures
        match line {
            Some(l) => fill_line_of(event@) == Some(l@),
            None => fill_line_of(event@) is None,
        },
{
    match event {
        Event::Started { free, aim, total } => {
            let mut out = "starting at ".to_owned();
            out.append(human_bytes(*free).as_str());
            out.append(" free, steering to ");
            out.append(human_bytes(*aim).as_str());
            out.append(" — ");
            out.append(human_bytes(*total).as_str());
            out.append(" to write");
            Some(Line { text: out, urgent: false })
        },
        Event::Progress(_) => None,
        Event::Wrote { name, bytes, free } => {
            let mut out = "  wrote ".to_owned();
            out.append(name.as_str());
            out.append(" (");
            out.append(human_bytes(*bytes).as_str());
            out.append(") -> ");
            out.append(human_bytes(*free).as_str());
            out.append(" free");
            Some(Line { text: out, urgent: false })
        },
        Event::Finished { free } => {
            let mut out = "finished at ".to_owned();
            out.append(human_bytes(*free).as_str());
            out.append(" free");
            Some(Line { text: out, urgent: false })
        },
        Event::Deleted { name, bytes, kind } => {
            if *kind == DeletedKind::Interrupted {
                let mut out = "  reclaimed ".to_owned();
                out.append(name.as_str());
                out.append(" (");
                out.append(human_bytes(*bytes).as_str());
                out.append(") — left by a run that was killed mid-write");
                Some(Line { text: out, urgent: false })
            } else {
                None
            }
        },
        Event::DeleteRefused { name, bytes } => {
            let mut out = "  !! ".to_owned();
            out.append(name.as_str());
            out.append(" (");
            out.append(human_bytes(*bytes).as_str());
            out.append(
                ") could not be deleted — the device refused it. Unplug and replug the Kindle, then try again.",
            );
            Some(Line { text: out, urgent: true })
        },
    }
}

/// What is printed of how a fill ended, after so many nanoseconds.
pub open spec fn fill_summary_of(outcome: Outcome, nanos: nat, low: u64, high: u64) -> Seq<char> {
    match outcome {
        Outcome::InWindow { free } => "done in "@ + text::decimal(
            double::to_integer(double::seconds(nanos), 1, 1),
        ) + "s — "@ + units::bytes_text(free as nat) + " free, inside "@ + units::bytes_text(
            low as nat,
        ) + ".."@ + units::bytes_text(high as nat),
        Outcome::Overfilled { free, excess } => "overfilled: "@ + units::bytes_text(free as nat)
            + " free, "@ + units::bytes_text(excess as nat)
            + " below target. Run `kindlefill clean` to recover."@,
        Outcome::Cancelled { free } => "stopped at "@ + units::bytes_text(free as nat)
            + " free. Filler written so far is intact — re-run `fill` to resume, or `clean` to undo."@,
    }
}

/// A time in whole seconds, to the nearest, halves to the even one.
fn whole_seconds(d: Duration) -> (secs: u128)
    ensures
        secs == double::to_integer(double::seconds(d@), 1, 1),
{
    let whole: u64 = d.as_secs();
    let nanos: u32 = d.subsec_nanos();
    assert(d@ == whole * 1_000_000_000 + nanos);
    seconds_times(whole, nanos, 1)
}

/// What is printed of how a fill ended.
pub fn fill_summary(outcome: Outcome, elapsed: Duration, low: u64, high: u64) -> (line: String)
    ensures
        line@ == fill_summary_of(outcome, elapsed@, low, high),
{
    match outcome {
        Outcome::InWindow { free } => {
            let mut out = "done in ".to_owned();
            push_decimal_wide(&mut out, whole_seconds(elapsed));
            out.append("s — ");
            out.append(human_bytes(free).as_str());
            out.append(" free, inside ");
            out.append(human_bytes(low).as_str());
            out.append("..");
            out.append(human_bytes(high).as_str());
            out
        },
        Outcome::Overfilled { free, excess } => {
            let mut out = "overfilled: ".to_owned();
            out.append(human_bytes(free).as_str());
            out.append(" free, ");
            out.append(human_bytes(excess).as_str());
            out.append(" below target. Run `kindlefill clean` to recover.");
            out
        },
        Outcome::Cancelled { free } => {
            let mut out = "stopped at ".to_owned();
            out.append(human_bytes(free).as_str());
            out.append(
                " free. Filler written so far is intact — re-run `fill` to resume, or `clean` to undo.",
            );
            out
        },
    }
}

/// The line for a deletion.
pub open spec fn deleted_text(name: Seq<char>, bytes: u64) -> Seq<char> {
    "  deleted "@ + name + " ("@ + units::bytes_text(bytes as nat) + ")"@
}

fn deleted_line(name: &String, bytes: u64) -> (line: String)
    ensures
        line@ == deleted_text(name@, bytes),
{
    let mut out = "  deleted ".to_owned();
    out.append(name.as_str());
    out.append(" (");
    out.append(human_bytes(bytes).as_str());
    out.append(")");
    out
}

/// The line for an event of a clean. A refused deletion is the one case where saying
/// nothing would be a lie by omission: the object is still on the device.
pub open spec fn clean_line_of(event: EventView) -> Option<LineView> {
    match event {
        EventView::Deleted { name, bytes, .. } => Some((deleted_text(name, bytes), false)),
        EventView::DeleteRefused { name, bytes } => Some(
            (
                "  !! "@ + name + " ("@ + units::bytes_text(bytes as nat)
                    + ") was NOT deleted — the device refused it. Unplug and replug the Kindle, then run this again."@,
                true,
            ),
        ),
        EventView::Finished { free } => Some(("free now "@ + units::bytes_text(free as nat), false)),
        _ => None,
    }
}

/// The line for an event of a clean.
pub fn clean_line(event: &Event) -> (line: Option<Line>)
    ensures
        match line {
            Some(l) => clean_line_of(event@) == Some(l@),
            None => clean_line_of(event@) is None,
        },
{
    match event {
        Event::Deleted { name, bytes, .. } => Some(
            Line { text: deleted_line(name, *bytes), urgent: false },
        ),
        Event::DeleteRefused { name, bytes } => {
            let mut out = "  !! ".to_owned();
            out.append(name.as_str());
            out.append(" (");
            out.append(human_bytes(*bytes).as_str());
            out.append(
                ") was NOT deleted — the device refused it. Unplug and replug the Kindle, then run this again.",
            );
            Some(Line { text: out, urgent: true })
        },
        Event::Finished { free } => {
            let mut out = "free now ".to_owned();
            out.append(human_bytes(*free).as_str());
            Some(Line { text: out, urgent: false })
        },
        _ => None,
    }
}

/// The line for a folder that holds filler.
pub open spec fn folder_line_of(f: FillerFolder) -> Seq<char> {
    "  filler is in "@ + f.name@ + ": "@ + units::bytes_text(f.bytes as nat) + " in "@
        + text::decimal(f.files as nat) + " file(s)"@
}

/// What is printed after a clean: where filler is, if none was here, and what came back.
pub open spec fn clean_summary_of(
    report: CleanReport,
    dir_name: Seq<char>,
    folders: Seq<FillerFolder>,
) -> Seq<Seq<char>> {
    let last = "reclaimed "@ + units::bytes_text(report.bytes as nat) + " — "@
        + units::bytes_text(report.free as nat) + " free"@;
    if report.removed == 0 {
        (seq!["nothing to remove in "@ + dir_name] + folders.map_values(
            |f: FillerFolder| folder_line_of(f),
        )).push(last)
    } else {
        seq![last]
    }
}

fn folder_line(f: &FillerFolder) -> (line: String)
    ensures
        line@ == folder_line_of(*f),
{
    let mut out = "  filler is in ".to_owned();
    out.append(f.name.as_str());
    out.append(": ");
    out.append(human_bytes(f.bytes).as_str());
    out.append(" in ");
    push_decimal(&mut out, f.files as u64);
    out.append(" file(s)");
    out
}

/// What is printed after a clean, given the folders that hold filler. They are not looked
/// at where something was removed.
pub fn clean_summary(report: CleanReport, dir_name: &str, folders: &Vec<FillerFolder>) -> (lines:
    Vec<String>)
    ensures
        text::texts(lines@) == clean_summary_of(report, dir_name@, folders@),
{
    let mut lines = no_lines();
    if report.removed == 0 {
        let mut first = "nothing to remove in ".to_owned();
        first.append(dir_name);
        push_line(&mut lines, first);
        let ghost start = text::texts(lines@);
        assert(start =~= seq!["nothing to remove in "@ + dir_name@]);
        let mut i: usize = 0;
        let ghost shown = |f: FillerFolder| folder_line_of(f);
        assert(start + folders@.take(0).map_values(shown) =~= start);
        while i < folders.len()
            invariant
                i <= folders.len(),
                shown == (|f: FillerFolder| folder_line_of(f)),
                text::texts(lines@) == start + folders@.take(i as int).map_values(shown),
            decreases folders.len() - i,
        {
            push_line(&mut lines, folder_line(&folders[i]));
            i += 1;
            assert(text::texts(lines@) =~= start + folders@.take(i as int).map_values(shown));
        }
        assert(folders@.take(i as int) =~= folders@);
    }
    let mut last = "reclaimed ".to_owned();
    last.append(human_bytes(report.bytes).as_str());
    last.append(" — ");
    last.append(human_bytes(report.free).as_str());
    last.append(" free");
    push_line(&mut lines, last);
    assert(text::texts(lines@) =~= clean_summary_of(report, dir_name@, folders@));
    lines
}

/// The line for an event of a purge.
pub open spec fn purge_line_of(event: EventView) -> Option<LineView> {
    match event {
        EventView::Deleted { name, bytes, .. } => Some((deleted_text(name, bytes), false)),
        EventView::DeleteRefused { name, bytes } => Some(
            (
                "  !! "@ + name + " ("@ + units::bytes_text(bytes as nat)
                    + ") was NOT deleted — the device refused it."@,
                true,
            ),
        ),
        _ => None,
    }
}

/// The line for an event of a purge.
pub fn purge_line(event: &Event) -> (line: Option<Line>)
    ensures
        match line {
            Some(l) => purge_line_of(event@) == Some(l@),
            None => purge_line_of(event@) is None,
        },
{
    match event {
        Event::Deleted { name, bytes, .. } => Some(
            Line { text: deleted_line(name, *bytes), urgent: false },
        ),
        Event::DeleteRefused { name, bytes } => {
            let mut out = "  !! ".to_owned();
            out.append(name.as_str());
            out.append(" (");
            out.append(human_bytes(*bytes).as_str());
            out.append(") was NOT deleted — the device refused it.");
            Some(Line { text: out, urgent: true })
        },
        _ => None,
    }
}

/// What is printed after a purge. Nothing to do and something that did not happen are told
/// apart, because the two need opposite reactions.
pub open spec fn purge_summary_of(dir_name: Seq<char>, removed: nat, refused: nat) -> Seq<char> {
    if refused > 0 {
        text::decimal(refused)
            + " item(s) could not be deleted and are still on the device. This is usually an interrupted transfer the device has not released — unplug and replug the Kindle, then run this again."@
    } else if removed == 0 {
        "nothing to remove — no "@ + dir_name + " folder at the storage root, or it was empty"@
    } else {
        "emptied "@ + dir_name + ": "@ + text::decimal(removed)
            + " item(s) deleted (the folder itself is left)"@
    }
}

/// What is printed after a purge.
pub fn purge_summary(dir_name: &str, removed: usize, refused: usize) -> (line: String)
    ensures
        line@ == purge_summary_of(dir_name@, removed as nat, refused as nat),
{
    if refused > 0 {
        let mut out = String::new();
        push_decimal(&mut out, refused as u64);
        out.append(
            " item(s) could not be deleted and are still on the device. This is usually an interrupted transfer the device has not released — unplug and replug the Kindle, then run this again.",
        );
        assert(out@ =~= purge_summary_of(dir_name@, removed as nat, refused as nat));
        out
    } else if removed == 0 {
        let mut out = "nothing to remove — no ".to_owned();
        out.append(dir_name);
        out.append(" folder at the storage root, or it was empty");
        out
    } else {
        let mut out = "emptied ".to_owned();
        out.append(dir_name);
        out.append(": ");
        push_decimal(&mut out, removed as u64);
        out.append(" item(s) deleted (the folder itself is left)");
        out
    }
}

/// The line after a folder was emptied ahead of a fill.
pub fn emptied_line(dir_name: &str, removed: usize) -> (line: String)
    ensures
        line@ == "emptied "@ + dir_name@ + ": "@ + text::decimal(removed as nat)
            + " item(s) deleted"@,
{
    let mut out = "emptied ".to_owned();
    out.append(dir_name);
    out.append(": ");
    push_decimal(&mut out, removed as u64);
    out.append(" item(s) deleted");
    out
}

/// How many of the entries hold exactly so many bytes.
pub open spec fn count_of(entries: Seq<Entry>, bytes: u64) -> nat
    decreases entries.len(),
{
    if entries.len() == 0 {
        0
    } else {
        count_of(entries.drop_last(), bytes) + if entries.last().bytes == bytes {
            1nat
        } else {
            0
        }
    }
}

/// The groups are the sizes of the entries, each once, the largest first, with how many
/// entries have it.
pub open spec fn groups(g: Seq<(u64, usize)>, entries: Seq<Entry>) -> bool {
    &&& forall|i: int, j: int| 0 <= i < j < g.len() ==> (#[trigger] g[i]).0 > (#[trigger] g[j]).0
    &&& forall|i: int|
        0 <= i < g.len() ==> (#[trigger] g[i]).1 == count_of(entries, g[i].0) && g[i].1 > 0
    &&& forall|k: int|
        0 <= k < entries.len() ==> exists|i: int|
            0 <= i < g.len() && #[trigger] g[i].0 == (#[trigger] entries[k]).bytes
}

proof fn lemma_count_positive(entries: Seq<Entry>, k: int)
    requires
        0 <= k < entries.len(),
    ensures
        count_of(entries, entries[k].bytes) > 0,
    decreases entries.len(),
{
    if k < entries.len() - 1 {
        lemma_count_positive(entries.drop_last(), k);
        assert(entries.drop_last()[k] == entries[k]);
    }
}

proof fn lemma_count_bounded(entries: Seq<Entry>, bytes: u64)
    ensures
        count_of(entries, bytes) <= entries.len(),
    decreases entries.len(),
{
    if entries.len() > 0 {
        lemma_count_bounded(entries.drop_last(), bytes);
    }
}

proof fn lemma_count_absent(entries: Seq<Entry>, bytes: u64)
    requires
        forall|k: int| 0 <= k < entries.len() ==> (#[trigger] entries[k]).bytes != bytes,
    ensures
        count_of(entries, bytes) == 0,
    decreases entries.len(),
{
    if entries.len() > 0 {
        assert forall|k: int| 0 <= k < entries.drop_last().len() implies (
        #[trigger] entries.drop_last()[k]).bytes != bytes by {
            assert(entries.drop_last()[k] == entries[k]);
        }
        lemma_count_absent(entries.drop_last(), bytes);
        assert(entries.last() == entries[entries.len() - 1]);
    }
}

/// Entries are grouped in one way only.
pub proof fn law_grouping_is_unique(g: Seq<(u64, usize)>, h: Seq<(u64, usize)>, entries: Seq<Entry>)
    requires
        groups(g, entries),
        groups(h, entries),
    ensures
        g == h,
{
    lemma_groups_agree(g, h, entries, g.len());
    lemma_groups_agree(h, g, entries, h.len());
    assert(g =~= h);
}

proof fn lemma_groups_agree(
    g: Seq<(u64, usize)>,
    h: Seq<(u64, usize)>,
    entries: Seq<Entry>,
    n: nat,
)
    requires
        groups(g, entries),
        groups(h, entries),
        n <= g.len(),
    ensures
        n <= h.len(),
        forall|i: int| 0 <= i < n ==> #[trigger] g[i] == h[i],
    decreases n,
{
    if n > 0 {
        let i = n - 1;
        lemma_groups_agree(g, h, entries, i as nat);
        let j = lemma_grouped_too(g, h, entries, i);
        if j < i {
            assert(g[j] == h[j]);
            assert(g[j].0 > g[i].0);
        }
        let k = lemma_grouped_too(h, g, entries, i);
        if k < i {
            assert(g[k] == h[k]);
            assert(h[k].0 > h[i].0);
        }
        if j > i {
            assert(h[i].0 > h[j].0);
            if k > i {
                assert(g[i].0 > g[k].0);
            }
        }
    }
}

/// A size in one grouping is in the other.
proof fn lemma_grouped_too(
    g: Seq<(u64, usize)>,
    h: Seq<(u64, usize)>,
    entries: Seq<Entry>,
    i: int,
) -> (j: int)
    requires
        groups(g, entries),
        groups(h, entries),
        0 <= i < g.len(),
    ensures
        0 <= j < h.len(),
        h[j].0 == g[i].0,
{
    let bytes = g[i].0;
    assert(count_of(entries, bytes) > 0);
    if forall|k: int| 0 <= k < entries.len() ==> (#[trigger] entries[k]).bytes != bytes {
        lemma_count_absent(entries, bytes);
    }
    let k = choose|k: int| 0 <= k < entries.len() && (#[trigger] entries[k]).bytes == bytes;
    choose|j: int| 0 <= j < h.len() && #[trigger] h[j].0 == entries[k].bytes
}

/// The entries grouped by size, the largest first: the trim granularity available after a
/// fill is exactly the set of small objects the final approach laid down.
pub fn by_size(entries: &Vec<Entry>) -> (g: Vec<(u64, usize)>)
    ensures
        groups(g@, entries@),
{
    let mut g: Vec<(u64, usize)> = Vec::new();
    let mut n: usize = 0;
    while n < entries.len()
        invariant
            n <= entries.len(),
            groups(g@, entries@.take(n as int)),
        decreases entries.len() - n,
    {
        let size: u64 = entries[n].bytes;
        let ghost seen = entries@.take(n as int);
        let ghost more = entries@.take(n + 1);
        let ghost before = g@;
        assert(more.drop_last() =~= seen);
        assert(more.last() == entries@[n as int]);
        let mut at: usize = 0;
        while at < g.len() && g[at].0 > size
            invariant
                at <= g.len(),
                g@ == before,
                forall|j: int| 0 <= j < at ==> (#[trigger] before[j]).0 > size,
            decreases g.len() - at,
        {
            at += 1;
        }
        proof {
            assert forall|b: u64| #[trigger] count_of(more, b) == count_of(seen, b) + if b == size {
                1nat
            } else {
                0
            } by {}
            lemma_count_bounded(more, size);
        }
        if at < g.len() && g[at].0 == size {
            let (s, c) = g[at];
            proof {
                assert(c == count_of(seen, size));
                lemma_count_bounded(seen, size);
            }
            g.set(at, (s, c + 1));
            assert forall|k: int| 0 <= k < more.len() implies exists|i: int|
                0 <= i < g@.len() && #[trigger] g@[i].0 == (#[trigger] more[k]).bytes by {
                if k < n {
                    assert(seen[k] == more[k]);
                    let i = choose|i: int|
                        0 <= i < before.len() && #[trigger] before[i].0 == seen[k].bytes;
                    assert(g@[i].0 == more[k].bytes);
                } else {
                    assert(g@[at as int].0 == more[k].bytes);
                }
            }
        } else {
            proof {
                assert forall|k: int| 0 <= k < seen.len() implies (#[trigger] seen[k]).bytes
                    != size by {
                    let i = choose|i: int|
                        0 <= i < before.len() && #[trigger] before[i].0 == seen[k].bytes;
                    if i > at {
                        assert(before[at as int].0 > before[i].0);
                    }
                }
                lemma_count_absent(seen, size);
            }
            g.insert(at, (size, 1));
            assert(g@ =~= before.insert(at as int, (size, 1usize)));
            assert forall|i: int, j: int| 0 <= i < j < g@.len() implies (#[trigger] g@[i]).0 > (
            #[trigger] g@[j]).0 by {
                let a = if i < at { i } else { i - 1 };
                let b = if j < at { j } else { j - 1 };
                if i != at && j != at {
                    assert(g@[i] == before[a] && g@[j] == before[b]);
                } else if j == at {
                    assert(g@[i] == before[i]);
                } else {
                    assert(g@[j] == before[j - 1]);
                    if j - 1 > at {
                        assert(before[at as int].0 > before[j - 1].0);
                    }
                }
            }
            assert forall|i: int| 0 <= i < g@.len() implies (#[trigger] g@[i]).1 == count_of(
                more,
                g@[i].0,
            ) && g@[i].1 > 0 by {
                if i < at {
                    assert(g@[i] == before[i]);
                } else if i > at {
                    assert(g@[i] == before[i - 1]);
                    if i - 1 > at {
                        assert(before[at as int].0 > before[i - 1].0);
                    }
                }
            }
            assert forall|k: int| 0 <= k < more.len() implies exists|i: int|
                0 <= i < g@.len() && #[trigger] g@[i].0 == (#[trigger] more[k]).bytes by {
                if k < n {
                    assert(seen[k] == more[k]);
                    let i = choose|i: int|
                        0 <= i < before.len() && #[trigger] before[i].0 == seen[k].bytes;
                    if i < at {
                        assert(g@[i].0 == more[k].bytes);
                    } else {
                        assert(g@[i + 1].0 == more[k].bytes);
                    }
                } else {
                    assert(g@[at as int].0 == more[k].bytes);
                }
            }
        }
        n += 1;
    }
    assert(entries@.take(n as int) =~= entries@);
    g
}

/// The line for a group of filler objects of one size.
pub open spec fn group_line_of(g: (u64, usize)) -> Seq<char> {
    "  "@ + text::decimal(g.1 as nat) + " x "@ + units::bytes_text(g.0 as nat)
}

/// The line for something in the folder that is not ours: a clean will leave it, and that
/// is said here rather than left to be discovered.
pub open spec fn foreign_line_of(e: Entry) -> Seq<char> {
    "  (not ours, will be left alone: "@ + e.name@ + ")"@
}

/// The line for a staged update.
pub open spec fn update_line_of(e: Entry) -> Seq<char> {
    "staged firmware update: "@ + e.name@ + " ("@ + units::bytes_text(e.bytes as nat) + ")"@
}

/// The line for the folder.
pub open spec fn folder_total_of(dir_name: Seq<char>, fillers: Seq<Entry>) -> Seq<char> {
    dir_name + ": "@ + text::decimal(fillers.len()) + " filler object(s), "@ + units::bytes_text(
        listing::capped(listing::total_bytes(fillers)) as nat,
    )
}

/// The lines on the folder, with its filler grouped as `g`.
pub open spec fn folder_lines_of(
    dir_name: Seq<char>,
    folder: Option<Seq<Entry>>,
    g: Seq<(u64, usize)>,
) -> Seq<Seq<char>> {
    match folder {
        None => seq!["no "@ + dir_name + " folder"@],
        Some(l) => seq![folder_total_of(dir_name, listing::fillers_of(l))] + g.map_values(
            |x: (u64, usize)| group_line_of(x),
        ) + listing::foreign_of(l).map_values(|e: Entry| foreign_line_of(e)),
    }
}

/// The lines on staged updates. Filling around one accomplishes nothing, so this is worth
/// knowing before a long transfer rather than after it.
pub open spec fn update_lines_of(root: Seq<Entry>) -> Seq<Seq<char>> {
    let updates = listing::updates_of(root);
    if updates.len() == 0 {
        seq!["no staged firmware update"@]
    } else {
        updates.map_values(|e: Entry| update_line_of(e)).push(
            "  filling around a staged update accomplishes nothing — remove it first"@,
        )
    }
}

/// What a listing holds.
pub open spec fn contents(folder: Option<&Vec<Entry>>) -> Option<Seq<Entry>> {
    match folder {
        Some(l) => Some(l@),
        None => None,
    }
}

/// The first line of a status, given the storage's description in quotes.
pub open spec fn space_line_of(quoted: Seq<char>, space: Space) -> Seq<char> {
    quoted + ": "@ + units::bytes_text(space.free as nat) + " free of "@ + units::bytes_text(
        space.total as nat,
    )
}

fn push_folder_lines(
    lines: &mut Vec<String>,
    dir_name: &str,
    folder: Option<&Vec<Entry>>,
) -> (g: Ghost<Seq<(u64, usize)>>)
    ensures
        folder matches Some(l) ==> groups(g@, listing::fillers_of(l@)),
        text::texts(final(lines)@) == text::texts(old(lines)@) + folder_lines_of(
            dir_name@,
            contents(folder),
            g@,
        ),
{
    match folder {
        None => {
            let mut line = "no ".to_owned();
            line.append(dir_name);
            line.append(" folder");
            push_line(lines, line);
            assert(text::texts(lines@) =~= text::texts(old(lines)@) + folder_lines_of(
                dir_name@,
                None,
                Seq::empty(),
            ));
            Ghost(Seq::empty())
        },
        Some(l) => {
            let fillers = list_fillers(l);
            let mut line = dir_name.to_owned();
            line.append(": ");
            push_decimal(&mut line, fillers.len() as u64);
            line.append(" filler object(s), ");
            line.append(human_bytes(sum_bytes(&fillers)).as_str());
            push_line(lines, line);
            let ghost first = text::texts(lines@);
            let g = by_size(&fillers);
            let ghost group = |x: (u64, usize)| group_line_of(x);
            let mut i: usize = 0;
            assert(first + g@.take(0).map_values(group) =~= first);
            while i < g.len()
                invariant
                    i <= g.len(),
                    group == (|x: (u64, usize)| group_line_of(x)),
                    text::texts(lines@) == first + g@.take(i as int).map_values(group),
                decreases g.len() - i,
            {
                let (size, count) = g[i];
                let mut line = "  ".to_owned();
                push_decimal(&mut line, count as u64);
                line.append(" x ");
                line.append(human_bytes(size).as_str());
                push_line(lines, line);
                i += 1;
                assert(text::texts(lines@) =~= first + g@.take(i as int).map_values(group));
            }
            assert(g@.take(i as int) =~= g@);
            let ghost grouped = text::texts(lines@);
            let foreign = list_foreign(l);
            let ghost other = |e: Entry| foreign_line_of(e);
            let mut k: usize = 0;
            assert(grouped + foreign@.take(0).map_values(other) =~= grouped);
            while k < foreign.len()
                invariant
                    k <= foreign.len(),
                    other == (|e: Entry| foreign_line_of(e)),
                    text::texts(lines@) == grouped + foreign@.take(k as int).map_values(other),
                decreases foreign.len() - k,
            {
                let mut line = "  (not ours, will be left alone: ".to_owned();
                line.append(foreign[k].name.as_str());
                line.append(")");
                push_line(lines, line);
                k += 1;
                assert(text::texts(lines@) =~= grouped + foreign@.take(k as int).map_values(other));
            }
            assert(foreign@.take(k as int) =~= foreign@);
            assert(text::texts(lines@) =~= text::texts(old(lines)@) + folder_lines_of(
                dir_name@,
                Some(l@),
                g@,
            ));
            Ghost(g@)
        },
    }
}

fn push_update_lines(lines: &mut Vec<String>, root: &Vec<Entry>)
    ensures
        text::texts(final(lines)@) == text::texts(old(lines)@) + update_lines_of(root@),
{
    let updates = list_staged_updates(root);
    if updates.len() == 0 {
        push_line(lines, "no staged firmware update".to_owned());
        assert(text::texts(lines@) =~= text::texts(old(lines)@) + update_lines_of(root@));
        return;
    }
    let ghost before = text::texts(lines@);
    let ghost staged = |e: Entry| update_line_of(e);
    let mut i: usize = 0;
    assert(before + updates@.take(0).map_values(staged) =~= before);
    while i < updates.len()
        invariant
            i <= updates.len(),
            staged == (|e: Entry| update_line_of(e)),
            text::texts(lines@) == before + updates@.take(i as int).map_values(staged),
        decreases updates.len() - i,
    {
        let mut line = "staged firmware update: ".to_owned();
        line.append(updates[i].name.as_str());
        line.append(" (");
        line.append(human_bytes(updates[i].bytes).as_str());
        line.append(")");
        push_line(lines, line);
        i += 1;
        assert(text::texts(lines@) =~= before + updates@.take(i as int).map_values(staged));
    }
    assert(updates@.take(i as int) =~= updates@);
    push_line(
        lines,
        "  filling around a staged update accomplishes nothing — remove it first".to_owned(),
    );
    assert(text::texts(lines@) =~= text::texts(old(lines)@) + update_lines_of(root@));
}

/// The status of a device, given its storage's description in quotes, the listing of the
/// filler folder, if there is one, and that of the storage root.
pub fn status_report(
    quoted: &str,
    space: Space,
    dir_name: &str,
    folder: Option<&Vec<Entry>>,
    root: &Vec<Entry>,
) -> (lines: Vec<String>)
    ensures
        exists|g: Seq<(u64, usize)>|
            (folder matches Some(l) ==> groups(g, listing::fillers_of(l@))) && text::texts(lines@)
                == seq![space_line_of(quoted@, space)] + #[trigger] folder_lines_of(
                dir_name@,
                contents(folder),
                g,
            ) + update_lines_of(root@),
{
    let mut lines = no_lines();
    let mut first = quoted.to_owned();
    first.append(": ");
    first.append(human_bytes(space.free).as_str());
    first.append(" free of ");
    first.append(human_bytes(space.total).as_str());
    push_line(&mut lines, first);
    assert(text::texts(lines@) =~= seq![space_line_of(quoted@, space)]);
    let g = push_folder_lines(&mut lines, dir_name, folder);
    push_update_lines(&mut lines, root);
    assert(text::texts(lines@) == seq![space_line_of(quoted@, space)] + folder_lines_of(
        dir_name@,
        contents(folder),
        g@,
    ) + update_lines_of(root@));
    lines
}

/// The status of a device: its space, what is in the filler folder, and staged updates.
pub fn status_lines(
    description: &str,
    space: Space,
    dir_name: &str,
    folder: Option<&Vec<Entry>>,
    root: &Vec<Entry>,
) -> (lines: Vec<String>)
    ensures
        exists|g: Seq<(u64, usize)>|
            (folder matches Some(l) ==> groups(g, listing::fillers_of(l@))) && text::texts(lines@)
                == seq![space_line_of(events::quoted(description@), space)]
                + #[trigger] folder_lines_of(
                dir_name@,
                contents(folder),
                g,
            ) + update_lines_of(root@),
{
    status_report(quote(description).as_str(), space, dir_name, folder, root)
}

/// `true` or `false`.
pub open spec fn bool_text(b: bool) -> Seq<char> {
    if b {
        "true"@
    } else {
        "false"@
    }
}

/// The line for a storage, given its description in quotes. A capacity of zero is the
/// placeholder for a device that did not answer, not a measurement.
pub open spec fn storage_line_of(
    quoted: Seq<char>,
    space: Space,
    writable: bool,
    filesystem: Seq<char>,
) -> Seq<char> {
    if space.total == 0 {
        "  "@ + quoted
            + ": capacity/free NOT REPORTED (fill would refuse — unlock the device and replug), writable="@
            + bool_text(writable) + ", fs="@ + filesystem
    } else {
        "  "@ + quoted + ": "@ + units::bytes_text(space.total as nat) + " total, "@
            + units::bytes_text(space.free as nat) + " free, writable="@ + bool_text(writable)
            + ", fs="@ + filesystem
    }
}

/// The line for a storage, given its description in quotes.
pub fn storage_report(quoted: &str, space: Space, writable: bool, filesystem: &str) -> (line: String)
    ensures
        line@ == storage_line_of(quoted@, space, writable, filesystem@),
{
    let mut out = "  ".to_owned();
    out.append(quoted);
    if space.total == 0 {
        out.append(
            ": capacity/free NOT REPORTED (fill would refuse — unlock the device and replug), writable=",
        );
    } else {
        out.append(": ");
        out.append(human_bytes(space.total).as_str());
        out.append(" total, ");
        out.append(human_bytes(space.free).as_str());
        out.append(" free, writable=");
    }
    out.append(
        if writable {
            "true"
        } else {
            "false"
        },
    );
    out.append(", fs=");
    out.append(filesystem);
    out
}

/// The line for a storage.
pub fn storage_line(description: &str, space: Space, writable: bool, filesystem: &str) -> (line:
    String)
    ensures
        line@ == storage_line_of(events::quoted(description@), space, writable, filesystem@),
{
    storage_report(quote(description).as_str(), space, writable, filesystem)
}

/// Guidance for a device that could not be opened because another process holds it, in the
/// words of the command line; a failure of another kind has none.
pub open spec fn open_guidance_of(kind: ErrorKind, words: Seq<char>) -> Option<Seq<char>> {
    if kind == ErrorKind::ExclusiveAccess {
        Some(
            "the device is held open by another process.\nOn macOS that is almost always ptpcamerad (Apple's PTP camera daemon).\nQuit Android File Transfer and OpenMTP if running, then retry.\nUnderlying error: "@
                + words,
        )
    } else {
        None
    }
}

/// Guidance for a device that could not be opened, where there is some.
pub fn open_guidance(error: &MtpError) -> (guidance: Option<String>)
    ensures
        match guidance {
            Some(g) => open_guidance_of(error.kind, error.text@) == Some(g@),
            None => open_guidance_of(error.kind, error.text@) is None,
        },
{
    if is_exclusive_access(error) {
        let mut out =
            "the device is held open by another process.\nOn macOS that is almost always ptpcamerad (Apple's PTP camera daemon).\nQuit Android File Transfer and OpenMTP if running, then retry.\nUnderlying error: ".to_owned();
        out.append(error.text.as_str());
        Some(out)
    } else {
        None
    }
}

/// The lines on the camera daemon.
pub open spec fn privilege_lines_of(check: PrivilegeCheck) -> Seq<Seq<char>> {
    match check {
        PrivilegeCheck::NotRunning => seq!["  not running (nothing to work around)"@],
        PrivilegeCheck::KillableUnprivileged => seq![
            "  running, and killable WITHOUT sudo"@,
            "  -> the GUI app will not need an admin prompt"@,
        ],
        PrivilegeCheck::NeedsElevation { reason } => seq![
            "  running, and NOT killable as this user: "@ + reason@,
            "  -> the GUI app will need an admin prompt or a privileged helper"@,
        ],
    }
}

/// The lines on the camera daemon.
pub fn privilege_lines(check: &PrivilegeCheck) -> (lines: Vec<String>)
    ensures
        text::texts(lines@) == privilege_lines_of(*check),
{
    let (first, second): (String, &'static str) = match check {
        PrivilegeCheck::NotRunning => {
            return one_line("  not running (nothing to work around)".to_owned());
        },
        PrivilegeCheck::KillableUnprivileged => (
            "  running, and killable WITHOUT sudo".to_owned(),
            "  -> the GUI app will not need an admin prompt",
        ),
        PrivilegeCheck::NeedsElevation { reason } => {
            let mut out = "  running, and NOT killable as this user: ".to_owned();
            out.append(reason.as_str());
            (out, "  -> the GUI app will need an admin prompt or a privileged helper")
        },
    };
    let mut lines = one_line(first);
    push_line(&mut lines, second.to_owned());
    assert(text::texts(lines@) =~= privilege_lines_of(*check));
    lines
}

/// The lines on the devices of a USB scan.
pub open spec fn scan_lines_of(devices: Seq<String>) -> Seq<Seq<char>> {
    if devices.len() == 0 {
        seq!["  none in the USB scan"@]
    } else {
        devices.map_values(|d: String| "  "@ + d@)
    }
}

/// The lines on the devices of a USB scan, given how each describes itself. None in the
/// scan is not none at all: one bound to another driver can't be seen there.
pub fn scan_lines(devices: &Vec<String>) -> (lines: Vec<String>)
    ensures
        text::texts(lines@) == scan_lines_of(devices@),
{
    if devices.len() == 0 {
        return one_line("  none in the USB scan".to_owned());
    }
    let mut lines = no_lines();
    let mut i: usize = 0;
    let ghost described = |d: String| "  "@ + d@;
    assert(text::texts(lines@) =~= devices@.take(0).map_values(described));
    while i < devices.len()
        invariant
            i <= devices.len(),
            described == (|d: String| "  "@ + d@),
            text::texts(lines@) == devices@.take(i as int).map_values(described),
        decreases devices.len() - i,
    {
        let mut out = "  ".to_owned();
        out.append(devices[i].as_str());
        push_line(&mut lines, out);
        i += 1;
        assert(text::texts(lines@) =~= devices@.take(i as int).map_values(described));
    }
    assert(devices@.take(i as int) =~= devices@);
    lines
}

/// The line on portable devices that Windows sees.
pub fn portable_line(present: bool) -> (line: &'static str)
    ensures
        line@ == if present {
            "  WPD: at least one portable device present — the storages section opens it"@
        } else {
            "  WPD: no portable devices"@
        },
{
    if present {
        "  WPD: at least one portable device present — the storages section opens it"
    } else {
        "  WPD: no portable devices"
    }
}

/// The line that names the device.
pub fn device_line(manufacturer: &str, model: &str) -> (line: String)
    ensures
        line@ == "  device: "@ + manufacturer@ + " "@ + model@,
{
    let mut out = "  device: ".to_owned();
    out.append(manufacturer);
    out.append(" ");
    out.append(model);
    out
}

/// Progress that can be displayed: a rate over any time at all, and a remaining time
/// that can be rounded. All progress that a [`crate::meter::Meter`] shows can be.
pub open spec fn displayable(p: FillProgress) -> bool {
    &&& p.rate matches Some(t) ==> t.span@ > 0
    &&& p.eta matches Some(d) ==> d@ < (u64::MAX - 29) * NANOS_PER_SEC
}

/// Whether progress can be displayed.
pub fn can_display(p: &FillProgress) -> (yes: bool)
    ensures
        yes == displayable(*p),
{
    let rate_fits: bool = match p.rate {
        Some(t) => t.span.as_nanos() > 0,
        None => true,
    };
    let eta_fits: bool = match p.eta {
        Some(d) => d.as_nanos() < 18_446_744_073_709_551_586_000_000_000,
        None => true,
    };
    rate_fits && eta_fits
}

/// All progress that a meter shows can be displayed.
pub proof fn law_metered_progress_is_displayable(
    p: FillProgress,
    history: Seq<rate::Reading>,
    done: u64,
    total: u64,
)
    requires
        crate::meter::shows(p, history, done, total),
    ensures
        displayable(p),
{
    rate::law_eta_is_sane(history, rate::since(total as nat, done as nat));
}

/// The completed share of a job: so many of so many.
pub open spec fn share(p: FillProgress) -> (nat, nat) {
    if p.total == 0 {
        (1, 1)
    } else if p.done < p.total {
        (p.done as nat, p.total as nat)
    } else {
        (p.total as nat, p.total as nat)
    }
}

/// How fast, if that is known.
pub open spec fn speed_text(p: FillProgress) -> Seq<char> {
    match p.rate {
        Some(t) => report::rate_text(t.bytes as nat, t.span@),
        None => "--"@,
    }
}

/// How long still, if that is known.
pub open spec fn left_text(p: FillProgress) -> Seq<char> {
    match p.eta {
        Some(d) => rate::duration_text(rate::eta_rounded(d@)),
        None => "estimating"@,
    }
}

/// A plain progress line, for output that is not a terminal.
pub open spec fn plain_line_of(p: FillProgress) -> Seq<char> {
    "  "@ + text::decimal(
        double::to_integer(double::percent(share(p).0, share(p).1), 1, 1),
    ) + "% | "@
        + units::bytes_text(p.done as nat) + " of "@ + units::bytes_text(p.total as nat) + " | "@
        + speed_text(p) + " | "@ + left_text(p) + " left"@
}

/// The completed share in percent with one decimal, filled up with spaces to five
/// characters.
pub open spec fn percent_of(part: nat, whole: nat) -> Seq<char> {
    let tenths = double::to_integer(double::percent(part, whole), 10, 1);
    let number = text::decimal(tenths / 10) + "."@ + text::decimal(tenths % 10);
    text::repeated(' ', 5 - number.len()) + number
}

/// How many of the cells of a progress bar are full.
pub open spec fn cells_of(p: FillProgress, cells: nat) -> nat {
    double::cells_filled(share(p).0, share(p).1, cells)
}

/// A progress bar that is drawn over itself.
pub open spec fn bar_line_of(p: FillProgress) -> Seq<char> {
    "\r  ["@ + text::repeated('#', cells_of(p, 32) as int) + text::repeated(
        '-',
        32 - cells_of(p, 32),
    ) + "] "@ + percent_of(share(p).0, share(p).1) + "% | "@ + units::bytes_text(p.done as nat)
        + " / "@ + units::bytes_text(p.total as nat) + " | "@ + speed_text(p) + " | "@ + left_text(p)
        + " left    "@
}

fn speed(p: &FillProgress) -> (s: String)
    requires
        displayable(*p),
    ensures
        s@ == speed_text(*p),
{
    match &p.rate {
        Some(t) => human_rate(t),
        None => "--".to_owned(),
    }
}

fn time_left(p: &FillProgress) -> (s: String)
    requires
        displayable(*p),
    ensures
        s@ == left_text(*p),
{
    match p.eta {
        Some(d) => human_eta(d),
        None => "estimating".to_owned(),
    }
}

fn push_repeated(out: &mut String, c: char, n: u32)
    ensures
        final(out)@ == old(out)@ + text::repeated(c, n as int),
{
    let mut i: u32 = 0;
    assert(out@ =~= old(out)@ + text::repeated(c, 0));
    while i < n
        invariant
            i <= n,
            out@ == old(out)@ + text::repeated(c, i as int),
        decreases n - i,
    {
        out.push(c);
        i += 1;
        assert(out@ =~= old(out)@ + text::repeated(c, i as int));
    }
}

fn push_percent(out: &mut String, part: u64, whole: u64)
    requires
        0 < whole,
        part <= whole,
    ensures
        final(out)@ == old(out)@ + percent_of(part as nat, whole as nat),
{
    let tenths: u128 = percent_times(part, whole, 10);
    let pad: u32 = if tenths < 100 {
        2
    } else if tenths < 1000 {
        1
    } else {
        0
    };
    push_repeated(out, ' ', pad);
    push_decimal_wide(out, tenths / 10);
    out.append(".");
    push_decimal(out, (tenths % 10) as u64);
    proof {
        reveal_strlit(".");
        reveal_with_fuel(text::decimal, 4);
        let number = text::decimal((tenths / 10) as nat) + "."@ + text::decimal(
            (tenths % 10) as nat,
        );
        assert(tenths < 1000 ==> number.len() + pad == 5);
        assert(tenths >= 1000 ==> number.len() >= 5);
        assert(out@ =~= old(out)@ + percent_of(part as nat, whole as nat));
    }
}

/// Draw progress: a bar that is drawn over itself on a terminal, a plain line otherwise.
/// Redraws turn a piped log into an unreadable single line.
pub fn progress_line(p: &FillProgress, tty: bool) -> (line: String)
    requires
        displayable(*p),
    ensures
        line@ == if tty {
            bar_line_of(*p)
        } else {
            plain_line_of(*p)
        },
{
    let f = p.fraction();
    if !tty {
        let mut out = "  ".to_owned();
        push_decimal_wide(&mut out, percent_times(f.part, f.whole, 1));
        out.append("% | ");
        out.append(human_bytes(p.done).as_str());
        out.append(" of ");
        out.append(human_bytes(p.total).as_str());
        out.append(" | ");
        out.append(speed(p).as_str());
        out.append(" | ");
        out.append(time_left(p).as_str());
        out.append(" left");
        return out;
    }
    let filled: u32 = p.filled_cells(32);
    let mut out = "\r  [".to_owned();
    push_repeated(&mut out, '#', filled);
    push_repeated(&mut out, '-', 32 - filled);
    out.append("] ");
    push_percent(&mut out, f.part, f.whole);
    out.append("% | ");
    out.append(human_bytes(p.done).as_str());
    out.append(" / ");
    out.append(human_bytes(p.total).as_str());
    out.append(" | ");
    out.append(speed(p).as_str());
    out.append(" | ");
    out.append(time_left(p).as_str());
    out.append(" left    ");
    out
}

/// Progress in a trace of what happens.
pub open spec fn trace_of(p: FillProgress) -> Seq<char> {
    let tenths = double::to_integer(double::percent(share(p).0, share(p).1), 10, 1);
    "Progress "@ + text::decimal(tenths / 10) + "."@ + text::decimal(tenths % 10) + "% "@
        + units::bytes_text(p.done as nat) + "/"@ + units::bytes_text(p.total as nat)
}

/// Progress in a trace of what happens.
pub fn trace_progress(p: &FillProgress) -> (line: String)
    ensures
        line@ == trace_of(*p),
{
    let f = p.fraction();
    let tenths: u128 = percent_times(f.part, f.whole, 10);
    let mut out = "Progress ".to_owned();
    push_decimal_wide(&mut out, tenths / 10);
    out.append(".");
    push_decimal(&mut out, (tenths % 10) as u64);
    out.append("% ");
    out.append(human_bytes(p.done).as_str());
    out.append("/");
    out.append(human_bytes(p.total).as_str());
    out
}

} // verus!
