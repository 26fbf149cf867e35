//! The measurement that decides the design: does free space actually move after a write,
//! and how fast does the wire run?
//!
//! Cleanup is reached on *every* way out, not only the happy one: whatever was committed,
//! a partial object of a failed upload included, is handed to it, and it removes exactly
//! that and then the folder. Nothing else in this tool could find these objects.

use crate::double;
use crate::double::{rate_tenths, seconds_times};
use crate::plan::MIB;
use crate::rate::Duration;
use crate::text;
use crate::text::{no_lines, one_line, push_decimal, push_decimal_wide, push_line};
use crate::units;
use crate::units::human_bytes;
use vstd::prelude::*;
use vstd::string::*;

verus! {

/// The folder the measurement writes into.
pub const BENCH_DIR: &'static str = "kindlefill_bench";

/// How many objects are measured.
pub const ROUNDS: usize = 3;

/// What the object of a round is called.
pub open spec fn label_of(round: usize) -> Seq<char> {
    if round == 0 {
        "16MiB"@
    } else if round == 1 {
        "128MiB"@
    } else {
        "512MiB"@
    }
}

/// How large the object of a round is.
pub open spec fn size_of(round: usize) -> u64 {
    if round == 0 {
        16777216
    } else if round == 1 {
        134217728
    } else {
        536870912
    }
}

fn label(round: usize) -> (l: &'static str)
    ensures
        l@ == label_of(round),
{
    if round == 0 {
        "16MiB"
    } else if round == 1 {
        "128MiB"
    } else {
        "512MiB"
    }
}

fn size(round: usize) -> (s: u64)
    ensures
        s == size_of(round),
        16777216 <= s <= 536870912,
{
    if round == 0 {
        16777216
    } else if round == 1 {
        134217728
    } else {
        536870912
    }
}

/// The name of the object of a round.
pub open spec fn name_of(round: usize) -> Seq<char> {
    "bench_"@ + label_of(round) + ".bin"@
}

/// What has to be done on the device next.
#[derive(Debug)]
pub enum Request {
    /// Read free space from the device, not from a cache.
    Measure,
    /// Create the folder at the storage root.
    CreateFolder,
    /// Upload this many zero bytes to the folder under this name.
    Upload { name: String, bytes: u64 },
    /// Delete the object with this handle.
    Delete(u64),
    /// Nothing: the measurement is over.
    Finish,
}

/// A [`Request`], with its text as characters.
pub enum RequestView {
    Measure,
    CreateFolder,
    Upload { name: Seq<char>, bytes: u64 },
    Delete(u64),
    Finish,
}

impl View for Request {
    type V = RequestView;

    open spec fn view(&self) -> RequestView {
        match *self {
            Request::Measure => RequestView::Measure,
            Request::CreateFolder => RequestView::CreateFolder,
            Request::Upload { name, bytes } => RequestView::Upload { name: name@, bytes },
            Request::Delete(id) => RequestView::Delete(id),
            Request::Finish => RequestView::Finish,
        }
    }
}

/// How the device answered a [`Request`].
#[derive(Debug)]
pub enum Reply {
    Measured { free: u64 },
    Created { id: u64 },
    Uploaded { id: u64, elapsed: Duration },
    /// The upload failed, possibly leaving a partial object.
    Broken { partial: Option<u64>, why: String },
    Deleted,
    Failed { why: String },
}

/// A [`Reply`], with its text as characters.
pub enum ReplyView {
    Measured { free: u64 },
    Created { id: u64 },
    Uploaded { id: u64, elapsed: nat },
    Broken { partial: Option<u64>, why: Seq<char> },
    Deleted,
    Failed { why: Seq<char> },
}

impl View for Reply {
    type V = ReplyView;

    open spec fn view(&self) -> ReplyView {
        match *self {
            Reply::Measured { free } => ReplyView::Measured { free },
            Reply::Created { id } => ReplyView::Created { id },
            Reply::Uploaded { id, elapsed } => ReplyView::Uploaded { id, elapsed: elapsed@ },
            Reply::Broken { partial, why } => ReplyView::Broken { partial, why: why@ },
            Reply::Deleted => ReplyView::Deleted,
            Reply::Failed { why } => ReplyView::Failed { why: why@ },
        }
    }
}

/// Where the measurement stands.
#[derive(Debug)]
enum Phase {
    Baseline,
    Creating,
    Before { dir: u64, written: Vec<u64>, round: usize },
    Uploading { dir: u64, written: Vec<u64>, round: usize, before: u64 },
    After { dir: u64, written: Vec<u64>, round: usize, before: u64, elapsed: Duration },
    Cleaning { dir: u64, rest: Vec<u64>, failure: Option<String> },
    Closing,
    Ended { measured: Result<(), String>, cleaned: Result<(), String> },
}

/// Where the measurement stands, as its contract speaks of it.
pub enum PhaseView {
    /// Waiting for the first reading.
    Baseline,
    /// Waiting for the folder.
    Creating,
    /// Waiting for the reading before an upload.
    Before { dir: u64, written: Seq<u64>, round: usize },
    /// Uploading.
    Uploading { dir: u64, written: Seq<u64>, round: usize, before: u64 },
    /// Waiting for the reading after an upload.
    After { dir: u64, written: Seq<u64>, round: usize, before: u64, elapsed: nat },
    /// Deleting what was written, and then the folder.
    Cleaning { dir: u64, rest: Seq<u64>, failure: Option<Seq<char>> },
    /// Waiting for the last reading.
    Closing,
    /// Over. A failure to clean up comes on top of a failed measurement, not in its place.
    Ended { measured: Result<(), Seq<char>>, cleaned: Result<(), Seq<char>> },
}

/// A result with its error as characters.
pub open spec fn in_words(r: Result<(), String>) -> Result<(), Seq<char>> {
    match r {
        Ok(()) => Ok(()),
        Err(why) => Err(why@),
    }
}

impl View for Phase {
    type V = PhaseView;

    closed spec fn view(&self) -> PhaseView {
        match *self {
            Phase::Baseline => PhaseView::Baseline,
            Phase::Creating => PhaseView::Creating,
            Phase::Before { dir, written, round } => PhaseView::Before {
                dir,
                written: written@,
                round,
            },
            Phase::Uploading { dir, written, round, before } => PhaseView::Uploading {
                dir,
                written: written@,
                round,
                before,
            },
            Phase::After { dir, written, round, before, elapsed } => PhaseView::After {
                dir,
                written: written@,
                round,
                before,
                elapsed: elapsed@,
            },
            Phase::Cleaning { dir, rest, failure } => PhaseView::Cleaning {
                dir,
                rest: rest@,
                failure: match failure {
                    Some(why) => Some(why@),
                    None => None,
                },
            },
            Phase::Closing => PhaseView::Closing,
            Phase::Ended { measured, cleaned } => PhaseView::Ended {
                measured: in_words(measured),
                cleaned: in_words(cleaned),
            },
        }
    }
}

/// What the measurement in this state asks for.
pub open spec fn request_of(phase: PhaseView) -> RequestView {
    match phase {
        PhaseView::Baseline => RequestView::Measure,
        PhaseView::Creating => RequestView::CreateFolder,
        PhaseView::Before { .. } => RequestView::Measure,
        PhaseView::Uploading { round, .. } => RequestView::Upload {
            name: name_of(round),
            bytes: size_of(round),
        },
        PhaseView::After { .. } => RequestView::Measure,
        PhaseView::Cleaning { dir, rest, .. } => RequestView::Delete(
            if rest.len() > 0 {
                rest[0]
            } else {
                dir
            },
        ),
        PhaseView::Closing => RequestView::Measure,
        PhaseView::Ended { .. } => RequestView::Finish,
    }
}

/// A number of tenths with its decimal.
pub open spec fn tenths_text(tenths: nat) -> Seq<char> {
    text::decimal(tenths / 10) + "."@ + text::decimal(tenths % 10)
}

/// The speed of an upload in megabytes per second.
pub open spec fn speed_of(bytes: u64, nanos: nat) -> Seq<char> {
    if nanos == 0 {
        "inf"@
    } else {
        tenths_text(
            double::to_integer(double::rate(bytes as nat, nanos), 10, MIB as nat),
        )
    }
}

/// How far free space fell; not at all where it rose.
pub open spec fn fallen(before: u64, after: u64) -> u64 {
    if before >= after {
        (before - after) as u64
    } else {
        0
    }
}

/// `a - b` with its sign.
pub open spec fn difference_text(a: u64, b: u64) -> Seq<char> {
    if a >= b {
        text::decimal((a - b) as nat)
    } else {
        "-"@ + text::decimal((b - a) as nat)
    }
}

/// The line for an upload. It reports the delta plainly rather than claiming success: if
/// free space does not track writes, the whole approach is invalid.
pub open spec fn round_line_of(round: usize, before: u64, after: u64, nanos: nat) -> Seq<char> {
    let size = size_of(round);
    "  "@ + label_of(round) + ": "@ + speed_of(size, nanos) + " MB/s ("@ + tenths_text(
        double::to_integer(double::seconds(nanos), 10, 1),
    ) + "s) | free "@ + units::bytes_text(before as nat) + " -> "@ + units::bytes_text(
        after as nat,
    ) + " (delta "@ + units::bytes_text(fallen(before, after) as nat) + ", overhead "@
        + difference_text(fallen(before, after), size) + ")"@
}

/// The lines for an upload.
pub open spec fn round_lines_of(round: usize, before: u64, after: u64, nanos: nat) -> Seq<
    Seq<char>,
> {
    if fallen(before, after) == 0 {
        seq![
            round_line_of(round, before, after, nanos),
            "  !! free space did not move — the convergence loop cannot work as designed"@,
        ]
    } else {
        seq![round_line_of(round, before, after, nanos)]
    }
}

/// What is said of a failed upload.
pub open spec fn upload_failure(round: usize, why: Seq<char>) -> Seq<char> {
    "upload of "@ + label_of(round) + " failed: "@ + why
}

/// `written` with the partial object of a failed upload, if there is one.
pub open spec fn with_partial(written: Seq<u64>, partial: Option<u64>) -> Seq<u64> {
    match partial {
        Some(id) => written.push(id),
        None => written,
    }
}

/// What the measurement came to.
pub open spec fn measured_of(failure: Option<Seq<char>>) -> Result<(), Seq<char>> {
    match failure {
        Some(why) => Err(why),
        None => Ok(()),
    }
}

/// Where an answer leads, and what is printed. An answer to something that was not asked
/// changes nothing.
pub open spec fn answered(phase: PhaseView, reply: ReplyView) -> (PhaseView, Seq<Seq<char>>) {
    match (phase, reply) {
        (PhaseView::Baseline, ReplyView::Measured { free }) => (
            PhaseView::Creating,
            seq!["baseline free: "@ + units::bytes_text(free as nat)],
        ),
        (PhaseView::Creating, ReplyView::Created { id }) => (
            PhaseView::Before { dir: id, written: Seq::empty(), round: 0 },
            Seq::empty(),
        ),
        (PhaseView::Before { dir, written, round }, ReplyView::Measured { free }) => (
            PhaseView::Uploading { dir, written, round, before: free },
            Seq::empty(),
        ),
        (
            PhaseView::Uploading { dir, written, round, before },
            ReplyView::Uploaded { id, elapsed },
        ) => (
            PhaseView::After { dir, written: written.push(id), round, before, elapsed },
            Seq::empty(),
        ),
        (
            PhaseView::Uploading { dir, written, round, before },
            ReplyView::Broken { partial, why },
        ) => (
            PhaseView::Cleaning {
                dir,
                rest: with_partial(written, partial),
                failure: Some(upload_failure(round, why)),
            },
            Seq::empty(),
        ),
        (
            PhaseView::After { dir, written, round, before, elapsed },
            ReplyView::Measured { free },
        ) => (
            if round + 1 < ROUNDS {
                PhaseView::Before { dir, written, round: (round + 1) as usize }
            } else {
                PhaseView::Cleaning { dir, rest: written, failure: None }
            },
            round_lines_of(round, before, free, elapsed),
        ),
        (PhaseView::Before { dir, written, .. }, ReplyView::Failed { why }) => (
            PhaseView::Cleaning { dir, rest: written, failure: Some(why) },
            Seq::empty(),
        ),
        (PhaseView::Uploading { dir, written, .. }, ReplyView::Failed { why }) => (
            PhaseView::Cleaning { dir, rest: written, failure: Some(why) },
            Seq::empty(),
        ),
        (PhaseView::After { dir, written, .. }, ReplyView::Failed { why }) => (
            PhaseView::Cleaning { dir, rest: written, failure: Some(why) },
            Seq::empty(),
        ),
        (PhaseView::Cleaning { dir, rest, failure }, ReplyView::Deleted) => (
            if rest.len() > 0 {
                PhaseView::Cleaning { dir, rest: rest.drop_first(), failure }
            } else if failure is None {
                PhaseView::Closing
            } else {
                PhaseView::Ended { measured: measured_of(failure), cleaned: Ok(()) }
            },
            Seq::empty(),
        ),
        (PhaseView::Cleaning { failure, .. }, ReplyView::Failed { why }) => (
            PhaseView::Ended { measured: measured_of(failure), cleaned: Err(why) },
            Seq::empty(),
        ),
        (PhaseView::Closing, ReplyView::Measured { free }) => (
            PhaseView::Ended { measured: Ok(()), cleaned: Ok(()) },
            seq!["free now "@ + units::bytes_text(free as nat)],
        ),
        (PhaseView::Ended { .. }, _) => (phase, Seq::empty()),
        (_, ReplyView::Failed { why }) => (
            PhaseView::Ended { measured: Err(why), cleaned: Ok(()) },
            Seq::empty(),
        ),
        _ => (phase, Seq::empty()),
    }
}

/// A measurement in progress.
#[derive(Debug)]
pub struct Bench {
    phase: Phase,
}

impl View for Bench {
    type V = PhaseView;

    closed spec fn view(&self) -> PhaseView {
        self.phase@
    }
}

fn push_tenths(out: &mut String, tenths: u128)
    ensures
        final(out)@ == old(out)@ + tenths_text(tenths as nat),
{
    push_decimal_wide(out, tenths / 10);
    out.append(".");
    push_decimal(out, (tenths % 10) as u64);
    assert(out@ =~= old(out)@ + tenths_text(tenths as nat));
}

fn push_speed(out: &mut String, bytes: u64, elapsed: Duration)
    ensures
        final(out)@ == old(out)@ + speed_of(bytes, elapsed@),
{
    let whole: u64 = elapsed.as_secs();
    let nanos: u32 = elapsed.subsec_nanos();
    assert(elapsed@ == whole * 1_000_000_000 + nanos);
    if whole == 0 && nanos == 0 {
        out.append("inf");
        return;
    }
    push_tenths(out, rate_tenths(bytes, whole, nanos, 1_048_576));
}

fn round_line(round: usize, before: u64, after: u64, elapsed: Duration) -> (line: String)
    ensures
        line@ == round_line_of(round, before, after, elapsed@),
{
    let size: u64 = size(round);
    let observed: u64 = before.saturating_sub(after);
    let whole: u64 = elapsed.as_secs();
    let nanos: u32 = elapsed.subsec_nanos();
    assert(elapsed@ == whole * 1_000_000_000 + nanos);
    let mut out = "  ".to_owned();
    out.append(label(round));
    out.append(": ");
    push_speed(&mut out, size, elapsed);
    out.append(" MB/s (");
    push_tenths(&mut out, seconds_times(whole, nanos, 10));
    out.append("s) | free ");
    out.append(human_bytes(before).as_str());
    out.append(" -> ");
    out.append(human_bytes(after).as_str());
    out.append(" (delta ");
    out.append(human_bytes(observed).as_str());
    out.append(", overhead ");
    let ghost so_far = out@;
    if observed >= size {
        push_decimal(&mut out, observed - size);
    } else {
        out.append("-");
        push_decimal(&mut out, size - observed);
    }
    assert(out@ =~= so_far + difference_text(observed, size));
    out.append(")");
    out
}

fn round_lines(round: usize, before: u64, after: u64, elapsed: Duration) -> (lines: Vec<String>)
    ensures
        text::texts(lines@) == round_lines_of(round, before, after, elapsed@),
{
    let mut lines = one_line(round_line(round, before, after, elapsed));
    if before.saturating_sub(after) == 0 {
        push_line(
            &mut lines,
            "  !! free space did not move — the convergence loop cannot work as designed".to_owned(),
        );
        assert(text::texts(lines@) =~= round_lines_of(round, before, after, elapsed@));
    }
    lines
}

fn outcome(failure: Option<String>) -> (r: Result<(), String>)
    ensures
        in_words(r) == measured_of(
            match failure {
                Some(why) => Some(why@),
                None => None,
            },
        ),
{
    match failure {
        Some(why) => Err(why),
        None => Ok(()),
    }
}

impl Bench {
    pub fn new() -> (bench: Bench)
        ensures
            bench@ == PhaseView::Baseline,
    {
        Bench { phase: Phase::Baseline }
    }

    /// What has to be done on the device next.
    pub fn request(&self) -> (request: Request)
        ensures
            request@ == request_of(self@),
    {
        match &self.phase {
            Phase::Baseline => Request::Measure,
            Phase::Creating => Request::CreateFolder,
            Phase::Before { .. } => Request::Measure,
            Phase::Uploading { round, .. } => {
                let mut name = "bench_".to_owned();
                name.append(label(*round));
                name.append(".bin");
                Request::Upload { name, bytes: size(*round) }
            },
            Phase::After { .. } => Request::Measure,
            Phase::Cleaning { dir, rest, .. } => {
                if rest.len() > 0 {
                    Request::Delete(rest[0])
                } else {
                    Request::Delete(*dir)
                }
            },
            Phase::Closing => Request::Measure,
            Phase::Ended { .. } => Request::Finish,
        }
    }

    /// How the measurement and the cleanup ended, once [`Request::Finish`] is what is asked
    /// for.
    pub fn result(self) -> (result: Option<(Result<(), String>, Result<(), String>)>)
        ensures
            match (result, self@) {
                (Some(r), PhaseView::Ended { measured, cleaned }) => in_words(r.0) == measured
                    && in_words(r.1) == cleaned,
                (None, PhaseView::Ended { .. }) => false,
                (Some(r), _) => false,
                (None, _) => true,
            },
    {
        match self.phase {
            Phase::Ended { measured, cleaned } => Some((measured, cleaned)),
            _ => None,
        }
    }

    /// Hand the measurement an answer to what it asked for: how it stands now, and the
    /// lines to print. An answer to something else changes nothing.
    pub fn reply(self, reply: Reply) -> (out: (Bench, Vec<String>))
        ensures
            out.0@ == answered(self@, reply@).0,
            text::texts(out.1@) == answered(self@, reply@).1,
    {
        let (next, lines): (Phase, Vec<String>) = match self.phase {
            Phase::Baseline => match reply {
                Reply::Measured { free } => {
                    let mut line = "baseline free: ".to_owned();
                    line.append(human_bytes(free).as_str());
                    (Phase::Creating, one_line(line))
                },
                Reply::Failed { why } => (
                    Phase::Ended { measured: Err(why), cleaned: Ok(()) },
                    no_lines(),
                ),
                _ => (Phase::Baseline, no_lines()),
            },
            Phase::Creating => match reply {
                Reply::Created { id } => {
                    let written: Vec<u64> = Vec::new();
                    assert(written@ =~= Seq::<u64>::empty());
                    (Phase::Before { dir: id, written, round: 0 }, no_lines())
                },
                Reply::Failed { why } => (
                    Phase::Ended { measured: Err(why), cleaned: Ok(()) },
                    no_lines(),
                ),
                _ => (Phase::Creating, no_lines()),
            },
            Phase::Before { dir, written, round } => match reply {
                Reply::Measured { free } => (
                    Phase::Uploading { dir, written, round, before: free },
                    no_lines(),
                ),
                Reply::Failed { why } => (
                    Phase::Cleaning { dir, rest: written, failure: Some(why) },
                    no_lines(),
                ),
                _ => (Phase::Before { dir, written, round }, no_lines()),
            },
            Phase::Uploading { dir, written, round, before } => match reply {
                Reply::Uploaded { id, elapsed } => {
                    let mut written = written;
                    written.push(id);
                    (Phase::After { dir, written, round, before, elapsed }, no_lines())
                },
                Reply::Broken { partial, why } => {
                    let mut written = written;
                    match partial {
                        Some(id) => {
                            written.push(id);
                        },
                        None => {},
                    }
                    let mut failure = "upload of ".to_owned();
                    failure.append(label(round));
                    failure.append(" failed: ");
                    failure.append(why.as_str());
                    (
                        Phase::Cleaning { dir, rest: written, failure: Some(failure) },
                        no_lines(),
                    )
                },
                Reply::Failed { why } => (
                    Phase::Cleaning { dir, rest: written, failure: Some(why) },
                    no_lines(),
                ),
                _ => (Phase::Uploading { dir, written, round, before }, no_lines()),
            },
            Phase::After { dir, written, round, before, elapsed } => match reply {
                Reply::Measured { free } => {
                    let lines = round_lines(round, before, free, elapsed);
                    if round < ROUNDS - 1 {
                        (Phase::Before { dir, written, round: round + 1 }, lines)
                    } else {
                        (Phase::Cleaning { dir, rest: written, failure: None }, lines)
                    }
                },
                Reply::Failed { why } => (
                    Phase::Cleaning { dir, rest: written, failure: Some(why) },
                    no_lines(),
                ),
                _ => (Phase::After { dir, written, round, before, elapsed }, no_lines()),
            },
            Phase::Cleaning { dir, rest, failure } => match reply {
                Reply::Deleted => {
                    let mut rest = rest;
                    if rest.len() > 0 {
                        let ghost all = rest@;
                        let gone: u64 = rest.remove(0);
                        assert(rest@ =~= all.drop_first());
                        (Phase::Cleaning { dir, rest, failure }, no_lines())
                    } else if failure.is_none() {
                        (Phase::Closing, no_lines())
                    } else {
                        (
                            Phase::Ended { measured: outcome(failure), cleaned: Ok(()) },
                            no_lines(),
                        )
                    }
                },
                Reply::Failed { why } => (
                    Phase::Ended { measured: outcome(failure), cleaned: Err(why) },
                    no_lines(),
                ),
                _ => (Phase::Cleaning { dir, rest, failure }, no_lines()),
            },
            Phase::Closing => match reply {
                Reply::Measured { free } => {
                    let mut line = "free now ".to_owned();
                    line.append(human_bytes(free).as_str());
                    (Phase::Ended { measured: Ok(()), cleaned: Ok(()) }, one_line(line))
                },
                Reply::Failed { why } => (
                    Phase::Ended { measured: Err(why), cleaned: Ok(()) },
                    no_lines(),
                ),
                _ => (Phase::Closing, no_lines()),
            },
            Phase::Ended { measured, cleaned } => (Phase::Ended { measured, cleaned }, no_lines()),
        };
        (Bench { phase: next }, lines)
    }
}

/// What the recovery message has to say when cleanup failed: how much can still be on the
/// device, and how to get it off.
pub fn stranded_lines() -> (lines: Vec<String>)
    ensures
        text::texts(lines@) == seq![
            "!! could not remove "@ + BENCH_DIR@ + " — up to "@ + units::bytes_text(
                (size_of(0) + size_of(1) + size_of(2)) as nat,
            ) + " is still on the device."@,
            "   Empty it with:  kindlefill purge --dir "@ + BENCH_DIR@,
        ],
{
    let mut first = "!! could not remove ".to_owned();
    first.append(BENCH_DIR);
    first.append(" — up to ");
    first.append(human_bytes(size(0) + size(1) + size(2)).as_str());
    first.append(" is still on the device.");
    let mut second = "   Empty it with:  kindlefill purge --dir ".to_owned();
    second.append(BENCH_DIR);
    let mut lines = one_line(first);
    push_line(&mut lines, second);
    assert(text::texts(lines@) =~= seq![first@, second@]);
    lines
}

/// The folder and the objects that are on the device on account of a measurement that is
/// underway.
pub open spec fn on_device(phase: PhaseView) -> Option<(u64, Seq<u64>)> {
    match phase {
        PhaseView::Before { dir, written, .. } => Some((dir, written)),
        PhaseView::Uploading { dir, written, .. } => Some((dir, written)),
        PhaseView::After { dir, written, .. } => Some((dir, written)),
        PhaseView::Cleaning { dir, rest, .. } => Some((dir, rest)),
        _ => None,
    }
}

/// The state after a sequence of answers.
pub open spec fn run(phase: PhaseView, replies: Seq<ReplyView>) -> PhaseView
    decreases replies.len(),
{
    if replies.len() == 0 {
        phase
    } else {
        answered(run(phase, replies.drop_last()), replies.last()).0
    }
}

/// Once the folder is there, no answer loses track of it or of anything written into it:
/// every object that is committed, a partial one of a failed upload included, is accounted
/// for until it has been deleted, and the measurement is over only when nothing is left to
/// delete, or a deletion has failed.
pub proof fn law_bench_accounts_for_what_it_writes(phase: PhaseView, reply: ReplyView)
    requires
        on_device(phase) is Some,
    ensures
        ({
            let (dir, objects) = on_device(phase)->0;
            let next = answered(phase, reply).0;
            match on_device(next) {
                Some((d, left)) => d == dir && (left == objects || (phase is Uploading && (
                reply matches ReplyView::Uploaded { id, .. } && left == objects.push(id)) || (
                phase is Uploading && (reply matches ReplyView::Broken { partial: Some(id), .. }
                    && left == objects.push(id))) || (phase is Cleaning && reply is Deleted
                    && objects.len() > 0 && request_of(phase) == RequestView::Delete(objects[0])
                    && left == objects.drop_first()))),
                None => phase is Cleaning && (reply is Failed || (reply is Deleted && objects.len()
                    == 0 && request_of(phase) == RequestView::Delete(dir))),
            }
        }),
{
}

/// The deletions of a cleanup: as many as there are objects, and one for the folder.
pub open spec fn deletions(n: nat) -> Seq<ReplyView> {
    Seq::new(n, |i: int| ReplyView::Deleted)
}

/// A cleanup deletes exactly what was written, in order, and then the folder: on a device
/// that carries out every deletion it asks for the object at `i` after `i` of them, for
/// the folder after the last, and is then done with the device's contents.
pub proof fn law_bench_cleanup_removes_exactly_what_was_written(
    dir: u64,
    written: Seq<u64>,
    failure: Option<Seq<char>>,
    i: nat,
)
    requires
        i <= written.len(),
    ensures
        ({
            let start = PhaseView::Cleaning { dir, rest: written, failure };
            &&& run(start, deletions(i)) == (PhaseView::Cleaning {
                dir,
                rest: written.skip(i as int),
                failure,
            })
            &&& request_of(run(start, deletions(i))) == RequestView::Delete(
                if i < written.len() {
                    written[i as int]
                } else {
                    dir
                },
            )
        }),
    decreases i,
{
    let start = PhaseView::Cleaning { dir, rest: written, failure };
    if i == 0 {
        assert(written.skip(0) =~= written);
    } else {
        let before = (i - 1) as nat;
        law_bench_cleanup_removes_exactly_what_was_written(dir, written, failure, before);
        assert(deletions(i).drop_last() =~= deletions(before));
        assert(written.skip(before as int).drop_first() =~= written.skip(i as int));
    }
}

/// Three objects are measured: of sixteen, of a hundred and twenty-eight, and of five
/// hundred and twelve mebibytes, each under a name that says so.
pub proof fn law_three_objects_are_measured(dir: u64, written: Seq<u64>, before: u64)
    ensures
        ROUNDS == 3,
        request_of(PhaseView::Uploading { dir, written, round: 0, before }) == (
        RequestView::Upload { name: "bench_16MiB.bin"@, bytes: (16 * 1024 * 1024) as u64 }),
        request_of(PhaseView::Uploading { dir, written, round: 1, before }) == (
        RequestView::Upload { name: "bench_128MiB.bin"@, bytes: (128 * 1024 * 1024) as u64 }),
        request_of(PhaseView::Uploading { dir, written, round: 2, before }) == (
        RequestView::Upload { name: "bench_512MiB.bin"@, bytes: (512 * 1024 * 1024) as u64 }),
{
    reveal_strlit("bench_");
    reveal_strlit(".bin");
    reveal_strlit("16MiB");
    reveal_strlit("128MiB");
    reveal_strlit("512MiB");
    reveal_strlit("bench_16MiB.bin");
    reveal_strlit("bench_128MiB.bin");
    reveal_strlit("bench_512MiB.bin");
    assert(name_of(0) =~= "bench_16MiB.bin"@);
    assert(name_of(1) =~= "bench_128MiB.bin"@);
    assert(name_of(2) =~= "bench_512MiB.bin"@);
}

/// How a measurement goes where nothing fails: a first reading, the folder, and then for
/// each object in turn a reading, the upload and a reading, which is when it is printed;
/// after the last one what was written is deleted, and a last reading is printed.
pub proof fn law_each_object_is_measured_between_two_readings(
    phase: PhaseView,
    free: u64,
    id: u64,
    elapsed: nat,
)
    ensures
        phase is Baseline ==> request_of(phase) is Measure && answered(
            phase,
            ReplyView::Measured { free },
        ) == (PhaseView::Creating, seq!["baseline free: "@ + units::bytes_text(free as nat)]),
        phase is Creating ==> request_of(phase) is CreateFolder && answered(
            phase,
            ReplyView::Created { id },
        ) == (
            PhaseView::Before { dir: id, written: Seq::empty(), round: 0 },
            Seq::<Seq<char>>::empty(),
        ),
        phase matches PhaseView::Before { dir, written, round } ==> request_of(phase) is Measure
            && answered(phase, ReplyView::Measured { free }) == (
            PhaseView::Uploading { dir, written, round, before: free },
            Seq::<Seq<char>>::empty(),
        ),
        phase matches PhaseView::Uploading { dir, written, round, before } ==> answered(
            phase,
            ReplyView::Uploaded { id, elapsed },
        ) == (
            PhaseView::After { dir, written: written.push(id), round, before, elapsed },
            Seq::<Seq<char>>::empty(),
        ),
        phase matches PhaseView::After { dir, written, round, before, elapsed: took } ==> {
            let (next, lines) = answered(phase, ReplyView::Measured { free });
            &&& request_of(phase) is Measure
            &&& round < 2 ==> next == (PhaseView::Before {
                dir,
                written,
                round: (round + 1) as usize,
            })
            &&& round >= 2 ==> next == (PhaseView::Cleaning { dir, rest: written, failure: None })
            &&& lines.len() == if free < before {
                1int
            } else {
                2
            }
            &&& lines[0] == round_line_of(round, before, free, took)
        },
        phase is Closing ==> request_of(phase) is Measure && answered(
            phase,
            ReplyView::Measured { free },
        ) == (
            PhaseView::Ended { measured: Ok(()), cleaned: Ok(()) },
            seq!["free now "@ + units::bytes_text(free as nat)],
        ),
{
}

/// A measurement that fails is cleaned up after all the same, where there is anything to
/// clean up, and ends with what failed; a failure to clean up is told beside it. Only one
/// that went well is closed with a reading.
pub proof fn law_a_failed_measurement_is_cleaned_up(
    phase: PhaseView,
    partial: Option<u64>,
    why: Seq<char>,
)
    ensures
        phase matches PhaseView::Uploading { dir, written, round, .. } ==> answered(
            phase,
            ReplyView::Broken { partial, why },
        ).0 == (PhaseView::Cleaning {
            dir,
            rest: match partial {
                Some(id) => written.push(id),
                None => written,
            },
            failure: Some("upload of "@ + label_of(round) + " failed: "@ + why),
        }),
        !(phase is Cleaning) ==> (on_device(phase) matches Some((dir, objects)) ==> answered(
            phase,
            ReplyView::Failed { why },
        ).0 == (PhaseView::Cleaning { dir, rest: objects, failure: Some(why) })),
        (phase is Baseline || phase is Creating || phase is Closing) ==> answered(
            phase,
            ReplyView::Failed { why },
        ).0 == (PhaseView::Ended { measured: Err(why), cleaned: Ok(()) }),
        phase matches PhaseView::Cleaning { dir, rest, failure } ==> {
            &&& answered(phase, ReplyView::Failed { why }).0 == (PhaseView::Ended {
                measured: match failure {
                    Some(first) => Err(first),
                    None => Ok(()),
                },
                cleaned: Err(why),
            })
            &&& rest.len() == 0 ==> answered(phase, ReplyView::Deleted).0 == match failure {
                Some(first) => PhaseView::Ended { measured: Err(first), cleaned: Ok(()) },
                None => PhaseView::Closing,
            }
        },
        answered(phase, ReplyView::Failed { why }).1.len() == 0,
        answered(phase, ReplyView::Broken { partial, why }).1.len() == 0,
        answered(phase, ReplyView::Deleted).1.len() == 0,
        !(phase is Uploading) ==> answered(phase, ReplyView::Broken { partial, why }).0 == phase,
        !(phase is Cleaning) ==> answered(phase, ReplyView::Deleted).0 == phase,
        phase is Ended ==> answered(phase, ReplyView::Failed { why }).0 == phase
            && request_of(phase) is Finish,
{
}

/// What free space fell by is what makes up for it, nothing where it rose; and the
/// difference of two counts is told with its sign.
pub proof fn law_differences_are_told_with_their_sign(a: u64, b: u64)
    ensures
        fallen(a, b) + b == if a >= b {
            a
        } else {
            b
        },
        a >= b ==> difference_text(a, b) == text::decimal((a - b) as nat),
        a < b ==> difference_text(a, b) == "-"@ + text::decimal((b - a) as nat),
{
}

/// The line of a round tells the object, how fast it went and how long it took, what was
/// free before and after, what it took, and by how much that is more than the object.
pub proof fn law_a_round_is_told_in_full(round: usize, before: u64, after: u64, nanos: nat)
    ensures
        ({
            let size = size_of(round);
            let fell = if before > after {
                (before - after) as u64
            } else {
                0
            };
            let speed = if nanos == 0 {
                "inf"@
            } else {
                tenths_text(double::to_integer(double::rate(size as nat, nanos), 10, 1048576))
            };
            round_line_of(round, before, after, nanos) == "  "@ + label_of(round) + ": "@ + speed
                + " MB/s ("@ + tenths_text(double::to_integer(double::seconds(nanos), 10, 1))
                + "s) | free "@ + units::bytes_text(before as nat) + " -> "@ + units::bytes_text(
                after as nat,
            ) + " (delta "@ + units::bytes_text(fell as nat) + ", overhead "@ + difference_text(
                fell,
                size,
            ) + ")"@
        }),
{
}

} // verus!
