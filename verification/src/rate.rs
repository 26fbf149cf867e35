//! Transfer-rate estimation and the progress figures a UI renders.
//!
//! Pure and clock-free: elapsed time is passed in rather than read. A rate is kept as
//! what it is, a number of bytes over a span of time, and divided out, in doubles, when it
//! is displayed or extrapolated from.

use crate::double;
use crate::double::{fill_cells, time_needed};
use crate::text;
use crate::text::{push_decimal, push_padded};
use std::collections::VecDeque;
use vstd::prelude::*;
use vstd::string::*;

verus! {

pub const NANOS_PER_SEC: u128 = 1_000_000_000;

/// Beyond this the estimate is no longer pretended to mean anything: 99 hours.
pub const MAX_ETA_SECS: u64 = 356_400;

/// A span of time, to the nanosecond.
#[derive(Debug, Clone, Copy, PartialEq, Eq, Structural)]
pub struct Duration {
    secs: u64,
    nanos: u32,
}

impl View for Duration {
    type V = nat;

    /// The span in nanoseconds.
    closed spec fn view(&self) -> nat {
        (self.secs * NANOS_PER_SEC + self.nanos) as nat
    }
}

impl Duration {
    #[verifier::type_invariant]
    spec fn inv(self) -> bool {
        self.nanos < NANOS_PER_SEC
    }

    /// `secs` seconds and `nanos` nanoseconds.
    pub fn new(secs: u64, nanos: u32) -> (d: Duration)
        requires
            nanos < 1_000_000_000,
        ensures
            d@ == secs * NANOS_PER_SEC + nanos,
    {
        Duration { secs, nanos }
    }

    pub fn zero() -> (d: Duration)
        ensures
            d@ == 0,
    {
        Duration { secs: 0, nanos: 0 }
    }

    pub fn from_secs(secs: u64) -> (d: Duration)
        ensures
            d@ == secs * NANOS_PER_SEC,
    {
        Duration { secs, nanos: 0 }
    }

    pub fn from_millis(millis: u64) -> (d: Duration)
        ensures
            d@ == millis * 1_000_000,
    {
        Duration { secs: millis / 1000, nanos: ((millis % 1000) * 1_000_000) as u32 }
    }

    pub fn as_secs(&self) -> (secs: u64)
        ensures
            secs == self@ / (NANOS_PER_SEC as nat),
    {
        proof {
            use_type_invariant(self);
        }
        self.secs
    }

    /// The nanoseconds beyond the whole seconds.
    pub fn subsec_nanos(&self) -> (nanos: u32)
        ensures
            nanos == self@ % (NANOS_PER_SEC as nat),
            nanos < 1_000_000_000,
    {
        proof {
            use_type_invariant(self);
        }
        self.nanos
    }

    pub fn as_nanos(&self) -> (nanos: u128)
        ensures
            nanos == self@,
            nanos < 0x1_0000_0000_0000_0000 * NANOS_PER_SEC,
    {
        proof {
            use_type_invariant(self);
        }
        self.secs as u128 * NANOS_PER_SEC + self.nanos as u128
    }

    fn from_nanos(nanos: u128) -> (d: Duration)
        requires
            nanos < 0x1_0000_0000_0000_0000 * NANOS_PER_SEC,
        ensures
            d@ == nanos,
    {
        Duration {
            secs: (nanos / NANOS_PER_SEC) as u64,
            nanos: (nanos % NANOS_PER_SEC) as u32,
        }
    }

    /// What is left of this span after `other`; nothing where `other` is longer.
    pub fn saturating_sub(&self, other: Duration) -> (d: Duration)
        ensures
            d@ == since(self@, other@),
    {
        let a: u128 = self.as_nanos();
        let b: u128 = other.as_nanos();
        if a >= b {
            Duration::from_nanos(a - b)
        } else {
            Duration::zero()
        }
    }
}

/// `a - b`, floored at zero.
pub open spec fn since(a: nat, b: nat) -> nat {
    if a >= b {
        (a - b) as nat
    } else {
        0
    }
}

/// A reading: elapsed time since the job began, in nanoseconds, and the bytes of the job
/// moved by then.
pub type Reading = (nat, nat);

/// The horizon of the displayed rate, in nanoseconds: five seconds.
pub open spec fn rate_window() -> nat {
    5_000_000_000
}

/// The horizon of the remaining-time estimate, in nanoseconds: thirty seconds.
pub open spec fn eta_window() -> nat {
    30_000_000_000
}

/// Below this much history, in nanoseconds, there is no rate: three quarters of a
/// second.
pub open spec fn min_span() -> nat {
    750_000_000
}

/// The history without the readings that fell out of the longest horizon as of `at`; the
/// last two always stay.
pub open spec fn trimmed(history: Seq<Reading>, at: nat) -> Seq<Reading>
    decreases history.len(),
{
    if history.len() > 2 && since(at, history[0].0) > eta_window() {
        trimmed(history.drop_first(), at)
    } else {
        history
    }
}

/// The history after one more reading. A reading that goes backwards, in bytes or in
/// time, starts it over.
pub open spec fn observed(history: Seq<Reading>, bytes: nat, at: nat) -> Seq<Reading> {
    let kept = if history.len() > 0 && (bytes < history.last().1 || at < history.last().0) {
        Seq::<Reading>::empty()
    } else {
        history
    };
    trimmed(kept.push((at, bytes)), at)
}

/// The first reading taken at `cutoff` or later.
pub open spec fn first_from(history: Seq<Reading>, cutoff: nat) -> Reading
    decreases history.len(),
{
    if history.len() <= 1 || history[0].0 >= cutoff {
        history[0]
    } else {
        first_from(history.drop_first(), cutoff)
    }
}

/// The bytes moved within the trailing `window` and the time they took, where the
/// history is long enough to divide by.
pub open spec fn moved_within(history: Seq<Reading>, window: nat) -> Option<(nat, nat)> {
    if history.len() == 0 {
        None
    } else {
        let newest = history.last();
        let oldest = first_from(history, since(newest.0, window));
        let span = since(newest.0, oldest.0);
        if span < min_span() {
            None
        } else {
            Some((since(newest.1, oldest.1), span))
        }
    }
}

/// The time to move `remaining` more bytes, in nanoseconds: nothing for nothing, unknown
/// without a rate or with a stalled one, and never more than the cap. It is divided out in
/// doubles.
pub open spec fn eta_of(history: Seq<Reading>, remaining: nat) -> Option<nat> {
    if remaining == 0 {
        Some(0)
    } else {
        match moved_within(history, eta_window()) {
            Some((bytes, span)) if bytes > 0 => {
                Some(double::time_for(remaining, bytes, span, MAX_ETA_SECS as nat))
            },
            _ => None,
        }
    }
}

/// So many bytes over so long: a rate before it is divided out.
#[derive(Debug, Clone, Copy, PartialEq, Eq, Structural)]
pub struct Throughput {
    pub bytes: u64,
    pub span: Duration,
}

/// Transfer rate over a trailing time window.
///
/// **Bytes moved divided by time elapsed**, not an average of instantaneous rate
/// samples. MTP throughput arrives in bursts as the host buffer flushes, so a short
/// sample carrying a burst reads far too high, and averaging *rates* gives that burst
/// the same weight as a slow sample. Dividing total bytes by total time cannot do that,
/// and it does not change with how often progress is reported.
#[derive(Debug)]
pub struct RateEstimator {
    /// Elapsed time since the job began and cumulative bytes, oldest first.
    samples: VecDeque<(Duration, u64)>,
}

impl View for RateEstimator {
    type V = Seq<Reading>;

    closed spec fn view(&self) -> Seq<Reading> {
        readings(self.samples@)
    }
}

spec fn readings(samples: Seq<(Duration, u64)>) -> Seq<Reading> {
    samples.map_values(|s: (Duration, u64)| (s.0@, s.1 as nat))
}

impl Clone for RateEstimator {
    fn clone(&self) -> (copy: Self)
        ensures
            copy@ == self@,
    {
        let mut samples: VecDeque<(Duration, u64)> = VecDeque::new();
        let mut i: usize = 0;
        while i < self.samples.len()
            invariant
                i <= self.samples@.len(),
                samples@ == self.samples@.take(i as int),
            decreases self.samples@.len() - i,
        {
            samples.push_back(self.samples[i]);
            i += 1;
            assert(samples@ =~= self.samples@.take(i as int));
        }
        assert(self.samples@.take(i as int) =~= self.samples@);
        RateEstimator { samples }
    }
}

impl Default for RateEstimator {
    fn default() -> (r: Self)
        ensures
            r@ == Seq::<Reading>::empty(),
    {
        Self::new()
    }
}

impl RateEstimator {
    #[must_use]
    pub fn new() -> (r: Self)
        ensures
            r@ == Seq::<Reading>::empty(),
    {
        let r = RateEstimator { samples: VecDeque::new() };
        assert(readings(r.samples@) =~= Seq::<Reading>::empty());
        r
    }

    /// Record that `cumulative` bytes of the job had moved at `at` (elapsed since the
    /// job began).
    ///
    /// A reading that goes *backwards* clears the history instead of being dropped. It
    /// happens for real: the figure is derived again from the device's own free space at
    /// each object boundary. Merely ignoring the sample would leave the next good one
    /// measuring its delta against an anchor from before the step.
    pub fn observe(&mut self, cumulative: u64, at: Duration)
        ensures
            final(self)@ == observed(old(self)@, cumulative as nat, at@),
    {
        let len: usize = self.samples.len();
        if len > 0 {
            let (last_at, last_bytes) = self.samples[len - 1];
            if cumulative < last_bytes || at.as_nanos() < last_at.as_nanos() {
                self.samples.clear();
            }
        }
        let ghost kept = readings(self.samples@);
        proof {
            if self.samples@.len() == 0 {
                assert(kept =~= Seq::<Reading>::empty());
            }
        }
        self.samples.push_back((at, cumulative));
        let ghost pushed = kept.push((at@, cumulative as nat));
        assert(readings(self.samples@) =~= pushed);
        while self.samples.len() > 2 && at.saturating_sub(self.samples[0].0).as_nanos()
            > 30_000_000_000
            invariant
                trimmed(readings(self.samples@), at@) == trimmed(pushed, at@),
            decreases self.samples@.len(),
        {
            let ghost before = self.samples@;
            let dropped = self.samples.pop_front();
            assert(readings(self.samples@) =~= readings(before).drop_first());
        }
    }

    /// Throughput over `window`, or `None` until there is enough history to divide by.
    ///
    /// No movement is a legitimate answer, not a missing one: it says that the transfer
    /// has stalled.
    pub fn windowed(&self, window: Duration) -> (t: Option<Throughput>)
        ensures
            match t {
                Some(t) => moved_within(self@, window@) == Some((t.bytes as nat, t.span@)),
                None => moved_within(self@, window@) is None,
            },
    {
        let len: usize = self.samples.len();
        if len == 0 {
            return None;
        }
        let (newest_at, newest_bytes) = self.samples[len - 1];
        let cutoff = newest_at.saturating_sub(window);
        let mut i: usize = 0;
        let ghost history = readings(self.samples@);
        assert(history.skip(0) =~= history);
        while i + 1 < len && self.samples[i].0.as_nanos() < cutoff.as_nanos()
            invariant
                i < len,
                len == self.samples@.len(),
                history == readings(self.samples@),
                first_from(history, cutoff@) == first_from(history.skip(i as int), cutoff@),
            decreases len - i,
        {
            assert(history.skip(i as int).drop_first() =~= history.skip(i + 1));
            i += 1;
        }
        let (from_at, from_bytes) = self.samples[i];
        assert(history.skip(i as int)[0] == (from_at@, from_bytes as nat));
        let span = newest_at.saturating_sub(from_at);
        if span.as_nanos() < 750_000_000 {
            return None;
        }
        Some(Throughput { bytes: newest_bytes.saturating_sub(from_bytes), span })
    }

    /// Bytes over time within the display window, or `None` before it means anything.
    #[must_use]
    pub fn rate(&self) -> (t: Option<Throughput>)
        ensures
            match t {
                Some(t) => moved_within(self@, rate_window()) == Some((t.bytes as nat, t.span@)),
                None => moved_within(self@, rate_window()) is None,
            },
    {
        self.windowed(Duration::from_secs(5))
    }

    /// Time to move `remaining` bytes, from a longer horizon than [`Self::rate`].
    ///
    /// `None` means genuinely unknown: render that as "estimating", never as zero.
    #[must_use]
    pub fn eta(&self, remaining: u64) -> (eta: Option<Duration>)
        ensures
            match eta {
                Some(d) => eta_of(self@, remaining as nat) == Some(d@),
                None => eta_of(self@, remaining as nat) is None,
            },
    {
        if remaining == 0 {
            return Some(Duration::zero());
        }
        match self.windowed(Duration::from_secs(30)) {
            None => None,
            Some(t) => {
                if t.bytes == 0 {
                    return None;
                }
                let whole: u64 = t.span.as_secs();
                let nanos: u32 = t.span.subsec_nanos();
                assert(t.span@ == whole * 1_000_000_000 + nanos);
                Some(Duration::from_nanos(time_needed(remaining, t.bytes, whole, nanos, 356_400)))
            },
        }
    }
}

/// A history whose readings never go backwards.
pub open spec fn orderly(history: Seq<Reading>) -> bool {
    forall|i: int, j: int|
        0 <= i <= j < history.len() ==> (#[trigger] history[i]).0 <= (#[trigger] history[j]).0
            && history[i].1 <= history[j].1
}

/// Whatever is observed, the history never goes backwards, ends with the newest reading,
/// and reaches no further back than the longest horizon, except for one reading that is
/// kept so that there are two.
pub proof fn law_history_is_orderly(history: Seq<Reading>, bytes: nat, at: nat)
    requires
        orderly(history),
    ensures
        orderly(observed(history, bytes, at)),
        observed(history, bytes, at).len() > 0,
        observed(history, bytes, at).last() == (at, bytes),
        observed(history, bytes, at).len() <= 2 || at - observed(history, bytes, at)[0].0
            <= eta_window(),
{
    let kept = if history.len() > 0 && (bytes < history.last().1 || at < history.last().0) {
        Seq::<Reading>::empty()
    } else {
        history
    };
    let pushed = kept.push((at, bytes));
    assert forall|i: int, j: int| 0 <= i <= j < pushed.len() implies (#[trigger] pushed[i]).0
        <= (#[trigger] pushed[j]).0 && pushed[i].1 <= pushed[j].1 by {
        if j == kept.len() && i < j {
            assert(kept[i].0 <= kept[kept.len() - 1].0 && kept[i].1 <= kept[kept.len() - 1].1);
        }
    }
    lemma_trimmed(pushed, at);
}

proof fn lemma_trimmed(history: Seq<Reading>, at: nat)
    requires
        orderly(history),
        history.len() > 0,
        history.last().0 == at,
    ensures
        orderly(trimmed(history, at)),
        trimmed(history, at).len() > 0,
        trimmed(history, at).last() == history.last(),
        trimmed(history, at).len() <= 2 || at - trimmed(history, at)[0].0 <= eta_window(),
    decreases history.len(),
{
    if history.len() > 2 && since(at, history[0].0) > eta_window() {
        lemma_trimmed(history.drop_first(), at);
    }
}

/// The rate is the bytes between two readings over the time between them, the newest and
/// the oldest one within the window: readings in between change nothing, so the answer
/// does not depend on how often progress happens to be reported.
pub proof fn law_rate_ignores_cadence(a: Seq<Reading>, b: Seq<Reading>, window: nat)
    requires
        a.len() > 0,
        b.len() > 0,
        a.last() == b.last(),
        first_from(a, since(a.last().0, window)) == first_from(b, since(b.last().0, window)),
    ensures
        moved_within(a, window) == moved_within(b, window),
{
}

/// A remaining time never exceeds the cap, is zero when nothing is left, and is unknown
/// exactly without movement to extrapolate from.
pub proof fn law_eta_is_sane(history: Seq<Reading>, remaining: nat)
    ensures
        eta_of(history, remaining) matches Some(d) ==> d <= MAX_ETA_SECS * NANOS_PER_SEC,
        eta_of(history, 0) == Some(0nat),
        eta_of(history, remaining) is None <==> {
            &&& remaining > 0
            &&& match moved_within(history, eta_window()) {
                Some((bytes, span)) => bytes == 0,
                None => true,
            }
        },
{
    if let Some((bytes, span)) = moved_within(history, eta_window()) {
        double::lemma_time_is_capped(remaining, bytes, span, MAX_ETA_SECS as nat);
    }
}

/// A progress snapshot for display.
#[derive(Debug, Clone, Copy, PartialEq, Eq, Structural)]
pub struct FillProgress {
    /// Bytes of the job moved so far.
    pub done: u64,
    /// Bytes the job set out to move.
    pub total: u64,
    /// Bytes over time, if known yet.
    pub rate: Option<Throughput>,
    /// Time remaining, if known yet.
    pub eta: Option<Duration>,
}

/// A proportion between nothing and everything.
#[derive(Debug, Clone, Copy, PartialEq, Eq, Structural)]
pub struct Fraction {
    pub part: u64,
    pub whole: u64,
}

/// A proportion in percent: `part / whole` of them.
#[derive(Debug, Clone, Copy, PartialEq, Eq, Structural)]
pub struct Percent {
    pub part: u128,
    pub whole: u64,
}

impl FillProgress {
    /// Completion, from nothing to everything.
    ///
    /// Clamped, and deliberately so. `done` is derived from the device's own free-space
    /// reading, which moves for reasons that have nothing to do with the fill. A job
    /// with nothing to do is complete.
    #[must_use]
    pub fn fraction(&self) -> (f: Fraction)
        ensures
            f.whole > 0,
            f.part <= f.whole,
            self.total == 0 ==> f.part == 1 && f.whole == 1,
            self.total > 0 ==> f.whole == self.total && f.part == if self.done < self.total {
                self.done
            } else {
                self.total
            },
    {
        if self.total == 0 {
            return Fraction { part: 1, whole: 1 };
        }
        Fraction {
            part: if self.done < self.total {
                self.done
            } else {
                self.total
            },
            whole: self.total,
        }
    }

    /// Completion in percent: `part` out of `whole`, of a hundred.
    #[must_use]
    pub fn percent(&self) -> (p: Percent)
        ensures
            p.whole > 0,
            p.part <= 100 * p.whole,
            self.total == 0 ==> p.part == 100 * p.whole,
            self.total > 0 ==> p.whole == self.total && p.part == 100 * if self.done
                < self.total {
                self.done
            } else {
                self.total
            },
    {
        let f = self.fraction();
        Percent { part: 100 * f.part as u128, whole: f.whole }
    }

    /// How many of `cells` cells of a progress bar are full: the completed share, as a
    /// double, rounded to the nearest cell, halves up.
    pub fn filled_cells(&self, cells: u32) -> (filled: u32)
        ensures
            filled <= cells,
            filled == if self.total == 0 {
                double::cells_filled(1, 1, cells as nat)
            } else if self.done < self.total {
                double::cells_filled(self.done as nat, self.total as nat, cells as nat)
            } else {
                double::cells_filled(self.total as nat, self.total as nat, cells as nat)
            },
    {
        let f = self.fraction();
        fill_cells(f.part, f.whole, cells)
    }

    /// Bytes still to move, floored at zero.
    #[must_use]
    pub fn remaining(&self) -> (rest: u64)
        ensures
            rest == since(self.total as nat, self.done as nat),
    {
        self.total.saturating_sub(self.done)
    }
}

/// A number of seconds the way someone waiting on a transfer wants to read it.
pub open spec fn duration_text(secs: nat) -> Seq<char> {
    if secs < 60 {
        text::decimal(secs) + "s"@
    } else if secs < 3600 {
        text::decimal(secs / 60) + "m "@ + text::padded(secs % 60, 2) + "s"@
    } else {
        text::decimal(secs / 3600) + "h "@ + text::padded((secs % 3600) / 60, 2) + "m"@
    }
}

/// Render a duration the way someone waiting on a transfer wants to read it.
#[must_use]
pub fn human_duration(d: Duration) -> (rendered: String)
    ensures
        rendered@ == duration_text(d@ / (NANOS_PER_SEC as nat)),
{
    let secs: u64 = d.as_secs();
    let mut out = String::new();
    if secs < 60 {
        push_decimal(&mut out, secs);
        out.append("s");
        assert(out@ =~= duration_text(secs as nat));
    } else if secs < 3600 {
        push_decimal(&mut out, secs / 60);
        out.append("m ");
        push_padded(&mut out, secs % 60, 2);
        out.append("s");
        assert(out@ =~= duration_text(secs as nat));
    } else {
        push_decimal(&mut out, secs / 3600);
        out.append("h ");
        push_padded(&mut out, (secs % 3600) / 60, 2);
        out.append("m");
        assert(out@ =~= duration_text(secs as nat));
    }
    out
}

/// What a remaining time is rounded to, in seconds: coarser the further out it is.
pub open spec fn eta_step(secs: nat) -> nat {
    if secs < 60 {
        5
    } else if secs < 600 {
        10
    } else {
        60
    }
}

/// A remaining time in nanoseconds, in seconds to a precision anyone would believe: the
/// nearest multiple of the step, but at least one step while anything remains.
pub open spec fn eta_rounded(nanos: nat) -> nat {
    let secs = nanos / (NANOS_PER_SEC as nat);
    let step = eta_step(secs);
    let near = (secs + step / 2) / step * step;
    if nanos > 0 && near < step {
        step
    } else {
        near
    }
}

/// Render a *remaining* time, rounded to a precision anyone would believe.
///
/// Separate from [`human_duration`], which stays exact, because the two are answering
/// different questions. An estimate printed to the second invites watching the last
/// digit, and the last digit is the part that is least true. Never "0s" while work
/// remains: that reads as finished.
#[must_use]
pub fn human_eta(d: Duration) -> (rendered: String)
    requires
        d@ < (u64::MAX - 29) * NANOS_PER_SEC,
    ensures
        rendered@ == duration_text(eta_rounded(d@)),
{
    let secs: u64 = d.as_secs();
    let step: u64 = if secs < 60 {
        5
    } else if secs < 600 {
        10
    } else {
        60
    };
    let near: u64 = (secs + step / 2) / step * step;
    let rounded: u64 = if d.as_nanos() > 0 && near < step {
        step
    } else {
        near
    };
    let shown = Duration::from_secs(rounded);
    assert(shown@ / (NANOS_PER_SEC as nat) == rounded);
    human_duration(shown)
}

/// Only a genuine zero is rendered as zero, and rounding moves a remaining time by less
/// than one step.
pub proof fn law_eta_never_rounds_to_nothing(nanos: nat)
    ensures
        eta_rounded(nanos) == 0 <==> nanos == 0,
        ({
            let secs = nanos / (NANOS_PER_SEC as nat);
            eta_rounded(nanos) <= secs + eta_step(secs) && secs < eta_rounded(nanos) + eta_step(
                secs,
            )
        }),
{
    let secs = nanos / (NANOS_PER_SEC as nat);
    assert((secs + 2) / 5 * 5 <= secs + 2 && secs < (secs + 2) / 5 * 5 + 5);
    assert((secs + 5) / 10 * 10 <= secs + 5 && secs < (secs + 5) / 10 * 10 + 10);
    assert((secs + 30) / 60 * 60 <= secs + 30 && secs < (secs + 30) / 60 * 60 + 60);
    if secs < 60 {
        assert(eta_step(secs) == 5);
    } else if secs < 600 {
        assert(eta_step(secs) == 10);
    } else {
        assert(eta_step(secs) == 60);
    }
}

/// A reading that goes back, in bytes or in time, is all that is left of the history; any
/// other joins it, and only what is more than thirty seconds old then falls out at the
/// front, as long as two readings stay.
pub proof fn law_readings_are_kept_for_thirty_seconds(
    history: Seq<Reading>,
    bytes: nat,
    at: nat,
) -> (dropped: nat)
    requires
        orderly(history),
    ensures
        history.len() > 0 && (bytes < history.last().1 || at < history.last().0) ==> observed(
            history,
            bytes,
            at,
        ) == seq![(at, bytes)],
        !(history.len() > 0 && (bytes < history.last().1 || at < history.last().0)) ==> {
            let now = observed(history, bytes, at);
            &&& dropped <= history.len()
            &&& now == history.push((at, bytes)).skip(dropped as int)
            &&& forall|i: int|
                0 <= i < dropped ==> (#[trigger] history[i]).0 + 30_000_000_000 < at
            &&& now.len() > 2 ==> now[0].0 + 30_000_000_000 >= at
            &&& dropped > 0 ==> now.len() >= 2
        },
{
    let backwards = history.len() > 0 && (bytes < history.last().1 || at < history.last().0);
    if backwards {
        assert(Seq::<Reading>::empty().push((at, bytes)) =~= seq![(at, bytes)]);
        0
    } else {
        let pushed = history.push((at, bytes));
        let dropped = lemma_trimmed_is_a_tail(pushed, at);
        assert forall|i: int| 0 <= i < dropped implies (#[trigger] history[i]).0 + 30_000_000_000
            < at by {
            assert(pushed[i] == history[i]);
        }
        dropped
    }
}

proof fn lemma_trimmed_is_a_tail(history: Seq<Reading>, at: nat) -> (dropped: nat)
    ensures
        dropped <= history.len(),
        trimmed(history, at) == history.skip(dropped as int),
        forall|i: int| 0 <= i < dropped ==> (#[trigger] history[i]).0 + 30_000_000_000 < at,
        history.len() - dropped > 2 ==> history[dropped as int].0 + 30_000_000_000 >= at,
        dropped > 0 ==> history.len() - dropped >= 2,
    decreases history.len(),
{
    if history.len() > 2 && since(at, history[0].0) > eta_window() {
        let rest = history.drop_first();
        let k = lemma_trimmed_is_a_tail(rest, at);
        assert(rest.skip(k as int) =~= history.skip((k + 1) as int));
        assert forall|i: int| 0 <= i < k + 1 implies (#[trigger] history[i]).0 + 30_000_000_000
            < at by {
            if i > 0 {
                assert(rest[i - 1] == history[i]);
            }
        }
        k + 1
    } else {
        assert(history.skip(0) =~= history);
        0
    }
}

/// A rate is the bytes moved since the first reading within the window over the time since
/// then, to the last reading; it is known exactly where that time is three quarters of a
/// second or more.
pub proof fn law_a_rate_spans_the_window(history: Seq<Reading>, window: nat) -> (from: int)
    requires
        history.len() > 0,
        orderly(history),
    ensures
        0 <= from < history.len(),
        from == history.len() - 1 || history[from].0 + window >= history.last().0,
        forall|i: int| 0 <= i < from ==> (#[trigger] history[i]).0 + window < history.last().0,
        moved_within(history, window) == if history.last().0 - history[from].0 >= 750_000_000 {
            Some(
                (
                    (history.last().1 - history[from].1) as nat,
                    (history.last().0 - history[from].0) as nat,
                ),
            )
        } else {
            None
        },
{
    let from = lemma_first_from(history, since(history.last().0, window));
    assert(history[from].0 <= history[history.len() - 1].0);
    assert forall|i: int| 0 <= i < from implies (#[trigger] history[i]).0 + window
        < history.last().0 by {}
    from
}

proof fn lemma_first_from(history: Seq<Reading>, cutoff: nat) -> (from: int)
    requires
        history.len() > 0,
    ensures
        0 <= from < history.len(),
        first_from(history, cutoff) == history[from],
        from == history.len() - 1 || history[from].0 >= cutoff,
        forall|i: int| 0 <= i < from ==> (#[trigger] history[i]).0 < cutoff,
    decreases history.len(),
{
    if history.len() <= 1 || history[0].0 >= cutoff {
        0
    } else {
        let rest = history.drop_first();
        let k = lemma_first_from(rest, cutoff);
        assert(rest[k] == history[k + 1]);
        assert forall|i: int| 0 <= i < k + 1 implies (#[trigger] history[i]).0 < cutoff by {
            if i > 0 {
                assert(rest[i - 1] == history[i]);
            }
        }
        k + 1
    }
}

/// The displayed rate looks back five seconds, the remaining time thirty, and a remaining
/// time is nothing for nothing, unknown without movement, and otherwise what the rest
/// takes at the rate of the last thirty seconds, up to 99 hours.
pub proof fn law_the_windows_are_five_and_thirty_seconds(history: Seq<Reading>, remaining: nat)
    ensures
        rate_window() == 5_000_000_000,
        eta_window() == 30_000_000_000,
        eta_of(history, remaining) == if remaining == 0 {
            Some(0nat)
        } else {
            match moved_within(history, 30_000_000_000) {
                Some((bytes, span)) => if bytes == 0 {
                    None
                } else {
                    Some(double::time_for(remaining, bytes, span, 356_400))
                },
                None => None,
            }
        },
{
}

/// A time in words: seconds below a minute, minutes and seconds below an hour, and hours
/// and minutes from there on; nothing is rounded up, and what is said adds up to the time
/// but for the seconds beyond an hour.
pub proof fn law_durations_add_up(secs: nat) -> (parts: (nat, nat))
    ensures
        secs < 60 ==> duration_text(secs) == text::decimal(secs) + "s"@,
        60 <= secs < 3600 ==> parts.0 * 60 + parts.1 == secs && parts.1 < 60 && duration_text(secs)
            == text::decimal(parts.0) + "m "@ + text::padded(parts.1, 2) + "s"@,
        3600 <= secs ==> parts.0 * 3600 + parts.1 * 60 <= secs < parts.0 * 3600 + parts.1 * 60 + 60
            && parts.1 < 60 && duration_text(secs) == text::decimal(parts.0) + "h "@ + text::padded(
            parts.1,
            2,
        ) + "m"@,
{
    if secs < 3600 {
        (secs / 60, secs % 60)
    } else {
        (secs / 3600, (secs % 3600) / 60)
    }
}

/// A remaining time is a multiple of its step, five seconds below a minute, ten below ten
/// minutes and a minute from there on, and of those the nearest, but for a first step that
/// is never rounded away.
pub proof fn law_eta_is_the_nearest_step(nanos: nat)
    ensures
        ({
            let secs = nanos / 1_000_000_000;
            let step: nat = if secs < 60 {
                5
            } else if secs < 600 {
                10
            } else {
                60
            };
            let shown = eta_rounded(nanos);
            &&& shown % step == 0
            &&& nanos > 0 ==> shown >= step
            &&& nanos == 0 ==> shown == 0
            &&& shown > step || secs >= step ==> shown <= secs + step / 2 && secs <= shown + step / 2
        }),
{
    let secs = nanos / 1_000_000_000;
    assert((secs + 2) / 5 * 5 % 5 == 0);
    assert((secs + 5) / 10 * 10 % 10 == 0);
    assert((secs + 30) / 60 * 60 % 60 == 0);
    if secs < 60 {
        assert(eta_step(secs) == 5);
    } else if secs < 600 {
        assert(eta_step(secs) == 10);
    } else {
        assert(eta_step(secs) == 60);
    }
}

/// What has passed since is what makes up for it, and nothing where it has not come yet.
pub proof fn law_nothing_passes_backwards(a: nat, b: nat)
    ensures
        since(a, b) + b == if a >= b {
            a
        } else {
            b
        },
{
}

/// Without a reading there is no rate.
pub proof fn law_no_reading_is_no_rate(window: nat)
    ensures
        moved_within(Seq::empty(), window) is None,
{
}

} // verus!
