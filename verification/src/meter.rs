//! Progress within an upload: what to show, and how often.

use crate::listing;
use crate::rate;
use crate::rate::{Duration, FillProgress, RateEstimator, Reading};
use vstd::prelude::*;

verus! {

/// Least time between two progress events of one object, in nanoseconds: a tenth of a
/// second. Uploads report every chunk, which is more redraws than any UI wants.
pub const PROGRESS_INTERVAL_NANOS: u128 = 100_000_000;

/// The progress of a job across its uploads.
///
/// There is one clock for the whole job: the rate window spans object boundaries, so it
/// needs a timeline that does not restart with each upload.
#[derive(Debug)]
pub struct Meter {
    rate: RateEstimator,
    total: u64,
    committed: u64,
    last_shown: Option<Duration>,
}

/// A meter as its contract speaks of it.
pub struct MeterState {
    /// The readings so far.
    pub history: Seq<Reading>,
    /// What the job set out to move.
    pub total: u64,
    /// What was done before the object being uploaded.
    pub committed: u64,
    /// When progress of that object was last shown, in nanoseconds.
    pub last_shown: Option<nat>,
}

impl View for Meter {
    type V = MeterState;

    closed spec fn view(&self) -> MeterState {
        MeterState {
            history: self.rate@,
            total: self.total,
            committed: self.committed,
            last_shown: match self.last_shown {
                Some(d) => Some(d@),
                None => None,
            },
        }
    }
}

/// What to do with a report of an upload.
#[derive(Debug, Clone, Copy, PartialEq, Eq, Structural)]
pub enum Report {
    /// Break the upload off: the caller has asked to stop.
    Stop,
    /// Go on, and show nothing.
    Quiet,
    /// Go on, and show this.
    Show(FillProgress),
}

/// Bytes of the job done when `transferred` bytes of the object are.
pub open spec fn done_at(m: MeterState, transferred: u64) -> u64 {
    listing::capped(m.committed + transferred)
}

/// Progress of the object is due: nothing of it was shown yet, or not for a while.
pub open spec fn is_due(m: MeterState, at: nat) -> bool {
    match m.last_shown {
        None => true,
        Some(last) => rate::since(at, last) >= PROGRESS_INTERVAL_NANOS,
    }
}

/// `p` shows `done` of `total` bytes, with the rate and the remaining time that the
/// readings give.
pub open spec fn shows(p: FillProgress, history: Seq<Reading>, done: u64, total: u64) -> bool {
    &&& p.done == done
    &&& p.total == total
    &&& match p.rate {
        Some(t) => rate::moved_within(history, rate::rate_window()) == Some(
            (t.bytes as nat, t.span@),
        ),
        None => rate::moved_within(history, rate::rate_window()) is None,
    }
    &&& match p.eta {
        Some(d) => rate::eta_of(history, rate::since(total as nat, done as nat)) == Some(d@),
        None => rate::eta_of(history, rate::since(total as nat, done as nat)) is None,
    }
}

impl Meter {
    pub fn new() -> (m: Meter)
        ensures
            m@ == (MeterState {
                history: Seq::empty(),
                total: 0,
                committed: 0,
                last_shown: None,
            }),
    {
        Meter { rate: RateEstimator::new(), total: 0, committed: 0, last_shown: None }
    }

    /// The upload of an object begins, with `committed` of `total` bytes done. The
    /// readings of earlier objects stay.
    pub fn begin(&mut self, committed: u64, total: u64)
        ensures
            final(self)@ == (MeterState {
                history: old(self)@.history,
                total,
                committed,
                last_shown: None,
            }),
    {
        self.total = total;
        self.committed = committed;
        self.last_shown = None;
    }

    /// `transferred` bytes of the object have gone out, `at` after the job began.
    ///
    /// A wish to stop is looked at here rather than only between objects, so that Stop
    /// responds within a chunk.
    pub fn report(&mut self, transferred: u64, at: Duration, cancelled: bool) -> (report: Report)
        ensures
            cancelled <==> report == Report::Stop,
            cancelled ==> final(self)@ == old(self)@,
            !cancelled ==> {
                let done = done_at(old(self)@, transferred);
                let history = rate::observed(old(self)@.history, done as nat, at@);
                &&& final(self)@ == (MeterState {
                    history,
                    last_shown: if is_due(old(self)@, at@) {
                        Some(at@)
                    } else {
                        old(self)@.last_shown
                    },
                    ..old(self)@
                })
                &&& is_due(old(self)@, at@) <==> report is Show
                &&& report matches Report::Show(p) ==> shows(p, history, done, old(self)@.total)
            },
            report matches Report::Show(p) ==> {
                &&& p.total == old(self)@.total
                &&& p.done == if old(self)@.committed + transferred <= u64::MAX {
                    old(self)@.committed + transferred
                } else {
                    u64::MAX as int
                }
            },
            !cancelled ==> (report is Show <==> match old(self)@.last_shown {
                None => true,
                Some(last) => at@ >= last + 100_000_000,
            }),
    {
        if cancelled {
            return Report::Stop;
        }
        let done: u64 = self.committed.saturating_add(transferred);
        self.rate.observe(done, at);
        let due: bool = match self.last_shown {
            None => true,
            Some(last) => at.saturating_sub(last).as_nanos() >= PROGRESS_INTERVAL_NANOS,
        };
        if !due {
            return Report::Quiet;
        }
        self.last_shown = Some(at);
        let rate = self.rate.rate();
        let eta = self.rate.eta(self.total.saturating_sub(done));
        Report::Show(FillProgress { done, total: self.total, rate, eta })
    }
}

/// Progress counts what has gone out of the object being uploaded: of two reports of the
/// same object the one of more bytes shows more done, by just as many bytes, as far as
/// that can be counted.
pub proof fn law_progress_counts_what_has_gone_out(m: MeterState, less: u64, more: u64)
    requires
        less < more,
        m.committed + more <= u64::MAX,
    ensures
        done_at(m, more) - done_at(m, less) == more - less,
        done_at(m, 0) == m.committed,
        done_at(m, less) < done_at(m, more),
{
}

/// Two reports of the same object within the horizon of the displayed rate, far enough
/// apart and with no earlier readings: the rate is the bytes that went out between them
/// over the time between them, and the time left is what the rest of the job takes at that
/// rate.
pub proof fn law_two_reports_give_the_rate(
    m: MeterState,
    first: u64,
    at_first: nat,
    second: u64,
    at_second: nat,
    p: FillProgress,
)
    requires
        first <= second,
        m.committed + second <= u64::MAX,
        at_first + 750_000_000 <= at_second <= at_first + 5_000_000_000,
        ({
            let one = rate::observed(Seq::empty(), (m.committed + first) as nat, at_first);
            let two = rate::observed(one, (m.committed + second) as nat, at_second);
            shows(p, two, done_at(m, second), m.total)
        }),
    ensures
        p.done == m.committed + second,
        p.rate matches Some(t) && t.bytes == second - first && t.span@ == at_second - at_first,
        m.committed + second < m.total && first < second ==> (p.eta matches Some(d) && d@
            == crate::double::time_for(
            (m.total - m.committed - second) as nat,
            (second - first) as nat,
            (at_second - at_first) as nat,
            356_400,
        )),
        m.committed + second >= m.total ==> (p.eta matches Some(d) && d@ == 0),
        m.committed + second < m.total && first == second ==> p.eta is None,
{
    let a = (at_first, (m.committed + first) as nat);
    let b = (at_second, (m.committed + second) as nat);
    let one = rate::observed(Seq::empty(), a.1, a.0);
    assert(Seq::<Reading>::empty().push(a) =~= seq![a]);
    assert(one =~= seq![a]);
    let two = rate::observed(one, b.1, b.0);
    assert(one.push(b) =~= seq![a, b]);
    assert(two =~= seq![a, b]);
    reveal_with_fuel(rate::first_from, 3);
}

/// Whatever the readings before it, progress shows the bytes of the last five seconds over
/// the time they took, and the time that what is left of the job takes at the pace of the
/// last thirty; both are left out exactly where the readings do not give them.
pub proof fn law_progress_goes_by_all_the_readings(
    p: FillProgress,
    history: Seq<Reading>,
    done: u64,
    total: u64,
)
    requires
        shows(p, history, done, total),
    ensures
        p.done == done,
        p.total == total,
        p.rate is Some <==> rate::moved_within(history, 5_000_000_000) is Some,
        p.rate matches Some(t) ==> rate::moved_within(history, 5_000_000_000) == Some(
            (t.bytes as nat, t.span@),
        ),
        done < total ==> {
            &&& p.eta is Some <==> rate::eta_of(history, (total - done) as nat) is Some
            &&& p.eta matches Some(d) ==> rate::eta_of(history, (total - done) as nat) == Some(d@)
        },
        done >= total ==> (p.eta matches Some(d) && d@ == 0),
{
}

} // verus!
