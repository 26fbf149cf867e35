use kindlefill_core::console::{progress_line, trace_progress};
use kindlefill_core::human_bytes;
use kindlefill_core::meter::{Meter, Report};
use kindlefill_core::rate::{
    human_duration, human_eta, Duration, FillProgress, RateEstimator, Throughput, MAX_ETA_SECS,
};
use kindlefill_core::report::human_rate;

fn span(d: std::time::Duration) -> Duration {
    Duration::new(d.as_secs(), d.subsec_nanos())
}

fn seconds(d: Duration) -> f64 {
    d.as_nanos() as f64 / 1e9
}

fn per_second(t: Throughput) -> f64 {
    t.bytes as f64 / seconds(t.span)
}

/// Feed a steady `bytes_per_sec` for `secs`, sampling `per_sec` times a second, continuing
/// from `(at, bytes)`. Returns where it left off, so segments at different speeds can be
/// chained without the byte count ever stepping back.
fn steady(
    r: &mut RateEstimator,
    bytes_per_sec: u64,
    secs: f64,
    per_sec: f64,
    at: std::time::Duration,
    bytes: u64,
) -> (std::time::Duration, u64) {
    let n: u64 = (secs * per_sec).round() as u64;
    let mut t: std::time::Duration = at;
    let mut total: u64 = bytes;
    for i in 1..=n {
        let offset: f64 = i as f64 / per_sec;
        t = at + std::time::Duration::from_secs_f64(offset);
        total = bytes + (bytes_per_sec as f64 * offset) as u64;
        r.observe(total, span(t));
    }
    (t, total)
}

const ZERO: std::time::Duration = std::time::Duration::ZERO;

#[test]
fn rate_is_unknown_before_there_is_enough_history_to_divide_by() {
    let mut r = RateEstimator::new();
    assert_eq!(r.rate(), None);
    assert_eq!(r.eta(1000), None);
    // A single reading spans no time at all.
    r.observe(10_000_000, Duration::from_millis(100));
    assert_eq!(r.rate(), None, "one sample is not a rate");
    // Still too short a span.
    r.observe(20_000_000, Duration::from_millis(400));
    assert_eq!(r.rate(), None);
}

#[test]
fn rate_is_bytes_over_elapsed_time() {
    let mut r = RateEstimator::new();
    steady(&mut r, 10_000_000, 4.0, 10.0, ZERO, 0);
    let rate: f64 = per_second(r.rate().expect("rate"));
    assert!(
        (rate - 10_000_000.0).abs() < 100_000.0,
        "expected ~10 MB/s, got {rate}"
    );
}

#[test]
fn bursty_transfer_reports_its_true_average_not_its_peaks() {
    let mut r = RateEstimator::new();
    let mut t: std::time::Duration = ZERO;
    let mut total: u64 = 0;
    // 1 MB every second, but delivered in a single 100 ms burst each time:
    // instantaneous peak is 10 MB/s, true throughput is 1 MB/s.
    for _ in 0..30 {
        t += std::time::Duration::from_millis(100);
        total += 1_000_000;
        r.observe(total, span(t));
        t += std::time::Duration::from_millis(900);
        r.observe(total, span(t)); // the lull: no new bytes
    }
    let rate: f64 = per_second(r.rate().expect("rate"));
    assert!(
        (rate - 1_000_000.0).abs() < 100_000.0,
        "true rate is 1 MB/s; reported {rate} — peaks are leaking into the average"
    );
}

#[test]
fn reported_rate_does_not_depend_on_callback_cadence() {
    let mut sparse = RateEstimator::new();
    let mut dense = RateEstimator::new();
    steady(&mut sparse, 8_000_000, 10.0, 1.0, ZERO, 0);
    steady(&mut dense, 8_000_000, 10.0, 20.0, ZERO, 0);
    let a: f64 = per_second(sparse.rate().unwrap());
    let b: f64 = per_second(dense.rate().unwrap());
    assert!(
        (a - b).abs() / a < 0.05,
        "cadence changed the answer: {a} vs {b}"
    );
}

#[test]
fn a_stall_pulls_the_rate_down_rather_than_being_ignored() {
    let mut r = RateEstimator::new();
    let (_, done) = steady(&mut r, 10_000_000, 5.0, 10.0, ZERO, 0);
    let moving: f64 = per_second(r.rate().unwrap());
    // Four seconds where nothing moves.
    r.observe(done, Duration::from_secs(9));
    let stalled: f64 = per_second(r.rate().unwrap());
    assert!(
        stalled < moving * 0.5,
        "{stalled} should be well under {moving}"
    );
}

#[test]
fn a_backwards_reading_restarts_the_window_instead_of_corrupting_it() {
    let mut r = RateEstimator::new();
    steady(&mut r, 10_000_000, 5.0, 10.0, ZERO, 0);
    assert!(r.rate().is_some());

    // The device reports less done than was already seen.
    r.observe(1_000_000, Duration::from_secs(6));
    assert_eq!(
        r.rate(),
        None,
        "history should have been dropped, not blended"
    );

    steady(
        &mut r,
        4_000_000,
        4.0,
        10.0,
        std::time::Duration::from_secs(6),
        1_000_000,
    );
    let rate: f64 = per_second(r.rate().expect("should recover"));
    assert!(
        (rate - 4_000_000.0).abs() < 400_000.0,
        "expected ~4 MB/s after re-anchoring, got {rate}"
    );
}

#[test]
fn eta_is_zero_when_nothing_is_left_even_without_a_rate() {
    assert_eq!(RateEstimator::new().eta(0), Some(Duration::zero()));
}

#[test]
fn eta_divides_remaining_by_rate() {
    let mut r = RateEstimator::new();
    steady(&mut r, 1_000_000, 4.0, 10.0, ZERO, 0);
    let eta = r.eta(10_000_000).expect("eta");
    assert!(
        (seconds(eta) - 10.0).abs() < 0.5,
        "expected ~10s, got {eta:?}"
    );
}

#[test]
fn eta_is_exact_to_the_nearest_nanosecond() {
    let mut r = RateEstimator::new();
    r.observe(0, Duration::zero());
    r.observe(3, Duration::from_secs(1));
    // Ten bytes at three a second: 3.333333333… seconds.
    assert_eq!(r.eta(10), Some(Duration::new(3, 333_333_333)));
    // Twenty: 6.666666666… seconds, rounded up.
    assert_eq!(r.eta(20), Some(Duration::new(6, 666_666_667)));
}

#[test]
fn eta_is_capped_rather_than_astronomical() {
    let mut r = RateEstimator::new();
    r.observe(0, Duration::zero());
    r.observe(1, Duration::from_secs(20));
    let eta = r.eta(u64::MAX).expect("should still produce a value");
    assert_eq!(eta, Duration::from_secs(99 * 3600));
    assert_eq!(MAX_ETA_SECS, 99 * 3600);
}

#[test]
fn a_stalled_transfer_has_a_rate_of_zero_and_no_eta() {
    let mut r = RateEstimator::new();
    r.observe(5, Duration::zero());
    r.observe(5, Duration::from_secs(2));
    assert_eq!(
        r.rate(),
        Some(Throughput {
            bytes: 0,
            span: Duration::from_secs(2)
        })
    );
    assert_eq!(r.eta(1), None);
    assert_eq!(r.eta(0), Some(Duration::zero()));
}

#[test]
fn eta_uses_a_longer_horizon_than_the_displayed_rate() {
    let mut r = RateEstimator::new();
    let (at, done) = steady(&mut r, 10_000_000, 25.0, 10.0, ZERO, 0);
    let rate_before: f64 = per_second(r.rate().unwrap());
    let eta_before: f64 = seconds(r.eta(100_000_000).unwrap());

    // Five seconds at a tenth of the speed: fills the rate window completely, but is only a
    // sixth of the horizon of the remaining time.
    steady(&mut r, 1_000_000, 5.0, 10.0, at, done);
    let rate_after: f64 = per_second(r.rate().unwrap());
    let eta_after: f64 = seconds(r.eta(100_000_000).unwrap());

    let rate_change: f64 = (rate_before - rate_after) / rate_before;
    let eta_change: f64 = (eta_after - eta_before) / eta_before;
    assert!(
        rate_change > eta_change,
        "the displayed rate should react more sharply than the ETA \
         (rate fell {rate_change:.1}, eta rose {eta_change:.1})"
    );
}

fn progress(done: u64, total: u64) -> FillProgress {
    FillProgress {
        done,
        total,
        rate: None,
        eta: None,
    }
}

fn fraction(p: FillProgress) -> f64 {
    let f = p.fraction();
    f.part as f64 / f.whole as f64
}

#[test]
fn fraction_never_leaves_the_unit_interval() {
    assert_eq!(fraction(progress(0, 100)), 0.0);
    assert_eq!(fraction(progress(50, 100)), 0.5);
    assert_eq!(fraction(progress(100, 100)), 1.0);
    // The device freed space behind our back: overshoot must clamp, not exceed.
    assert_eq!(fraction(progress(150, 100)), 1.0);
    // Nothing to do: 0/0 must be 1.0, not NaN.
    assert_eq!(fraction(progress(0, 0)), 1.0);
    assert!((fraction(progress(0, 0)) * 100.0).is_finite());
}

#[test]
fn bar_cells_round_to_the_nearest() {
    assert_eq!(progress(0, 64).filled_cells(32), 0);
    assert_eq!(progress(1, 64).filled_cells(32), 1, "halves go up");
    assert_eq!(progress(31, 64).filled_cells(32), 16);
    assert_eq!(progress(64, 64).filled_cells(32), 32);
    assert_eq!(progress(99, 64).filled_cells(32), 32);
    assert_eq!(progress(0, 0).filled_cells(32), 32);
}

#[test]
fn remaining_floors_at_zero_when_we_overshoot() {
    let p = FillProgress {
        done: 150,
        total: 100,
        rate: None,
        eta: None,
    };
    assert_eq!(p.remaining(), 0);
}

#[test]
fn durations_read_the_way_people_say_them() {
    assert_eq!(human_duration(Duration::from_secs(0)), "0s");
    assert_eq!(human_duration(Duration::from_secs(45)), "45s");
    assert_eq!(human_duration(Duration::from_secs(125)), "2m 05s");
    assert_eq!(human_duration(Duration::from_secs(7_325)), "2h 02m");
}

fn shown(secs: u64) -> String {
    human_eta(Duration::from_secs(secs))
}

#[test]
fn eta_is_rounded_coarser_the_further_out_it_is() {
    assert_eq!(shown(0), "0s");
    assert_eq!(shown(43), "45s", "under a minute rounds to 5s");
    assert_eq!(shown(127), "2m 10s", "under ten minutes rounds to 10s");
    assert_eq!(
        shown(1_016),
        "17m 00s",
        "beyond ten minutes rounds to the minute"
    );
    assert_eq!(shown(7_325), "2h 02m");
}

#[test]
fn a_nearly_finished_eta_never_rounds_down_to_nothing() {
    assert_eq!(human_eta(Duration::from_secs(1)), "5s");
    assert_eq!(human_eta(Duration::from_secs(2)), "5s");
    assert_eq!(
        human_eta(Duration::zero()),
        "0s",
        "only genuine zero shows zero"
    );
    assert_eq!(human_eta(Duration::from_millis(400)), "5s");
}

#[test]
fn small_wobbles_do_not_change_the_rendered_eta() {
    // 16m 40s through 16m 52s all round to the same minute.
    let wobbles: [u64; 4] = [1_000, 1_004, 1_008, 1_012];
    for secs in wobbles {
        assert_eq!(human_eta(Duration::from_secs(secs)), "17m 00s", "{secs}");
    }
}

#[test]
fn readings_out_of_the_horizon_do_not_count() {
    let mut r = RateEstimator::new();
    r.observe(0, Duration::zero());
    r.observe(100, Duration::from_secs(100));
    // Only one reading within the horizon.
    assert_eq!(r.eta(50), None);
    r.observe(200, Duration::from_secs(110));
    // 100 bytes over 10 seconds.
    assert_eq!(r.eta(50), Some(Duration::from_secs(5)));
}

#[test]
fn time_running_backwards_starts_the_history_over() {
    let mut r = RateEstimator::new();
    r.observe(0, Duration::from_secs(10));
    r.observe(10, Duration::from_secs(13));
    assert!(r.rate().is_some());
    r.observe(20, Duration::from_secs(5));
    assert_eq!(r.rate(), None);
}

#[test]
fn the_first_report_of_an_object_always_shows_and_the_rest_are_paced() {
    let mut m = Meter::new();
    m.begin(1_000, 10_000);
    match m.report(0, Duration::zero(), false) {
        Report::Show(p) => {
            assert_eq!(p.done, 1_000);
            assert_eq!(p.total, 10_000);
            assert_eq!(p.rate, None);
            assert_eq!(p.eta, None);
        }
        other => panic!("expected a first report, got {other:?}"),
    }
    assert_eq!(m.report(10, Duration::from_millis(99), false), Report::Quiet);
    assert!(matches!(
        m.report(500, Duration::from_millis(100), false),
        Report::Show(_)
    ));
    assert_eq!(m.report(600, Duration::from_millis(150), true), Report::Stop);
    // A new object reports at once, and the rate spans both.
    m.begin(2_000, 10_000);
    match m.report(0, Duration::from_millis(1_000), false) {
        Report::Show(p) => {
            assert_eq!(p.done, 2_000);
            assert_eq!(
                p.rate,
                Some(Throughput {
                    bytes: 1_000,
                    span: Duration::from_secs(1)
                })
            );
            assert_eq!(p.eta, Some(Duration::from_secs(8)));
        }
        other => panic!("expected a report, got {other:?}"),
    }
}

#[test]
fn rates_are_shown_in_megabytes_with_one_decimal() {
    let t = Throughput {
        bytes: 5 * 1024 * 1024,
        span: Duration::from_secs(2),
    };
    assert_eq!(human_rate(&t), "2.5 MB/s");
    let slow = Throughput {
        bytes: 0,
        span: Duration::from_secs(5),
    };
    assert_eq!(human_rate(&slow), "0.0 MB/s");
}

/// A stream of numbers of every size.
struct Numbers {
    state: u64,
}

impl Numbers {
    fn next(&mut self) -> u64 {
        self.state = self
            .state
            .wrapping_mul(6364136223846793005)
            .wrapping_add(1442695040888963407);
        let high: u64 = self.state >> 32;
        self.state = self
            .state
            .wrapping_mul(6364136223846793005)
            .wrapping_add(1442695040888963407);
        (high << 32) | (self.state >> 32)
    }

    /// A number with up to `bits` bits.
    fn sized(&mut self, bits: u64) -> u64 {
        let drop: u64 = 64 - 1 - self.next() % bits;
        self.next() >> drop
    }

    fn span(&mut self, bits: u64) -> std::time::Duration {
        let secs: u64 = self.sized(bits) >> 1;
        let nanos: u64 = match self.next() % 4 {
            0 => 0,
            1 => 1,
            2 => 999_999_999,
            _ => self.next() % 1_000_000_000,
        };
        std::time::Duration::new(secs, nanos as u32)
    }
}

/// Completion in double precision.
fn completion(done: u64, total: u64) -> f64 {
    if total == 0 {
        return 1.0;
    }
    (done as f64 / total as f64).clamp(0.0, 1.0)
}

fn check_progress(done: u64, total: u64) {
    let p = progress(done, total);
    let part: f64 = completion(done, total);
    let plain = format!(
        "  {:.0}% | {} of {} | -- | estimating left",
        part * 100.0,
        human_bytes(done),
        human_bytes(total)
    );
    assert_eq!(progress_line(&p, false), plain, "{done} of {total}");
    let filled: usize = ((part * 32.0).round() as usize).min(32);
    let bar = format!(
        "\r  [{}{}] {:5.1}% | {} / {} | -- | estimating left    ",
        "#".repeat(filled),
        "-".repeat(32 - filled),
        part * 100.0,
        human_bytes(done),
        human_bytes(total)
    );
    assert_eq!(progress_line(&p, true), bar, "{done} of {total}");
    let trace = format!(
        "Progress {:.1}% {}/{}",
        part * 100.0,
        human_bytes(done),
        human_bytes(total)
    );
    assert_eq!(trace_progress(&p), trace, "{done} of {total}");
}

#[test]
fn progress_is_computed_in_double_precision() {
    assert!(progress_line(&progress(575, 1000), false).starts_with("  57% "));
    for total in [0, 1, 7, 64, 1000, 1 << 53, u64::MAX - 1, u64::MAX] {
        for done in [0, 1, 7, 63, 64, 500, 575, 1000, (1 << 53) + 1, u64::MAX - 1, u64::MAX] {
            check_progress(done, total);
        }
    }
    for done in 0..=2000 {
        check_progress(done, 2000);
        check_progress(done, 999);
    }
    let mut numbers = Numbers { state: 1 };
    for _ in 0..4000 {
        let total: u64 = numbers.sized(64);
        let done: u64 = if numbers.next() % 8 == 0 {
            numbers.sized(64)
        } else {
            numbers.next() % (total / 2 * 2 + 1)
        };
        check_progress(done, total);
    }
}

#[test]
fn all_of_a_job_is_a_hundred_percent() {
    for n in [1, 3, 1000, (1 << 53) + 1, u64::MAX] {
        let line = progress_line(&progress(n, n), true);
        assert!(line.contains("################################] 100.0%"), "{line}");
        assert_eq!(progress(n, n).filled_cells(32), 32);
    }
}

#[test]
fn rates_are_computed_in_double_precision() {
    let mut numbers = Numbers { state: 2 };
    for bits in [1, 8, 20, 34, 64] {
        for _ in 0..1500 {
            let span_of: std::time::Duration = numbers.span(bits);
            if span_of.is_zero() {
                continue;
            }
            let bytes: u64 = numbers.sized(64);
            let t = Throughput {
                bytes,
                span: span(span_of),
            };
            let rate: f64 = bytes as f64 / span_of.as_secs_f64();
            assert_eq!(
                human_rate(&t),
                format!("{:.1} MB/s", rate / 1048576.0),
                "{bytes} in {span_of:?}"
            );
        }
    }
}

#[test]
fn remaining_times_are_computed_in_double_precision() {
    let mut numbers = Numbers { state: 3 };
    // All within the horizon.
    for bits in [1, 2, 3, 4, 5] {
        for _ in 0..3000 {
            let took: std::time::Duration =
                numbers.span(bits) + std::time::Duration::from_millis(750);
            let bytes: u64 = numbers.sized(48);
            let remaining: u64 = numbers.sized(if bits % 2 == 0 { 50 } else { 64 });
            let mut r = RateEstimator::new();
            r.observe(0, Duration::zero());
            r.observe(bytes, span(took));
            let expected = if remaining == 0 {
                Some(std::time::Duration::ZERO)
            } else if bytes == 0 {
                None
            } else {
                let rate: f64 = bytes as f64 / took.as_secs_f64();
                let secs: f64 = remaining as f64 / rate;
                Some(std::time::Duration::from_secs_f64(secs.min(356_400.0)))
            };
            assert_eq!(
                r.eta(remaining),
                expected.map(span),
                "{remaining} left, {bytes} in {took:?}"
            );
        }
    }
}

#[test]
fn an_estimator_can_be_copied() {
    let mut r = RateEstimator::new();
    steady(&mut r, 10_000_000, 4.0, 10.0, ZERO, 0);
    let copy = r.clone();
    r.observe(0, Duration::from_secs(9));
    assert_eq!(r.rate(), None);
    assert!(copy.rate().is_some());
}
