use kindlefill_core::plan::{
    next_removal, next_step, Removal, Step, Window, WindowError, GIB, KIB, LADDER, MIB,
};

fn window() -> Window {
    Window::new(50 * MIB, 90 * MIB).unwrap()
}

#[test]
fn rejects_inverted_and_hairline_windows() {
    assert!(matches!(
        Window::new(90 * MIB, 50 * MIB),
        Err(WindowError::Inverted { .. })
    ));
    assert!(matches!(
        Window::new(50 * MIB, 50 * MIB + 1024),
        Err(WindowError::TooNarrow { .. })
    ));
    assert!(Window::new(50 * MIB, 90 * MIB).is_ok());
}

#[test]
fn window_errors_say_which_bound_is_wrong() {
    let inverted = Window::new(9, 5).unwrap_err();
    assert_eq!(inverted, WindowError::Inverted { low: 9, high: 5 });
    assert_eq!(inverted.message(), "lower bound 9 must be below upper bound 5");
    let narrow = Window::new(0, 1024).unwrap_err();
    assert_eq!(
        narrow,
        WindowError::TooNarrow {
            width: 1024,
            minimum: Window::MIN_WIDTH
        }
    );
    assert_eq!(
        narrow.message(),
        "window is 1024 bytes wide; needs at least 4194304 to absorb filesystem overhead on the \
         final write"
    );
    assert!(Window::new(0, Window::MIN_WIDTH).is_ok());
    assert!(Window::new(0, Window::MIN_WIDTH - 1).is_err());
    assert!(Window::new(7, 7).is_err());
}

#[test]
fn aims_at_the_middle_not_an_edge() {
    assert_eq!(window().aim(), 70 * MIB);
}

#[test]
fn done_only_inside_the_window() {
    let w = window();
    assert_eq!(next_step(70 * MIB, w), Step::Done);
    assert_eq!(next_step(50 * MIB, w), Step::Done, "low bound is inclusive");
    assert_eq!(next_step(90 * MIB, w), Step::Done, "high bound is inclusive");
}

#[test]
fn reports_overfill_below_the_window() {
    match next_step(40 * MIB, window()) {
        Step::Overfilled { excess, .. } => assert_eq!(excess, 10 * MIB),
        other => panic!("expected Overfilled, got {other:?}"),
    }
}

#[test]
fn uses_big_rungs_when_far_away_and_small_ones_when_close() {
    let w = window();
    assert_eq!(next_step(13 * GIB, w), Step::Write(GIB));

    // Just past the upper edge. Because a fill steers at the midpoint, the smallest
    // deficit this window can ever present is half its width, so the final approach here
    // is a 16 MiB rung, not a tiny one.
    assert_eq!(next_step(90 * MIB + 1, w), Step::Write(16 * MIB));

    // A minimum-width window is what actually forces the small rungs into play.
    let narrow = Window::new(50 * MIB, 54 * MIB).unwrap();
    assert_eq!(narrow.aim(), 52 * MIB);
    assert_eq!(next_step(54 * MIB + 1, narrow), Step::Write(MIB));
}

#[test]
fn smallest_possible_deficit_still_lands_on_a_ladder_rung() {
    let narrowest = Window::new(50 * MIB, 50 * MIB + Window::MIN_WIDTH).unwrap();
    let smallest_deficit: u64 = narrowest.high() - narrowest.aim();
    assert!(smallest_deficit >= *LADDER.last().unwrap());
}

#[test]
fn never_proposes_a_write_that_would_undershoot_the_window() {
    let w = window();
    let mut free: u64 = 40 * GIB;
    while free > w.high() {
        match next_step(free, w) {
            Step::Write(n) => {
                assert!(n > 0, "must make progress at free={free}");
                assert!(
                    free - n >= w.low(),
                    "write of {n} at free={free} would undershoot {}",
                    w.low()
                );
                free -= n;
            }
            other => panic!("expected Write while above window, got {other:?}"),
        }
    }
    assert!(w.contains(free));
}

#[test]
fn converges_despite_per_file_overhead() {
    let w = window();
    let overheads: [u64; 4] = [0, 512, 4 * KIB, 64 * KIB];
    for overhead in overheads {
        let mut free: u64 = 13 * GIB;
        let mut writes: u32 = 0;
        loop {
            match next_step(free, w) {
                Step::Done => break,
                Step::Overfilled { free, .. } => {
                    panic!("overhead={overhead}: overshot to {free}")
                }
                Step::Write(n) => {
                    free = free.saturating_sub(n + overhead);
                    writes += 1;
                    assert!(writes < 10_000, "overhead={overhead}: not converging");
                }
            }
        }
        assert!(
            w.contains(free),
            "overhead={overhead}: landed at {free}, outside window"
        );
    }
}

#[test]
fn bulk_of_a_full_fill_is_large_objects() {
    let w = window();
    let mut free: u64 = 13 * GIB;
    let mut count: u32 = 0;
    while let Step::Write(n) = next_step(free, w) {
        free -= n;
        count += 1;
    }
    assert!(count < 40, "took {count} objects to fill 13 GiB; too chatty");
}

#[test]
fn nothing_to_remove_is_a_terminal_state_not_an_index() {
    assert_eq!(next_removal(10 * MIB, window(), &[]), Removal::Exhausted);
}

#[test]
fn prefers_a_removal_that_lands_inside_the_window_outright() {
    let w = window(); // 50-90 MiB, aim 70
    let sizes: [u64; 4] = [4 * MIB, 32 * MIB, 45 * MIB, GIB];
    assert_eq!(next_removal(40 * MIB, w, &sizes), Removal::Remove(1));
}

#[test]
fn overshoots_with_the_smallest_object_when_none_lands_inside() {
    let w = Window::new(75 * MIB, 85 * MIB).unwrap();
    let sizes: [u64; 4] = [GIB, 256 * MIB, 64 * MIB, 64 * MIB];
    // 20 MiB free: every option overshoots past 85, so take a 64 MiB one.
    match next_removal(20 * MIB, w, &sizes) {
        Removal::Remove(i) => assert_eq!(sizes[i], 64 * MIB, "took {} MiB", sizes[i] / MIB),
        other => panic!("expected a removal, got {other:?}"),
    }
}

#[test]
fn takes_the_largest_when_nothing_reaches_the_window() {
    let w = window();
    let sizes: [u64; 3] = [MIB, 4 * MIB, 2 * MIB];
    // 1 MiB free; even +4 MiB is far below the 50 MiB floor. Biggest bite.
    assert_eq!(next_removal(MIB, w, &sizes), Removal::Remove(1));
}

#[test]
fn ties_go_to_the_first_object_or_for_the_largest_to_the_last() {
    let w = window();
    // Two that land inside, as far from the aim on either side.
    let inside: [u64; 3] = [MIB, 25 * MIB, 35 * MIB];
    assert_eq!(next_removal(40 * MIB, w, &inside), Removal::Remove(1));
    // Two of the smallest size that reach the window.
    let reaching: [u64; 3] = [GIB, 64 * MIB, 64 * MIB];
    assert_eq!(next_removal(40 * MIB, w, &reaching), Removal::Remove(1));
    // Two of the largest size, neither of which reaches it.
    let small: [u64; 4] = [MIB, 2 * MIB, 2 * MIB, MIB];
    assert_eq!(next_removal(MIB, w, &small), Removal::Remove(2));
    // Giving back stops at the largest count of bytes there is.
    let huge: [u64; 1] = [u64::MAX];
    assert_eq!(next_removal(MIB, w, &huge), Removal::Remove(0));
}

#[test]
fn converges_from_below_the_window_without_oscillating() {
    let w = Window::new(75 * MIB, 85 * MIB).unwrap();
    let starts: [u64; 4] = [0, MIB, 20 * MIB, 74 * MIB];
    for start in starts {
        let mut sizes: Vec<u64> = vec![GIB, 256 * MIB, 64 * MIB, 64 * MIB, 16 * MIB];
        let mut free: u64 = start;
        let mut removals: u32 = 0;
        let mut writes: u32 = 0;
        loop {
            if w.contains(free) {
                break;
            }
            if free < w.low() {
                assert_eq!(writes, 0, "removal after a write means oscillation");
                match next_removal(free, w, &sizes) {
                    Removal::Remove(i) => {
                        free += sizes.remove(i);
                        removals += 1;
                    }
                    Removal::Exhausted => panic!("ran out of filler from {start}"),
                }
            } else {
                match next_step(free, w) {
                    Step::Write(n) => {
                        free -= n;
                        writes += 1;
                    }
                    Step::Done => break,
                    other => panic!("unexpected {other:?}"),
                }
            }
            assert!(removals + writes < 100, "not converging from {start}");
        }
        assert!(w.contains(free), "from {start} landed at {free}");
    }
}

#[test]
fn no_single_object_can_exceed_the_mtp_32_bit_size_field() {
    for rung in LADDER {
        assert!(
            rung < u64::from(u32::MAX),
            "rung {rung} overflows ObjectInfo"
        );
    }
}
