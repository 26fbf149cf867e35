use kindlefill_core::bench;
use kindlefill_core::bench::Bench;
use kindlefill_core::console::{
    by_size, can_display, clean_line, clean_summary, device_line, emptied_line, fill_line,
    fill_summary, open_guidance, portable_line, privilege_lines, progress_line, purge_line,
    purge_summary, scan_lines, status_lines, storage_line, trace_progress,
};
use kindlefill_core::engine::{
    CleanReport, DeletedKind, Entry, ErrorKind, Event, FillError, FillerFolder, MtpError,
    NameError, Outcome, RootEntry,
};
use kindlefill_core::mass_storage::Space;
use kindlefill_core::plan::{GIB, MIB};
use kindlefill_core::ptpcamerad::PrivilegeCheck;
use kindlefill_core::rate::{Duration, FillProgress, Throughput};
use kindlefill_core::report::{
    clean_message, device_update, emptied_message, explain, explain_fill, human_rate, log_line,
    outcome_message, progress_shown, should_look_elsewhere, snapshot, updates_message, Scan,
};
use kindlefill_core::{
    is_disconnected, is_exclusive_access, is_permission_denied, is_timeout, WindowError,
};

fn mtp(kind: ErrorKind) -> MtpError {
    MtpError {
        kind,
        text: "its own words".to_string(),
    }
}

fn file(name: &str, bytes: u64) -> Entry {
    Entry {
        id: 0,
        name: name.to_string(),
        bytes,
        is_dir: false,
        is_file: true,
    }
}

fn folder(name: &str) -> Entry {
    Entry {
        id: 0,
        name: name.to_string(),
        bytes: 0,
        is_dir: true,
        is_file: false,
    }
}

fn holding(name: &str, files: usize, bytes: u64) -> FillerFolder {
    FillerFolder {
        name: name.to_string(),
        files,
        bytes,
    }
}

fn deleted(name: &str, bytes: u64, kind: DeletedKind) -> Event {
    Event::Deleted {
        name: name.to_string(),
        bytes,
        kind,
    }
}

fn refused(name: &str, bytes: u64) -> Event {
    Event::DeleteRefused {
        name: name.to_string(),
        bytes,
    }
}

fn wrote(name: &str, bytes: u64, free: u64) -> Event {
    Event::Wrote {
        name: name.to_string(),
        bytes,
        free,
    }
}

fn progress(done: u64, total: u64) -> FillProgress {
    FillProgress {
        done,
        total,
        rate: Some(Throughput {
            bytes: 21 * MIB,
            span: Duration::from_secs(2),
        }),
        eta: Some(Duration::from_secs(125)),
    }
}

#[test]
fn failures_are_told_apart_by_kind() {
    assert!(is_exclusive_access(&mtp(ErrorKind::ExclusiveAccess)));
    assert!(!is_exclusive_access(&mtp(ErrorKind::PermissionDenied)));
    assert!(is_permission_denied(&mtp(ErrorKind::PermissionDenied)));
    assert!(!is_permission_denied(&mtp(ErrorKind::ExclusiveAccess)));
    assert!(is_timeout(&mtp(ErrorKind::Timeout)));
    assert!(!is_timeout(&mtp(ErrorKind::Cancelled)));
    for kind in [
        ErrorKind::Disconnected,
        ErrorKind::NoDevice,
        ErrorKind::DeviceReset,
    ] {
        assert!(is_disconnected(&mtp(kind)));
    }
    assert!(!is_disconnected(&mtp(ErrorKind::Other)));
}

#[test]
fn guidance_points_at_what_can_be_done() {
    assert!(explain(&mtp(ErrorKind::ExclusiveAccess))
        .starts_with("Another program is holding the Kindle."));
    assert_eq!(
        explain(&mtp(ErrorKind::PermissionDenied)),
        "The system refused access to the device (nothing else is holding it). On Linux this \
         usually means missing udev rules. Underlying error: its own words"
    );
    assert!(explain(&mtp(ErrorKind::Timeout)).starts_with("The Kindle stopped responding."));
    assert!(explain(&mtp(ErrorKind::NoDevice)).starts_with("The Kindle disconnected."));
    assert_eq!(explain(&mtp(ErrorKind::Other)), "its own words");
    assert_eq!(
        explain_fill(&FillError::Mtp(mtp(ErrorKind::Timeout))),
        explain(&mtp(ErrorKind::Timeout))
    );
    assert_eq!(
        explain_fill(&FillError::Io("disk full".to_string())),
        "disk full"
    );
}

#[test]
fn every_error_has_its_words() {
    assert_eq!(
        FillError::ReadOnly {
            description: "Store\n".to_string()
        }
        .message(),
        "storage \"Store\\n\" is read-only"
    );
    assert_eq!(
        FillError::AlreadyBelowWindow {
            free: 10,
            low: 20,
            elsewhere: vec![]
        }
        .message(),
        "only 10 bytes free, already below the 20-byte target; nothing to fill"
    );
    assert_eq!(
        FillError::AlreadyBelowWindow {
            free: 10,
            low: 20,
            elsewhere: vec![holding("big", 3, 3 * GIB), holding("small", 1, 1)]
        }
        .message(),
        "only 10 bytes free, already below the 20-byte target; nothing to fill — but 3.00 GB of \
         filler is in big; switch to that folder and try again"
    );
    assert_eq!(
        FillError::BadName(NameError::Empty).message(),
        "the folder name can't be empty"
    );
    assert_eq!(
        FillError::StaleConfirmation.message(),
        "the folder's contents changed since they were confirmed — re-check the folder and \
         confirm again"
    );
    assert_eq!(
        FillError::SpaceUnreported.message(),
        "the device did not report its free space — unlock the device and replug"
    );
    assert_eq!(
        FillError::NamesExhausted.message(),
        "every filler name is taken — remove the filler first"
    );
    assert_eq!(
        FillError::Mtp(mtp(ErrorKind::Other)).message(),
        "its own words"
    );
    assert_eq!(
        WindowError::Inverted { low: 9, high: 5 }.message(),
        "lower bound 9 must be below upper bound 5"
    );
    assert_eq!(
        WindowError::TooNarrow {
            width: 1,
            minimum: 2
        }
        .message(),
        "window is 1 bytes wide; needs at least 2 to absorb filesystem overhead on the final write"
    );
}

#[test]
fn only_filler_moves_the_panels_tally() {
    let u = device_update(&Event::Started {
        free: MIB,
        aim: 0,
        total: 0,
    })
    .unwrap();
    assert_eq!(
        (u.free, u.free_human, u.files_delta, u.bytes_delta),
        (Some(MIB), Some("1.00 MB".to_string()), 0, 0)
    );
    let u = device_update(&wrote("x", 5, 7)).unwrap();
    assert_eq!((u.free, u.files_delta, u.bytes_delta), (Some(7), 1, 5));
    let u = device_update(&deleted("x", 5, DeletedKind::Filler)).unwrap();
    assert_eq!((u.free, u.files_delta, u.bytes_delta), (None, -1, -5));
    assert!(u.free_human.is_none());
    let u = device_update(&Event::Finished { free: 3 }).unwrap();
    assert_eq!((u.free, u.files_delta, u.bytes_delta), (Some(3), 0, 0));
    for kind in [
        DeletedKind::Foreign,
        DeletedKind::Update,
        DeletedKind::Interrupted,
    ] {
        assert!(device_update(&deleted("x", 5, kind)).is_none());
    }
    assert!(device_update(&refused("x", 5)).is_none());
    assert!(device_update(&Event::Progress(progress(1, 2))).is_none());
}

#[test]
fn the_log_has_a_line_for_everything_but_progress() {
    assert_eq!(
        log_line(&Event::Started {
            free: GIB,
            aim: 70 * MIB,
            total: 954 * MIB
        })
        .unwrap(),
        "Starting at 1.00 GB free, steering to 70.00 MB — 954.00 MB to write."
    );
    assert_eq!(log_line(&Event::Progress(progress(1, 2))), None);
    assert_eq!(
        log_line(&wrote("fill_0000.bin", MIB, GIB)).unwrap(),
        "Wrote fill_0000.bin (1.00 MB) — 1.00 GB free."
    );
    assert_eq!(
        log_line(&deleted("a", 5, DeletedKind::Update)).unwrap(),
        "Deleted a (5 B)."
    );
    assert_eq!(
        log_line(&refused("a", 5)).unwrap(),
        "a (5 B) could not be deleted — the device refused it. Unplug and replug the Kindle, \
         then try again."
    );
    assert_eq!(
        log_line(&Event::Finished { free: 5 }).unwrap(),
        "Finished at 5 B free."
    );
}

#[test]
fn operations_end_with_a_message() {
    assert_eq!(
        outcome_message(Outcome::InWindow { free: 70 * MIB }),
        "Done — 70.00 MB free, inside the target window."
    );
    assert_eq!(
        outcome_message(Outcome::Overfilled {
            free: MIB,
            excess: 5
        }),
        "Overfilled: 1.00 MB free, 5 B below target. Use Remove filler & folder to recover."
    );
    assert_eq!(
        outcome_message(Outcome::Cancelled { free: MIB }),
        "Stopped at 1.00 MB free. What's written is intact — Fill again to resume."
    );
    let report = |removed: usize| CleanReport {
        free: GIB,
        removed,
        bytes: 5 * MIB,
    };
    assert_eq!(
        clean_message(report(1), "d", &vec![]),
        "Removed 1 filler file (5.00 MB) from d — 1.00 GB free."
    );
    assert_eq!(
        clean_message(report(12), "d", &vec![holding("e", 1, 1)]),
        "Removed 12 filler files (5.00 MB) from d — 1.00 GB free."
    );
    assert_eq!(
        clean_message(report(0), "d", &vec![holding("d", 1, 9), holding("e", 1, 1)]),
        "Nothing to remove in d, but 1 B of filler is in e — switch to that folder and try again."
    );
    assert_eq!(
        clean_message(report(0), "d", &vec![]),
        "No filler to remove — 1.00 GB free."
    );
    assert_eq!(updates_message(0, &vec![]), "Nothing selected.");
    assert_eq!(
        updates_message(2, &vec![]),
        "Nothing was deleted — no staged update matched."
    );
    assert_eq!(
        updates_message(2, &vec![file("a", 1)]),
        "Deleted 1 staged update (1 B)."
    );
    assert_eq!(
        updates_message(2, &vec![file("a", 1), file("b", 2)]),
        "Deleted 2 staged updates (3 B)."
    );
    assert_eq!(emptied_message("d", 3), "Emptied d — 3 item(s) deleted.");
}

#[test]
fn rates_are_shown_with_one_decimal() {
    let rate = |bytes: u64, millis: u64| {
        human_rate(&Throughput {
            bytes,
            span: Duration::from_millis(millis),
        })
    };
    assert_eq!(rate(21 * MIB, 2000), "10.5 MB/s");
    assert_eq!(rate(0, 1000), "0.0 MB/s");
    assert_eq!(rate(MIB / 4, 1000), "0.2 MB/s");
    assert_eq!(rate(10 * MIB, 3000), "3.3 MB/s");
    for (bytes, millis) in [(123_456_789u64, 4321u64), (5u64, 750u64), (77 * MIB, 5000u64)] {
        let expected: f64 = bytes as f64 / (millis as f64 / 1000.0) / MIB as f64;
        assert_eq!(rate(bytes, millis), format!("{expected:.1} MB/s"));
    }
}

#[test]
fn the_panel_shows_what_a_scan_found() {
    let mut scan = Scan {
        storage: "Internal Storage".to_string(),
        space: Space {
            total: 4 * GIB,
            free: GIB,
        },
        writable: true,
        root: vec![folder("fill_disk"), file("update_x.bin", 7)],
        folder: Some(vec![
            file("fill_0000.bin", MIB),
            file("book", 5),
            file("fill_0001.bin", MIB),
        ]),
        folders: vec![RootEntry {
            entry: folder("other"),
            contents: Some(vec![file("fill_0000.bin", 9)]),
        }],
    };
    assert!(!should_look_elsewhere(scan.folder.as_ref()));
    let s = snapshot(&scan, "fill_disk");
    assert_eq!(s.storage, "Internal Storage");
    assert_eq!((s.total_human.as_str(), s.free_human.as_str()), ("4.00 GB", "1.00 GB"));
    assert!(s.writable && s.fill_dir_exists);
    assert_eq!(s.fill_dir, "fill_disk");
    assert_eq!((s.filler_files, s.filler_bytes), (2, 2 * MIB));
    assert_eq!(s.filler_human, "2.00 MB");
    assert_eq!(s.foreign.len(), 1);
    assert_eq!((s.foreign[0].name.as_str(), s.foreign[0].human.as_str()), ("book", "5 B"));
    assert_eq!(
        s.overwrite_token,
        kindlefill_core::engine::overwrite_token("fill_disk", &vec![file("book", 5)])
    );
    assert_eq!(s.updates.len(), 1);
    assert_eq!(s.updates[0].bytes, 7);
    assert!(s.elsewhere.is_empty());

    scan.folder = None;
    assert!(should_look_elsewhere(None));
    let s = snapshot(&scan, "fill_disk");
    assert!(!s.fill_dir_exists);
    assert_eq!(s.overwrite_token, None);
    assert_eq!(s.elsewhere.len(), 1);
    assert_eq!(s.elsewhere[0].name, "other");
}

#[test]
fn the_console_prints_a_line_per_event() {
    let line = fill_line(&Event::Started {
        free: GIB,
        aim: 70 * MIB,
        total: 954 * MIB,
    })
    .unwrap();
    assert_eq!(
        line.text,
        "starting at 1.00 GB free, steering to 70.00 MB — 954.00 MB to write"
    );
    assert!(!line.urgent);
    assert!(fill_line(&Event::Progress(progress(1, 2))).is_none());
    assert!(fill_line(&refused("a", 5)).unwrap().urgent);
    assert_eq!(
        clean_line(&deleted("a", 5, DeletedKind::Filler)).unwrap().text,
        "  deleted a (5 B)"
    );
    let line = clean_line(&refused("a", 5)).unwrap();
    assert_eq!(
        line.text,
        "  !! a (5 B) was NOT deleted — the device refused it. Unplug and replug the Kindle, \
         then run this again."
    );
    assert!(line.urgent);
    let line = purge_line(&refused("a", 5)).unwrap();
    assert_eq!(
        line.text,
        "  !! a (5 B) was NOT deleted — the device refused it."
    );
    assert!(line.urgent);
    assert!(purge_line(&Event::Finished { free: 1 }).is_none());
}

#[test]
fn the_console_sums_up_what_happened() {
    assert_eq!(
        fill_summary(
            Outcome::InWindow { free: 70 * MIB },
            Duration::from_millis(61_500),
            50 * MIB,
            90 * MIB
        ),
        "done in 62s — 70.00 MB free, inside 50.00 MB..90.00 MB"
    );
    assert_eq!(
        fill_summary(
            Outcome::InWindow { free: 70 * MIB },
            Duration::new(u64::MAX, 999_999_999),
            50 * MIB,
            90 * MIB
        ),
        "done in 18446744073709551616s — 70.00 MB free, inside 50.00 MB..90.00 MB"
    );
    let report = CleanReport {
        free: GIB,
        removed: 0,
        bytes: 0,
    };
    assert_eq!(
        clean_summary(report, "d", &vec![holding("e", 2, MIB)]),
        vec![
            "nothing to remove in d".to_string(),
            "  filler is in e: 1.00 MB in 2 file(s)".to_string(),
            "reclaimed 0 B — 1.00 GB free".to_string(),
        ]
    );
    assert_eq!(
        clean_summary(
            CleanReport {
                free: GIB,
                removed: 1,
                bytes: MIB
            },
            "d",
            &vec![holding("e", 2, MIB)]
        ),
        vec!["reclaimed 1.00 MB — 1.00 GB free"]
    );
    assert_eq!(
        purge_summary("d", 0, 0),
        "nothing to remove — no d folder at the storage root, or it was empty"
    );
    assert_eq!(
        purge_summary("d", 3, 0),
        "emptied d: 3 item(s) deleted (the folder itself is left)"
    );
    assert!(purge_summary("d", 3, 2).starts_with("2 item(s) could not be deleted"));
}

#[test]
fn a_status_groups_filler_by_size() {
    let listing = vec![
        file("fill_0000.bin", MIB),
        file("book", 5),
        file("fill_0001.bin", 2 * MIB),
        file("fill_0002.bin", MIB),
    ];
    assert_eq!(
        by_size(&vec![file("a", 1), file("b", 3), file("c", 1)]),
        vec![(3, 1), (1, 2)]
    );
    let space = Space {
        total: 4 * GIB,
        free: GIB,
    };
    assert_eq!(
        status_lines(
            "Store",
            space,
            "fill_disk",
            Some(&listing),
            &vec![file("update_x.bin", 7)]
        ),
        vec![
            "\"Store\": 1.00 GB free of 4.00 GB",
            "fill_disk: 3 filler object(s), 4.00 MB",
            "  1 x 2.00 MB",
            "  2 x 1.00 MB",
            "  (not ours, will be left alone: book)",
            "staged firmware update: update_x.bin (7 B)",
            "  filling around a staged update accomplishes nothing — remove it first",
        ]
    );
    assert_eq!(
        status_lines("Store", space, "d", None, &vec![]),
        vec![
            "\"Store\": 1.00 GB free of 4.00 GB",
            "no d folder",
            "no staged firmware update",
        ]
    );
}

#[test]
fn a_storage_that_reports_no_capacity_says_so() {
    let line = storage_line(
        "Store",
        Space {
            total: 4 * GIB,
            free: GIB,
        },
        true,
        "GenericHierarchical",
    );
    assert!(line.starts_with("  \"Store\": "), "{line}");
    assert!(line.contains("1.00 GB") && line.contains("writable=true"), "{line}");
    let line = storage_line("Store", Space { total: 0, free: 0 }, false, "x");
    assert!(line.contains("capacity/free NOT REPORTED"), "{line}");
    assert!(line.contains("writable=false"), "{line}");
}

#[test]
fn progress_is_drawn_as_a_bar_or_as_a_line() {
    let p = progress(25 * MIB, 100 * MIB);
    assert!(can_display(&p));
    assert_eq!(
        progress_line(&p, false),
        "  25% | 25.00 MB of 100.00 MB | 10.5 MB/s | 2m 10s left"
    );
    assert_eq!(
        progress_line(&p, true),
        "\r  [########------------------------]  25.0% | 25.00 MB / 100.00 MB | 10.5 MB/s | \
         2m 10s left    "
    );
    let p = FillProgress {
        done: 3,
        total: 0,
        rate: None,
        eta: None,
    };
    assert_eq!(
        progress_line(&p, true),
        "\r  [################################] 100.0% | 3 B / 0 B | -- | estimating left    "
    );
    assert!(!can_display(&FillProgress {
        done: 1,
        total: 2,
        rate: Some(Throughput {
            bytes: 1,
            span: Duration::zero()
        }),
        eta: None,
    }));
}

#[test]
fn a_probe_says_what_it_sees() {
    assert_eq!(
        open_guidance(&mtp(ErrorKind::ExclusiveAccess)).unwrap(),
        "the device is held open by another process.\n\
         On macOS that is almost always ptpcamerad (Apple's PTP camera daemon).\n\
         Quit Android File Transfer and OpenMTP if running, then retry.\n\
         Underlying error: its own words"
    );
    assert_eq!(open_guidance(&mtp(ErrorKind::Timeout)), None);
    assert_eq!(
        privilege_lines(&PrivilegeCheck::NotRunning),
        vec!["  not running (nothing to work around)"]
    );
    assert_eq!(
        privilege_lines(&PrivilegeCheck::KillableUnprivileged),
        vec![
            "  running, and killable WITHOUT sudo",
            "  -> the GUI app will not need an admin prompt",
        ]
    );
    assert_eq!(
        privilege_lines(&PrivilegeCheck::NeedsElevation {
            reason: "no".to_string()
        }),
        vec![
            "  running, and NOT killable as this user: no",
            "  -> the GUI app will need an admin prompt or a privileged helper",
        ]
    );
    assert_eq!(scan_lines(&vec![]), vec!["  none in the USB scan"]);
    assert_eq!(
        scan_lines(&vec!["a".to_string(), "b".to_string()]),
        vec!["  a", "  b"]
    );
    assert!(portable_line(true).starts_with("  WPD: at least one"));
    assert_eq!(portable_line(false), "  WPD: no portable devices");
    assert_eq!(device_line("Amazon", "Kindle"), "  device: Amazon Kindle");
    assert_eq!(emptied_line("d", 2), "emptied d: 2 item(s) deleted");
}

#[test]
fn the_window_shows_what_is_not_known_as_such() {
    let shown = progress_shown(&progress(25 * MIB, 100 * MIB));
    assert_eq!(shown.done_human, "25.00 MB");
    assert_eq!(shown.total_human, "100.00 MB");
    assert_eq!(shown.rate_human, "10.5 MB/s");
    assert_eq!(shown.eta_human, "2m 10s");
    let shown = progress_shown(&FillProgress {
        done: 0,
        total: 1,
        rate: None,
        eta: None,
    });
    assert_eq!(shown.rate_human, "—");
    assert_eq!(shown.eta_human, "estimating…");
    assert_eq!(
        trace_progress(&progress(MIB, 3 * MIB)),
        "Progress 33.3% 1.00 MB/3.00 MB"
    );
    assert_eq!(trace_progress(&progress(5, 0)), "Progress 100.0% 5 B/0 B");
    let percent = progress(1, 4).percent();
    assert_eq!((percent.part, percent.whole), (100, 4));
    let percent = progress(9, 4).percent();
    assert_eq!(percent.part, 100 * u128::from(percent.whole));
    let percent = progress(0, 0).percent();
    assert_eq!(percent.part, 100 * u128::from(percent.whole));
}

type BenchResult = Option<(Result<(), String>, Result<(), String>)>;

fn run_bench(
    fail_upload: Option<usize>,
    fail_cleanup: bool,
) -> (Vec<String>, Vec<u64>, BenchResult) {
    let mut b = Bench::new();
    let mut lines: Vec<String> = vec![];
    let mut present: Vec<u64> = vec![];
    let mut next: u64 = 10;
    let mut uploads: usize = 0;
    let mut free: u64 = 4 * GIB;
    loop {
        let reply = match b.request() {
            bench::Request::Measure => bench::Reply::Measured { free },
            bench::Request::CreateFolder => {
                present.push(1);
                bench::Reply::Created { id: 1 }
            }
            bench::Request::Upload { bytes, .. } => {
                uploads += 1;
                next += 1;
                present.push(next);
                if fail_upload == Some(uploads) {
                    bench::Reply::Broken {
                        partial: Some(next),
                        why: "no".to_string(),
                    }
                } else {
                    free -= bytes + 4096;
                    bench::Reply::Uploaded {
                        id: next,
                        elapsed: Duration::from_secs(2),
                    }
                }
            }
            bench::Request::Delete(id) => {
                if fail_cleanup {
                    bench::Reply::Failed {
                        why: "refused".to_string(),
                    }
                } else {
                    present.retain(|p| *p != id);
                    bench::Reply::Deleted
                }
            }
            bench::Request::Finish => return (lines, present, b.result()),
        };
        let (after, printed) = b.reply(reply);
        b = after;
        lines.extend(printed);
    }
}

#[test]
fn a_bench_measures_every_size_and_cleans_up() {
    let (lines, present, result) = run_bench(None, false);
    assert!(present.is_empty());
    assert_eq!(result, Some((Ok(()), Ok(()))));
    assert_eq!(lines.len(), 5);
    assert_eq!(lines[0], "baseline free: 4.00 GB");
    assert_eq!(
        lines[1],
        "  16MiB: 8.0 MB/s (2.0s) | free 4.00 GB -> 3.98 GB (delta 16.00 MB, overhead 4096)"
    );
    assert!(lines[4].starts_with("free now "));
}

#[test]
fn a_failed_bench_upload_leaves_nothing_behind() {
    for at in 1..4 {
        let (_, present, result) = run_bench(Some(at), false);
        let (measured, cleaned) = result.unwrap();
        assert!(
            measured.is_err(),
            "an unwritable folder must fail the upload"
        );
        cleaned.expect("cleanup must run after a failed measurement");
        assert!(present.is_empty(), "a failed bench must leave nothing behind");
    }
    assert_eq!(
        run_bench(Some(1), false).2.unwrap().0,
        Err("upload of 16MiB failed: no".to_string())
    );
}

#[test]
fn a_failed_cleanup_comes_on_top() {
    let (_, present, result) = run_bench(Some(2), true);
    assert_eq!(present.len(), 3);
    assert_eq!(
        result.unwrap(),
        (
            Err("upload of 128MiB failed: no".to_string()),
            Err("refused".to_string())
        )
    );
    assert_eq!(
        bench::stranded_lines(),
        vec![
            "!! could not remove kindlefill_bench — up to 656.00 MB is still on the device.",
            "   Empty it with:  kindlefill purge --dir kindlefill_bench",
        ]
    );
}

#[test]
fn times_are_summed_up_in_double_precision() {
    for secs in [0, 1, 61, 62, 1 << 23, (1 << 24) + 1, 1 << 52, (1 << 53) + 1, u64::MAX] {
        for nanos in [0, 1, 499_999_999, 500_000_000, 500_000_001, 999_999_999] {
            let spent = std::time::Duration::new(secs, nanos);
            assert_eq!(
                fill_summary(
                    Outcome::InWindow { free: 70 * MIB },
                    Duration::new(secs, nanos),
                    50 * MIB,
                    90 * MIB
                ),
                format!(
                    "done in {:.0}s — 70.00 MB free, inside 50.00 MB..90.00 MB",
                    spent.as_secs_f64()
                )
            );
        }
    }
}

#[test]
fn an_upload_is_timed_in_double_precision() {
    for (secs, nanos) in [(0, 1), (0, 40_000_000), (1, 250_000_000), (7, 149_999_999), (3600, 0)] {
        let spent = std::time::Duration::new(secs, nanos);
        let mut b = Bench::new();
        let mut lines: Vec<String> = vec![];
        let mut size: u64 = 0;
        while lines.iter().all(|l| !l.contains("MB/s")) {
            let reply = match b.request() {
                bench::Request::CreateFolder => bench::Reply::Created { id: 1 },
                bench::Request::Upload { bytes, .. } => {
                    size = bytes;
                    bench::Reply::Uploaded {
                        id: 2,
                        elapsed: Duration::new(secs, nanos),
                    }
                }
                _ => bench::Reply::Measured { free: GIB },
            };
            let (next, said) = b.reply(reply);
            b = next;
            lines.extend(said);
        }
        let speed: f64 = size as f64 / MIB as f64 / spent.as_secs_f64();
        let expected = format!(": {speed:.1} MB/s ({:.1}s) |", spent.as_secs_f64());
        assert!(lines.iter().any(|l| l.contains(&expected)), "{expected} {lines:?}");
    }
}
