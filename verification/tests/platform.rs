use kindlefill_core::engine::{
    is_listed, overwrite_token, Answer, Ask, Clean, Entry, FillError, RootEntry,
};
use kindlefill_core::device::{pick_storage, StorageError};
use kindlefill_core::mass_storage::{
    drive_letters, join, mount_bases, next_piece, os_error, removable_drives_labeled, until_nul,
    volume_is_writable, wide_root, Candidate, Drive, Found, MountedKindle, Piece, Space, System,
    DOCUMENTS, KINDLE_VOLUME,
};
use kindlefill_core::ops::{AppState, Due, FillCommand, News, Overwrite};
use kindlefill_core::ptpcamerad::{kill_outcome, probe_privileges, PrivilegeCheck};
use kindlefill_core::wpd::device_present;
use kindlefill_core::ZeroStream;

fn mounted() -> MountedKindle {
    MountedKindle::find_in("/Volumes", true, true).unwrap()
}

fn file(name: &str, bytes: u64) -> Entry {
    Entry {
        id: 0,
        name: name.to_string(),
        bytes,
        is_dir: false,
        is_file: true,
    }
}

fn folder(name: &str) -> Entry {
    Entry {
        id: 0,
        name: name.to_string(),
        bytes: 0,
        is_dir: true,
        is_file: false,
    }
}

#[test]
fn a_second_operation_is_refused_while_one_is_running() {
    let mut state = AppState::default();
    let first = state.claim().expect("the first command takes the slot");
    assert!(state.claim().is_err(), "a second command must be refused");
    state.release(first);
    assert!(
        state.claim().is_ok(),
        "the slot has to come back when the operation ends, or the app wedges"
    );
}

#[test]
fn a_refused_command_leaves_the_running_fills_cancel_token_alone() {
    let mut state = AppState::default();
    let _op = state.claim().expect("the fill takes the slot");
    let flag: u64 = 7;
    state.publish(flag);

    assert!(state.claim().is_err());

    assert!(
        state.published() == Some(flag),
        "the refused command disturbed the running fill's cancel token"
    );
}

#[test]
fn a_command_withdraws_only_its_own_stop_flag() {
    let mut state = AppState::default();
    assert_eq!(state.published(), None);
    state.withdraw(1);
    assert_eq!(state.published(), None);
    state.publish(2);
    state.withdraw(1);
    assert_eq!(state.published(), Some(2));
    state.withdraw(2);
    assert_eq!(state.published(), None);
    let _op = state.claim().unwrap();
    assert_eq!(
        state.claim().unwrap_err(),
        "Another operation is already running."
    );
}

#[test]
fn only_the_default_kindle_volume_with_documents_is_detected() {
    assert!(MountedKindle::find_in("/mnt", false, false).is_none());
    assert!(MountedKindle::find_in("/mnt", true, false).is_none());
    assert!(MountedKindle::find_in("/mnt", true, true).is_some());
    assert!(MountedKindle::find_in("/mnt", false, true).is_none());
    assert_eq!(mounted().root(), "/Volumes/Kindle");
    assert_eq!((KINDLE_VOLUME, DOCUMENTS), ("Kindle", "documents"));
}

#[test]
fn the_first_kindle_among_the_candidates_is_taken() {
    let candidate = |root: &str, is_dir: bool, has_documents: bool| Candidate {
        root: root.to_string(),
        is_dir,
        has_documents,
    };
    let found = MountedKindle::find(&vec![
        candidate("/a", false, false),
        candidate("/b", true, false),
        candidate("/c", true, true),
        candidate("/d", true, true),
    ]);
    assert_eq!(found.unwrap().root(), "/c");
    assert!(MountedKindle::find(&vec![]).is_none());
    assert!(MountedKindle::find(&vec![candidate("/b", true, false)]).is_none());
}

#[test]
fn mount_points_are_looked_for_where_the_system_puts_them() {
    assert_eq!(mount_bases(System::MacOs, None), vec!["/Volumes"]);
    assert_eq!(mount_bases(System::MacOs, Some("ann")), vec!["/Volumes"]);
    assert_eq!(
        mount_bases(System::OtherUnix, Some("ann")),
        vec!["/run/media/ann", "/media/ann"]
    );
    assert!(mount_bases(System::OtherUnix, None).is_empty());
    assert_eq!(join("/a/", "b"), "/a/b");
    assert_eq!(join("", "b"), "b");
    // A path from the root is one by itself.
    assert_eq!(join("/run/media", "/etc"), "/etc");
    assert_eq!(
        mount_bases(System::OtherUnix, Some("/etc")),
        vec!["/etc", "/etc"]
    );
    // On a lettered drive a backslash separates.
    assert_eq!(join("E:\\", "fill_disk"), "E:\\fill_disk");
    assert_eq!(join("E:\\a", "b"), "E:\\a\\b");
}

#[test]
fn space_is_counted_in_blocks_and_saturates() {
    let k = mounted();
    assert_eq!(
        k.space(1000, 10, 4096),
        Space {
            total: 4_096_000,
            free: 40_960
        }
    );
    assert_eq!(
        k.space(u64::MAX, 1, 2),
        Space {
            total: u64::MAX,
            free: 2
        }
    );
    assert!(k.is_writable(0));
    assert!(!k.is_writable(-1));
}

#[test]
fn a_folder_that_is_a_link_is_not_followed() {
    let k = mounted();
    assert_eq!(
        k.named_root_dir("fill_disk", Found::Folder).unwrap(),
        Some("/Volumes/Kindle/fill_disk".to_string())
    );
    assert_eq!(k.named_root_dir("fill_disk", Found::Other).unwrap(), None);
    assert_eq!(k.named_root_dir("fill_disk", Found::Missing).unwrap(), None);
    assert_eq!(
        k.named_root_dir("fill_disk", Found::Symlink)
            .unwrap_err()
            .message(),
        "the filler folder is a symlink; refusing to follow it"
    );
    assert_eq!(
        k.named_root_dir("fill_disk", Found::Unreadable("EACCES".to_string()))
            .unwrap_err()
            .message(),
        "EACCES"
    );
    assert!(matches!(
        k.named_root_dir("..", Found::Folder),
        Err(FillError::BadName(_))
    ));
}

#[test]
fn clean_removes_only_exact_filler_names() {
    let k = mounted();
    let listing = vec![file("fill_0000.bin", 4), file("fill_notes.bin", 4)];
    let ours = k.list_fillers(Some(&listing));
    assert_eq!(ours.len(), 1);
    assert_eq!(ours[0].name, "fill_0000.bin");
    let theirs = k.list_foreign(Some(&listing));
    assert_eq!(theirs.len(), 1);
    assert_eq!(theirs[0].name, "fill_notes.bin");

    let mut clean = Clean::new("fill_disk").unwrap();
    let mut files = listing;
    let report = loop {
        let answer = match clean.ask() {
            Ask::ListRoot => Answer::Listing(vec![folder("fill_disk")]),
            Ask::List(_) => Answer::Listing(files.clone()),
            Ask::Delete(e) => {
                files.retain(|f| f.name != e.name);
                Answer::Deleted { gone: true }
            }
            Ask::Measure => Answer::Measured { free: 1 },
            Ask::Finish => break clean.result().unwrap().unwrap(),
        };
        clean = clean.answer(answer).0;
    };
    assert_eq!(report.removed, 1);
    assert!(files.iter().all(|f| f.name != "fill_0000.bin"));
    assert!(files.iter().any(|f| f.name == "fill_notes.bin"));
}

#[test]
fn a_volume_is_read_like_any_other_storage() {
    let k = mounted();
    assert!(k.list_fillers(None).is_empty());
    assert!(k.list_foreign(None).is_empty());
    assert_eq!(k.overwrite_token("fill_disk", None), None);
    let listing = vec![file("fill_0000.bin", 4), file("book", 4)];
    assert_eq!(
        k.overwrite_token("fill_disk", Some(&listing)),
        overwrite_token("fill_disk", &vec![file("book", 4)])
    );
    let root = vec![file("update_b.bin", 1), file("update_a.bin", 2), folder("update_c.bin")];
    let names: Vec<String> = k
        .list_staged_updates(&root)
        .into_iter()
        .map(|e| e.name)
        .collect();
    assert_eq!(names, vec!["update_a.bin", "update_b.bin"]);
    let folders = k.find_filler_folders(vec![
        RootEntry {
            entry: folder("one"),
            contents: Some(vec![file("fill_0000.bin", 4)]),
        },
        RootEntry {
            entry: folder("a:b"),
            contents: Some(vec![file("fill_0000.bin", 9)]),
        },
        RootEntry {
            entry: folder("unreadable"),
            contents: None,
        },
    ]);
    assert_eq!(folders.len(), 1);
    assert_eq!(
        (folders[0].name.as_str(), folders[0].files, folders[0].bytes),
        ("one", 1, 4)
    );
}

#[test]
fn drives_are_recognized_by_letter_kind_and_label() {
    assert_eq!(drive_letters(0), Vec::<char>::new());
    assert_eq!(drive_letters(0b1101), vec!['A', 'C', 'D']);
    assert_eq!(drive_letters(1 << 25), vec!['Z']);
    assert_eq!(drive_letters(u32::MAX).len(), 26);
    let drive = |letter: char, removable: bool, label: Option<&str>| Drive {
        letter,
        removable,
        label: label.map(str::to_string),
    };
    let drives = vec![
        drive('C', false, Some("Kindle")),
        drive('D', true, Some("KINDLE")),
        drive('E', true, None),
        drive('F', true, Some("Kindle ")),
        drive('G', true, Some("kindle")),
    ];
    assert_eq!(
        removable_drives_labeled(&drives, KINDLE_VOLUME),
        vec!["D:\\", "G:\\"]
    );
}

#[test]
fn wide_strings_end_where_windows_ends_them() {
    assert_eq!(until_nul(&vec![75, 105, 0, 7]), 2);
    assert_eq!(until_nul(&vec![1, 2]), 2);
    assert_eq!(until_nul(&vec![]), 0);
    assert_eq!(wide_root(vec![68, 58]), vec![68, 58, 92, 0]);
    assert_eq!(wide_root(vec![68, 58, 92]), vec![68, 58, 92, 0]);
    assert_eq!(wide_root(vec![]), vec![92, 0]);
}

#[test]
fn windows_codes_and_flags_are_unpacked() {
    assert_eq!(os_error(0x8007_0005), Some(5));
    assert_eq!(os_error(0x8004_0005), None);
    assert_eq!(os_error(5), None);
    assert!(volume_is_writable(Some(0)));
    assert!(volume_is_writable(Some(!0x0008_0000)));
    assert!(!volume_is_writable(Some(0x0008_0000)));
    assert!(!volume_is_writable(None));
}

#[test]
fn a_portable_device_is_present_if_any_is_counted() {
    assert!(device_present(Some(1)));
    assert!(!device_present(Some(0)));
    assert!(!device_present(None));
}

#[test]
fn the_exit_code_says_what_a_kill_came_to() {
    assert_eq!(kill_outcome(Some(0), ""), Ok(true));
    assert_eq!(kill_outcome(Some(1), "noise"), Ok(false));
    assert_eq!(
        kill_outcome(Some(2), " \u{a0}not permitted\n"),
        Err("not permitted".to_string())
    );
    assert_eq!(kill_outcome(None, ""), Err(String::new()));
}

#[test]
fn privileges_are_probed_by_trying() {
    assert!(matches!(
        probe_privileges(false, Ok(true)),
        PrivilegeCheck::NotRunning
    ));
    assert!(matches!(
        probe_privileges(true, Ok(false)),
        PrivilegeCheck::KillableUnprivileged
    ));
    match probe_privileges(true, Err("no".to_string())) {
        PrivilegeCheck::NeedsElevation { reason } => assert_eq!(reason, "no"),
        other => panic!("{other:?}"),
    }
}

#[test]
fn the_first_writable_storage_is_taken() {
    assert_eq!(pick_storage(&vec![false, true, true]), Ok(1));
    assert_eq!(pick_storage(&vec![true]), Ok(0));
    assert_eq!(pick_storage(&vec![]), Err(StorageError::NoStorages));
    assert_eq!(pick_storage(&vec![false]), Err(StorageError::NoneWritable));
    assert_eq!(
        StorageError::NoStorages.message(),
        "device exposes no storages"
    );
    assert_eq!(
        StorageError::NoneWritable.message(),
        "no writable storage on this device"
    );
}

#[test]
fn a_file_is_written_to_its_end_or_removed() {
    let mut stream = ZeroStream::new(1_500_000);
    let mut sizes: Vec<usize> = vec![];
    loop {
        match next_piece(&mut stream, false) {
            Piece::Write(part) => {
                assert!(part.iter().all(|b| *b == 0));
                sizes.push(part.len());
            }
            Piece::Remove => panic!("nobody asked to stop"),
            Piece::Finish => break,
        }
    }
    assert_eq!(sizes, vec![1_048_576, 451_424]);
    // Every byte is written: a wish to stop comes too late.
    assert!(matches!(next_piece(&mut stream, true), Piece::Finish));
    let mut stream = ZeroStream::new(10);
    assert!(matches!(next_piece(&mut stream, true), Piece::Remove));
    assert_eq!(stream.remaining(), 10);
}

#[test]
fn a_mounted_folder_is_an_entry_like_any_other() {
    let k = mounted();
    let e = k
        .find_fill_dir("fill_disk", Found::Folder, 7, 4096)
        .unwrap()
        .unwrap();
    assert_eq!((e.id, e.name.as_str(), e.bytes), (7, "fill_disk", 4096));
    assert!(e.is_dir && !e.is_file);
    assert!(k
        .find_fill_dir("fill_disk", Found::Missing, 7, 0)
        .unwrap()
        .is_none());
    assert!(k.find_fill_dir("fill_disk", Found::Symlink, 7, 0).is_err());
}

#[test]
fn a_deletion_is_believed_once_the_listing_agrees() {
    let mut e = file("a", 1);
    e.id = 4;
    assert!(is_listed(&vec![file("b", 1), e], 4));
    assert!(!is_listed(&vec![file("b", 1)], 4));
    assert!(!is_listed(&vec![], 4));
}

#[test]
fn a_confirmed_fill_empties_the_folder_first_and_withdraws_its_flag() {
    let mut state = AppState::default();
    let mut command = FillCommand::new(Overwrite::Confirmed {
        token: "beef".to_string(),
    });
    assert!(matches!(command.due(), Due::Open));
    // News of what was not due changes nothing.
    command.hear(&mut state, News::Filled);
    command.hear(&mut state, News::Purged { well: true });
    assert!(matches!(command.due(), Due::Open));
    assert_eq!(state.published(), None);

    command.hear(&mut state, News::Opened { flag: 5 });
    assert_eq!(state.published(), Some(5));
    assert!(matches!(command.due(), Due::Purge { confirmed: Some(t) } if t == "beef"));
    command.hear(&mut state, News::Purged { well: true });
    assert!(matches!(command.due(), Due::Fill));
    assert_eq!(state.published(), Some(5));
    command.hear(&mut state, News::Filled);
    assert!(matches!(command.due(), Due::Nothing));
    assert_eq!(state.published(), None);
    command.hear(&mut state, News::Opened { flag: 6 });
    assert_eq!(state.published(), None);
}

#[test]
fn a_failed_purge_writes_nothing_and_withdraws_the_flag() {
    let mut state = AppState::default();
    let mut command = FillCommand::new(Overwrite::Anything);
    command.hear(&mut state, News::Opened { flag: 1 });
    assert!(matches!(command.due(), Due::Purge { confirmed: None }));
    command.hear(&mut state, News::Purged { well: false });
    assert!(matches!(command.due(), Due::Nothing));
    assert_eq!(state.published(), None);
}

#[test]
fn without_a_confirmation_nothing_is_emptied() {
    let mut state = AppState::default();
    let mut command = FillCommand::new(Overwrite::Keep);
    command.hear(&mut state, News::Opened { flag: 1 });
    assert!(matches!(command.due(), Due::Fill));
    let mut command = FillCommand::new(Overwrite::Keep);
    command.hear(&mut state, News::NotOpened);
    assert!(matches!(command.due(), Due::Nothing));
    // The flag of the other command is left alone.
    assert_eq!(state.published(), Some(1));
}

#[test]
fn a_mounted_kindle_can_be_copied() {
    assert_eq!(mounted().clone().root(), mounted().root());
}
