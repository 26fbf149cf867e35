use kindlefill_core::engine::{
    current_overwrite_token, filler_name, filler_sequence, highest_sequence, is_inflight_marker,
    is_staged_update, list_debris, list_fillers, list_foreign, next_sequence, overwrite_token,
    validate_dir_name, Entry, NameError, INFLIGHT_MARKER,
};

fn file(name: &str, bytes: u64) -> Entry {
    Entry {
        id: 0,
        name: name.to_string(),
        bytes,
        is_dir: false,
        is_file: true,
    }
}

fn folder(name: &str) -> Entry {
    Entry {
        id: 0,
        name: name.to_string(),
        bytes: 0,
        is_dir: true,
        is_file: false,
    }
}

fn obj(name: &str) -> Entry {
    file(name, 0)
}

fn names(entries: &[Entry]) -> Vec<&str> {
    entries.iter().map(|e| e.name.as_str()).collect()
}

#[test]
fn folder_names_that_would_escape_the_root_are_refused() {
    for ok in ["fill_disk", "my filler", "Fill-Disk_2", "a.b"] {
        assert!(validate_dir_name(ok).is_ok(), "{ok} should be allowed");
    }
    for bad in [
        "", "..", ".", "a/b", "a\\b", "a:b", " lead", "trail ", "a\u{0}b", "a*b",
    ] {
        assert!(validate_dir_name(bad).is_err(), "{bad:?} must be refused");
    }
}

#[test]
fn refused_names_say_why() {
    assert_eq!(validate_dir_name(""), Err(NameError::Empty));
    assert_eq!(
        NameError::Empty.message(),
        "the folder name can't be empty"
    );
    let bad = validate_dir_name("a\"b").unwrap_err();
    assert_eq!(
        bad,
        NameError::Illegal {
            name: "a\"b".to_string()
        }
    );
    assert_eq!(
        bad.message(),
        "\"a\\\"b\" isn't a usable folder name — use letters, digits, spaces, dot, dash or \
         underscore, and no leading or trailing space"
    );
    for bad in ["...", "a?b", "a<b", "a>b", "a|b", "a\u{7f}", "a\u{85}b", "\u{3000}a", "a\u{a0}"] {
        assert!(validate_dir_name(bad).is_err(), "{bad:?} must be refused");
    }
    for ok in ["..a", "Ünïcode", "a\u{3000}b", "a b"] {
        assert!(validate_dir_name(ok).is_ok(), "{ok:?} should be allowed");
    }
}

#[test]
fn white_space_and_control_characters_are_those_of_unicode() {
    let mut code: u32 = 0;
    while code <= 0x10FFFF {
        if let Some(c) = char::from_u32(code) {
            let mut name = String::from("a");
            name.push(c);
            let refused = validate_dir_name(&name).is_err();
            let expected = c.is_whitespace()
                || c.is_control()
                || ['/', '\\', ':', '*', '?', '"', '<', '>', '|'].contains(&c);
            assert_eq!(refused, expected, "{code:x}");
        }
        code += 1;
    }
}

#[test]
fn sequence_starts_at_zero_on_an_empty_folder() {
    assert_eq!(next_sequence(&vec![]), 0);
}

#[test]
fn sequence_resumes_after_the_highest_existing_filler() {
    let existing = vec![
        obj("fill_0000.bin"),
        obj("fill_0007.bin"),
        obj("fill_0003.bin"),
    ];
    assert_eq!(next_sequence(&existing), 8);
}

#[test]
fn sequence_ignores_names_this_tool_did_not_write() {
    let existing = vec![
        obj("mybook.azw3"),
        obj("fill_notanumber.bin"),
        obj("fill_.bin"),
    ];
    assert_eq!(next_sequence(&existing), 0);
}

#[test]
fn the_next_name_is_never_taken() {
    let existing = vec![obj("fill_0041.bin"), obj("fill_12345.bin"), obj("fill_0002.bin")];
    assert_eq!(highest_sequence(&existing), Some(12345));
    let next = filler_name(next_sequence(&existing));
    assert_eq!(next, "fill_12346.bin");
    assert!(existing.iter().all(|e| e.name != next));
    assert_eq!(highest_sequence(&vec![obj("fill_4294967295.bin")]), Some(u32::MAX));
}

#[test]
fn only_names_this_tool_would_write_are_recognized_as_filler() {
    for ours in [
        "fill_0000.bin",
        "fill_0001.bin",
        "fill_9999.bin",
        "fill_10000.bin",
    ] {
        assert_eq!(
            filler_sequence(ours).map(|n| format!("fill_{n:04}.bin")),
            Some(ours.to_string()),
            "{ours} should round-trip as filler"
        );
    }
    for theirs in [
        "mybook.azw3",
        "fill_notes.bin", // the bug: prefix+suffix matched, so it was deletable
        "fill_backup.bin",
        "fill_.bin",
        "fill_12.bin", // right number, not a name we write
        "fill_00000007.bin",
        "fill_+001.bin",
        "fill_0001.bin.bak",
        "notfill_0001.bin",
    ] {
        assert_eq!(filler_sequence(theirs), None, "{theirs} must not be ours");
    }
}

#[test]
fn every_sequence_number_reads_back_from_its_name() {
    let numbers: [u32; 8] = [0, 1, 42, 9_999, 10_000, 123_456, 4_000_000_000, u32::MAX];
    for n in numbers {
        assert_eq!(filler_name(n), format!("fill_{n:04}.bin"));
        assert_eq!(filler_sequence(&filler_name(n)), Some(n));
    }
    assert_eq!(filler_sequence("fill_4294967296.bin"), None);
    assert_eq!(filler_sequence("fill_99999999999999999999999.bin"), None);
    assert_eq!(filler_sequence("FILL_0001.bin"), None);
    assert_eq!(filler_sequence("fill_000\u{0661}.bin"), None);
}

#[test]
fn staged_updates_are_a_shape_whatever_the_case() {
    for update in [
        "update_kindle_pw5.bin",
        "UPDATE_KINDLE.BIN",
        "Update_x.Bin",
        "update_.bin",
    ] {
        assert!(is_staged_update(update), "{update}");
    }
    for other in ["updates_notes.bin", "update_kindle.txt", "my_update_1.bin", "update_bin"] {
        assert!(!is_staged_update(other), "{other}");
    }
    assert!(is_inflight_marker(INFLIGHT_MARKER));
    assert_eq!(INFLIGHT_MARKER, "kindlefill_inflight.txt");
    assert!(!is_inflight_marker("kindlefill_inflight.txt.bak"));
}

#[test]
fn a_listing_is_partitioned_and_only_files_are_filler() {
    let link = Entry {
        id: 9,
        name: "fill_0009.bin".to_string(),
        bytes: 1,
        is_dir: false,
        is_file: false,
    };
    let listing = vec![
        file("fill_0002.bin", 5),
        folder("fill_0003.bin"),
        file("book.azw3", 7),
        file(INFLIGHT_MARKER, 1),
        file("fill_0000.bin", 6),
        link,
        folder(INFLIGHT_MARKER),
    ];
    let fillers = list_fillers(&listing);
    assert_eq!(names(&fillers), vec!["fill_0000.bin", "fill_0002.bin"]);
    let foreign = list_foreign(&listing);
    assert_eq!(
        names(&foreign),
        vec!["fill_0003.bin", "book.azw3", "fill_0009.bin", INFLIGHT_MARKER]
    );
    assert_eq!(fillers.len() + foreign.len() + 1, listing.len());
    // With the marker there, what is not a folder is debris.
    assert_eq!(names(&list_debris(&listing)), vec!["book.azw3", "fill_0009.bin"]);
    let unmarked = vec![file("fill_0002.bin", 5), file("book.azw3", 7)];
    assert!(list_debris(&unmarked).is_empty());
}

#[test]
fn names_sort_by_code_point_and_ties_keep_their_order() {
    let mut a = file("fill_0001.bin", 1);
    a.id = 1;
    let mut b = file("fill_0001.bin", 2);
    b.id = 2;
    let listing = vec![file("fill_10000.bin", 0), a, file("fill_0000.bin", 0), b];
    let sorted = list_fillers(&listing);
    assert_eq!(
        names(&sorted),
        vec!["fill_0000.bin", "fill_0001.bin", "fill_0001.bin", "fill_10000.bin"]
    );
    assert_eq!(sorted[1].id, 1);
    assert_eq!(sorted[2].id, 2);
}

/// The digest as written down elsewhere, to hold the token against.
fn fnv1a(bytes: &[u8]) -> u64 {
    let mut state: u64 = 0xcbf2_9ce4_8422_2325;
    for b in bytes {
        state = (state ^ u64::from(*b)).wrapping_mul(0x0000_0100_0000_01b3);
    }
    state
}

#[test]
fn the_token_is_a_digest_of_the_folder_and_its_sorted_contents() {
    assert_eq!(overwrite_token("fill_disk", &vec![]), None);
    let foreign = vec![file("b.txt", 258), file("å.txt", 1), file("a.txt", 9), file("b.txt", 2)];
    let mut bytes: Vec<u8> = Vec::new();
    bytes.extend_from_slice("fill_disk".as_bytes());
    let pairs: [(&str, u64); 4] = [("a.txt", 9), ("b.txt", 2), ("b.txt", 258), ("å.txt", 1)];
    for (name, size) in pairs {
        bytes.push(0);
        bytes.extend_from_slice(name.as_bytes());
        bytes.extend_from_slice(&size.to_le_bytes());
    }
    assert_eq!(
        overwrite_token("fill_disk", &foreign),
        Some(format!("{:016x}", fnv1a(&bytes)))
    );
    // A digest with leading zeros keeps them.
    let token = overwrite_token("x", &vec![file("", 0)]).unwrap();
    assert_eq!(token.len(), 16);
    assert!(token.chars().all(|c| c.is_ascii_hexdigit() && !c.is_ascii_uppercase()));
}

#[test]
fn the_token_ignores_order_but_not_names_sizes_or_the_folder() {
    let one = vec![file("a", 1), file("b", 2)];
    let two = vec![file("b", 2), file("a", 1)];
    let token = overwrite_token("dir", &one);
    assert_eq!(token, overwrite_token("dir", &two));
    assert_ne!(token, overwrite_token("other", &one));
    // A single byte of the folder's name is enough.
    assert_ne!(token, overwrite_token("dis", &one));
    assert_ne!(token, overwrite_token("eir", &one));
    assert_ne!(
        overwrite_token("fill_disk", &one),
        overwrite_token("fill_dish", &one)
    );
    assert_ne!(token, overwrite_token("dir", &vec![file("a", 1)]));
    assert_ne!(token, overwrite_token("dir", &vec![file("a", 1), file("b", 3)]));
    // Filler and the marker are ours and do not count.
    let listing = vec![file("fill_0000.bin", 4), file("b", 2), file(INFLIGHT_MARKER, 1), file("a", 1)];
    assert_eq!(current_overwrite_token("dir", &listing), token);
    assert_eq!(
        current_overwrite_token("dir", &vec![file("fill_0000.bin", 4)]),
        None
    );
}
