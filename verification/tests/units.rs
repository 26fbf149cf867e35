use kindlefill_core::device::{looks_like_kindle, names_a_kindle};
use kindlefill_core::plan::{GIB, KIB, MIB};
use kindlefill_core::units::{human_bytes, parse_size, split_size};

#[test]
fn the_two_devices_this_has_actually_run_against_are_recognised() {
    assert!(looks_like_kindle("Kindle", "Internal Storage"));
    assert!(looks_like_kindle("Amazon", "Kindle"));
}

#[test]
fn a_usb_stick_enumerated_first_is_not_mistaken_for_a_kindle() {
    assert!(!looks_like_kindle("SanDisk", "Cruzer Blade"));
    assert!(!looks_like_kindle("Generic", "USB Flash Disk"));
    assert!(!looks_like_kindle("", ""));
}

#[test]
fn recognition_does_not_depend_on_how_the_device_capitalises_itself() {
    assert!(looks_like_kindle("AMAZON", "KINDLE PAPERWHITE"));
    assert!(looks_like_kindle("amazon", "kindle"));
}

#[test]
fn recognition_lowers_by_unicode_and_looks_for_the_word_anywhere() {
    // The Kelvin sign lowers to an ordinary k.
    assert!(looks_like_kindle("", "\u{212a}indle"));
    assert!(looks_like_kindle("xxamazonxx", ""));
    assert!(!looks_like_kindle("kind", "le"));
    assert!(names_a_kindle("a kindle"));
    assert!(!names_a_kindle("a KINDLE"));
}

#[test]
fn human_bytes_picks_a_sensible_unit() {
    assert_eq!(human_bytes(0), "0 B");
    assert_eq!(human_bytes(512), "512 B");
    assert_eq!(human_bytes(70 * MIB), "70.00 MB");
    assert_eq!(human_bytes(13 * GIB), "13.00 GB");
}

fn through_floats(bytes: u64) -> String {
    let units: [(&str, u64); 3] = [("GB", GIB), ("MB", MIB), ("KB", KIB)];
    for (suffix, scale) in units {
        if bytes >= scale {
            return format!("{:.2} {suffix}", bytes as f64 / scale as f64);
        }
    }
    format!("{bytes} B")
}

#[test]
fn human_bytes_rounds_as_floating_point_formatting_does() {
    let mut cases: Vec<u64> = vec![
        1023,
        1024,
        1029,
        1030,
        1034,
        1035,
        KIB + 128,
        3 * KIB + 128 * 3,
        MIB - 1,
        MIB,
        GIB - 1,
        GIB + GIB / 8,
        GIB + GIB * 3 / 8,
        1 << 53,
        (1 << 53) + 1,
        (1 << 53) + 3,
        (1 << 54) + 2,
        (1 << 54) + 6,
        u64::MAX,
        u64::MAX - 1023,
        u64::MAX - 1024,
        u64::MAX / 3,
    ];
    let mut x: u64 = 88172645463325252;
    for _ in 0..2000 {
        x ^= x << 13;
        x ^= x >> 7;
        x ^= x << 17;
        cases.push(x);
        cases.push(x >> 20);
        cases.push(x >> 34);
        cases.push(x >> 44);
        cases.push(x >> 11);
    }
    for n in cases {
        assert_eq!(human_bytes(n), through_floats(n), "{n}");
    }
}

fn read_size(raw: &str) -> Result<u64, String> {
    let number = split_size(raw).number.parse::<f64>().ok().map(f64::to_bits);
    parse_size(raw, number)
}

#[test]
fn sizes_that_are_not_sizes_are_refused_rather_than_rounded_to_zero() {
    assert_eq!(read_size("50MB"), Ok(50 * MIB));
    assert_eq!(read_size("2GB"), Ok(2 * 1024 * MIB));
    assert_eq!(read_size(" 90 MiB "), Ok(90 * MIB));
    assert_eq!(read_size("1024"), Ok(1024));
    assert_eq!(
        read_size("0MB"),
        Ok(0),
        "zero is a number, if a strange one"
    );

    // Each of these would come out as 0 if it were cast and not refused.
    for bad in ["-5MB", "nanMB", "infGB", "-0.5GB", "-1", "not-a-size"] {
        assert!(read_size(bad).is_err(), "{bad} should be refused");
    }
}

#[test]
fn sizes_are_what_floating_point_makes_of_them() {
    let cases: [(&str, u64); 14] = [
        ("1.5KB", 1536),
        ("0.1GB", 107374182),
        ("1e3b", 1000),
        ("2 k i b", 2048),
        ("1e400", 0),
        ("1e300GB", u64::MAX),
        ("18446744073709551615", u64::MAX),
        ("9007199254740993", 9007199254740992),
        ("0.99999999999999999999GB", GIB),
        ("5e-324GB", 0),
        ("1e-9GB", 1),
        ("-0MB", 0),
        ("123456789012mb", 129453825995046912),
        ("16777216gb", 18014398509481984),
    ];
    for (raw, expected) in cases {
        let n = split_size(raw).number.parse::<f64>().unwrap();
        if n.is_finite() {
            assert_eq!(read_size(raw), Ok(expected), "{raw}");
            let scale: f64 = split_size(raw).scale as f64;
            assert_eq!(expected, (n * scale) as u64, "{raw}");
        } else {
            assert_eq!(read_size(raw), Err(format!("not a size: {raw}")));
        }
    }
    assert_eq!(read_size("five"), Err("not a size: five".to_string()));
}

#[test]
fn units_are_taken_off_the_end_whatever_their_case() {
    let cases: [(&str, &str, u64); 9] = [
        ("3GiB", "3", GIB),
        ("3Gb", "3", GIB),
        ("3 mIb", "3", MIB),
        ("3MB", "3", MIB),
        ("3kib", "3", KIB),
        ("\u{a0}3KB\n", "3", KIB),
        ("3b", "3", 1),
        ("3", "3", 1),
        ("gb", "", GIB),
    ];
    for (raw, number, scale) in cases {
        let parts = split_size(raw);
        assert_eq!(parts.number, number, "{raw}");
        assert_eq!(parts.scale, scale, "{raw}");
    }
}
