use oci2rootfs::cli::{parse_decimal, parse_platform, parse_size, size_overflows, NumberFault};
use oci2rootfs::convert::Platform;

#[test]
fn parse_size_supports_suffixes() {
    assert_eq!(parse_size("1G").unwrap(), 1024 * 1024 * 1024);
    assert_eq!(parse_size("512m").unwrap(), 512 * 1024 * 1024);
    assert_eq!(parse_size("128K").unwrap(), 128 * 1024);
    assert_eq!(parse_size("1024").unwrap(), 1024);
}

#[test]
fn parse_size_rejects_garbage() {
    assert!(parse_size("abc").is_err());
}

#[test]
fn parse_size_trims_and_reports_parser_messages() {
    assert_eq!(parse_size("  64M\n").unwrap(), 64 * 1024 * 1024);
    assert_eq!(parse_size("+2k").unwrap(), 2048);
    assert_eq!(parse_size("abc").unwrap_err(), "invalid digit found in string");
    assert_eq!(parse_size("G").unwrap_err(), "cannot parse integer from empty string");
    assert_eq!(parse_size("1 G").unwrap_err(), "invalid digit found in string");
    assert_eq!(
        parse_size("99999999999999999999").unwrap_err(),
        "number too large to fit in target type"
    );
}

#[test]
fn size_overflow_is_detected_before_multiplying() {
    assert!(!size_overflows("1G"));
    assert!(size_overflows("17179869184G"));
    assert!(!size_overflows("17179869183G"));
    assert!(!size_overflows("garbage"));
}

#[test]
fn decimal_parsing_follows_u64_from_str() {
    for s in ["", "+", "-", "-1", "+7", "007", "18446744073709551615", "18446744073709551616", "1a"] {
        let mine = parse_decimal(s);
        let std_result = s.parse::<u64>();
        match (mine, std_result) {
            (Ok(a), Ok(b)) => assert_eq!(a, b),
            (Err(f), Err(e)) => {
                let expected = match e.kind() {
                    std::num::IntErrorKind::Empty => NumberFault::Empty,
                    std::num::IntErrorKind::InvalidDigit => NumberFault::InvalidDigit,
                    _ => NumberFault::Overflow,
                };
                assert_eq!(f, expected, "input {s:?}");
            }
            (m, s2) => panic!("disagree on {s:?}: {m:?} vs {s2:?}"),
        }
    }
}

#[test]
fn parse_platform_round_trip() {
    assert_eq!(parse_platform("linux/amd64").unwrap(), Platform::new("linux", "amd64"));
}

#[test]
fn parse_platform_rejects_bad_shape() {
    assert!(parse_platform("invalid").is_err());
    assert!(parse_platform("a/b/c").is_err());
}

#[test]
fn parse_platform_error_message() {
    assert_eq!(
        parse_platform("a/b/c").unwrap_err(),
        "invalid platform format: a/b/c, expected os/arch"
    );
    let p = parse_platform("linux/arm64").unwrap();
    assert_eq!(p.os(), "linux");
    assert_eq!(p.arch(), "arm64");
}
