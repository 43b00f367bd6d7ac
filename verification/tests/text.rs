//! Reading and writing text.
use simulife::text::{
    decimal_text, parse_decimal, parse_seed, parse_test_spec, reports_tick, seed_text, trim,
    with_extension_suffix, TestSpecError,
};

#[test]
fn parse_seed_accepts_decimal_and_hex() {
    assert_eq!(parse_seed("0"), Some(0));
    assert_eq!(parse_seed("42"), Some(42));
    assert_eq!(parse_seed("  42  "), Some(42));
    assert_eq!(parse_seed("0x10"), Some(16));
    assert_eq!(parse_seed("0X10"), Some(16));
    assert_eq!(parse_seed("0xDEADBEEF"), Some(0xDEADBEEF));
    assert_eq!(parse_seed("0xFFFF_FFFF_FFFF_FFFF"), None); // underscores not stripped
    assert_eq!(parse_seed("0xffffffffffffffff"), Some(u64::MAX));
    assert_eq!(parse_seed(""), None);
    assert_eq!(parse_seed("not a number"), None);
    assert_eq!(parse_seed("0xZZZ"), None);
}

#[test]
fn with_extension_suffix_appends_dot_and_label() {
    assert_eq!(with_extension_suffix("/tmp/world.bin", "tmp"), "/tmp/world.bin.tmp");
    assert_eq!(with_extension_suffix("/tmp/world.bin", "bak"), "/tmp/world.bin.bak");
}

#[test]
fn numbers_have_bounds_and_signs() {
    assert_eq!(parse_decimal("18446744073709551615"), Some(u64::MAX));
    assert_eq!(parse_decimal("18446744073709551616"), None);
    assert_eq!(parse_decimal("+7"), Some(7));
    assert_eq!(parse_decimal("-7"), None);
    assert_eq!(parse_decimal("+"), None);
    assert_eq!(parse_decimal(" 7"), None);
    assert_eq!(parse_decimal("a"), None);
    assert_eq!(parse_seed("0x10000000000000000"), None);
}

#[test]
fn trimming_knows_unicode_white_space() {
    assert_eq!(trim("\u{3000} a b\t\n"), "a b");
    assert_eq!(trim(" \u{a0} "), "");
    assert_eq!(trim("a"), "a");
    assert_eq!(trim(trim(" \t a b ")), trim(" \t a b "));
}

#[test]
fn written_numbers_read_back() {
    for n in [0, 9, 10, 255, 1_000_000, u64::MAX] {
        assert_eq!(decimal_text(n), format!("{n}"));
        assert_eq!(parse_decimal(&decimal_text(n)), Some(n));
        assert_eq!(seed_text(n), format!("{n:#018x}"));
        assert_eq!(parse_seed(&seed_text(n)), Some(n));
    }
}

#[test]
fn test_specs_name_a_seed_and_a_number_of_ticks() {
    assert_eq!(parse_test_spec("42:100"), Ok((42, 100)));
    assert_eq!(parse_test_spec("42"), Err(TestSpecError::NotSeedTicks));
    assert_eq!(parse_test_spec("x:1"), Err(TestSpecError::BadSeed));
    assert_eq!(parse_test_spec("1:x"), Err(TestSpecError::BadTicks));
    assert_eq!(parse_test_spec("1:2:3"), Err(TestSpecError::BadTicks));
    assert_eq!(parse_test_spec(":1"), Err(TestSpecError::BadSeed));
}

#[test]
fn early_round_and_last_ticks_are_reported() {
    assert!(reports_tick(5, 100));
    assert!(!reports_tick(6, 100));
    assert!(reports_tick(10, 100));
    assert!(reports_tick(13, 13));
}
