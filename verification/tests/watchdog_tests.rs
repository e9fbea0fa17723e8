use snapocr_shot::watchdog::{timeout_secs, WATCHDOG_SECS};

#[test]
fn timeout_defaults_to_sixty() {
    assert_eq!(WATCHDOG_SECS, 60);
    assert_eq!(timeout_secs(None), 60);
}

#[test]
fn timeout_takes_a_decimal_number() {
    assert_eq!(timeout_secs(Some("30")), 30);
    assert_eq!(timeout_secs(Some("+5")), 5);
    assert_eq!(timeout_secs(Some("0")), 0);
    assert_eq!(timeout_secs(Some("18446744073709551615")), u64::MAX);
}

#[test]
fn timeout_ignores_what_is_not_a_number() {
    for v in ["", "abc", "-1", " 5", "5s", "+", "1_000", "18446744073709551616"] {
        assert_eq!(timeout_secs(Some(v)), 60, "{v:?}");
    }
}
