use jumpjump::timestamp::{local_time_text, padded_text};

#[test]
fn epoch_in_utc() {
    assert_eq!(local_time_text(0, 0), "1970-01-01 00:00:00.000");
}

#[test]
fn instant_in_utc() {
    assert_eq!(local_time_text(1_700_000_000_123, 0), "2023-11-14 22:13:20.123");
}

#[test]
fn instant_ahead_of_utc() {
    assert_eq!(local_time_text(1_700_000_000_123, 3600), "2023-11-14 23:13:20.123");
}

#[test]
fn instant_behind_utc_before_the_epoch() {
    assert_eq!(local_time_text(0, -7200), "1969-12-31 22:00:00.000");
}

#[test]
fn leap_day() {
    assert_eq!(local_time_text(951_782_400_000, 0), "2000-02-29 00:00:00.000");
    assert_eq!(local_time_text(951_868_799_999, 0), "2000-02-29 23:59:59.999");
}

#[test]
fn end_of_century_year() {
    assert_eq!(local_time_text(4_107_542_400_000, 0), "2100-03-01 00:00:00.000");
}

#[test]
fn padding_fills_to_width() {
    assert_eq!(padded_text(7, 3), "007");
    assert_eq!(padded_text(0, 2), "00");
    assert_eq!(padded_text(12345, 2), "12345");
}
