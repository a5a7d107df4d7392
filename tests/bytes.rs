use bandwidth_tracker::bytes::{per_second_text, BytesPerSecond, NumberOfBytes};

#[test]
fn counts_add_and_subtract() {
    let a = NumberOfBytes::from(2300);
    let b = NumberOfBytes::from(1000);
    assert_eq!((a - b).count(), 1300);
    assert_eq!((a + b).count(), 3300);
    assert_eq!(NumberOfBytes::new(-5).count(), -5);
}

#[test]
fn rate_is_bytes_over_elapsed_seconds() {
    let r = BytesPerSecond::new(NumberOfBytes::from(1300), 2000);
    assert_eq!(r.per_second(), 650);
    let r = BytesPerSecond::new(NumberOfBytes::from(1), 3);
    assert_eq!(r.per_second(), 333);
    let r = BytesPerSecond::new(NumberOfBytes::from(-1300), 2000);
    assert_eq!(r.per_second(), -650);
}

#[test]
fn zero_duration_gives_zero_rate() {
    let r = BytesPerSecond::new(NumberOfBytes::from(123456), 0);
    assert_eq!(r.per_second(), 0);
    assert_eq!(r, BytesPerSecond::zero());
}

#[test]
fn largest_count_over_one_millisecond() {
    let r = BytesPerSecond::new(NumberOfBytes::new(i64::MAX), 1);
    assert_eq!(r.per_second(), i64::MAX as i128 * 1000);
    let r = BytesPerSecond::new(NumberOfBytes::new(i64::MIN), 1);
    assert_eq!(r.per_second(), i64::MIN as i128 * 1000);
}

#[test]
fn counts_render_in_decimal_units() {
    assert_eq!(NumberOfBytes::from(10000).to_text(), "10 KB");
    assert_eq!(NumberOfBytes::from(-3).to_text(), NumberOfBytes::from(0).to_text());
}

#[test]
fn rates_render_per_second() {
    let r = BytesPerSecond::new(NumberOfBytes::from(20000), 2000);
    assert_eq!(r.to_text(), "10 KB/s");
    let negative = BytesPerSecond::new(NumberOfBytes::from(-20000), 2000);
    assert_eq!(negative.to_text(), BytesPerSecond::zero().to_text());
}

#[test]
fn per_second_suffix_is_appended() {
    assert_eq!(per_second_text("3 MB".to_string()), "3 MB/s");
    assert_eq!(per_second_text(String::new()), "/s");
}
