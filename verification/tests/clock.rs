use my_os::CMOS::{bcd, read_selector, update_in_progress, Date, Time, TimeAndDate, HOURS_REGISTER, STATUS_REGISTER_A};

#[test]
fn bcd_decodes_packed_digits() {
    assert_eq!(bcd(0x00), 0);
    assert_eq!(bcd(0x09), 9);
    assert_eq!(bcd(0x10), 10);
    assert_eq!(bcd(0x59), 59);
    assert_eq!(bcd(0x23), 23);
    assert_eq!(bcd(0xFF), 165);
}

#[test]
fn update_flag_is_the_top_bit() {
    assert!(update_in_progress(0x80));
    assert!(update_in_progress(0xA6));
    assert!(!update_in_progress(0x26));
    assert_eq!(read_selector(HOURS_REGISTER), 0x84);
    assert_eq!(read_selector(STATUS_REGISTER_A), 0x8A);
}

#[test]
fn time_is_shown_with_two_digit_fields() {
    let t = Time::from_registers(0x05, 0x30, 0x09);
    assert_eq!((t.hours(), t.minutes(), t.seconds()), (9, 30, 5));
    assert_eq!(t.to_string(), "09:30:05");
}

#[test]
fn date_is_shown_day_first() {
    let d = Date::from_registers(0x07, 0x03, 0x24);
    assert_eq!((d.day(), d.month(), d.year()), (7, 3, 24));
    assert_eq!(d.to_string(), "07/03/24");
}

#[test]
fn three_digit_values_keep_all_digits() {
    let d = Date::from_registers(0xFF, 0x12, 0x99);
    assert_eq!(d.to_string(), "165/12/99");
}

#[test]
fn offset_wraps_the_hour() {
    let t = Time::from_registers(0x00, 0x15, 0x22);
    let d = Date::from_registers(0x31, 0x12, 0x23);
    let td = TimeAndDate::new(t, d, 3);
    assert_eq!(td.time().hours(), 1);
    assert_eq!(td.time().minutes(), 15);
    assert_eq!(td.date(), d);
    assert_eq!(td.to_string(), "01:15:00\n31/12/23");
}
