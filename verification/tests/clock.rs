use lumen::arch::pic::{KEYBOARD_IRQ, MOUSE_IRQ, PIC_1_OFFSET, PIC_2_OFFSET, TIMER_IRQ};
use lumen::arch::pit::{divisor_for, ticks_to_secs, PIT_BASE_FREQ, TICK_HZ};
use lumen::arch::rtc::{day_seconds, decode, decode_date, from_bcd, settled, Date, Time};
use lumen::datefmt::{format_german, weekday};
use lumen::rng::{next, SEED};
use lumen::timekeeping::{
    busy_percent, catch_up_steps, clock_drift, needs_rebase, new_day, resync_due, shown_time, verify_due,
};

#[test]
fn bcd_bytes_decode_to_numbers() {
    assert_eq!(from_bcd(0x59), 59);
    assert_eq!(from_bcd(0x00), 0);
    assert_eq!(from_bcd(0x12), 12);
}

#[test]
fn rtc_time_in_bcd_24_hour_mode() {
    assert_eq!(decode((0x45, 0x30, 0x13, 0x02)), Time { hours: 13, minutes: 30, seconds: 45 });
}

#[test]
fn rtc_time_in_binary_mode() {
    assert_eq!(decode((45, 30, 13, 0x06)), Time { hours: 13, minutes: 30, seconds: 45 });
    // Out-of-range readings are folded back into range.
    assert_eq!(decode((99, 75, 30, 0x06)), Time { hours: 6, minutes: 15, seconds: 39 });
}

#[test]
fn rtc_twelve_hour_mode_maps_noon_and_midnight() {
    assert_eq!(decode((0, 0, 0x12, 0x00)).hours, 0);
    assert_eq!(decode((0, 0, 0x92, 0x00)).hours, 12);
    assert_eq!(decode((0, 0, 0x81, 0x00)).hours, 13);
    assert_eq!(decode((0, 0, 0x09, 0x00)).hours, 9);
}

#[test]
fn rtc_date_decodes_and_clamps() {
    assert_eq!(decode_date((0x07, 0x03, 0x24, 0x02)), Date { year: 2024, month: 3, day: 7 });
    assert_eq!(decode_date((0x45, 0x00, 0x99, 0x02)), Date { year: 2099, month: 1, day: 31 });
    assert_eq!(decode_date((15, 13, 5, 0x06)), Date { year: 2005, month: 12, day: 15 });
}

#[test]
fn rtc_readings_settle_when_equal() {
    assert!(settled((1, 2, 3, 4), (1, 2, 3, 4)));
    assert!(!settled((1, 2, 3, 4), (1, 2, 4, 4)));
}

#[test]
fn day_seconds_counts_from_midnight() {
    assert_eq!(day_seconds(&Time { hours: 1, minutes: 2, seconds: 3 }), 3723);
    assert_eq!(day_seconds(&Time { hours: 23, minutes: 59, seconds: 59 }), 86_399);
}

#[test]
fn pit_divisor_is_clamped_to_sixteen_bits() {
    assert_eq!(divisor_for(TICK_HZ), 19_886);
    assert_eq!(divisor_for(0), 0xFFFF);
    assert_eq!(divisor_for(10), 0xFFFF);
    assert_eq!(divisor_for(2_000_000), 1);
    assert_eq!(divisor_for(PIT_BASE_FREQ), 1);
}

#[test]
fn ticks_convert_to_whole_seconds() {
    // 60 ticks at this divisor are a hair short of a second.
    assert_eq!(ticks_to_secs(60), 0);
    assert_eq!(ticks_to_secs(61), 1);
    assert_eq!(ticks_to_secs(3600), 59);
    assert_eq!(ticks_to_secs(0), 0);
}

#[test]
fn interrupt_vectors_follow_the_remap() {
    assert_eq!(PIC_1_OFFSET, 32);
    assert_eq!(PIC_2_OFFSET, 40);
    assert_eq!(TIMER_IRQ, 32);
    assert_eq!(KEYBOARD_IRQ, 33);
    assert_eq!(MOUSE_IRQ, 44);
}

#[test]
fn weekdays_follow_the_calendar() {
    assert_eq!(weekday(2024, 1, 1), 1);
    assert_eq!(weekday(2024, 3, 15), 5);
    assert_eq!(weekday(2000, 2, 29), 2);
}

fn german(year: u32, month: u8, day: u8, room: usize) -> String {
    let mut buf = vec![0u8; room];
    let n = format_german(&Date { year, month, day }, &mut buf);
    String::from_utf8(buf[..n].to_vec()).unwrap()
}

#[test]
fn dates_are_spelled_out_in_german() {
    assert_eq!(german(2024, 1, 1, 48), "Montag, 1. Januar");
    assert_eq!(german(2024, 3, 15, 48), "Freitag, 15. M\u{e4}rz");
    assert_eq!(german(2023, 12, 31, 48), "Sonntag, 31. Dezember");
}

#[test]
fn date_line_is_cut_to_the_buffer() {
    assert_eq!(german(2024, 1, 1, 5), "Monta");
    let mut buf = [9u8; 3];
    let n = format_german(&Date { year: 2024, month: 1, day: 1 }, &mut buf[..0]);
    assert_eq!(n, 0);
    assert_eq!(buf, [9, 9, 9]);
}

#[test]
fn xorshift_sequence_from_the_seed() {
    let mut s = SEED;
    assert_eq!(next(&mut s), 0x5a4e68db);
    assert_eq!(s, 0x5a4e68db);
    assert_eq!(next(&mut s), 0x7dfd2d51);
    let mut z = 0u32;
    assert_eq!(next(&mut z), 0);
}

#[test]
fn frames_catch_up_at_most_eight_steps() {
    assert_eq!(catch_up_steps(10, 7), 3);
    assert_eq!(catch_up_steps(100, 7), 8);
    assert_eq!(catch_up_steps(7, 7), 0);
}

#[test]
fn shown_time_wraps_at_midnight() {
    assert_eq!(shown_time(86_399, 61, 0), 0);
    assert_eq!(shown_time(100, 3600, 0), 159);
    assert!(resync_due(18_000, 0));
    assert!(!resync_due(17_999, 0));
}

#[test]
fn drift_goes_the_short_way_round() {
    assert_eq!(clock_drift(10, 86_390), 20);
    assert_eq!(clock_drift(86_390, 10), -20);
    assert_eq!(clock_drift(0, 43_200), -43_200);
    assert_eq!(clock_drift(500, 500), 0);
    assert!(needs_rebase(2));
    assert!(needs_rebase(-2));
    assert!(!needs_rebase(1));
    assert!(!needs_rebase(-1));
}

#[test]
fn frame_bookkeeping() {
    assert!(new_day(5, 86_000));
    assert!(!new_day(86_000, 5));
    assert!(verify_due(119));
    assert!(verify_due(239));
    assert!(!verify_due(120));
    assert_eq!(busy_percent(50, 200), 25);
    assert_eq!(busy_percent(5, 0), 500);
}

#[test]
fn xorshift_never_reaches_zero_from_the_seed() {
    let mut s = SEED;
    for _ in 0..10_000 {
        assert_ne!(next(&mut s), 0);
    }
}

#[test]
fn a_rebase_shows_the_clock_reading() {
    assert_eq!(shown_time(45_296, 1_000, 1_000), 45_296);
    assert_eq!(clock_drift(45_296, 45_296), 0);
}

#[test]
fn weekdays_advance_one_per_day_across_years() {
    fn days(y: u32, m: u32) -> u32 {
        let leap = (y % 4 == 0 && y % 100 != 0) || y % 400 == 0;
        match m {
            2 => if leap { 29 } else { 28 },
            4 | 6 | 9 | 11 => 30,
            _ => 31,
        }
    }
    let (mut y, mut m, mut d) = (1999u32, 12u32, 25u32);
    let mut w = weekday(y, m, d);
    for _ in 0..800 {
        if d < days(y, m) {
            d += 1;
        } else if m < 12 {
            m += 1;
            d = 1;
        } else {
            y += 1;
            m = 1;
            d = 1;
        }
        let next = weekday(y, m, d);
        assert_eq!(next, (w + 1) % 7, "{}-{}-{}", y, m, d);
        w = next;
    }
    // 29 February 2000 was a Tuesday.
    assert_eq!(weekday(2000, 2, 29), 2);
}
