use vstd::prelude::*;

verus! {

/// A time of day from the CMOS clock.
#[derive(Copy, Clone, PartialEq, Eq, Debug, Structural)]
pub struct Time {
    pub hours: u8,
    pub minutes: u8,
    pub seconds: u8,
}

/// A calendar date from the CMOS clock.
#[derive(Copy, Clone, PartialEq, Eq, Debug, Structural)]
pub struct Date {
    pub year: u32,
    pub month: u8,
    pub day: u8,
}

/// The CMOS time registers as read: seconds, minutes, hours, status B.
pub type RawTime = (u8, u8, u8, u8);

/// The CMOS date registers as read: day, month, year, status B.
pub type RawDate = (u8, u8, u8, u8);

/// A binary-coded decimal byte as a number: tens in the high nibble, units
/// in the low one.
pub open spec fn from_bcd_spec(v: u8) -> u8 {
    ((v as int / 16) * 10 + v as int % 16) as u8
}

pub fn from_bcd(v: u8) -> (r: u8)
    ensures r == from_bcd_spec(v),
{
    proof {
        assert(v >> 4u8 == v / 16) by (bit_vector);
        assert(v & 0x0Fu8 == v % 16) by (bit_vector);
    }
    (v >> 4u8) * 10 + (v & 0x0F)
}

/// The register is in BCD unless status B says binary.
pub open spec fn bcd_mode(status_b: u8) -> bool {
    status_b & 0x04 == 0
}

/// A register value, converted from BCD when the clock uses it.
pub open spec fn field(v: u8, status_b: u8) -> u8 {
    if bcd_mode(status_b) { from_bcd_spec(v) } else { v }
}

pub open spec fn clamp_spec(v: u8, lo: u8, hi: u8) -> u8 {
    if v < lo { lo } else if v > hi { hi } else { v }
}

/// The date the registers hold: the year counted from 2000, the month and
/// day forced into range.
pub open spec fn decode_date_spec(raw: RawDate) -> Date {
    let (d, m, y, status_b) = raw;
    Date {
        year: (2000 + field(y, status_b)) as u32,
        month: clamp_spec(field(m, status_b), 1, 12),
        day: clamp_spec(field(d, status_b), 1, 31),
    }
}

fn clamp_u8(v: u8, lo: u8, hi: u8) -> (r: u8)
    requires lo <= hi,
    ensures r == clamp_spec(v, lo, hi),
{
    if v < lo { lo } else if v > hi { hi } else { v }
}

pub fn decode_date(raw: RawDate) -> (date: Date)
    ensures
        date == decode_date_spec(raw),
        1 <= date.month <= 12,
        1 <= date.day <= 31,
        2000 <= date.year <= 2255,
{
    let (d, m, y, status_b) = raw;
    let bcd = status_b & 0x04 == 0;
    let day = if bcd { from_bcd(d) } else { d };
    let month = if bcd { from_bcd(m) } else { m };
    let year = if bcd { from_bcd(y) } else { y };
    Date {
        year: 2000 + year as u32,
        month: clamp_u8(month, 1, 12),
        day: clamp_u8(day, 1, 31),
    }
}

/// The hours register in 24-hour form: in 12-hour mode (status B bit 1
/// clear) 12 AM is 0, 12 PM is 12, and other PM hours gain 12.
pub open spec fn hours_spec(h: u8, status_b: u8) -> int {
    let pm = h & 0x80 != 0;
    let raw_hours = h & 0x7F;
    let hours = field(raw_hours, status_b);
    if status_b & 0x02 == 0 {
        if hours == 12 { if pm { 12 } else { 0 } } else if pm { hours + 12 } else { hours as int }
    } else {
        hours as int
    }
}

/// The time the registers hold, each field wrapped into range.
pub open spec fn decode_spec(raw: RawTime) -> Time {
    let (s, m, h, status_b) = raw;
    Time {
        hours: (hours_spec(h, status_b) % 24) as u8,
        minutes: (field(m, status_b) % 60) as u8,
        seconds: (field(s, status_b) % 60) as u8,
    }
}

pub fn decode(raw: RawTime) -> (t: Time)
    ensures
        t == decode_spec(raw),
        t.hours < 24,
        t.minutes < 60,
        t.seconds < 60,
{
    let (s, m, h, status_b) = raw;
    let bcd = status_b & 0x04 == 0;
    let pm = h & 0x80 != 0;
    let raw_hours = h & 0x7F;

    let seconds = if bcd { from_bcd(s) } else { s };
    let minutes = if bcd { from_bcd(m) } else { m };
    let mut hours = if bcd { from_bcd(raw_hours) } else { raw_hours };
    proof {
        assert(raw_hours <= 0x7F) by (bit_vector) requires raw_hours == h & 0x7F;
        assert((raw_hours as int / 16) * 10 + raw_hours as int % 16 <= 127) by (nonlinear_arith)
            requires raw_hours <= 0x7F;
    }

    if status_b & 0x02 == 0 {
        hours = if hours == 12 {
            if pm { 12 } else { 0 }
        } else if pm {
            hours + 12
        } else {
            hours
        };
    }

    Time { hours: hours % 24, minutes: minutes % 60, seconds: seconds % 60 }
}

/// Two consecutive reads of the clock registers agree, so neither caught an
/// update halfway: the reading can be trusted.
pub fn settled(prev: RawTime, cur: RawTime) -> (b: bool)
    ensures b == (prev == cur),
{
    prev.0 == cur.0 && prev.1 == cur.1 && prev.2 == cur.2 && prev.3 == cur.3
}

/// Seconds since midnight of a time of day.
pub open spec fn day_seconds_spec(t: Time) -> int {
    t.hours as int * 3600 + t.minutes as int * 60 + t.seconds as int
}

pub fn day_seconds(t: &Time) -> (s: u32)
    ensures s == day_seconds_spec(*t),
{
    t.hours as u32 * 3600 + t.minutes as u32 * 60 + t.seconds as u32
}

/// A number below 100 in binary-coded decimal: tens in the high nibble,
/// units in the low one.
pub open spec fn to_bcd(v: int) -> u8 {
    ((v / 10) * 16 + v % 10) as u8
}

/// BCD bytes of numbers below 100 read back as those numbers.
proof fn lemma_bcd_round_trip(v: int)
    requires 0 <= v < 100,
    ensures from_bcd_spec(to_bcd(v)) as int == v,
{
    let b = (v / 10) * 16 + v % 10;
    assert(0 <= b <= 153) by (nonlinear_arith) requires b == (v / 10) * 16 + v % 10, 0 <= v < 100;
    assert(b / 16 == v / 10 && b % 16 == v % 10) by (nonlinear_arith)
        requires b == (v / 10) * 16 + v % 10, 0 <= v < 100;
}

/// A calendar date the clock holds comes back as that date, whether the
/// clock keeps it in BCD (status B bit 2 clear) or in binary: every
/// register, day, month and year alike, is read in the clock's one mode.
pub proof fn lemma_decode_date_round_trip(year: int, month: int, day: int, status_b: u8)
    requires
        0 <= year < 100,
        1 <= month <= 12,
        1 <= day <= 31,
    ensures
        status_b & 0x04 == 0 ==> decode_date_spec((to_bcd(day), to_bcd(month), to_bcd(year), status_b))
            == (Date { year: (2000 + year) as u32, month: month as u8, day: day as u8 }),
        status_b & 0x04 != 0 ==> decode_date_spec((day as u8, month as u8, year as u8, status_b))
            == (Date { year: (2000 + year) as u32, month: month as u8, day: day as u8 }),
{
    lemma_bcd_round_trip(year);
    lemma_bcd_round_trip(month);
    lemma_bcd_round_trip(day);
}

/// A time of day the clock holds in 24-hour mode (status B bit 1 set) comes
/// back as that time, in BCD and in binary alike.
pub proof fn lemma_decode_round_trip(hours: int, minutes: int, seconds: int, status_b: u8)
    requires
        0 <= hours < 24,
        0 <= minutes < 60,
        0 <= seconds < 60,
        status_b & 0x02 != 0,
    ensures
        status_b & 0x04 == 0 ==> decode_spec((to_bcd(seconds), to_bcd(minutes), to_bcd(hours), status_b))
            == (Time { hours: hours as u8, minutes: minutes as u8, seconds: seconds as u8 }),
        status_b & 0x04 != 0 ==> decode_spec((seconds as u8, minutes as u8, hours as u8, status_b))
            == (Time { hours: hours as u8, minutes: minutes as u8, seconds: seconds as u8 }),
{
    lemma_bcd_round_trip(hours);
    lemma_bcd_round_trip(minutes);
    lemma_bcd_round_trip(seconds);
    let hb = to_bcd(hours);
    let hh = hours as u8;
    assert(hb & 0x7F == hb && hb & 0x80 == 0) by (bit_vector) requires hb <= 0x35;
    assert(hh & 0x7F == hh && hh & 0x80 == 0) by (bit_vector) requires hh < 24;
}

/// In 12-hour mode (status B bit 1 clear) the hours register holds 1 to 12
/// with bit 7 set after noon: 12 AM is midnight, 12 PM is noon, and the
/// other afternoon hours are twelve on from the morning ones.
pub proof fn lemma_decode_twelve_hour(h12: int, pm: bool, status_b: u8)
    requires
        1 <= h12 <= 12,
        status_b & 0x02 == 0,
    ensures
        ({
            let want = if h12 == 12 { if pm { 12int } else { 0 } } else if pm { h12 + 12 } else { h12 };
            let reg = |v: u8| if pm { (v | 0x80) as u8 } else { v };
            &&& status_b & 0x04 == 0 ==> decode_spec((0, 0, reg(to_bcd(h12)), status_b)).hours == want
            &&& status_b & 0x04 != 0 ==> decode_spec((0, 0, reg(h12 as u8), status_b)).hours == want
        }),
{
    lemma_bcd_round_trip(h12);
    let hb = to_bcd(h12);
    let hh = h12 as u8;
    assert((hb | 0x80) & 0x7F == hb && (hb | 0x80) & 0x80 != 0 && hb & 0x7F == hb && hb & 0x80 == 0)
        by (bit_vector) requires hb <= 0x12;
    assert((hh | 0x80) & 0x7F == hh && (hh | 0x80) & 0x80 != 0 && hh & 0x7F == hh && hh & 0x80 == 0)
        by (bit_vector) requires hh <= 12;
}

} // verus!
