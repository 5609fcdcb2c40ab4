use vstd::prelude::*;
use crate::arch::rtc::Date;

verus! {

/// The German name of weekday `i`, 0 being Sunday, as UTF-8.
pub open spec fn weekday_name(i: int) -> Seq<u8> {
    if i == 0 { seq![83u8, 111u8, 110u8, 110u8, 116u8, 97u8, 103u8] }
    else     if i == 1 { seq![77u8, 111u8, 110u8, 116u8, 97u8, 103u8] }
    else     if i == 2 { seq![68u8, 105u8, 101u8, 110u8, 115u8, 116u8, 97u8, 103u8] }
    else     if i == 3 { seq![77u8, 105u8, 116u8, 116u8, 119u8, 111u8, 99u8, 104u8] }
    else     if i == 4 { seq![68u8, 111u8, 110u8, 110u8, 101u8, 114u8, 115u8, 116u8, 97u8, 103u8] }
    else     if i == 5 { seq![70u8, 114u8, 101u8, 105u8, 116u8, 97u8, 103u8] }
    else     { seq![83u8, 97u8, 109u8, 115u8, 116u8, 97u8, 103u8] }
}

/// The German name of month `m`, 1 being January, as UTF-8.
pub open spec fn month_name(m: int) -> Seq<u8> {
    if m == 1 { seq![74u8, 97u8, 110u8, 117u8, 97u8, 114u8] }
    else     if m == 2 { seq![70u8, 101u8, 98u8, 114u8, 117u8, 97u8, 114u8] }
    else     if m == 3 { seq![77u8, 195u8, 164u8, 114u8, 122u8] }
    else     if m == 4 { seq![65u8, 112u8, 114u8, 105u8, 108u8] }
    else     if m == 5 { seq![77u8, 97u8, 105u8] }
    else     if m == 6 { seq![74u8, 117u8, 110u8, 105u8] }
    else     if m == 7 { seq![74u8, 117u8, 108u8, 105u8] }
    else     if m == 8 { seq![65u8, 117u8, 103u8, 117u8, 115u8, 116u8] }
    else     if m == 9 { seq![83u8, 101u8, 112u8, 116u8, 101u8, 109u8, 98u8, 101u8, 114u8] }
    else     if m == 10 { seq![79u8, 107u8, 116u8, 111u8, 98u8, 101u8, 114u8] }
    else     if m == 11 { seq![78u8, 111u8, 118u8, 101u8, 109u8, 98u8, 101u8, 114u8] }
    else     { seq![68u8, 101u8, 122u8, 101u8, 109u8, 98u8, 101u8, 114u8] }
}

fn weekday_bytes(i: usize) -> (v: Vec<u8>)
    requires i < 7,
    ensures v@ == weekday_name(i as int),
{
    if i == 0 { vec![83u8, 111u8, 110u8, 110u8, 116u8, 97u8, 103u8] }
    else     if i == 1 { vec![77u8, 111u8, 110u8, 116u8, 97u8, 103u8] }
    else     if i == 2 { vec![68u8, 105u8, 101u8, 110u8, 115u8, 116u8, 97u8, 103u8] }
    else     if i == 3 { vec![77u8, 105u8, 116u8, 116u8, 119u8, 111u8, 99u8, 104u8] }
    else     if i == 4 { vec![68u8, 111u8, 110u8, 110u8, 101u8, 114u8, 115u8, 116u8, 97u8, 103u8] }
    else     if i == 5 { vec![70u8, 114u8, 101u8, 105u8, 116u8, 97u8, 103u8] }
    else     { vec![83u8, 97u8, 109u8, 115u8, 116u8, 97u8, 103u8] }
}

fn month_bytes(m: usize) -> (v: Vec<u8>)
    requires 1 <= m <= 12,
    ensures v@ == month_name(m as int),
{
    if m == 1 { vec![74u8, 97u8, 110u8, 117u8, 97u8, 114u8] }
    else     if m == 2 { vec![70u8, 101u8, 98u8, 114u8, 117u8, 97u8, 114u8] }
    else     if m == 3 { vec![77u8, 195u8, 164u8, 114u8, 122u8] }
    else     if m == 4 { vec![65u8, 112u8, 114u8, 105u8, 108u8] }
    else     if m == 5 { vec![77u8, 97u8, 105u8] }
    else     if m == 6 { vec![74u8, 117u8, 110u8, 105u8] }
    else     if m == 7 { vec![74u8, 117u8, 108u8, 105u8] }
    else     if m == 8 { vec![65u8, 117u8, 103u8, 117u8, 115u8, 116u8] }
    else     if m == 9 { vec![83u8, 101u8, 112u8, 116u8, 101u8, 109u8, 98u8, 101u8, 114u8] }
    else     if m == 10 { vec![79u8, 107u8, 116u8, 111u8, 98u8, 101u8, 114u8] }
    else     if m == 11 { vec![78u8, 111u8, 118u8, 101u8, 109u8, 98u8, 101u8, 114u8] }
    else     { vec![68u8, 101u8, 122u8, 101u8, 109u8, 98u8, 101u8, 114u8] }
}

/// Sakamoto's per-month offsets.
pub open spec fn month_offset_spec(m: int) -> int {
    if m == 1 { 0int } else if m == 2 { 3 } else if m == 3 { 2 } else if m == 4 { 5 } else if m == 5 { 0 }
    else if m == 6 { 3 } else if m == 7 { 5 } else if m == 8 { 1 } else if m == 9 { 4 } else if m == 10 { 6 }
    else if m == 11 { 2 } else { 4 }
}

/// The day of the week of `d`.`m`.`y` in the Gregorian calendar, 0 being
/// Sunday (Sakamoto's method).
pub open spec fn weekday_spec(y: int, m: int, d: int) -> int {
    let t = month_offset_spec(m);
    let yy = if m < 3 { y - 1 } else { y };
    (yy + yy / 4 - yy / 100 + yy / 400 + t + d) % 7
}

/// Whether `y` is a Gregorian leap year.
pub open spec fn leap(y: int) -> bool {
    (y % 4 == 0 && y % 100 != 0) || y % 400 == 0
}

/// The number of days in month `m` of year `y`.
pub open spec fn days_in_month(y: int, m: int) -> int {
    if m == 2 {
        if leap(y) { 29 } else { 28 }
    } else if m == 4 || m == 6 || m == 9 || m == 11 {
        30
    } else {
        31
    }
}

/// The calendar day after `d`.`m`.`y`.
pub open spec fn next_day(y: int, m: int, d: int) -> (int, int, int) {
    if d < days_in_month(y, m) {
        (y, m, d + 1)
    } else if m < 12 {
        (y, m + 1, 1)
    } else {
        (y + 1, 1, 1)
    }
}

/// The leap-day count of Sakamoto's method grows by one a year, and by one
/// more after a leap year's February.
proof fn lemma_year_count_step(y: int)
    requires y >= 1,
    ensures
        (y + y / 4 - y / 100 + y / 400) - ((y - 1) + (y - 1) / 4 - (y - 1) / 100 + (y - 1) / 400)
            == 1 + if leap(y) { 1int } else { 0 },
{
    assert(y / 4 - (y - 1) / 4 == if y % 4 == 0 { 1int } else { 0 }) by (nonlinear_arith) requires y >= 1;
    assert(y / 100 - (y - 1) / 100 == if y % 100 == 0 { 1int } else { 0 }) by (nonlinear_arith) requires y >= 1;
    assert(y / 400 - (y - 1) / 400 == if y % 400 == 0 { 1int } else { 0 }) by (nonlinear_arith) requires y >= 1;
    if y % 400 == 0 {
        assert(y % 100 == 0 && y % 4 == 0) by (nonlinear_arith) requires y % 400 == 0;
    } else if y % 100 == 0 {
        assert(y % 4 == 0) by (nonlinear_arith) requires y % 100 == 0;
    }
}

/// Sakamoto's method follows the Gregorian calendar: the day after any valid
/// date falls on the next day of the week, across month and year ends and
/// leap days alike. With one date known, that fixes every weekday.
pub proof fn lemma_weekday_next_day(y: int, m: int, d: int)
    requires
        y >= 1,
        1 <= m <= 12,
        1 <= d <= days_in_month(y, m),
    ensures
        ({
            let (y2, m2, d2) = next_day(y, m, d);
            weekday_spec(y2, m2, d2) == (weekday_spec(y, m, d) + 1) % 7
        }),
{
    let (y2, m2, d2) = next_day(y, m, d);
    let c = |yy: int| yy + yy / 4 - yy / 100 + yy / 400;
    if d < days_in_month(y, m) {
        let yy = if m < 3 { y - 1 } else { y };
        let base = c(yy) + month_offset_spec(m);
        assert((base + d + 1) % 7 == ((base + d) % 7 + 1) % 7) by (nonlinear_arith);
    } else if m < 12 {
        if m == 2 {
            // The last of February, then the first of March: the year count
            // steps by one plus the leap day February just had.
            lemma_year_count_step(y);
            let l = if leap(y) { 1int } else { 0 };
            let a = c(y - 1) + 3 + d;
            let b = c(y) + 2 + 1;
            assert(d == 28 + l);
            assert(b == a - 27);
            assert(b % 7 == (a % 7 + 1) % 7) by (nonlinear_arith) requires b == a - 27;
        } else {
            let yy = if m < 3 { y - 1 } else { y };
            let a = c(yy) + month_offset_spec(m) + days_in_month(y, m);
            let b = c(yy) + month_offset_spec(m + 1) + 1;
            assert(b % 7 == (a % 7 + 1) % 7) by (nonlinear_arith)
                requires b - a - 1 == month_offset_spec(m + 1) - month_offset_spec(m) - days_in_month(y, m),
                    (month_offset_spec(m + 1) - month_offset_spec(m) - days_in_month(y, m)) % 7 == 0;
        }
    } else {
        let a = c(y) + 4 + 31;
        let b = c(y) + 0 + 1;
        assert(b % 7 == (a % 7 + 1) % 7) by (nonlinear_arith) requires a == b + 34;
    }
}

fn month_offset(m: u32) -> (t: u32)
    requires 1 <= m <= 12,
    ensures t <= 6,
        t == month_offset_spec(m as int),
{
    if m == 1 { 0 } else if m == 2 { 3 } else if m == 3 { 2 } else if m == 4 { 5 } else if m == 5 { 0 }
    else if m == 6 { 3 } else if m == 7 { 5 } else if m == 8 { 1 } else if m == 9 { 4 } else if m == 10 { 6 }
    else if m == 11 { 2 } else { 4 }
}

/// Sakamoto's sums for `d`.`m`.`y` stay within a `u32`.
pub open spec fn weekday_fits(y: int, m: int, d: int) -> bool {
    let yy = if m < 3 { y - 1 } else { y };
    &&& yy + yy / 4 <= u32::MAX
    &&& yy + yy / 4 - yy / 100 + yy / 400 + month_offset_spec(m) + d <= u32::MAX
}

pub fn weekday(y: u32, m: u32, d: u32) -> (w: usize)
    requires
        1 <= m <= 12,
        1 <= y,
        weekday_fits(y as int, m as int, d as int),
    ensures
        w == weekday_spec(y as int, m as int, d as int),
        w < 7,
{
    let y = if m < 3 { y - 1 } else { y };
    ((y + y / 4 - y / 100 + y / 400 + month_offset(m) + d) % 7) as usize
}

/// The whole German date line for `date`, e.g. "Montag, 1. Januar".
pub open spec fn german_line(date: Date) -> Seq<u8> {
    let day = date.day as int;
    let digits = if day >= 10 { seq![(48 + day / 10) as u8, (48 + day % 10) as u8] } else { seq![(48 + day % 10) as u8] };
    weekday_name(weekday_spec(date.year as int, date.month as int, date.day as int))
        + seq![44u8, 32u8] + digits + seq![46u8, 32u8] + month_name(date.month as int)
}

/// Appends bytes to a buffer, silently dropping what does not fit: `len`
/// bytes of it are written so far.
struct Writer {
    len: usize,
}

impl Writer {
    fn push_byte(&mut self, buf: &mut [u8], b: u8)
        requires old(self).len <= old(buf)@.len(),
        ensures
            final(buf)@.len() == old(buf)@.len(),
            final(self).len <= final(buf)@.len(),
            old(self).len < old(buf)@.len() ==> {
                &&& final(self).len == old(self).len + 1
                &&& final(buf)@ == old(buf)@.update(old(self).len as int, b)
            },
            old(self).len == old(buf)@.len() ==> final(self).len == old(self).len && final(buf)@ == old(buf)@,
    {
        if self.len < buf.len() {
            buf[self.len] = b;
            self.len += 1;
        }
    }
}

/// The writer holds the first `len` bytes of `w`: all of it, or as much as
/// fits, the rest of the buffer untouched since `orig`.
spec fn holds_prefix(buf: Seq<u8>, len: int, orig: Seq<u8>, w: Seq<u8>) -> bool {
    &&& buf.len() == orig.len()
    &&& len == (if w.len() <= orig.len() { w.len() as int } else { orig.len() as int })
    &&& buf.take(len) == w.take(len)
    &&& buf.skip(len) == orig.skip(len)
}

proof fn lemma_push_byte(buf: Seq<u8>, len: int, orig: Seq<u8>, w: Seq<u8>, b: u8, buf2: Seq<u8>, len2: int)
    requires
        holds_prefix(buf, len, orig, w),
        len < buf.len() ==> buf2 == buf.update(len, b) && len2 == len + 1,
        len == buf.len() ==> buf2 == buf && len2 == len,
    ensures holds_prefix(buf2, len2, orig, w.push(b)),
{
    if len < buf.len() {
        assert(buf2.take(len2) =~= w.push(b).take(len2)) by {
            assert forall|k: int| 0 <= k < len2 implies buf2.take(len2)[k] == w.push(b).take(len2)[k] by {
                if k < len { assert(buf.take(len)[k] == w.take(len)[k]); }
            }
        }
        assert(buf2.skip(len2) =~= orig.skip(len2)) by {
            assert forall|k: int| 0 <= k < buf2.skip(len2).len() implies buf2.skip(len2)[k] == orig.skip(len2)[k] by {
                assert(buf.skip(len)[k + 1] == orig.skip(len)[k + 1]);
            }
        }
    } else {
        assert(buf2.take(len2) =~= w.push(b).take(len2)) by {
            assert forall|k: int| 0 <= k < len2 implies buf2.take(len2)[k] == w.push(b).take(len2)[k] by {
                assert(buf.take(len)[k] == w.take(len)[k]);
            }
        }
    }
}

impl Writer {
    /// Appends the bytes of `s`, as many as fit.
    fn push_str(&mut self, buf: &mut [u8], s: &[u8], Ghost(orig): Ghost<Seq<u8>>, Ghost(w): Ghost<Seq<u8>>)
        requires holds_prefix(old(buf)@, old(self).len as int, orig, w),
        ensures holds_prefix(final(buf)@, final(self).len as int, orig, w + s@),
    {
        let mut i: usize = 0;
        while i < s.len()
            invariant
                i <= s@.len(),
                holds_prefix(buf@, self.len as int, orig, w + s@.take(i as int)),
            decreases s@.len() - i,
        {
            let ghost buf0 = buf@;
            let ghost len0 = self.len as int;
            self.push_byte(buf, s[i]);
            proof {
                lemma_push_byte(buf0, len0, orig, w + s@.take(i as int), s@[i as int], buf@, self.len as int);
                assert((w + s@.take(i as int)).push(s@[i as int]) =~= w + s@.take(i + 1));
            }
            i += 1;
        }
        proof { assert(s@.take(s@.len() as int) =~= s@); }
    }
}

/// Writes the date as German text, e.g. "Montag, 1. Januar", into `buf` and
/// returns how many bytes were written: the whole line, or as much of it as
/// fits.
pub fn format_german(date: &Date, buf: &mut [u8]) -> (n: usize)
    requires
        1 <= date.month <= 12,
        1 <= date.year,
        weekday_fits(date.year as int, date.month as int, date.day as int),
    ensures
        n == (if german_line(*date).len() <= old(buf)@.len() { german_line(*date).len() as int } else { old(buf)@.len() as int }),
        final(buf)@.len() == old(buf)@.len(),
        final(buf)@.take(n as int) == german_line(*date).take(n as int),
        final(buf)@.skip(n as int) == old(buf)@.skip(n as int),
{
    let ghost orig = buf@;
    let mut w = Writer { len: 0 };
    proof {
        assert(buf@.take(0) =~= Seq::<u8>::empty().take(0));
        assert(buf@.skip(0) =~= orig.skip(0));
    }
    let wd = weekday(date.year, date.month as u32, date.day as u32);
    let name = weekday_bytes(wd);
    w.push_str(buf, name.as_slice(), Ghost(orig), Ghost(Seq::<u8>::empty()));
    let ghost w1 = Seq::<u8>::empty() + name@;
    let sep = vec![44u8, 32u8];
    w.push_str(buf, sep.as_slice(), Ghost(orig), Ghost(w1));
    let ghost w2 = w1 + sep@;
    let ghost buf0 = buf@;
    let ghost len0 = w.len as int;
    let ghost w3 = w2;
    if date.day >= 10 {
        w.push_byte(buf, 48u8 + date.day / 10);
        proof { lemma_push_byte(buf0, len0, orig, w2, (48 + date.day / 10) as u8, buf@, w.len as int); }
        proof { w3 = w2.push((48 + date.day / 10) as u8); }
    }
    let ghost buf1 = buf@;
    let ghost len1 = w.len as int;
    w.push_byte(buf, 48u8 + date.day % 10);
    proof { lemma_push_byte(buf1, len1, orig, w3, (48 + date.day % 10) as u8, buf@, w.len as int); }
    let ghost w4 = w3.push((48 + date.day % 10) as u8);
    let dot = vec![46u8, 32u8];
    w.push_str(buf, dot.as_slice(), Ghost(orig), Ghost(w4));
    let month = month_bytes(date.month as usize);
    w.push_str(buf, month.as_slice(), Ghost(orig), Ghost(w4 + dot@));
    proof {
        let day = date.day as int;
        let digits = if day >= 10 { seq![(48 + day / 10) as u8, (48 + day % 10) as u8] } else { seq![(48 + day % 10) as u8] };
        assert(w4 =~= name@ + seq![44u8, 32u8] + digits);
        assert(w4 + dot@ + month@ =~= german_line(*date));
    }
    let n = w.len;
    proof {
        assert(holds_prefix(buf@, n as int, orig, german_line(*date)));
    }
    n
}

/// The UTF-8 encoding of one character.
pub open spec fn utf8_char(c: char) -> Seq<u8> {
    let v = c as u32 as int;
    if v < 0x80 {
        seq![v as u8]
    } else if v < 0x800 {
        seq![(0xC0 + v / 64) as u8, (0x80 + v % 64) as u8]
    } else if v < 0x10000 {
        seq![(0xE0 + v / 4096) as u8, (0x80 + (v / 64) % 64) as u8, (0x80 + v % 64) as u8]
    } else {
        seq![(0xF0 + v / 262144) as u8, (0x80 + (v / 4096) % 64) as u8, (0x80 + (v / 64) % 64) as u8,
            (0x80 + v % 64) as u8]
    }
}

/// The UTF-8 encoding of a text.
pub open spec fn utf8(s: Seq<char>) -> Seq<u8>
    decreases s.len(),
{
    if s.len() == 0 { Seq::empty() } else { utf8(s.drop_last()) + utf8_char(s.last()) }
}

/// The German name of month `m` of the calendar, 1 being January.
pub open spec fn month_text(m: int) -> Seq<char> {
    if m == 1 { "Januar"@ }
    else if m == 2 { "Februar"@ }
    else if m == 3 { "M\u{e4}rz"@ }
    else if m == 4 { "April"@ }
    else if m == 5 { "Mai"@ }
    else if m == 6 { "Juni"@ }
    else if m == 7 { "Juli"@ }
    else if m == 8 { "August"@ }
    else if m == 9 { "September"@ }
    else if m == 10 { "Oktober"@ }
    else if m == 11 { "November"@ }
    else { "Dezember"@ }
}

/// The German name of weekday `i`, 0 being Sunday.
pub open spec fn weekday_text(i: int) -> Seq<char> {
    if i == 0 { "Sonntag"@ }
    else if i == 1 { "Montag"@ }
    else if i == 2 { "Dienstag"@ }
    else if i == 3 { "Mittwoch"@ }
    else if i == 4 { "Donnerstag"@ }
    else if i == 5 { "Freitag"@ }
    else { "Samstag"@ }
}

/// The month names the line is built from spell the calendar's German
/// month names in UTF-8.
proof fn lemma_month_names(m: int)
    requires 1 <= m <= 12,
    ensures month_name(m) == utf8(month_text(m)),
{
    reveal_with_fuel(utf8, 10);
    if m == 1 {
        reveal_strlit("Januar");
        assert(utf8(month_text(m)) =~= month_name(m));
    }
    else if m == 2 {
        reveal_strlit("Februar");
        assert(utf8(month_text(m)) =~= month_name(m));
    }
    else if m == 3 {
        reveal_strlit("M\u{e4}rz");
        assert(utf8(month_text(m)) =~= month_name(m));
    }
    else if m == 4 {
        reveal_strlit("April");
        assert(utf8(month_text(m)) =~= month_name(m));
    }
    else if m == 5 {
        reveal_strlit("Mai");
        assert(utf8(month_text(m)) =~= month_name(m));
    }
    else if m == 6 {
        reveal_strlit("Juni");
        assert(utf8(month_text(m)) =~= month_name(m));
    }
    else if m == 7 {
        reveal_strlit("Juli");
        assert(utf8(month_text(m)) =~= month_name(m));
    }
    else if m == 8 {
        reveal_strlit("August");
        assert(utf8(month_text(m)) =~= month_name(m));
    }
    else if m == 9 {
        reveal_strlit("September");
        assert(utf8(month_text(m)) =~= month_name(m));
    }
    else if m == 10 {
        reveal_strlit("Oktober");
        assert(utf8(month_text(m)) =~= month_name(m));
    }
    else if m == 11 {
        reveal_strlit("November");
        assert(utf8(month_text(m)) =~= month_name(m));
    }
    else if m == 12 {
        reveal_strlit("Dezember");
        assert(utf8(month_text(m)) =~= month_name(m));
    }
}

/// The weekday names the line is built from spell the German names of the
/// days of the week in UTF-8.
proof fn lemma_weekday_names(i: int)
    requires 0 <= i < 7,
    ensures weekday_name(i) == utf8(weekday_text(i)),
{
    reveal_with_fuel(utf8, 11);
    if i == 0 {
        reveal_strlit("Sonntag");
        assert(utf8(weekday_text(i)) =~= weekday_name(i));
    }
    else if i == 1 {
        reveal_strlit("Montag");
        assert(utf8(weekday_text(i)) =~= weekday_name(i));
    }
    else if i == 2 {
        reveal_strlit("Dienstag");
        assert(utf8(weekday_text(i)) =~= weekday_name(i));
    }
    else if i == 3 {
        reveal_strlit("Mittwoch");
        assert(utf8(weekday_text(i)) =~= weekday_name(i));
    }
    else if i == 4 {
        reveal_strlit("Donnerstag");
        assert(utf8(weekday_text(i)) =~= weekday_name(i));
    }
    else if i == 5 {
        reveal_strlit("Freitag");
        assert(utf8(weekday_text(i)) =~= weekday_name(i));
    }
    else if i == 6 {
        reveal_strlit("Samstag");
        assert(utf8(weekday_text(i)) =~= weekday_name(i));
    }
}

/// The decimal digits of `n`, most significant first, as ASCII bytes.
pub open spec fn decimal(n: nat) -> Seq<u8>
    decreases n,
{
    if n < 10 { seq![(48 + n) as u8] } else { decimal(n / 10) + seq![(48 + n % 10) as u8] }
}

/// The date line reads "<weekday>, <day>. <month>" in German: it opens with
/// the name of the date's day of the week and ", ", closes with ". " and the
/// name of its month, and holds the day in decimal between them.
pub proof fn lemma_german_line_names(date: Date)
    requires 1 <= date.month <= 12,
    ensures
        ({
            let line = german_line(date);
            let wd = weekday_spec(date.year as int, date.month as int, date.day as int);
            let head = utf8(weekday_text(wd)) + utf8(", "@);
            let tail = utf8(". "@) + utf8(month_text(date.month as int));
            &&& line.len() >= head.len() + tail.len()
            &&& line.take(head.len() as int) == head
            &&& line.skip(line.len() - tail.len()) == tail
            &&& date.day < 100 ==> line.subrange(head.len() as int, line.len() - tail.len()) == decimal(date.day as nat)
        }),
{
    let day = date.day as int;
    let wd = weekday_spec(date.year as int, date.month as int, date.day as int);
    lemma_month_names(date.month as int);
    lemma_weekday_names(wd);
    reveal_strlit(", ");
    reveal_strlit(". ");
    reveal_with_fuel(utf8, 3);
    assert(utf8(", "@) =~= seq![44u8, 32u8]);
    assert(utf8(". "@) =~= seq![46u8, 32u8]);
    let digits = if day >= 10 { seq![(48 + day / 10) as u8, (48 + day % 10) as u8] } else { seq![(48 + day % 10) as u8] };
    let line = german_line(date);
    let w = weekday_name(wd);
    let mn = month_name(date.month as int);
    assert(line == w + seq![44u8, 32u8] + digits + seq![46u8, 32u8] + mn);
    let head = w + seq![44u8, 32u8];
    let tail = seq![46u8, 32u8] + mn;
    assert(line =~= head + digits + tail);
    assert(line.take(head.len() as int) =~= head);
    assert(line.skip(line.len() - tail.len()) =~= tail);
    if day < 100 {
        assert(line.subrange(head.len() as int, line.len() - tail.len()) =~= digits);
        if day >= 10 {
            assert(day / 10 < 10) by (nonlinear_arith) requires day < 100;
            assert(decimal((day / 10) as nat) == seq![(48 + day / 10) as u8]);
            assert(decimal(day as nat) =~= digits);
        } else {
            assert(day % 10 == day);
            assert(decimal(day as nat) =~= digits);
        }
    }
}

} // verus!
