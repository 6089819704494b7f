//! Local wall-clock labels, through chrono.
use vstd::prelude::*;

verus! {

/// Latest time, in milliseconds since the UNIX epoch, that chrono can turn
/// into a date: the last millisecond of December 31, 262142 (UTC). Past it,
/// chrono's conversion from `SystemTime` panics.
pub const MAX_LABEL_MS: u64 = 8_210_266_876_799_999;

/// Whether `c` is an ASCII decimal digit.
pub open spec fn is_digit(c: char) -> bool {
    '0' <= c <= '9'
}

/// Whether every character of `s` is an ASCII digit.
pub open spec fn all_digits(s: Seq<char>) -> bool {
    forall|i: int| 0 <= i < s.len() ==> is_digit(#[trigger] s[i])
}

/// The shape of an "HH:MM:SS" label: two digits, a colon, two digits, a colon, two digits.
pub open spec fn is_clock_label(s: Seq<char>) -> bool {
    &&& s.len() == 8
    &&& s[2] == ':' && s[5] == ':'
    &&& is_digit(s[0]) && is_digit(s[1]) && is_digit(s[3]) && is_digit(s[4])
    &&& is_digit(s[6]) && is_digit(s[7])
}

/// The shape chrono gives a year with "%Y" from 1970 on: four digits up to
/// the year 9999, then a '+' and at least five digits.
pub open spec fn is_year_text(y: Seq<char>) -> bool {
    ||| y.len() == 4 && all_digits(y)
    ||| y.len() >= 6 && y[0] == '+' && all_digits(y.drop_first())
}

/// The shape of a "YYYYMMDD-HHMMSS" stamp: a year, four digits, '-', six digits.
pub open spec fn is_file_stamp(s: Seq<char>) -> bool {
    &&& s.len() >= 15
    &&& is_year_text(s.take(s.len() - 11))
    &&& s[s.len() - 7] == '-'
    &&& all_digits(s.subrange(s.len() - 11, s.len() - 7))
    &&& all_digits(s.skip(s.len() - 6))
}

/// The shape of a "YYYY-MM-DD HH:MM" stamp: a year, '-', two digits, '-',
/// two digits, ' ', two digits, ':', two digits.
pub open spec fn is_title_stamp(s: Seq<char>) -> bool {
    &&& s.len() >= 16
    &&& is_year_text(s.take(s.len() - 12))
    &&& s[s.len() - 12] == '-' && s[s.len() - 9] == '-' && s[s.len() - 6] == ' ' && s[s.len() - 3] == ':'
    &&& is_digit(s[s.len() - 11]) && is_digit(s[s.len() - 10])
    &&& is_digit(s[s.len() - 8]) && is_digit(s[s.len() - 7])
    &&& is_digit(s[s.len() - 5]) && is_digit(s[s.len() - 4])
    &&& is_digit(s[s.len() - 2]) && is_digit(s[s.len() - 1])
}

/// Milliseconds in a day.
pub const DAY_MS: u64 = 86_400_000;

/// Whether `y` is a leap year of the (proleptic) Gregorian calendar.
pub open spec fn is_leap_year(y: int) -> bool {
    y % 4 == 0 && (y % 100 != 0 || y % 400 == 0)
}

/// Days from January 1 of the year 0 to January 1 of the year `y` (y >= 1).
pub open spec fn days_before_year(y: int) -> int {
    365 * y + 1 + (y - 1) / 4 - (y - 1) / 100 + (y - 1) / 400
}

/// Days from January 1 to the first day of month `m` (1 to 12).
pub open spec fn days_before_month(m: int, leap: bool) -> int {
    let common: int = if m <= 1 {
        0
    } else if m == 2 {
        31
    } else if m == 3 {
        59
    } else if m == 4 {
        90
    } else if m == 5 {
        120
    } else if m == 6 {
        151
    } else if m == 7 {
        181
    } else if m == 8 {
        212
    } else if m == 9 {
        243
    } else if m == 10 {
        273
    } else if m == 11 {
        304
    } else {
        334
    };
    common + if leap && m > 2 {
        1int
    } else {
        0int
    }
}

/// Days from January 1, 1970 to the date `y`-`m`-`d`.
pub open spec fn epoch_days(y: int, m: int, d: int) -> int {
    days_before_year(y) - days_before_year(1970) + days_before_month(m, is_leap_year(y)) + d - 1
}

/// The number the decimal digits `s` write.
pub open spec fn digits_value(s: Seq<char>) -> int
    decreases s.len(),
{
    if s.len() == 0 {
        0
    } else {
        digits_value(s.drop_last()) * 10 + (s.last() as int - '0' as int)
    }
}

/// Whether `id` is a plain "YYYYMMDD-HHMMSS" stamp: eight digits, '-', six digits.
pub open spec fn is_plain_stamp(id: Seq<char>) -> bool {
    &&& id.len() == 15
    &&& id[8] == '-'
    &&& forall|i: int| 0 <= i < 15 && i != 8 ==> is_digit(#[trigger] id[i])
}

/// The instant, in ms since the UNIX epoch, that the plain stamp `id`
/// names when read as UTC.
pub open spec fn stamp_utc_ms(id: Seq<char>) -> int {
    let y = digits_value(id.subrange(0, 4));
    let mo = digits_value(id.subrange(4, 6));
    let d = digits_value(id.subrange(6, 8));
    let h = digits_value(id.subrange(9, 11));
    let mi = digits_value(id.subrange(11, 13));
    let sec = digits_value(id.subrange(13, 15));
    (epoch_days(y, mo, d) * 86_400 + h * 3_600 + mi * 60 + sec) * 1_000
}

/// Whether `start` can be the local instant that the plain stamp `id` names
/// (from the second day of 1970 on): a whole second, less than a day (the
/// largest UTC offset) away from the stamp read as UTC.
pub open spec fn start_fits_stamp(start: u64, id: Seq<char>) -> bool {
    is_plain_stamp(id) && stamp_utc_ms(id) >= DAY_MS ==> {
        &&& start % 1_000 == 0
        &&& stamp_utc_ms(id) - DAY_MS < start < stamp_utc_ms(id) + DAY_MS
    }
}

/// The local clock time "HH:MM:SS" at `time_ms`.
pub(crate) fn clock_label(time_ms: u64) -> (label: String)
    requires
        time_ms <= MAX_LABEL_MS,
    ensures
        is_clock_label(label@),
{
    local_time_format(time_ms, "%H:%M:%S")
}

/// The local date and time "YYYYMMDD-HHMMSS" at `time_ms`.
pub(crate) fn file_stamp(time_ms: u64) -> (stamp: String)
    requires
        time_ms <= MAX_LABEL_MS,
    ensures
        is_file_stamp(stamp@),
{
    local_time_format(time_ms, "%Y%m%d-%H%M%S")
}

/// The local date and time "YYYY-MM-DD HH:MM" at `time_ms`.
pub(crate) fn title_stamp(time_ms: u64) -> (stamp: String)
    requires
        time_ms <= MAX_LABEL_MS,
    ensures
        is_title_stamp(stamp@),
{
    local_time_format(time_ms, "%Y-%m-%d %H:%M")
}

/// Calls chrono's `DateTime<Local>::format(format)` on the instant `time_ms`
/// ms after the UNIX epoch (converted from `SystemTime` as chrono does, which
/// panics past `MAX_LABEL_MS`). The digits depend on the machine's time zone
/// and are left unsaid. chrono writes %H, %M, %S, %m and %d as two digits, and
/// %Y as four digits for the years 0 to 9999 and otherwise with a sign and at
/// least four digits (`write_year` in its formatting code); from 1970 on that
/// gives the shapes stated for the three formats the library uses. Only these
/// three formats are admitted: an unknown specifier would make chrono's
/// formatting fail and `to_string` panic.
#[verifier::external_body]
fn local_time_format(time_ms: u64, format: &str) -> (text: String)
    requires
        format@ == "%H:%M:%S"@ || format@ == "%Y%m%d-%H%M%S"@ || format@ == "%Y-%m-%d %H:%M"@,
        time_ms <= MAX_LABEL_MS,
    ensures
        format@ == "%H:%M:%S"@ ==> is_clock_label(text@),
        format@ == "%Y%m%d-%H%M%S"@ ==> is_file_stamp(text@),
        format@ == "%Y-%m-%d %H:%M"@ ==> is_title_stamp(text@),
{
    let time = std::time::UNIX_EPOCH + std::time::Duration::from_millis(time_ms);
    let local: chrono::DateTime<chrono::Local> = time.into();
    local.format(format).to_string()
}

} // verus!
