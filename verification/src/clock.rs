//! The time of day.

use vstd::prelude::*;

verus! {

/// Whether the characters from `i` to `j` are digits.
pub open spec fn digits(s: Seq<char>, i: int, j: int) -> bool {
    forall|k: int| i <= k < j ==> '0' <= #[trigger] s[k] <= '9'
}

/// Whether a number of two digits from `least` to `most` stands at `i`.
pub open spec fn two_digits(s: Seq<char>, i: int, least: int, most: int) -> bool {
    &&& digits(s, i, i + 2)
    &&& least <= (s[i] as int - '0' as int) * 10 + (s[i + 1] as int - '0' as int) <= most
}

/// Whether the character is a sign.
pub open spec fn is_sign(c: char) -> bool {
    c == '+' || c == '-'
}

/// Whether the text is a year: four digits, or a sign and at least four.
pub open spec fn is_year(s: Seq<char>) -> bool {
    ||| s.len() == 4 && digits(s, 0, 4)
    ||| s.len() >= 5 && is_sign(s[0]) && digits(s, 1, s.len() as int)
}

/// Whether a time of day in the form `HH:MM:SS`, with a leap second as `60`, and
/// with a fraction of 3, 6 or 9 digits or none, stands from `i` to `j`.
pub open spec fn is_time_of_day(s: Seq<char>, i: int, j: int) -> bool {
    let fraction = j - i - 8;
    &&& two_digits(s, i, 0, 23)
    &&& s[i + 2] == ':'
    &&& two_digits(s, i + 3, 0, 59)
    &&& s[i + 5] == ':'
    &&& two_digits(s, i + 6, 0, 60)
    &&& fraction == 0 || ((fraction == 4 || fraction == 7 || fraction == 10) && s[i + 8] == '.'
        && digits(s, i + 9, j))
}

/// Whether the text is a time in the form of RFC 3339, whose date ends at `k`:
/// `YYYY-MM-DD`, `T`, the time of day, and the offset as a sign and `HH:MM`.
pub open spec fn is_rfc3339_at(s: Seq<char>, k: int) -> bool {
    let n = s.len() as int;
    &&& 10 <= k
    &&& k + 15 <= n
    &&& is_year(s.take(k - 6))
    &&& s[k - 6] == '-'
    &&& two_digits(s, k - 5, 1, 12)
    &&& s[k - 3] == '-'
    &&& two_digits(s, k - 2, 1, 31)
    &&& s[k] == 'T'
    &&& is_time_of_day(s, k + 1, n - 6)
    &&& is_sign(s[n - 6])
    &&& two_digits(s, n - 5, 0, 24)
    &&& s[n - 3] == ':'
    &&& two_digits(s, n - 2, 0, 59)
}

/// Whether the text can be a time in a summary or a report.
pub open spec fn is_time_text(s: Seq<char>) -> bool {
    exists|k: int| #[trigger] is_rfc3339_at(s, k)
}

/// Whether the text can be a time in the name of a backup: year, month, day, `_`,
/// hour, minute and second.
pub open spec fn is_stamp(s: Seq<char>) -> bool {
    let n = s.len() as int;
    &&& 15 <= n
    &&& is_year(s.take(n - 11))
    &&& two_digits(s, n - 11, 1, 12)
    &&& two_digits(s, n - 9, 1, 31)
    &&& s[n - 7] == '_'
    &&& two_digits(s, n - 6, 0, 23)
    &&& two_digits(s, n - 4, 0, 59)
    &&& two_digits(s, n - 2, 0, 60)
}

/// The local time in the form of RFC 3339, from `chrono::Local::now` and
/// `chrono::DateTime::to_rfc3339`: the offset is always written in numbers, and
/// the fraction of a second with as many digits as it needs, in steps of three. A
/// leap second is written as `60`, and the offset is rounded to minutes.
/// Which time it is depends on the clock and the time zone and is not stated.
#[verifier::external_body]
fn now_string() -> (r: String)
    ensures
        is_time_text(r@),
{
    chrono::Local::now().to_rfc3339()
}

/// The local time as year, month, day, `_`, hour, minute and second, from
/// `chrono::Local::now` and `chrono::DateTime::format`: a year from 0 to 9999 has
/// four digits, any other a sign in front, and the rest two digits each, within
/// what a date and a time of day can be; a leap second is written as `60`.
/// Which time it is depends on the clock and the time zone and is not stated.
#[verifier::external_body]
fn timestamp() -> (r: String)
    ensures
        is_stamp(r@),
{
    chrono::Local::now().format("%Y%m%d_%H%M%S").to_string()
}

/// The local time, for a summary or a report.
pub fn time_now() -> (r: String)
    ensures
        is_time_text(r@),
{
    now_string()
}

/// The local time, for the name of a backup.
pub fn file_stamp_now() -> (r: String)
    ensures
        is_stamp(r@),
{
    timestamp()
}

// ---------------------------------------------------------------------------
// Laws
// ---------------------------------------------------------------------------

/// The time in the name of a backup is made of digits, `_` and signs alone.
pub proof fn stamp_characters(s: Seq<char>, i: int)
    requires
        is_stamp(s),
        0 <= i < s.len(),
    ensures
        '0' <= s[i] <= '9' || s[i] == '_' || is_sign(s[i]),
{
    let year = s.take(s.len() - 11);
    if i < s.len() - 11 {
        assert(year[i] == s[i]);
    }
}

} // verus!
