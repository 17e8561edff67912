//! The name of the file that a report is written to: `Clans_`, the time at
//! which the report was made, and `.txt`.
//!
//! The library reads no clock. Whoever makes the report says at which
//! instant, and in which zone, it is made.

use vstd::prelude::*;
use vstd::string::StringExecFns;

verus! {

/// How the time is written in a file's name: hour, minute, day and month,
/// two digits each.
pub const STAMP_FORMAT: &'static str = "%H-%M_%d_%m";

/// Whether `c` is one of the ten digits.
pub open spec fn is_digit(c: char) -> bool {
    '0' <= c <= '9'
}

/// The number that the two digits of `s` at `at` and behind it stand for.
pub open spec fn two_digits(s: Seq<char>, at: int) -> int {
    (s[at] as int - '0' as int) * 10 + (s[at + 1] as int - '0' as int)
}

/// Whether `s` is a time as a file's name holds it: `HH-MM_DD_MM`, an hour
/// up to 23, a minute up to 59, a day from 1 to 31 and a month from 1 to 12.
pub open spec fn is_clock_stamp(s: Seq<char>) -> bool {
    &&& s.len() == 11
    &&& is_digit(s[0]) && is_digit(s[1]) && s[2] == '-'
    &&& is_digit(s[3]) && is_digit(s[4]) && s[5] == '_'
    &&& is_digit(s[6]) && is_digit(s[7]) && s[8] == '_'
    &&& is_digit(s[9]) && is_digit(s[10])
    &&& two_digits(s, 0) <= 23
    &&& two_digits(s, 3) <= 59
    &&& 1 <= two_digits(s, 6) <= 31
    &&& 1 <= two_digits(s, 9) <= 12
}

/// The name of the file for a report made at the time `stamp`.
pub open spec fn file_name_of(stamp: Seq<char>) -> Seq<char> {
    seq!['C', 'l', 'a', 'n', 's', '_'] + stamp + seq!['.', 't', 'x', 't']
}

/// What chrono writes for the instant `unix_seconds` seconds after the start
/// of 1970, in the zone that is `offset_seconds` seconds ahead of universal
/// time, with the pattern `pattern`; `None` where chrono has no such zone or
/// no such instant.
pub uninterp spec fn stamp_text_of(
    pattern: Seq<char>,
    unix_seconds: int,
    offset_seconds: int,
) -> Option<Seq<char>>;

/// The time as chrono writes it: `FixedOffset::east_opt` for the zone,
/// `DateTime::from_timestamp` for the instant, `DateTime::with_timezone` to
/// see the instant in the zone, `DateTime::format` with `pattern`, and
/// `DelayedFormat::write_to` for the text.
///
/// Not proved, and taken from chrono's source and its description of its
/// format. The text depends on the three arguments and on nothing else, so
/// it has a name. There is none where chrono refuses the zone (a day or more
/// from universal time) or the instant (outside the years that it counts).
/// With the pattern of `STAMP_FORMAT` a text is the hour, a hyphen, the
/// minute, a low line, the day, a low line and the month, each a number of
/// two digits in its range. Only that pattern is admitted.
#[verifier::external_body]
fn stamp_text(pattern: &str, unix_seconds: i64, offset_seconds: i32) -> (text: Option<String>)
    requires
        pattern@ == STAMP_FORMAT@,
    ensures
        text.deep_view() == stamp_text_of(pattern@, unix_seconds as int, offset_seconds as int),
        text is Some ==> is_clock_stamp(text->0@),
{
    let zone = chrono::FixedOffset::east_opt(offset_seconds)?;
    let instant = chrono::DateTime::from_timestamp(unix_seconds, 0)?;
    let mut text = String::new();
    instant.with_timezone(&zone).format(pattern).write_to(&mut text).ok()?;
    Some(text)
}

/// The name of the file for a report made at the time `stamp`.
pub fn report_file_name(stamp: &str) -> (name: String)
    ensures
        name@ == file_name_of(stamp@),
{
    proof {
        reveal_strlit("Clans_");
        reveal_strlit(".txt");
    }
    let mut name = String::from_str("Clans_");
    name.append(stamp);
    name.append(".txt");
    assert(name@ =~= file_name_of(stamp@));
    name
}

/// The name of the file for a report made at a given instant, if there is
/// one.
pub open spec fn file_name_at_of(unix_seconds: int, offset_seconds: int) -> Option<Seq<char>> {
    match stamp_text_of(STAMP_FORMAT@, unix_seconds, offset_seconds) {
        Some(stamp) => Some(file_name_of(stamp)),
        None => None,
    }
}

/// The name of the file for a report made `unix_seconds` seconds after the
/// start of 1970, by the clock of a zone that is `offset_seconds` seconds
/// ahead of universal time. There is a name wherever that time can be
/// written, and then it holds the hour, the minute, the day and the month.
pub fn file_name_at(unix_seconds: i64, offset_seconds: i32) -> (name: Option<String>)
    ensures
        name.deep_view() == file_name_at_of(unix_seconds as int, offset_seconds as int),
        name is Some ==> is_clock_stamp(
            stamp_text_of(STAMP_FORMAT@, unix_seconds as int, offset_seconds as int)->0,
        ),
        name is Some ==> name->0@.len() == 21,
{
    match stamp_text(STAMP_FORMAT, unix_seconds, offset_seconds) {
        Some(stamp) => Some(report_file_name(stamp.as_str())),
        None => None,
    }
}

} // verus!
