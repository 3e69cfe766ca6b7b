//! The clock and fresh identifiers: results that depend on time or chance.
use vstd::prelude::*;

verus! {

/// The current time in UTC as an RFC 3339 string (chrono `Utc::now().to_rfc3339()`).
/// Nothing is promised about the result: it depends on the clock.
#[verifier::external_body]
pub(crate) fn now_utc_rfc3339() -> (r: String) {
    chrono::Utc::now().to_rfc3339()
}

/// The current local time as an RFC 3339 string (chrono `Local::now().to_rfc3339()`).
/// Nothing is promised about the result: it depends on the clock.
#[verifier::external_body]
pub(crate) fn now_local_rfc3339() -> (r: String) {
    chrono::Local::now().to_rfc3339()
}

/// A lower-case hexadecimal digit.
pub open spec fn is_lower_hex(c: char) -> bool {
    (48 <= (c as u32) && (c as u32) <= 57) || (97 <= (c as u32) && (c as u32) <= 102)
}

/// The hyphenated lower-case text of a version 4 UUID: 36 characters in
/// groups of 8, 4, 4, 4 and 12 hexadecimal digits joined by `-`, the version
/// digit `4` at index 14 and a variant digit `8`, `9`, `a` or `b` at index 19.
pub open spec fn is_uuid_v4_text(s: Seq<char>) -> bool {
    &&& s.len() == 36
    &&& forall|i: int|
        0 <= i < 36 ==> (if i == 8 || i == 13 || i == 18 || i == 23 {
            #[trigger] s[i] == '-'
        } else {
            is_lower_hex(s[i])
        })
    &&& s[14] == '4'
    &&& (s[19] == '8' || s[19] == '9' || s[19] == 'a' || s[19] == 'b')
}

/// A fresh random identifier: a version 4 UUID in its hyphenated lower-case
/// form (uuid `Uuid::new_v4().to_string()`). Its value depends on chance and
/// is not promised to differ from any other.
pub fn generate_uuid() -> (r: String)
    ensures
        is_uuid_v4_text(r@),
{
    new_uuid_v4()
}

/// uuid `Uuid::new_v4().to_string()`: `new_v4` sets the version bits to 4 and
/// the variant bits to `10`, and `Display` writes the hyphenated lower-case
/// form (see `is_uuid_v4_text`); the other digits are random.
#[verifier::external_body]
fn new_uuid_v4() -> (r: String)
    ensures
        is_uuid_v4_text(r@),
{
    uuid::Uuid::new_v4().to_string()
}

/// The instant an RFC 3339 timestamp denotes, as whole seconds since the Unix
/// epoch and nanoseconds within the second, or nothing when the text is not
/// such a timestamp (chrono `DateTime::parse_from_rfc3339`; a function of the text alone).
pub uninterp spec fn rfc3339_instant(s: Seq<char>) -> Option<(i64, u32)>;

/// chrono `DateTime::parse_from_rfc3339`, read as `(timestamp(), timestamp_subsec_nanos())`.
#[verifier::external_body]
pub(crate) fn parse_rfc3339_instant(s: &str) -> (r: Option<(i64, u32)>)
    ensures
        r == rfc3339_instant(s@),
{
    match chrono::DateTime::parse_from_rfc3339(s) {
        Ok(t) => Some((t.timestamp(), t.timestamp_subsec_nanos())),
        Err(_) => None,
    }
}

/// The instant `days` calendar days before now in local time, as seconds and
/// nanoseconds (chrono `Local::now().checked_sub_days(Days::new(days))`).
/// It depends on the clock and the time zone: nothing is promised, and it is
/// absent where chrono gives none (out of range, or a local time that a
/// daylight saving change skips or repeats).
#[verifier::external_body]
pub(crate) fn local_days_ago_instant(days: u32) -> (r: Option<(i64, u32)>) {
    match chrono::Local::now().checked_sub_days(chrono::Days::new(days as u64)) {
        Some(t) => Some((t.timestamp(), t.timestamp_subsec_nanos())),
        None => None,
    }
}

/// The local date `days` calendar days before now, as `YYYY-MM-DD` (chrono
/// `Local::now().checked_sub_days(..)` formatted with `%Y-%m-%d`). It depends on
/// the clock and the time zone: nothing is promised, and it is absent where
/// chrono gives no such day.
#[verifier::external_body]
pub(crate) fn local_date_days_ago(days: u32) -> (r: Option<String>) {
    match chrono::Local::now().checked_sub_days(chrono::Days::new(days as u64)) {
        Some(t) => Some(t.format("%Y-%m-%d").to_string()),
        None => None,
    }
}

/// The local date of an RFC 3339 timestamp, as `YYYY-MM-DD` (chrono
/// `parse_from_rfc3339`, then `with_timezone(&Local)` formatted with
/// `%Y-%m-%d`). It depends on the time zone: nothing is promised of the date;
/// it is absent exactly when the text is not such a timestamp.
#[verifier::external_body]
pub(crate) fn local_date_of(s: &str) -> (r: Option<String>)
    ensures
        r is Some <==> rfc3339_instant(s@) is Some,
{
    match chrono::DateTime::parse_from_rfc3339(s) {
        Ok(t) => Some(t.with_timezone(&chrono::Local).format("%Y-%m-%d").to_string()),
        Err(_) => None,
    }
}

} // verus!
