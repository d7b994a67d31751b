use vstd::prelude::*;

verus! {

/// The format of every time that jobs and contests carry, such as
/// `2022-08-27T02:05:29.000Z`.
pub open spec fn time_format() -> Seq<char> {
    "%Y-%m-%dT%H:%M:%S%.3fZ"@
}

/// What chrono's `NaiveDateTime::parse_from_str(text, format)` gives back for
/// `text` read in `format`: none when the text does not match, else the time
/// as whole seconds since the Unix epoch and the nanoseconds within that
/// second (a pair that orders times as they follow each other).
pub uninterp spec fn parsed_datetime(text: Seq<char>, format: Seq<char>) -> Option<(i64, u32)>;

/// Calls chrono's `NaiveDateTime::parse_from_str`; the contract only names
/// the result, which depends on the two strings alone. A parsed time is
/// handed back as its seconds and nanoseconds in UTC, which stand for it one
/// for one.
#[verifier::external_body]
fn parse_datetime(text: &str, format: &str) -> (r: Option<(i64, u32)>)
    ensures
        r == parsed_datetime(text@, format@),
{
    match chrono::NaiveDateTime::parse_from_str(text, format) {
        Ok(t) => Some((t.and_utc().timestamp(), t.and_utc().timestamp_subsec_nanos())),
        Err(_) => None,
    }
}

/// Reads a time written in the job and contest format.
pub fn parse_time(text: &str) -> (r: Option<(i64, u32)>)
    ensures
        r == parsed_datetime(text@, time_format()),
{
    parse_datetime(text, "%Y-%m-%dT%H:%M:%S%.3fZ")
}

/// Whether time `a` is strictly before time `b`.
pub open spec fn time_lt(a: (i64, u32), b: (i64, u32)) -> bool {
    a.0 < b.0 || (a.0 == b.0 && a.1 < b.1)
}

/// Compares two times read by `parse_time`.
pub fn time_before(a: (i64, u32), b: (i64, u32)) -> (r: bool)
    ensures
        r == time_lt(a, b),
{
    a.0 < b.0 || (a.0 == b.0 && a.1 < b.1)
}

/// Calls chrono's `Utc::now().format(format).to_string()`: the current UTC
/// time written in `format`. Which time it is depends on the clock, so the
/// contract does not say; it says that the text reads back as a time in the
/// same format, as chrono's formatting and parsing of these fields are
/// written to match (the clock gives no leap second).
#[verifier::external_body]
fn format_now(format: &str) -> (r: String)
    requires
        format@ == time_format(),
    ensures
        parsed_datetime(r@, time_format()) is Some,
{
    chrono::prelude::Utc::now().format(format).to_string()
}

/// The current time in the job and contest format.
pub fn now_time_string() -> (r: String)
    ensures
        parsed_datetime(r@, time_format()) is Some,
{
    format_now("%Y-%m-%dT%H:%M:%S%.3fZ")
}

} // verus!
