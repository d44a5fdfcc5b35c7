//! Points in time, as texts write them.

use vstd::prelude::*;
use vstd::string::*;

verus! {

/// What a text is as a timestamp of the `jiff` crate: its nanoseconds since the epoch, and the text
/// that the timestamp is written as. Nothing where the text is no timestamp.
pub uninterp spec fn moment_of(text: Seq<char>) -> Option<(int, Seq<char>)>;

/// `str::parse::<jiff::Timestamp>`, and of the timestamp its nanoseconds and its `Display` form.
/// Parsing reads the text and nothing else, so one text always gives one answer; which texts parse,
/// and as what, is not said here.
#[verifier::external_body]
pub(crate) fn parse_moment(text: &str) -> (moment: Option<(i128, String)>)
    ensures
        match moment {
            Some((nanoseconds, written)) => moment_of(text@) == Some((nanoseconds as int, written@)),
            None => moment_of(text@) is None,
        },
{
    match text.parse::<jiff::Timestamp>() {
        Ok(stamp) => Some((stamp.as_nanosecond(), stamp.to_string())),
        Err(_) => None,
    }
}

/// Whether a text is a timestamp.
pub open spec fn is_timestamp(text: Seq<char>) -> bool {
    moment_of(text) is Some
}

/// The later of two points in time, where there are any.
pub open spec fn later_moment(
    a: Option<(int, Seq<char>)>,
    b: Option<(int, Seq<char>)>,
) -> Option<(int, Seq<char>)> {
    match (a, b) {
        (Some(x), Some(y)) => if x.0 > y.0 {
            a
        } else {
            b
        },
        (Some(_), None) => a,
        _ => b,
    }
}

} // verus!
