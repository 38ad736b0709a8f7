//! How long ago something was.

use crate::db::DateTimeAsMicroseconds;
use vstd::prelude::*;

verus! {

/// How many milliseconds ago a moment was, rounded. A moment stamped a microsecond
/// after `now` was read is not "-0.000001 seconds ago", so what is not over yet
/// was just now.
pub open spec fn time_ago(now: DateTimeAsMicroseconds, moment: DateTimeAsMicroseconds) -> int {
    let micros = now.unix_microseconds - moment.unix_microseconds;
    if micros <= 0 {
        0
    } else {
        (micros + 500) / 1000
    }
}

/// How many milliseconds ago a moment was, rounded.
///
/// A number rather than a rendered duration: what a caller does with it is
/// compare it against a threshold.
pub fn millis_ago(now: DateTimeAsMicroseconds, moment: DateTimeAsMicroseconds) -> (r: u64)
    ensures
        r == time_ago(now, moment),
{
    let micros: i128 = now.unix_microseconds as i128 - moment.unix_microseconds as i128;
    if micros <= 0 {
        return 0;
    }
    ((micros + 500) / 1000) as u64
}

}
