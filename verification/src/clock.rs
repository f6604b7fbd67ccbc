//! The anchor of the schedule: the configured civil date and time made
//! absolute with the local UTC offset captured once, when asked.

use crate::calendar::civil_timestamp;
use crate::calendar::civil_timestamp_of;
use crate::config::{valid_config, Config};
use vstd::prelude::*;

verus! {

/// Relies on time::UtcOffset::current_local_offset and whole_seconds:
/// a UtcOffset stores at most twenty-five hours, fifty-nine minutes and
/// fifty-nine seconds either side of UTC, so its whole seconds lie
/// within that many seconds of zero. Falls back to UTC when the
/// platform cannot determine the local offset.
#[verifier::external_body]
fn local_offset_seconds() -> (r: i32)
    ensures
        -93599 <= r <= 93599,
{
    time::UtcOffset::current_local_offset().map(time::UtcOffset::whole_seconds).unwrap_or(0)
}

/// The starting instant of the schedule: the configured date and time
/// anchored at the local UTC offset captured now. Returns the Unix
/// timestamp together with the captured offset in seconds east of UTC,
/// so that display can use the same anchor.
pub fn anchored_start(c: &Config) -> (r: (i64, i32))
    requires
        valid_config(*c),
    ensures
        -93599 <= r.1 <= 93599,
        r.0 as int == civil_timestamp(
            c.year as int,
            c.month as int,
            c.day as int,
            c.hour as int,
            c.minute as int,
            c.second as int,
            r.1 as int,
        ),
{
    let off = local_offset_seconds();
    let t = civil_timestamp_of(c.year, c.month, c.day, c.hour, c.minute, c.second, off);
    (t, off)
}

} // verus!
