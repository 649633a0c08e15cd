//! Progress reporting: the interval gate that triggers periodic reports
//! and summary requests, and the elapsed-time rendering they use.

use vstd::prelude::*;
use vstd::string::*;

use crate::decimal::{dec_pad2, u64_dec_pad2};

verus! {

/// How many seconds pass between progress reports and summary requests.
pub const PROGRESS_LOG_INTERVAL_SECS: u64 = 30;

/// The `"HH:MM:SS"` rendering of a duration, each part zero-filled to two
/// digits (hours may take more).
pub open spec fn duration_display(secs: nat) -> Seq<char> {
    dec_pad2(secs / 3600) + ":"@ + dec_pad2((secs % 3600) / 60) + ":"@ + dec_pad2(secs % 60)
}

/// Renders a duration in seconds as `"HH:MM:SS"`.
pub fn format_duration(seconds: u64) -> (r: String)
    ensures
        r@ == duration_display(seconds as nat),
{
    let hours = seconds / 3600;
    let minutes = (seconds % 3600) / 60;
    let secs = seconds % 60;
    let mut s = u64_dec_pad2(hours);
    s.append(":");
    let m = u64_dec_pad2(minutes);
    s.append(m.as_str());
    s.append(":");
    let sec = u64_dec_pad2(secs);
    s.append(sec.as_str());
    s
}

/// Decides whether to emit a progress report and ask the summary
/// collaborator to recompute now: when the configured interval has passed
/// since the last report, and always at end of stream.
pub fn should_log_progress(sec_since_last_log: u64, at_end_of_stream: bool) -> (r: bool)
    ensures
        r == (sec_since_last_log >= PROGRESS_LOG_INTERVAL_SECS || at_end_of_stream),
{
    sec_since_last_log >= PROGRESS_LOG_INTERVAL_SECS || at_end_of_stream
}

}
