//! The time of day, as far as the search needs it.

use chrono::{Timelike, Utc};
use vstd::prelude::*;

verus! {

/// chrono's `Utc::now().time().minute()`: the minute of the current hour.
/// Its documentation gives the range 0 to 59; nothing else is claimed.
#[verifier::external_body]
pub(crate) fn current_minute() -> (minute: u32)
    ensures
        minute < 60,
{
    Utc::now().time().minute()
}

} // verus!
