//! Timestamps: blocks carry their creation and update instants as RFC 3339
//! text, the round-trip-safe encoding the table stores. The `chrono` crate
//! supplies the current instant and the strict validity check; whether a
//! given text is valid RFC 3339 is named by `rfc3339_valid`.

use vstd::prelude::*;

verus! {

/// Whether `chrono::DateTime::parse_from_rfc3339` accepts `s`. Parsing is a
/// pure function of the characters alone.
pub uninterp spec fn rfc3339_valid(s: Seq<char>) -> bool;

/// A timestamp with timezone, held in its stored text encoding.
#[derive(Debug)]
pub struct UtcTime {
    pub rfc3339: String,
}

impl Clone for UtcTime {
    fn clone(&self) -> (r: Self)
        ensures
            r == *self,
    {
        UtcTime { rfc3339: self.rfc3339.clone() }
    }
}

impl UtcTime {
    /// Whether the held text is valid RFC 3339.
    pub open spec fn wf(&self) -> bool {
        rfc3339_valid(self.rfc3339@)
    }
}

/// Relies on `chrono::Utc::now` and `DateTime::to_rfc3339`: the current
/// instant, rendered as RFC 3339 text. The instant depends on the machine's
/// clock, and for clock values past the year 9999 the rendering uses an
/// expanded year that the strict parser refuses, so nothing is stated of the
/// result.
#[verifier::external_body]
pub(crate) fn now_rfc3339() -> UtcTime {
    UtcTime { rfc3339: chrono::Utc::now().to_rfc3339() }
}

/// Relies on `chrono::DateTime::parse_from_rfc3339`: whether it accepts `s`
/// depends on the characters alone.
#[verifier::external_body]
pub(crate) fn is_valid_rfc3339(s: &str) -> (r: bool)
    ensures
        r == rfc3339_valid(s@),
{
    chrono::DateTime::parse_from_rfc3339(s).is_ok()
}

} // verus!
