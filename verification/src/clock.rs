//! The wall clock, read through `chrono`.
//!
//! What the clock says depends on the moment of the call, so nothing is
//! promised of it; the callers take the value as it comes.
use vstd::prelude::*;

verus! {

/// The current UTC time in RFC 3339 form, from
/// `chrono::Utc::now().to_rfc3339()`. No property of the text is claimed.
#[verifier::external_body]
pub(crate) fn now_rfc3339() -> (r: String)
{
    chrono::Utc::now().to_rfc3339()
}

/// The current UTC date as `YYYY-MM-DD`, from
/// `chrono::Utc::now().format("%Y-%m-%d")`. No property of the text is
/// claimed.
#[verifier::external_body]
pub(crate) fn today_ymd() -> (r: String)
{
    chrono::Utc::now().format("%Y-%m-%d").to_string()
}

} // verus!
