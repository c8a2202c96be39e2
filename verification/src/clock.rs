//! The date of the day, from the `chrono` crate.
//!
//! Nothing here is proved, and nothing is stated either: what day it is
//! is for the machine to say.

use vstd::prelude::*;

verus! {

/// `chrono::Local::now`, written with `format("%Y%m%d")`: the date of
/// today in the machine's time zone, as year, month and day without
/// anything between them. Two calls may differ.
#[verifier::external_body]
pub(crate) fn local_date_stamp() -> String {
    chrono::Local::now().format("%Y%m%d").to_string()
}

} // verus!
