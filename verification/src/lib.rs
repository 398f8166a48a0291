//! A minimal window-manager fragment: it adopts newly created client windows
//! into frame windows it owns and rewrites keyboard input delivered to them
//! according to a configurable remap table.
//!
//! The crate holds the decision logic: the remap-table format, the
//! window-acceptance filter, the bookkeeping of key grabs and screen
//! registrations, and the adoption state machine that pairs client windows
//! with frames and drives the two-phase teardown. The display-server calls
//! themselves are issued by the embedding program, which executes the
//! [`xbridge::Command`] values the state machine hands back.

use vstd::prelude::*;
use vstd::std_specs::cmp::PartialEqSpec;

pub mod assoc;
pub mod child_process;
pub mod key_map;
pub mod rebind;
pub mod xbridge;

verus! {

/// True when `value` passes an optional equality filter: a filter of `None`
/// matches anything, a filter of `Some(f)` matches exactly a value of
/// `Some(v)` with `v == f`.
pub open spec fn spec_matches_filter<P: PartialEq>(filter: Option<P>, value: Option<P>) -> bool {
    match filter {
        Some(filter_val) => match value {
            Some(value_val) => value_val.eq_spec(&filter_val),
            None => false,
        },
        None => true,
    }
}

/// Decides one clause of the window-acceptance predicate: `None` as the
/// filter means "match anything", otherwise the value must be present and
/// equal to the filter value.
pub fn matches_filter<P: PartialEq>(filter: Option<P>, value: Option<P>) -> (r: bool)
    ensures
        P::obeys_eq_spec() ==> r == spec_matches_filter(filter, value),
{
    if let Some(filter_val) = filter {
        match value {
            Some(value) => value == filter_val,
            None => false,
        }
    } else {
        true
    }
}

} // verus!
