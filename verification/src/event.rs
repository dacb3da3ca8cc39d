//! The payload delivered by one raised event.

use vstd::prelude::*;

verus! {

/// Payload of one event occurrence: a single integer delta that each live
/// observer accumulates into its running total. Immutable once constructed;
/// it lives only for the duration of one `raise` call.
#[derive(Clone, Copy, PartialEq, Eq, Structural, Debug)]
pub struct TestEventArgs {
    pub value: i32,
}

impl TestEventArgs {
    pub fn new(value: i32) -> (r: Self)
        ensures
            r.value == value,
    {
        TestEventArgs { value }
    }
}

} // verus!
