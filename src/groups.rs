//! The functional groups that the activity-coefficient model knows.
use vstd::prelude::*;

verus! {

/// The group ids that the model has parameters for.
pub open spec fn is_known_group(id: nat) -> bool {
    (1 <= id <= 109) || id == 118 || id == 119 || id == 178 || id == 179
}

/// Relies on unifac::FunctionalGroup::from: it builds a group for exactly the
/// ids above, whatever the amount, and refuses every other id.
#[verifier::external_body]
pub(crate) fn group_id_known(id: u8) -> (r: bool)
    ensures
        r == is_known_group(id as nat),
{
    unifac::FunctionalGroup::from(id, Default::default()).is_ok()
}

} // verus!
