use vstd::prelude::*;

verus! {

/// Relies on `rand::rng` and `rand::RngExt::random_range`: sampling the
/// inclusive range `1..=max` panics only when the range is empty (ruled out
/// by `max >= 1`) and otherwise returns a value inside the range. Nothing
/// more is assumed of the draw.
#[verifier::external_body]
pub(crate) fn roll_die(max: u8) -> (r: u8)
    requires
        1 <= max,
    ensures
        1 <= r <= max,
{
    rand::RngExt::random_range(&mut rand::rng(), 1..=max)
}

} // verus!
