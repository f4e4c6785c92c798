//! Random numbers, drawn from the `rand` crate's generator of the current
//! thread. Nothing here is proved.

use vstd::prelude::*;

use rand::Rng;

verus! {

/// `Rng::gen_range` on `rand::thread_rng()`, with the half-open range from
/// `low` to `high`: the number drawn lies in that range. The call panics on an
/// empty range, so `low < high` is asked for. Two draws need not agree.
#[verifier::external_body]
pub(crate) fn random_between(low: u16, high: u16) -> (drawn: u16)
    requires
        low < high,
    ensures
        low <= drawn < high,
{
    rand::thread_rng().gen_range(low..high)
}

} // verus!
