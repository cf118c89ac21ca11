//! The one source of chance: the radius of a new ball.

use vstd::prelude::*;
use rand::Rng;

verus! {

/// Draws an integer from `low..high` with the thread's generator, by
/// `rand::thread_rng()` and `Rng::gen_range`. Of the result the contract
/// claims only what holds of every draw: it lies in the range. An empty
/// range makes `gen_range` panic, so it is not admitted. The generator
/// itself panics where the system cannot seed it, whatever the range.
#[verifier::external_body]
pub(crate) fn uniform_in(low: i64, high: i64) -> (r: i64)
    requires
        low < high,
    ensures
        low <= r < high,
{
    rand::thread_rng().gen_range(low..high)
}

} // verus!
