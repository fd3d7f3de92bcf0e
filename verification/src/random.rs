use rand::Rng;
use vstd::prelude::*;

verus! {

/// The thread-local generator of the `rand` crate.
#[verifier::external_type_specification]
#[verifier::external_body]
pub struct ExThreadRng(rand::rngs::ThreadRng);

/// Calls `rand::thread_rng`, which hands out a handle on the thread's generator.
/// Nothing is claimed of the handle.
#[verifier::external_body]
pub(crate) fn thread_rng() -> rand::rngs::ThreadRng {
    rand::thread_rng()
}

/// Calls `Rng::gen_range` for `usize`: its documentation promises a value in
/// `low..high` and a panic when `low >= high`, which `requires` rules out.
/// Which value comes is left to chance and is not stated.
#[verifier::external_body]
pub(crate) fn gen_range_usize(rng: &mut rand::rngs::ThreadRng, low: usize, high: usize) -> (r: usize)
    requires
        low < high,
    ensures
        low <= r < high,
{
    rng.gen_range(low, high)
}

/// Calls `Rng::gen_range` for `i32`: its documentation promises a value in
/// `low..high` and a panic when `low >= high`, which `requires` rules out.
/// Which value comes is left to chance and is not stated.
#[verifier::external_body]
pub(crate) fn gen_range_i32(rng: &mut rand::rngs::ThreadRng, low: i32, high: i32) -> (r: i32)
    requires
        low < high,
    ensures
        low <= r < high,
{
    rng.gen_range(low, high)
}

} // verus!
