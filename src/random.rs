use rand::seq::SliceRandom;
use vstd::prelude::*;

verus! {

/// Relies on rand's `SliceRandom::choose`, drawn from the thread-local
/// generator: `None` for an empty slice, otherwise one of its elements.
#[verifier::external_body]
pub(crate) fn choose_one<T: Copy>(items: &Vec<T>) -> (r: Option<T>)
    ensures
        r is None <==> items@.len() == 0,
        r matches Some(x) ==> items@.contains(x),
{
    items.as_slice().choose(&mut rand::thread_rng()).copied()
}

} // verus!
