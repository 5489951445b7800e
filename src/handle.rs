//! Decisions that the application side makes before it talks to the worker.
use vstd::prelude::*;

verus! {

/// Builds an update only when some client is listening: with no live
/// connection `factory` is not called at all and nothing is returned, so no
/// work is spent on a tree that nobody reads.
pub fn build_update_if_active<U, F: FnOnce() -> U>(active: usize, factory: F) -> (r: Option<U>)
    requires
        active > 0 ==> call_requires(factory, ()),
    ensures
        active == 0 ==> r is None,
        active > 0 ==> (r matches Some(u) && call_ensures(factory, (), u)),
{
    if active == 0 {
        return None;
    }
    Some(factory())
}

} // verus!
