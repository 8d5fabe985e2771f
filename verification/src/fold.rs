//! Taking things in one after another.
use vstd::prelude::*;

verus! {

/// What one thing after another makes of a state, until one of them is refused.
pub open spec fn each<S, T, E>(
    s: S,
    items: Seq<T>,
    one: spec_fn(S, T) -> Result<S, E>,
) -> Result<S, E>
    decreases items.len(),
{
    if items.len() == 0 {
        Ok(s)
    } else {
        match one(s, items[0]) {
            Err(e) => Err(e),
            Ok(next) => each(next, items.drop_first(), one),
        }
    }
}

} // verus!
