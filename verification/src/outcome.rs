//! Views of results.

use vstd::prelude::*;

verus! {

/// The view of a result: the view of what it holds if it is `Ok`, the error
/// itself if it is `Err`.
pub open spec fn result_view<T: DeepView, E>(result: Result<T, E>) -> Result<T::V, E> {
    match result {
        Ok(value) => Ok(value.deep_view()),
        Err(error) => Err(error),
    }
}

} // verus!
