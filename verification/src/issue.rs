//! Every repository consists of items (issues): topics or problems for
//! debate, discussion and resolution, whose state is reduced from their
//! records

use vstd::prelude::*;
use crate::reducers::{Reducer, IssueState, BasicIssueReducer, reduce_with_reducer, reduce_all, accepts_all,
    initial_state, opt_view, flatten_generations};
use crate::repository::Record;

verus! {

/// Error of a reduction: the error of listing the records
pub enum ReductionError<E> {
    /// The records could not be listed
    ImplementationError(E),
}

/// Reduces an item with `reducer`, given the outcome of listing its records
/// by generations; the item's identifier goes into the initial state
pub fn reduce_listing<R: Reducer<State = IssueState, Item = Record>, E>(reducer: &R, id: Option<String>,
    listing: Result<Vec<Vec<Record>>, E>) -> (r: Result<IssueState, ReductionError<E>>)
    requires
        listing matches Ok(g) ==> accepts_all(*reducer, initial_state(opt_view(id)), flatten_generations(g@)),
    ensures
        match listing {
            Ok(g) => r matches Ok(s) && s@ == reduce_all(*reducer, initial_state(opt_view(id)), flatten_generations(g@)),
            Err(e) => r == Err::<IssueState, ReductionError<E>>(ReductionError::ImplementationError(e)),
        },
{
    match listing {
        Ok(g) => Ok(reduce_with_reducer(reducer, id, &g)),
        Err(e) => Err(ReductionError::ImplementationError(e)),
    }
}

/// Reduces an item with the basic reducer (merge requests, comments,
/// closure, summary and details)
pub fn reduce_basic<E>(id: Option<String>, listing: Result<Vec<Vec<Record>>, E>) -> (r: Result<IssueState, ReductionError<E>>)
    requires
        listing matches Ok(g) ==> accepts_all(BasicIssueReducer::new_spec(), initial_state(opt_view(id)), flatten_generations(g@)),
    ensures
        match listing {
            Ok(g) => r matches Ok(s) && s@ == reduce_all(BasicIssueReducer::new_spec(), initial_state(opt_view(id)), flatten_generations(g@)),
            Err(e) => r == Err::<IssueState, ReductionError<E>>(ReductionError::ImplementationError(e)),
        },
{
    let reducer = BasicIssueReducer::new();
    reduce_listing(&reducer, id, listing)
}

} // verus!
