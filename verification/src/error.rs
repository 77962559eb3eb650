//! The failures that the engine reports.

use vstd::prelude::*;

verus! {

/// Why an operation of the engine failed.
#[derive(Debug, Clone, Copy, PartialEq, Eq, Structural)]
pub enum Error {
    /// A weighted choice was asked for among candidates whose weights sum
    /// to zero or less: no candidate can be drawn.
    Sampling,
    /// The chain store could not carry out an update: a transition count
    /// has reached the largest value that the store can hold.
    Storage,
}

impl Error {
    /// A short description of the failure.
    pub fn message(&self) -> (text: String)
        ensures
            text@ == (match *self {
                Error::Sampling => "Failed to get a random entry"@,
                Error::Storage => "Failed to update a chain entry"@,
            }),
    {
        match self {
            Error::Sampling => "Failed to get a random entry".to_owned(),
            Error::Storage => "Failed to update a chain entry".to_owned(),
        }
    }
}

/// The first failure among `results`, in their order, if there is one.
pub open spec fn first_failure<E>(results: Seq<Result<(), E>>) -> Option<E>
    decreases results.len(),
{
    if results.len() == 0 {
        None
    } else {
        match results.first() {
            Err(e) => Some(e),
            Ok(_) => first_failure(results.drop_first()),
        }
    }
}

/// The outcome of a batch of operations that all ran to completion: the
/// first failure in the order of the batch, or success where none failed.
pub fn first_error<E>(results: Vec<Result<(), E>>) -> (outcome: Result<(), E>)
    ensures
        outcome == (match first_failure(results@) {
            Some(e) => Err::<(), E>(e),
            None => Ok(()),
        }),
{
    let mut results = results;
    let ghost all = results@;
    let mut found: Option<E> = None;
    // The batch is taken apart from its end, so the failure that is kept
    // last is the first of the batch.
    while results.len() > 0
        invariant
            results@.len() <= all.len(),
            results@ == all.take(results@.len() as int),
            found == first_failure(all.skip(results@.len() as int)),
        decreases results@.len(),
    {
        let ghost n = results@.len() as int;
        let last = results.pop();
        proof {
            assert(all.skip(n - 1).drop_first() =~= all.skip(n));
            assert(all.skip(n - 1).first() == all[n - 1]);
            assert(results@ =~= all.take(n - 1));
        }
        match last {
            Some(Err(e)) => {
                found = Some(e);
            },
            _ => {},
        }
    }
    proof {
        assert(all.skip(0) =~= all);
    }
    match found {
        Some(e) => Err(e),
        None => Ok(()),
    }
}

} // verus!
