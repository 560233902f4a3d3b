use vstd::prelude::*;

use crate::scheduler::Outcome;

verus! {

/// The error a producer returns: fatal, or to be retried after a delay.
pub struct Error {
    pub message: String,
    pub retry_in: Option<std::time::Duration>,
}

impl Error {
    /// The node failed and must not be retried.
    pub fn fatal(message: String) -> (r: Self)
        ensures
            r.message == message,
            r.retry_in is None,
    {
        Error { message, retry_in: None }
    }

    /// The node failed and should be run again after `retry_in`.
    pub fn with_retry(message: String, retry_in: std::time::Duration) -> (r: Self)
        ensures
            r.message == message,
            r.retry_in == Some(retry_in),
    {
        Error { message, retry_in: Some(retry_in) }
    }
}

/// What the scheduler is told of a producer's result.
pub fn outcome<P>(result: Result<P, Error>) -> (r: Outcome<P>)
    ensures
        match result {
            Ok(p) => r == Outcome::Produced(p),
            Err(e) => match e.retry_in {
                Some(d) => r == Outcome::<P>::RetryAfter(d),
                None => r == Outcome::<P>::Failed(e.message),
            },
        },
{
    match result {
        Ok(p) => Outcome::Produced(p),
        Err(e) => match e.retry_in {
            Some(d) => Outcome::RetryAfter(d),
            None => Outcome::Failed(e.message),
        },
    }
}

} // verus!
