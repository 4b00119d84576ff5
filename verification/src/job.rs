//! How a job ends.

use vstd::prelude::*;

verus! {

/// The completion state of a job: it finished with a result, or it was
/// cancelled. A cancelled job hands over no partial result.
#[derive(Debug)]
pub enum JobCompletion<R> {
    Finished(R),
    Cancelled,
}

/// The result of a job: a value that the job's submitter can name.
pub trait JobResult: Sized {
    /// The completion of a job that ran to its end with this result.
    fn finished(self) -> (c: JobCompletion<Self>)
        ensures
            c == JobCompletion::Finished(self),
    ;
}

impl<R> JobCompletion<R> {
    /// The completion of a job that raced against its cancellation. Where
    /// the cancellation came first there is no result to hand over, and the
    /// job counts as cancelled whatever it computed since.
    pub fn resolve(cancelled_first: bool, result: Option<R>) -> (c: Self)
        ensures
            c == match result {
                Some(r) if !cancelled_first => JobCompletion::Finished(r),
                _ => JobCompletion::Cancelled,
            },
    {
        if cancelled_first {
            JobCompletion::Cancelled
        } else {
            match result {
                Some(r) => JobCompletion::Finished(r),
                None => JobCompletion::Cancelled,
            }
        }
    }

    /// Whether the job was cancelled.
    pub fn is_cancelled(&self) -> (b: bool)
        ensures
            b == (*self is Cancelled),
    {
        match self {
            JobCompletion::Cancelled => true,
            JobCompletion::Finished(_) => false,
        }
    }

    /// The result, where the job finished.
    pub fn into_result(self) -> (r: Option<R>)
        ensures
            r == match self {
                JobCompletion::Finished(x) => Some(x),
                JobCompletion::Cancelled => None,
            },
    {
        match self {
            JobCompletion::Finished(x) => Some(x),
            JobCompletion::Cancelled => None,
        }
    }
}

impl JobResult for bool {
    fn finished(self) -> (c: JobCompletion<bool>) {
        JobCompletion::Finished(self)
    }
}

} // verus!
