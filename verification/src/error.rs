//! The error of reading or resolving a dependency.

use vstd::prelude::*;
use vstd::string::StringExecFns;

verus! {

/// Says in words what is wrong with a dependency.
#[derive(Debug, PartialEq, Eq)]
pub struct DependencyError {
    pub details: String,
}

impl DependencyError {
    /// An error about `subject`.
    pub fn new(problem: &str, subject: &str) -> (e: DependencyError)
        ensures
            e.details@ == problem@ + subject@,
    {
        let mut details = String::new();
        details.append(problem);
        details.append(subject);
        proof {
            assert(details@ =~= problem@ + subject@);
        }
        DependencyError { details }
    }
}

} // verus!
