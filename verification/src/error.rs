//! Why an operation failed.

use vstd::prelude::*;

verus! {

/// A failure that is told apart by its message alone.
#[derive(Debug, PartialEq, Eq)]
pub struct SchedulerError {
    pub message: String,
}

impl View for SchedulerError {
    type V = Seq<char>;

    open spec fn view(&self) -> Seq<char> {
        self.message@
    }
}

impl SchedulerError {
    /// A failure with this message.
    pub fn new(message: &str) -> (e: Self)
        ensures
            e@ == message@,
    {
        SchedulerError { message: message.to_owned() }
    }

    /// The message.
    pub fn to_string(&self) -> (s: String)
        ensures
            s@ == self@,
    {
        self.message.clone()
    }
}

} // verus!
