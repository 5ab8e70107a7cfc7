//! Failures of deriving a ROS type description for a message type.
use vstd::prelude::*;
use crate::text::cat;

verus! {

/// Failure to derive a ROS type description from an arora type, with what
/// went wrong.
#[derive(Debug, Clone, PartialEq, Eq)]
pub struct Error(String);

impl Error {
    /// What went wrong.
    pub closed spec fn message(&self) -> Seq<char> {
        self.0@
    }

    /// The failure described by `message`.
    pub fn new(message: String) -> (e: Error)
        ensures
            e.message() == message@,
    {
        Error(message)
    }

    /// The message, as `Display` would render it: `ros type hash: ` and what
    /// went wrong.
    pub fn to_string(&self) -> (s: String)
        ensures
            s@ == "ros type hash: "@ + self.message(),
    {
        cat("ros type hash: ", self.0.as_str())
    }
}

} // verus!
