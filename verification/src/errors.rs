use vstd::prelude::*;

verus! {

/// Declares the standard I/O error type so that `Error` can carry it; the
/// verified code never constructs or inspects one, it only passes it along
/// for the callers that do filesystem work.
#[verifier::external_type_specification]
#[verifier::external_body]
pub struct ExIoError(std::io::Error);

/// A business-rule violation, carrying a human-readable description.
#[derive(Debug)]
pub struct ValueError {
    description: String,
}

impl ValueError {
    /// The description text, as an abstract value.
    pub closed spec fn text(self) -> Seq<char> {
        self.description@
    }

    pub fn new(description: &str) -> (r: ValueError)
        ensures
            r.text() == description@,
    {
        ValueError { description: description.to_owned() }
    }

    /// The description text, for presentation code.
    pub fn message(&self) -> (r: &str)
        ensures
            r@ == self.text(),
    {
        self.description.as_str()
    }
}

/// The error taxonomy: filesystem failures, surfaced to the caller, and
/// business-rule violations, reported with a friendlier message.
#[derive(Debug)]
pub enum Error {
    Io(std::io::Error),
    Value(ValueError),
}

} // verus!
