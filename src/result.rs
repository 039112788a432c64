use vstd::prelude::*;

verus! {

/// The fatal error of a parse: bytes of a textual span that are not UTF-8.
#[derive(PartialEq, Eq, Debug, Clone)]
pub enum MarkdownError {
    ParseError(String),
}

/// A result that may carry a value together with an error that came after it.
pub enum PartialResult<T, E1, E2> {
    Success(T),
    PartialSuccess(T, E1),
    Failure(E2),
}

impl<T, E1, E2> PartialResult<T, E1, E2> {
    /// Keeps the value, if there is one, and drops a trailing error.
    pub fn to_result(self) -> (r: Result<T, E2>)
        ensures
            match self {
                PartialResult::Success(v) => r == Ok::<T, E2>(v),
                PartialResult::PartialSuccess(v, _) => r == Ok::<T, E2>(v),
                PartialResult::Failure(e) => r == Err::<T, E2>(e),
            },
    {
        match self {
            PartialResult::Success(value) => Ok(value),
            PartialResult::PartialSuccess(value, _) => Ok(value),
            PartialResult::Failure(e) => Err(e),
        }
    }
}

} // verus!
