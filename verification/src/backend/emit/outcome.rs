//! What a computation on inputs of any kind comes to.

use vstd::prelude::*;

verus! {

/// What a computation comes to: a result, an error, or an input that it does not
/// accept.
#[derive(Debug)]
pub enum Outcome<T> {
    /// A result.
    Done(T),
    /// An error.
    Fail(&'static str),
    /// Not accepted.
    Refused,
}

impl<T> Outcome<T> {
    /// The result or the error, for an input that is accepted.
    pub fn into_result(self) -> (r: Result<T, &'static str>)
        requires
            !(self is Refused),
        ensures
            match self {
                Outcome::Done(x) => r == Ok::<T, &'static str>(x),
                Outcome::Fail(e) => r == Err::<T, &'static str>(e),
                Outcome::Refused => false,
            },
    {
        match self {
            Outcome::Done(x) => Ok(x),
            Outcome::Fail(e) => Err(e),
            Outcome::Refused => Err(""),
        }
    }

    /// The input is accepted.
    pub fn is_accepted(&self) -> (b: bool)
        ensures
            b == !(self is Refused),
    {
        match self {
            Outcome::Refused => false,
            _ => true,
        }
    }
}

/// The outcome of a computation whose result is `r` on the inputs it accepts.
pub open spec fn outcome_of<T>(accepted: bool, r: Result<T, &'static str>) -> Outcome<T> {
    if !accepted {
        Outcome::Refused
    } else {
        match r {
            Ok(x) => Outcome::Done(x),
            Err(e) => Outcome::Fail(e),
        }
    }
}

} // verus!
