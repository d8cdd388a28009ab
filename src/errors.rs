use vstd::prelude::*;

verus! {

/// Kind of failure raised while computing with values.
#[derive(Clone, Copy, Debug, PartialEq, Eq, Structural)]
pub enum ErrorType {
    DivisionByZero,
    IncompatibleUnits,
    Other,
}

/// A failure raised while computing with values, with a readable description.
#[derive(Clone, Debug)]
pub struct ValComputeError {
    pub desc: String,
    pub err_type: ErrorType,
}

impl ValComputeError {
    pub fn new(desc: String, err_type: ErrorType) -> (r: Self)
        ensures
            r.desc@ == desc@,
            r.err_type == err_type,
    {
        ValComputeError { desc, err_type }
    }
}

} // verus!

verus! {

/// A failure of an evaluation, with a readable description.
#[derive(Clone, Debug)]
pub struct ParseError {
    desc: String,
}

impl ParseError {
    pub fn new(desc: String) -> (r: Self)
        ensures
            r.description()@ == desc@,
    {
        ParseError { desc }
    }

    pub closed spec fn description(&self) -> String {
        self.desc
    }

    /// The description, as shown to a user.
    pub fn desc(&self) -> (r: &String)
        ensures
            r@ == self.description()@,
    {
        &self.desc
    }
}

} // verus!
