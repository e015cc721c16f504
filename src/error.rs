use vstd::prelude::*;

verus! {

/// Why a submission was rejected or could not be solved.
#[derive(Debug, Clone, Copy, PartialEq, Eq, Structural)]
pub enum DraftError {
    /// A field is empty, missing, unknown, out of order, or a team tag does
    /// not parse as an unsigned integer.
    InvalidData,
    /// The same participant name was submitted twice.
    DuplicateName,
    /// The members of `team` outnumber everyone outside it, so no
    /// assignment can exist.
    Infeasible { team: u32 },
    /// Every allowed attempt of the solver painted itself into a corner.
    SolveExhausted,
}

impl DraftError {
    /// A sentence that describes the error to a person.
    pub fn message(&self) -> (r: &'static str)
        ensures
            *self is InvalidData ==> r@ == "Invalid form data"@,
            *self is DuplicateName ==> r@ == "Member was already defined"@,
            *self is Infeasible ==> r@ == "Not enough possibilities"@,
            *self is SolveExhausted ==> r@ == "No assignment found within the attempt limit"@,
    {
        match self {
            DraftError::InvalidData => "Invalid form data",
            DraftError::DuplicateName => "Member was already defined",
            DraftError::Infeasible { .. } => "Not enough possibilities",
            DraftError::SolveExhausted => "No assignment found within the attempt limit",
        }
    }
}

} // verus!
