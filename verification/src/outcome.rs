//! What a call came to.

use crate::rejection::Rejection;
use crate::value::Value;
use vstd::prelude::*;

verus! {

/// What a call came to: a commit at a position, no change, or a refusal. A refusal is
/// an outcome, not a failure of the engine.
#[derive(Debug)]
pub enum CallOutcome {
    Committed { seq: u64, response: Option<Value> },
    Unchanged { response: Option<Value> },
    Rejected(Rejection),
}

/// The refusal of an outcome.
pub open spec fn refusal_in(o: CallOutcome) -> Option<Rejection> {
    match o {
        CallOutcome::Rejected(r) => Some(r),
        _ => None,
    }
}

/// The position an outcome committed at.
pub open spec fn position_in(o: CallOutcome) -> Option<u64> {
    match o {
        CallOutcome::Committed { seq, .. } => Some(seq),
        _ => None,
    }
}

/// The response an outcome carries.
pub open spec fn response_in(o: CallOutcome) -> Option<Value> {
    match o {
        CallOutcome::Committed { response, .. } => response,
        CallOutcome::Unchanged { response } => response,
        CallOutcome::Rejected(_) => None,
    }
}

impl CallOutcome {
    /// The refusal, if the call was refused.
    pub fn rejection(&self) -> (r: Option<&Rejection>)
        ensures
            match r {
                Some(e) => refusal_in(*self) == Some(*e),
                None => refusal_in(*self) is None,
            },
    {
        match self {
            CallOutcome::Rejected(rejection) => Some(rejection),
            _ => None,
        }
    }

    /// The position, if the call committed.
    pub fn committed_at(&self) -> (r: Option<u64>)
        ensures
            r == position_in(*self),
    {
        match self {
            CallOutcome::Committed { seq, .. } => Some(*seq),
            _ => None,
        }
    }

    /// The response, if there is one.
    pub fn response(&self) -> (r: Option<&Value>)
        ensures
            match r {
                Some(v) => response_in(*self) == Some(*v),
                None => response_in(*self) is None,
            },
    {
        match self {
            CallOutcome::Committed { response, .. } => response.as_ref(),
            CallOutcome::Unchanged { response } => response.as_ref(),
            CallOutcome::Rejected(_) => None,
        }
    }
}

} // verus!
