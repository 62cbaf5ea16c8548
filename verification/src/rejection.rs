//! Rejections: why a request was refused, and where.

use crate::address::{RowAddress, StepView};
use crate::order::Duplicate;
use vstd::prelude::*;

verus! {

/// The class of a rejection.
#[derive(Debug, Clone, Copy, PartialEq, Eq, Structural)]
pub enum RejectionReason {
    Assertion,
    Check,
    Compatibility,
    DuplicateKey,
    Evaluation,
    Host,
    Malformed,
    MissingTarget,
    TypeError,
    Unsupported,
}

/// A refused request.
#[derive(Debug)]
pub struct Rejection {
    pub reason: RejectionReason,
    pub message: String,
    /// The row the refusal is about.
    pub at: Option<RowAddress>,
    /// The field of that row the refusal is about.
    pub field: Option<String>,
}

/// What a [`Rejection`] says.
#[verifier::ext_equal]
pub struct RejectionView {
    pub reason: RejectionReason,
    pub message: Seq<char>,
    pub at: Option<Seq<StepView>>,
    pub field: Option<Seq<char>>,
}

impl View for Rejection {
    type V = RejectionView;

    open spec fn view(&self) -> RejectionView {
        RejectionView {
            reason: self.reason,
            message: self.message@,
            at: match self.at {
                Some(a) => Some(a@),
                None => None,
            },
            field: match self.field {
                Some(f) => Some(f@),
                None => None,
            },
        }
    }
}

/// A rejection about the request as a whole.
pub open spec fn refused(reason: RejectionReason, message: Seq<char>) -> RejectionView {
    RejectionView { reason, message, at: None, field: None }
}

/// A rejection about one row.
pub open spec fn refused_at(reason: RejectionReason, message: Seq<char>, at: Seq<StepView>) -> RejectionView {
    RejectionView { reason, message, at: Some(at), field: None }
}

impl Rejection {
    /// A rejection about the request as a whole.
    pub fn new(reason: RejectionReason, message: &str) -> (r: Rejection)
        ensures
            r@ == refused(reason, message@),
    {
        Rejection { reason, message: String::from_str(message), at: None, field: None }
    }

    /// A rejection about the row at `at`.
    pub fn at(reason: RejectionReason, message: &str, at: &RowAddress) -> (r: Rejection)
        ensures
            r@ == refused_at(reason, message@, at@),
    {
        Rejection { reason, message: String::from_str(message), at: Some(at.duplicate()), field: None }
    }

    /// A rejection about one field of the row at `at`.
    pub fn at_field(reason: RejectionReason, message: &str, at: &RowAddress, field: &str) -> (r: Rejection)
        ensures
            r@ == (RejectionView { reason, message: message@, at: Some(at@), field: Some(field@) }),
    {
        Rejection {
            reason,
            message: String::from_str(message),
            at: Some(at.duplicate()),
            field: Some(String::from_str(field)),
        }
    }
}

impl Duplicate for Rejection {
    fn duplicate(&self) -> (r: Self) {
        let at = match &self.at {
            Some(a) => Some(a.duplicate()),
            None => None,
        };
        let field = match &self.field {
            Some(f) => Some(f.clone()),
            None => None,
        };
        Rejection { reason: self.reason, message: self.message.clone(), at, field }
    }
}

/// What a fallible step that answers with a viewed value came to.
pub open spec fn outcome<T: View>(r: Result<T, Rejection>) -> Result<T::V, RejectionView> {
    match r {
        Ok(t) => Ok(t@),
        Err(e) => Err(e@),
    }
}

/// What a fallible step that answers nothing came to.
pub open spec fn verdict(r: Result<(), Rejection>) -> Result<(), RejectionView> {
    match r {
        Ok(_) => Ok(()),
        Err(e) => Err(e@),
    }
}

} // verus!
