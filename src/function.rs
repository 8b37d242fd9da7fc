//! What every entity can be asked to do, and the errors of those requests.
use vstd::prelude::*;
use crate::response::{ErrorResponse, Response};

verus! {

/// A failed request on an entity of the registry: the request and what went wrong.
#[derive(Clone, Debug, PartialEq, Eq)]
pub struct FunctionError {
    pub function_name: String,
    pub inner_error: String,
}

/// The text of a failed request.
pub open spec fn function_error_text(e: FunctionError) -> Seq<char> {
    "An error occurred during WizFunction "@ + e.function_name@ + " - "@ + e.inner_error@
}

impl FunctionError {
    pub fn new(function_name: String, inner_error: String) -> (r: FunctionError)
        ensures
            r.function_name == function_name,
            r.inner_error == inner_error,
    {
        FunctionError { function_name, inner_error }
    }

    /// The text of this error.
    pub fn to_string(&self) -> (r: String)
        ensures
            r@ == function_error_text(*self),
    {
        let mut s = String::from_str("An error occurred during WizFunction ");
        s.append(self.function_name.as_str());
        s.append(" - ");
        s.append(self.inner_error.as_str());
        proof {
            assert(s@ =~= function_error_text(*self));
        }
        s
    }
}

/// A lookup that found nothing.
#[derive(Clone, Debug, PartialEq, Eq)]
pub struct GeneralError {
    pub msg: String,
}

/// The text of a failed lookup.
pub open spec fn general_error_text(e: GeneralError) -> Seq<char> {
    "Yo dude, something wrong has happened - "@ + e.msg@
}

impl GeneralError {
    pub fn new(msg: String) -> (r: GeneralError)
        ensures
            r.msg == msg,
    {
        GeneralError { msg }
    }

    /// The text of this error.
    pub fn to_string(&self) -> (r: String)
        ensures
            r@ == general_error_text(*self),
    {
        let mut s = String::from_str("Yo dude, something wrong has happened - ");
        s.append(self.msg.as_str());
        s
    }
}

/// Whether the reply at position `i` fails a set-state command: it is missing
/// or is not a command result.
pub open spec fn reply_fails(replies: Seq<Response>, i: int) -> bool {
    i < 0 || i >= replies.len() || !(replies[i] is SR)
}

/// What a set-state command comes to, given the reply at position `i`: the
/// success flag of a command result, the error of an error reply, and the
/// unknown error for any other reply or a missing one.
pub open spec fn reply_result(replies: Seq<Response>, i: int, r: Result<bool, ErrorResponse>) -> bool {
    if 0 <= i < replies.len() {
        match replies[i] {
            Response::SR(s) => r == Ok::<bool, ErrorResponse>(s.result.success),
            Response::ER(e) => r == Err::<bool, ErrorResponse>(e),
            Response::GR(_) => r is Err && crate::response::is_unknown_error(r->Err_0),
        }
    } else {
        r is Err && crate::response::is_unknown_error(r->Err_0)
    }
}

/// The number of replies from `start` on, at most `n`, before the first one that fails.
pub open spec fn passed(replies: Seq<Response>, start: int, n: nat) -> nat
    decreases n,
{
    if n == 0 {
        0
    } else if reply_fails(replies, start) {
        0
    } else {
        1 + passed(replies, start + 1, (n - 1) as nat)
    }
}

/// Whether another light is to be contacted in a fan-out over `targets`
/// lights, given the replies so far: only while some light has not been
/// contacted and no reply so far fails.
pub fn contact_next(replies: &Vec<Response>, targets: usize) -> (r: bool)
    ensures
        r == (replies@.len() < targets && forall|i: int| 0 <= i < replies@.len() ==> !reply_fails(replies@, i)),
{
    if replies.len() >= targets {
        return false;
    }
    let mut i: usize = 0;
    while i < replies.len()
        invariant
            i <= replies@.len(),
            forall|j: int| 0 <= j < i ==> !reply_fails(replies@, j),
        decreases replies@.len() - i,
    {
        if !replies[i].acknowledges() {
            assert(reply_fails(replies@, i as int));
            return false;
        }
        i = i + 1;
    }
    true
}

/// Switching on. `replies` holds, in order, the replies of the lights that
/// the entity addresses to a set-state command; a missing one stands for a
/// light that could not be reached.
pub trait On {
    fn on(&mut self, replies: &Vec<Response>) -> Result<bool, ErrorResponse>;
}

/// Switching off, as `On` does.
pub trait Off {
    fn off(&mut self, replies: &Vec<Response>) -> Result<bool, ErrorResponse>;
}

} // verus!
