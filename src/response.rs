//! Replies of a light: a state report, a command result, or an error.
use vstd::prelude::*;
use crate::text::{signed_decimal, signed_decimal_string};

verus! {

/// The state that a light reports.
#[derive(Clone, Debug, PartialEq, Eq)]
pub struct GetPilotResult {
    pub dimming: Option<u32>,
    pub mac: String,
    pub temp: Option<u32>,
    pub state: bool,
    pub r: Option<u32>,
    pub g: Option<u32>,
    pub b: Option<u32>,
}

/// The outcome that a light reports for a command.
#[derive(Clone, Copy, Debug, PartialEq, Eq, Structural)]
pub struct SetPilotResult {
    pub success: bool,
}

/// An error code and message.
#[derive(Debug, PartialEq, Eq)]
pub struct ErrorResult {
    pub code: i32,
    pub message: String,
}

/// A reply to the state query.
#[derive(Clone, Debug, PartialEq, Eq)]
pub struct GetPilotResponse {
    pub method: String,
    pub result: GetPilotResult,
}

/// A reply to a set-state command.
#[derive(Clone, Debug, PartialEq, Eq)]
pub struct SetPilotResponse {
    pub method: String,
    pub result: SetPilotResult,
}

/// An error reply, reported by a light or standing for a light that could not be reached.
#[derive(Debug, PartialEq, Eq)]
pub struct ErrorResponse {
    pub method: String,
    pub error: ErrorResult,
}

/// A decoded reply: the first of the three shapes that the payload matches.
#[derive(Clone, Debug, PartialEq, Eq)]
pub enum Response {
    GR(GetPilotResponse),
    SR(SetPilotResponse),
    ER(ErrorResponse),
}

/// The code of the error that stands for a reply of the wrong kind or no reply at all.
pub const UNKNOWN_ERROR_CODE: i32 = 69;

/// The error that stands for a reply of the wrong kind or for a light that
/// could not be reached.
pub open spec fn is_unknown_error(e: ErrorResponse) -> bool {
    &&& e.method@ == "unknown"@
    &&& e.error.code == UNKNOWN_ERROR_CODE
    &&& e.error.message@ == "unknown error detected"@
}

/// The text of an error: `code: <code> - message: <message>`.
pub open spec fn error_text(e: ErrorResult) -> Seq<char> {
    "code: "@ + signed_decimal(e.code as int) + " - message: "@ + e.message@
}

impl Clone for ErrorResult {
    fn clone(&self) -> (r: Self)
        ensures
            r == *self,
    {
        ErrorResult { code: self.code, message: self.message.clone() }
    }
}

impl Clone for ErrorResponse {
    fn clone(&self) -> (r: Self)
        ensures
            r == *self,
    {
        ErrorResponse { method: self.method.clone(), error: self.error.clone() }
    }
}

impl Default for ErrorResponse {
    fn default() -> (r: Self)
        ensures
            is_unknown_error(r),
    {
        ErrorResponse {
            method: String::from_str("unknown"),
            error: ErrorResult {
                code: UNKNOWN_ERROR_CODE,
                message: String::from_str("unknown error detected"),
            },
        }
    }
}

impl ErrorResult {
    /// The text of this error.
    pub fn to_string(&self) -> (r: String)
        ensures
            r@ == error_text(*self),
    {
        let mut s = String::from_str("code: ");
        let c = signed_decimal_string(self.code);
        s.append(c.as_str());
        s.append(" - message: ");
        s.append(self.message.as_str());
        proof {
            assert(s@ =~= error_text(*self));
        }
        s
    }
}

impl Response {
    /// What an exchange with a light came to: its reply, or the unknown error
    /// where no reply could be had.
    pub fn from_reply(reply: Option<Response>) -> (r: Response)
        ensures
            match reply {
                Some(x) => r == x,
                None => r is ER && is_unknown_error(r->ER_0),
            },
    {
        match reply {
            Some(x) => x,
            None => Response::ER(ErrorResponse::default()),
        }
    }

    /// Whether this reply acknowledges a set-state command.
    pub fn acknowledges(&self) -> (r: bool)
        ensures
            r == (*self is SR),
    {
        match self {
            Response::SR(_) => true,
            _ => false,
        }
    }

    /// The state report in this reply; an error reply is passed on, and a
    /// reply of another kind is the unknown error.
    pub fn get_response(self) -> (r: Result<GetPilotResponse, ErrorResponse>)
        ensures
            match self {
                Response::GR(s) => r == Ok::<GetPilotResponse, ErrorResponse>(s),
                Response::ER(e) => r == Err::<GetPilotResponse, ErrorResponse>(e),
                Response::SR(_) => r is Err && is_unknown_error(r->Err_0),
            },
    {
        match self {
            Response::GR(s) => Ok(s),
            Response::ER(s) => Err(s),
            _ => Err(ErrorResponse::default()),
        }
    }

    /// The command result in this reply; an error reply is passed on, and a
    /// reply of another kind is the unknown error.
    pub fn set_response(self) -> (r: Result<SetPilotResponse, ErrorResponse>)
        ensures
            match self {
                Response::SR(s) => r == Ok::<SetPilotResponse, ErrorResponse>(s),
                Response::ER(e) => r == Err::<SetPilotResponse, ErrorResponse>(e),
                Response::GR(_) => r is Err && is_unknown_error(r->Err_0),
            },
    {
        match self {
            Response::SR(s) => Ok(s),
            Response::ER(s) => Err(s),
            _ => Err(ErrorResponse::default()),
        }
    }
}

} // verus!
