//! One light: its address, identity and cached on/off state.
use vstd::prelude::*;
use crate::function::{reply_fails, reply_result, Off, On};
use crate::method::{lemma_single_parameter_message, single_entry_message, SetPilot, SetPilotParams};
use crate::response::{is_unknown_error, ErrorResponse, GetPilotResponse, Response, SetPilotResponse};
use crate::text::{append_decimal, bool_text, decimal};

verus! {

/// The network address of a light: IPv4 as four octets, or IPv6 as eight
/// 16-bit segments.
#[derive(Clone, Copy, Debug, PartialEq, Eq, Structural)]
pub enum Address {
    V4(u8, u8, u8, u8),
    V6(u16, u16, u16, u16, u16, u16, u16, u16),
}

impl Address {
    /// The IPv4 address `a.b.c.d`.
    pub fn new(a: u8, b: u8, c: u8, d: u8) -> (r: Address)
        ensures
            r == Address::V4(a, b, c, d),
    {
        Address::V4(a, b, c, d)
    }

    /// The address that reaches every host of the local IPv4 network.
    pub fn broadcast() -> (r: Address)
        ensures
            r == Address::V4(255, 255, 255, 255),
    {
        Address::V4(255, 255, 255, 255)
    }
}

/// The UDP port on which lights listen.
pub const LIGHT_PORT: u16 = 38899;

/// A reply and the address it came from.
#[derive(Clone, Debug, PartialEq, Eq)]
pub struct SourcedResponse {
    pub source: Address,
    pub response: Response,
}

/// One light.
#[derive(Debug, PartialEq, Eq)]
pub struct Bulb {
    pub ip_address: Address,
    pub _id: u32,
    pub name: String,
    /// The state last asked for and acknowledged; not read back from the light.
    pub state: bool,
}

/// The storage key of a light: `bulb:<id>`.
pub open spec fn bulb_key(id: u32) -> Seq<char> {
    "bulb:"@ + decimal(id as nat)
}

/// A light after a set-state command: its cached state follows what was asked
/// when the reply does not fail, and stays as it was otherwise.
pub open spec fn switched_bulb(b: Bulb, on: bool, replies: Seq<Response>, i: int) -> Bulb {
    if reply_fails(replies, i) {
        b
    } else {
        Bulb { state: on, ..b }
    }
}

impl Clone for Bulb {
    fn clone(&self) -> (r: Self)
        ensures
            r == *self,
    {
        Bulb { ip_address: self.ip_address, _id: self._id, name: self.name.clone(), state: self.state }
    }
}

/// Switching a light on leaves its cached state on when the reply does not
/// fail, and switching it on a second time leaves it as one switch did.
pub proof fn lemma_turn_on_idempotent(b: Bulb, first: Seq<Response>, second: Seq<Response>)
    requires
        !reply_fails(first, 0),
    ensures
        switched_bulb(b, true, first, 0).state,
        switched_bulb(switched_bulb(b, true, first, 0), true, second, 0) == switched_bulb(b, true, first, 0),
{
}

impl Bulb {
    pub fn new(ip_address: Address, name: String, id: u32) -> (r: Bulb)
        ensures
            r.ip_address == ip_address,
            r.name == name,
            r._id == id,
            !r.state,
    {
        Bulb { ip_address, _id: id, name, state: false }
    }

    /// The storage key of this light.
    pub fn query_id_string(&self) -> (r: String)
        ensures
            r@ == bulb_key(self._id),
    {
        let mut s = String::from_str("bulb:");
        append_decimal(&mut s, self._id as u64);
        s
    }

    /// The message that switches a light on or off.
    pub fn switch_message(on: bool) -> (r: String)
        ensures
            r@ == single_entry_message("state"@, bool_text(on)),
    {
        let m = SetPilot::with_params(SetPilotParams { state: Some(on), ..SetPilotParams::default() });
        proof {
            lemma_single_parameter_message(m, 0, on);
        }
        m.to_json()
    }

    /// The state report in the reply to a state query.
    pub fn get_pilot(&self, reply: Response) -> (r: Result<GetPilotResponse, ErrorResponse>)
        ensures
            match reply {
                Response::GR(s) => r == Ok::<GetPilotResponse, ErrorResponse>(s),
                Response::ER(e) => r == Err::<GetPilotResponse, ErrorResponse>(e),
                Response::SR(_) => r is Err && is_unknown_error(r->Err_0),
            },
    {
        reply.get_response()
    }

    /// The command result in the reply to a set-state command.
    pub fn set_pilot(&self, reply: Response) -> (r: Result<SetPilotResponse, ErrorResponse>)
        ensures
            match reply {
                Response::SR(s) => r == Ok::<SetPilotResponse, ErrorResponse>(s),
                Response::ER(e) => r == Err::<SetPilotResponse, ErrorResponse>(e),
                Response::GR(_) => r is Err && is_unknown_error(r->Err_0),
            },
    {
        reply.set_response()
    }

    /// The state that the light reports in its reply to a state query. The
    /// cached state is left as it is.
    pub fn get_state(&self, reply: Response) -> (r: Result<bool, ErrorResponse>)
        ensures
            match reply {
                Response::GR(s) => r == Ok::<bool, ErrorResponse>(s.result.state),
                Response::ER(e) => r == Err::<bool, ErrorResponse>(e),
                Response::SR(_) => r is Err && is_unknown_error(r->Err_0),
            },
    {
        match reply.get_response() {
            Ok(s) => Ok(s.result.state),
            Err(e) => Err(e),
        }
    }

    /// Applies the reply at position `i` to a command that switches the light
    /// on or off: the cached state follows when the reply does not fail.
    pub fn switch(&mut self, on: bool, replies: &Vec<Response>, i: usize) -> (r: Result<bool, ErrorResponse>)
        ensures
            reply_result(replies@, i as int, r),
            r is Ok <==> !reply_fails(replies@, i as int),
            *final(self) == switched_bulb(*old(self), on, replies@, i as int),
    {
        if i >= replies.len() {
            return Err(ErrorResponse::default());
        }
        match &replies[i] {
            Response::SR(s) => {
                self.state = on;
                Ok(s.result.success)
            },
            Response::ER(e) => Err(e.clone()),
            Response::GR(_) => Err(ErrorResponse::default()),
        }
    }

    /// The addresses that answered a discovery broadcast, in the order of their replies.
    pub fn discover(replies: &Vec<SourcedResponse>) -> (r: Vec<Address>)
        ensures
            r@.len() == replies@.len(),
            forall|i: int| 0 <= i < r@.len() ==> r@[i] == replies@[i].source,
    {
        let mut out: Vec<Address> = Vec::new();
        let mut i: usize = 0;
        while i < replies.len()
            invariant
                i <= replies@.len(),
                out@.len() == i,
                forall|j: int| 0 <= j < i ==> out@[j] == replies@[j].source,
            decreases replies@.len() - i,
        {
            out.push(replies[i].source);
            i = i + 1;
        }
        out
    }
}

impl On for Bulb {
    fn on(&mut self, replies: &Vec<Response>) -> (r: Result<bool, ErrorResponse>)
        ensures
            reply_result(replies@, 0, r),
            *final(self) == switched_bulb(*old(self), true, replies@, 0),
    {
        self.switch(true, replies, 0)
    }
}

impl Off for Bulb {
    fn off(&mut self, replies: &Vec<Response>) -> (r: Result<bool, ErrorResponse>)
        ensures
            reply_result(replies@, 0, r),
            *final(self) == switched_bulb(*old(self), false, replies@, 0),
    {
        self.switch(false, replies, 0)
    }
}

} // verus!
