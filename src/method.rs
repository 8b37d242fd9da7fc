//! Outgoing commands: the state query and the sparse set-state command.
use vstd::prelude::*;
use crate::text::{add_entry, bool_str, bool_text, decimal, decimal_string, entry, join, json_string, json_string_of, lemma_plain_text_quoted, plain_text};

verus! {

/// The parameters of a set-state command; only the fields that are set are sent.
#[derive(Clone, Copy, Debug, PartialEq, Eq, Structural)]
pub struct SetPilotParams {
    pub state: Option<bool>,
    pub temp: Option<u32>,
    pub dimming: Option<u32>,
    pub r: Option<u32>,
    pub g: Option<u32>,
    pub b: Option<u32>,
}

/// The set-state command.
#[derive(Clone, Debug, PartialEq, Eq)]
pub struct SetPilot {
    pub method: String,
    pub params: SetPilotParams,
}

/// The state query.
#[derive(Clone, Debug, PartialEq, Eq)]
pub struct GetPilot {
    pub method: String,
}

/// The commands that change a light.
pub enum Method {
    SetPilot(SetPilot),
}

/// Parameters with no field set.
pub open spec fn no_params() -> SetPilotParams {
    SetPilotParams { state: None, temp: None, dimming: None, r: None, g: None, b: None }
}

/// The method name of the set-state command.
pub open spec fn set_pilot_name() -> Seq<char> {
    seq!['s', 'e', 't', 'P', 'i', 'l', 'o', 't']
}

/// The method name of the state query.
pub open spec fn get_pilot_name() -> Seq<char> {
    seq!['g', 'e', 't', 'P', 'i', 'l', 'o', 't']
}

/// The entry for an optional number, present only when it is set.
pub open spec fn number_entry(key: Seq<char>, v: Option<u32>) -> Seq<Seq<char>> {
    match v {
        Some(n) => seq![entry(key, decimal(n as nat))],
        None => Seq::empty(),
    }
}

/// The entries that a set-state command sends, in field order.
pub open spec fn param_entries(p: SetPilotParams) -> Seq<Seq<char>> {
    (match p.state {
        Some(s) => seq![entry("state"@, bool_text(s))],
        None => Seq::empty(),
    }) + number_entry("temp"@, p.temp) + number_entry("dimming"@, p.dimming) + number_entry(
        "r"@,
        p.r,
    ) + number_entry("g"@, p.g) + number_entry("b"@, p.b)
}

/// The JSON text of a set-state command.
pub open spec fn set_pilot_json(m: SetPilot) -> Seq<char> {
    "{\"method\":"@ + json_string(m.method@) + ",\"params\":{"@ + join(param_entries(m.params))
        + "}}"@
}

/// The JSON text of a state query.
pub open spec fn get_pilot_json(m: GetPilot) -> Seq<char> {
    "{\"method\":"@ + json_string(m.method@) + ",\"params\":{}}"@
}

impl Default for SetPilotParams {
    fn default() -> (r: Self)
        ensures
            r == no_params(),
    {
        SetPilotParams { state: None, temp: None, dimming: None, r: None, g: None, b: None }
    }
}

impl Default for SetPilot {
    fn default() -> (r: Self)
        ensures
            r.method@ == set_pilot_name(),
            r.params == no_params(),
    {
        proof {
            reveal_strlit("setPilot");
        }
        SetPilot { method: String::from_str("setPilot"), params: SetPilotParams::default() }
    }
}

impl Default for GetPilot {
    fn default() -> (r: Self)
        ensures
            r.method@ == get_pilot_name(),
    {
        proof {
            reveal_strlit("getPilot");
        }
        GetPilot { method: String::from_str("getPilot") }
    }
}

impl SetPilot {
    /// A set-state command with the given parameters.
    pub fn with_params(params: SetPilotParams) -> (r: SetPilot)
        ensures
            r.method@ == set_pilot_name(),
            r.params == params,
    {
        proof {
            reveal_strlit("setPilot");
        }
        SetPilot { method: String::from_str("setPilot"), params }
    }

    /// Asks for the light to be on.
    pub fn on(&mut self) -> (r: &mut Self)
        ensures
            r.method == old(self).method,
            r.params == (SetPilotParams { state: Some(true), ..old(self).params }),
            *final(self) == *final(r),
    {
        self.params.state = Some(true);
        self
    }

    /// Asks for the light to be off.
    pub fn off(&mut self) -> (r: &mut Self)
        ensures
            r.method == old(self).method,
            r.params == (SetPilotParams { state: Some(false), ..old(self).params }),
            *final(self) == *final(r),
    {
        self.params.state = Some(false);
        self
    }

    /// Sets the brightness.
    pub fn brightness(&mut self, b: u32) -> (r: &mut Self)
        ensures
            r.method == old(self).method,
            r.params == (SetPilotParams { dimming: Some(b), ..old(self).params }),
            *final(self) == *final(r),
    {
        self.params.dimming = Some(b);
        self
    }

    /// Sets the colour temperature.
    pub fn temperature(&mut self, t: u32) -> (r: &mut Self)
        ensures
            r.method == old(self).method,
            r.params == (SetPilotParams { temp: Some(t), ..old(self).params }),
            *final(self) == *final(r),
    {
        self.params.temp = Some(t);
        self
    }

    /// Sets the three colour channels.
    pub fn color(&mut self, r: u32, g: u32, b: u32) -> (res: &mut Self)
        ensures
            res.method == old(self).method,
            res.params == (SetPilotParams { r: Some(r), g: Some(g), b: Some(b), ..old(self).params }),
            *final(self) == *final(res),
    {
        self.params.r = Some(r);
        self.params.g = Some(g);
        self.params.b = Some(b);
        self
    }

    /// The JSON text sent for this command: only the parameters that are set.
    pub fn to_json(&self) -> (r: String)
        ensures
            r@ == set_pilot_json(*self),
    {
        proof {
            reveal_strlit("{\"method\":");
            reveal_strlit(",\"params\":{");
            reveal_strlit("}}");
        }
        let mut out = String::from_str("{\"method\":");
        let q = json_string_of(self.method.as_str());
        out.append(q.as_str());
        out.append(",\"params\":{");
        let mut body = String::new();
        let ghost mut es: Seq<Seq<char>> = Seq::empty();
        let mut first = true;
        let p = self.params;
        if let Some(s) = p.state {
            add_entry(&mut body, first, "state", bool_str(s), Ghost(es));
            proof {
                es = es.push(entry("state"@, bool_text(s)));
            }
            first = false;
        }
        let ghost e1 = es;
        if let Some(n) = p.temp {
            let v = decimal_string(n);
            add_entry(&mut body, first, "temp", v.as_str(), Ghost(es));
            proof {
                es = es.push(entry("temp"@, decimal(n as nat)));
            }
            first = false;
        }
        proof {
            assert(es =~= e1 + number_entry("temp"@, p.temp));
        }
        let ghost e2 = es;
        if let Some(n) = p.dimming {
            let v = decimal_string(n);
            add_entry(&mut body, first, "dimming", v.as_str(), Ghost(es));
            proof {
                es = es.push(entry("dimming"@, decimal(n as nat)));
            }
            first = false;
        }
        proof {
            assert(es =~= e2 + number_entry("dimming"@, p.dimming));
        }
        let ghost e3 = es;
        if let Some(n) = p.r {
            let v = decimal_string(n);
            add_entry(&mut body, first, "r", v.as_str(), Ghost(es));
            proof {
                es = es.push(entry("r"@, decimal(n as nat)));
            }
            first = false;
        }
        proof {
            assert(es =~= e3 + number_entry("r"@, p.r));
        }
        let ghost e4 = es;
        if let Some(n) = p.g {
            let v = decimal_string(n);
            add_entry(&mut body, first, "g", v.as_str(), Ghost(es));
            proof {
                es = es.push(entry("g"@, decimal(n as nat)));
            }
            first = false;
        }
        proof {
            assert(es =~= e4 + number_entry("g"@, p.g));
        }
        let ghost e5 = es;
        if let Some(n) = p.b {
            let v = decimal_string(n);
            add_entry(&mut body, first, "b", v.as_str(), Ghost(es));
            proof {
                es = es.push(entry("b"@, decimal(n as nat)));
            }
        }
        proof {
            assert(es =~= e5 + number_entry("b"@, p.b));
            assert(es =~= param_entries(p));
        }
        out.append(body.as_str());
        out.append("}}");
        proof {
            assert(out@ =~= set_pilot_json(*self));
        }
        out
    }
}

impl GetPilot {
    /// The JSON text sent for this query.
    pub fn to_json(&self) -> (r: String)
        ensures
            r@ == get_pilot_json(*self),
    {
        let mut out = String::from_str("{\"method\":");
        let q = json_string_of(self.method.as_str());
        out.append(q.as_str());
        out.append(",\"params\":{}}");
        proof {
            assert(out@ =~= get_pilot_json(*self));
        }
        out
    }
}

/// The message of a set-state command that sets exactly one entry.
pub open spec fn single_entry_message(key: Seq<char>, value: Seq<char>) -> Seq<char> {
    "{\"method\":\"setPilot\",\"params\":{\""@ + key + "\":"@ + value + "}}"@
}

/// The query message that is sent to a light or broadcast on discovery.
pub fn get_pilot_message() -> (r: String)
    ensures
        r@ == "{\"method\":\"getPilot\",\"params\":{}}"@,
{
    let r = GetPilot::default().to_json();
    proof {
        reveal_strlit("getPilot");
        reveal_strlit("{\"method\":");
        reveal_strlit(",\"params\":{}}");
        reveal_strlit("{\"method\":\"getPilot\",\"params\":{}}");
        assert(plain_text(get_pilot_name()));
        lemma_plain_text_quoted(get_pilot_name());
        assert(r@ =~= "{\"method\":\"getPilot\",\"params\":{}}"@);
    }
    r
}

/// A set-state command with a single parameter set is sent as exactly that one
/// entry, and the on-flag alone set to true is `{"method":"setPilot","params":{"state":true}}`.
pub proof fn lemma_single_parameter_message(m: SetPilot, v: u32, s: bool)
    requires
        m.method@ == set_pilot_name(),
    ensures
        m.params == (SetPilotParams { state: Some(s), ..no_params() }) ==> set_pilot_json(m)
            == single_entry_message("state"@, bool_text(s)),
        m.params == (SetPilotParams { temp: Some(v), ..no_params() }) ==> set_pilot_json(m)
            == single_entry_message("temp"@, decimal(v as nat)),
        m.params == (SetPilotParams { dimming: Some(v), ..no_params() }) ==> set_pilot_json(m)
            == single_entry_message("dimming"@, decimal(v as nat)),
        m.params == (SetPilotParams { r: Some(v), ..no_params() }) ==> set_pilot_json(m)
            == single_entry_message("r"@, decimal(v as nat)),
        m.params == (SetPilotParams { g: Some(v), ..no_params() }) ==> set_pilot_json(m)
            == single_entry_message("g"@, decimal(v as nat)),
        m.params == (SetPilotParams { b: Some(v), ..no_params() }) ==> set_pilot_json(m)
            == single_entry_message("b"@, decimal(v as nat)),
        m.params == (SetPilotParams { state: Some(true), ..no_params() }) ==> set_pilot_json(m)
            == "{\"method\":\"setPilot\",\"params\":{\"state\":true}}"@,
{
    reveal_strlit("{\"method\":");
    reveal_strlit(",\"params\":{");
    reveal_strlit("}}");
    reveal_strlit("{\"method\":\"setPilot\",\"params\":{\"");
    reveal_strlit("\":");
    reveal_strlit("{\"method\":\"setPilot\",\"params\":{\"state\":true}}");
    reveal_strlit("state");
    reveal_strlit("{\"method\":\"setPilot\",\"params\":{");
    assert(plain_text(set_pilot_name()));
    lemma_plain_text_quoted(set_pilot_name());
    let head = "{\"method\":"@ + json_string(m.method@) + ",\"params\":{"@;
    assert(head =~= "{\"method\":\"setPilot\",\"params\":{"@);
    let p = m.params;
    if p == (SetPilotParams { state: Some(s), ..no_params() }) {
        let e = entry("state"@, bool_text(s));
        assert(param_entries(p) =~= seq![e]);
        assert(set_pilot_json(m) =~= single_entry_message("state"@, bool_text(s)));
        if s {
            assert(set_pilot_json(m) =~= "{\"method\":\"setPilot\",\"params\":{\"state\":true}}"@);
        }
    }
    if p == (SetPilotParams { temp: Some(v), ..no_params() }) {
        assert(param_entries(p) =~= seq![entry("temp"@, decimal(v as nat))]);
        assert(set_pilot_json(m) =~= single_entry_message("temp"@, decimal(v as nat)));
    }
    if p == (SetPilotParams { dimming: Some(v), ..no_params() }) {
        assert(param_entries(p) =~= seq![entry("dimming"@, decimal(v as nat))]);
        assert(set_pilot_json(m) =~= single_entry_message("dimming"@, decimal(v as nat)));
    }
    if p == (SetPilotParams { r: Some(v), ..no_params() }) {
        assert(param_entries(p) =~= seq![entry("r"@, decimal(v as nat))]);
        assert(set_pilot_json(m) =~= single_entry_message("r"@, decimal(v as nat)));
    }
    if p == (SetPilotParams { g: Some(v), ..no_params() }) {
        assert(param_entries(p) =~= seq![entry("g"@, decimal(v as nat))]);
        assert(set_pilot_json(m) =~= single_entry_message("g"@, decimal(v as nat)));
    }
    if p == (SetPilotParams { b: Some(v), ..no_params() }) {
        assert(param_entries(p) =~= seq![entry("b"@, decimal(v as nat))]);
        assert(set_pilot_json(m) =~= single_entry_message("b"@, decimal(v as nat)));
    }
}

} // verus!
