use wiz_lights::bulb::{Address, Bulb, SourcedResponse};
use wiz_lights::function::{contact_next, FunctionError, GeneralError, Off, On};
use wiz_lights::method::{get_pilot_message, GetPilot, SetPilot, SetPilotParams};
use wiz_lights::response::{
    ErrorResponse, ErrorResult, GetPilotResponse, GetPilotResult, Response, SetPilotResponse, SetPilotResult,
};

fn message_with(params: SetPilotParams) -> String {
    let a = SetPilot { method: String::from("setPilot"), params };
    a.to_json()
}

fn ack(success: bool) -> Response {
    Response::SR(SetPilotResponse { method: "setPilot".to_string(), result: SetPilotResult { success } })
}

fn state_report(state: bool) -> Response {
    Response::GR(GetPilotResponse {
        method: "getPilot".to_string(),
        result: GetPilotResult {
            dimming: Some(80),
            mac: "a8bb50000000".to_string(),
            temp: None,
            state,
            r: None,
            g: None,
            b: None,
        },
    })
}

fn device_error(code: i32, message: &str) -> Response {
    Response::ER(ErrorResponse {
        method: "setPilot".to_string(),
        error: ErrorResult { code, message: message.to_string() },
    })
}

fn test_bulb() -> Bulb {
    Bulb::new(Address::new(192, 168, 68, 70), "test_bulb_0".to_string(), 0)
}

#[test]
fn test_get_pilot_serialization() {
    let a = GetPilot { ..Default::default() };
    assert_eq!(a.to_json(), r#"{"method":"getPilot","params":{}}"#);
}

#[test]
fn query_message_is_fixed() {
    assert_eq!(get_pilot_message(), r#"{"method":"getPilot","params":{}}"#);
}

#[test]
fn test_set_pilot_serialization_state() {
    let p = SetPilotParams { state: Some(true), ..Default::default() };
    assert_eq!(message_with(p), r#"{"method":"setPilot","params":{"state":true}}"#);
}

#[test]
fn test_set_pilot_serialization_temp() {
    let p = SetPilotParams { temp: Some(4000), ..Default::default() };
    assert_eq!(message_with(p), r#"{"method":"setPilot","params":{"temp":4000}}"#);
}

#[test]
fn test_set_pilot_serialization_dimming() {
    let p = SetPilotParams { dimming: Some(80), ..Default::default() };
    assert_eq!(message_with(p), r#"{"method":"setPilot","params":{"dimming":80}}"#);
}

#[test]
fn test_set_pilot_serialization_r() {
    let p = SetPilotParams { r: Some(0), ..Default::default() };
    assert_eq!(message_with(p), r#"{"method":"setPilot","params":{"r":0}}"#);
}

#[test]
fn test_set_pilot_serialization_g() {
    let p = SetPilotParams { g: Some(128), ..Default::default() };
    assert_eq!(message_with(p), r#"{"method":"setPilot","params":{"g":128}}"#);
}

#[test]
fn test_set_pilot_serialization_b() {
    let p = SetPilotParams { b: Some(255), ..Default::default() };
    assert_eq!(message_with(p), r#"{"method":"setPilot","params":{"b":255}}"#);
}

#[test]
fn set_pilot_with_no_parameters() {
    assert_eq!(SetPilot::default().to_json(), r#"{"method":"setPilot","params":{}}"#);
}

#[test]
fn set_pilot_with_every_parameter_keeps_field_order() {
    let a: SetPilot = SetPilot { ..Default::default() }
        .off()
        .brightness(90)
        .temperature(2700)
        .color(1, 22, 333)
        .to_owned();
    assert_eq!(
        a.to_json(),
        r#"{"method":"setPilot","params":{"state":false,"temp":2700,"dimming":90,"r":1,"g":22,"b":333}}"#
    );
}

#[test]
fn set_pilot_largest_number() {
    let p = SetPilotParams { temp: Some(u32::MAX), ..Default::default() };
    assert_eq!(message_with(p), r#"{"method":"setPilot","params":{"temp":4294967295}}"#);
}

#[test]
fn method_name_is_escaped() {
    let a = SetPilot { method: "say \"hi\"\\".to_string(), params: SetPilotParams::default() };
    assert_eq!(a.to_json(), r#"{"method":"say \"hi\"\\","params":{}}"#);
}

#[test]
fn test_chain_methods() {
    let a: SetPilot = SetPilot { ..Default::default() }
        .on()
        .brightness(90)
        .temperature(4000)
        .color(255, 255, 255)
        .to_owned();

    assert_eq!(
        a,
        SetPilot {
            method: String::from("setPilot"),
            params: SetPilotParams {
                state: Some(true),
                temp: Some(4000),
                dimming: Some(90),
                r: Some(255),
                g: Some(255),
                b: Some(255),
            }
        }
    )
}

#[test]
fn switch_message_of_a_light() {
    assert_eq!(Bulb::switch_message(true), r#"{"method":"setPilot","params":{"state":true}}"#);
    assert_eq!(Bulb::switch_message(false), r#"{"method":"setPilot","params":{"state":false}}"#);
}

#[test]
fn get_response_passes_state_reports_and_errors() {
    assert!(state_report(true).get_response().is_ok());
    let e = device_error(-32600, "Invalid Request").get_response().unwrap_err();
    assert_eq!(e.error.code, -32600);
    let wrong = ack(true).get_response().unwrap_err();
    assert_eq!(wrong, ErrorResponse::default());
}

#[test]
fn set_response_passes_acks_and_errors() {
    assert!(ack(true).set_response().unwrap().result.success);
    let e = device_error(-32600, "Invalid Request").set_response().unwrap_err();
    assert_eq!(e.error.message, "Invalid Request");
    let wrong = state_report(true).set_response().unwrap_err();
    assert_eq!(wrong.error.code, 69);
    assert_eq!(wrong.method, "unknown");
}

#[test]
fn unreachable_light_is_the_unknown_error() {
    let r = Response::from_reply(None);
    assert_eq!(r, Response::ER(ErrorResponse::default()));
    assert_eq!(Response::from_reply(Some(ack(true))), ack(true));
}

#[test]
fn error_texts() {
    let e = ErrorResult { code: -32600, message: "Invalid Request".to_string() };
    assert_eq!(e.to_string(), "code: -32600 - message: Invalid Request");
    assert_eq!(ErrorResponse::default().error.to_string(), "code: 69 - message: unknown error detected");
    let f = FunctionError::new("On".to_string(), "boom".to_string());
    assert_eq!(f.to_string(), "An error occurred during WizFunction On - boom");
    let g = GeneralError::new("Unable to find bulb by name".to_string());
    assert_eq!(g.to_string(), "Yo dude, something wrong has happened - Unable to find bulb by name");
}

#[test]
fn test_bulb_on() {
    let mut b = test_bulb();
    assert!(b.on(&vec![ack(true)]).unwrap());
    assert!(b.state);
}

#[test]
fn test_bulb_off() {
    let mut b = test_bulb();
    b.state = true;
    assert!(b.off(&vec![ack(true)]).unwrap());
    assert!(!b.state);
}

#[test]
fn turn_on_then_get_state_and_twice() {
    let mut b = test_bulb();
    b.on(&vec![ack(true)]).unwrap();
    assert_eq!(b.get_state(state_report(true)), Ok(true));
    let once = b.clone();
    b.on(&vec![ack(true)]).unwrap();
    assert_eq!(b, once);
    assert!(b.state);
}

#[test]
fn failed_switch_keeps_cached_state() {
    let mut b = test_bulb();
    let r = b.on(&vec![device_error(-32600, "Invalid Request")]);
    assert_eq!(r.unwrap_err().error.code, -32600);
    assert!(!b.state);
    assert_eq!(b.on(&vec![]).unwrap_err(), ErrorResponse::default());
    assert!(!b.state);
}

#[test]
fn acknowledged_failure_still_updates_cache() {
    let mut b = test_bulb();
    assert_eq!(b.on(&vec![ack(false)]), Ok(false));
    assert!(b.state);
}

#[test]
fn get_state_does_not_touch_cache() {
    let b = test_bulb();
    assert_eq!(b.get_state(state_report(true)), Ok(true));
    assert!(!b.state);
    assert!(b.get_state(ack(true)).is_err());
}

#[test]
fn test_discover() {
    assert!(Bulb::discover(&vec![]).is_empty());
    let replies = vec![
        SourcedResponse { source: Address::new(192, 168, 1, 5), response: state_report(true) },
        SourcedResponse { source: Address::new(192, 168, 1, 9), response: state_report(false) },
    ];
    assert_eq!(Bulb::discover(&replies), vec![Address::new(192, 168, 1, 5), Address::new(192, 168, 1, 9)]);
}

#[test]
fn storage_keys() {
    assert_eq!(Bulb::new(Address::new(1, 2, 3, 4), "b".to_string(), 7).query_id_string(), "bulb:7");
    assert_eq!(Address::broadcast(), Address::new(255, 255, 255, 255));
}

#[test]
fn fan_out_contacts_lights_until_a_failure() {
    assert!(contact_next(&vec![], 2));
    assert!(!contact_next(&vec![], 0));
    assert!(contact_next(&vec![ack(true)], 2));
    assert!(!contact_next(&vec![ack(true), ack(false)], 2));
    assert!(!contact_next(&vec![device_error(-32600, "Invalid Request")], 3));
    assert!(!contact_next(&vec![state_report(true)], 3));
}

#[test]
fn method_name_control_characters_are_escaped() {
    let a = GetPilot { method: "a\u{1}\n\t/\u{7f}é".to_string() };
    assert_eq!(a.to_json(), "{\"method\":\"a\\u0001\\n\\t/\u{7f}é\",\"params\":{}}");
}

#[test]
fn discovery_keeps_ipv6_sources() {
    let v6 = Address::V6(0xfe80, 0, 0, 0, 1, 2, 3, 4);
    let replies = vec![SourcedResponse { source: v6, response: state_report(true) }];
    assert_eq!(Bulb::discover(&replies), vec![v6]);
    let b = Bulb::new(v6, "ceiling".to_string(), 3);
    assert_eq!(b.ip_address, v6);
    assert_ne!(v6, Address::broadcast());
}
