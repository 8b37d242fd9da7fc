use wiz_lights::bulb::{Address, Bulb};
use wiz_lights::function::{Off, On};
use wiz_lights::group::{Group, Id, Member};
use wiz_lights::registry::Registry;
use wiz_lights::response::{ErrorResponse, ErrorResult, Response, SetPilotResponse, SetPilotResult};
use wiz_lights::store::{CollectError, Key, Snapshot, Write};

fn ack() -> Response {
    Response::SR(SetPilotResponse { method: "setPilot".to_string(), result: SetPilotResult { success: true } })
}

fn device_error() -> Response {
    Response::ER(ErrorResponse {
        method: "setPilot".to_string(),
        error: ErrorResult { code: -32600, message: "Invalid Request".to_string() },
    })
}

fn bulb_at(id: u32) -> Bulb {
    Bulb::new(Address::new(192, 168, 68, 1), format!("test_bulb_{}", id), id)
}

fn test_bulb() -> Bulb {
    Bulb::new(Address::new(192, 168, 68, 70), "test_bulb_0".to_string(), 0)
}

fn test_group() -> Group {
    Group::new(Id::Number(69), "test_group_69".to_string(), vec![Member::Bulb(test_bulb())])
}

fn empty_registry() -> (Snapshot, Registry) {
    let store = Snapshot::new();
    let registry = Registry::from_snapshot(&store);
    (store, registry)
}

#[test]
fn test_store_get_bulb() {
    let b1 = bulb_at(1);
    let mut store = Snapshot::new();
    store.apply_all(b1.store());
    let get_b1 = Bulb::get(&store, b1._id).unwrap();
    assert_eq!(b1, get_b1)
}

#[test]
fn test_store_get_group() {
    let mut store = Snapshot::new();
    let test_group =
        Group::new(Id::Number(69), "test_bulb".to_string(), vec![Member::Bulb(bulb_at(1)), Member::Bulb(bulb_at(2))]);
    store.apply_all(test_group.store());
    let collected_group = Group::collect(&Id::Number(69), &store).unwrap();
    assert_eq!(test_group, collected_group)
}

#[test]
fn test_create_nested_group() {
    let mut store = Snapshot::new();
    let nested_group =
        Group::new(Id::Number(420), "nested_group".to_string(), vec![Member::Bulb(bulb_at(3)), Member::Bulb(bulb_at(4))]);
    store.apply_all(nested_group.store());
    let test_group = Group::new(
        Id::Number(69),
        "test_bulb".to_string(),
        vec![Member::Bulb(bulb_at(1)), Member::Bulb(bulb_at(2)), Member::Group(nested_group)],
    );
    store.apply_all(test_group.store());
    let collected_group = Group::collect(&Id::Number(69), &store).unwrap();
    assert_eq!(test_group, collected_group)
}

#[test]
fn store_and_collect_empty_and_single_and_deep_groups() {
    let mut store = Snapshot::new();
    let empty = Group::new(Id::Text("empty".to_string()), "nothing".to_string(), vec![]);
    store.apply_all(empty.store());
    assert_eq!(Group::collect(&Id::Text("empty".to_string()), &store).unwrap(), empty);

    let single = Group::new(Id::Number(1), "one".to_string(), vec![Member::Bulb(bulb_at(10))]);
    store.apply_all(single.store());
    assert_eq!(Group::collect(&Id::Number(1), &store).unwrap(), single);

    let inner = Group::new(Id::Number(3), "inner".to_string(), vec![Member::Bulb(bulb_at(11))]);
    let middle = Group::new(Id::Number(2), "middle".to_string(), vec![Member::Group(inner), Member::Bulb(bulb_at(12))]);
    let outer = Group::new(
        Id::Number(4),
        "outer".to_string(),
        vec![Member::Bulb(bulb_at(13)), Member::Group(middle), Member::Bulb(bulb_at(14))],
    );
    store.apply_all(outer.store());
    assert_eq!(Group::collect(&Id::Number(4), &store).unwrap(), outer);
}

#[test]
fn group_equality_ignores_member_order() {
    let a = Group::new(Id::Number(5), "g".to_string(), vec![Member::Bulb(bulb_at(1)), Member::Bulb(bulb_at(2))]);
    let b = Group::new(Id::Number(5), "g".to_string(), vec![Member::Bulb(bulb_at(2)), Member::Bulb(bulb_at(1))]);
    let c = Group::new(Id::Number(5), "g".to_string(), vec![Member::Bulb(bulb_at(1))]);
    let d = Group::new(Id::Number(6), "g".to_string(), vec![Member::Bulb(bulb_at(1)), Member::Bulb(bulb_at(2))]);
    assert_eq!(a, b);
    assert_ne!(a, c);
    assert_ne!(c, a);
    assert_ne!(a, d);
}

#[test]
fn collect_reports_missing_records_and_cycles() {
    let store = Snapshot::new();
    assert_eq!(Group::collect(&Id::Number(1), &store), Err(CollectError::MissingGroup(Id::Number(1))));

    let mut store = Snapshot::new();
    store.apply(Write::CreateGroup(Id::Number(1), "a".to_string()));
    store.apply(Write::Relate(Id::Number(1), Key::Bulb(9)));
    assert_eq!(Group::collect(&Id::Number(1), &store), Err(CollectError::MissingBulb(9)));

    let mut store = Snapshot::new();
    store.apply(Write::CreateGroup(Id::Number(1), "a".to_string()));
    store.apply(Write::CreateGroup(Id::Number(2), "b".to_string()));
    store.apply(Write::Relate(Id::Number(1), Key::Group(Id::Number(2))));
    store.apply(Write::Relate(Id::Number(2), Key::Group(Id::Number(1))));
    assert_eq!(Group::collect(&Id::Number(1), &store), Err(CollectError::CycleDetected));
    let registry = Registry::from_snapshot(&store);
    assert!(registry.load_failed);
    assert!(registry.groups.is_empty());
}

#[test]
fn test_create_registry() {
    let (_, registry) = empty_registry();
    assert!(registry.bulbs.is_empty());
    assert!(registry.groups.is_empty());
    assert!(!registry.load_failed);
}

#[test]
fn test_find_bulb_by_name() {
    let registry = Registry { bulbs: vec![test_bulb().clone()], groups: vec![], load_failed: false };
    assert_eq!(registry.find_bulb_by_name("test_bulb_0".to_string()).unwrap(), test_bulb())
}

#[test]
fn find_bulb_by_unknown_name() {
    let registry = Registry { bulbs: vec![test_bulb()], groups: vec![], load_failed: false };
    let e = registry.find_bulb_by_name("nope".to_string()).unwrap_err();
    assert_eq!(e.msg, "Unable to find bulb by name");
}

#[test]
fn test_turn_on_bulb_by_id() {
    let t_id = Id::Number(test_bulb()._id as i64);
    let mut registry = Registry { bulbs: vec![test_bulb()], groups: vec![], load_failed: false };
    let res = registry.turn_on_by_id(t_id, &vec![ack()]).unwrap();
    assert_eq!(res, true);
    assert!(registry.bulbs[0].state);
}

#[test]
fn test_turn_off_bulb_by_id() {
    let t_id = Id::Number(test_bulb()._id as i64);
    let mut registry = Registry { bulbs: vec![test_bulb()], groups: vec![], load_failed: false };
    let res = registry.turn_off_by_id(t_id, &vec![ack()]).unwrap();
    assert_eq!(res, true);
}

#[test]
fn test_turn_on_group_by_id() {
    let t_id = test_group()._id.clone();
    let mut registry = Registry { bulbs: vec![], groups: vec![test_group()], load_failed: false };
    let res = registry.turn_on_by_id(t_id, &vec![ack()]).unwrap();
    assert_eq!(res, true);
}

#[test]
fn test_turn_off_group_by_id() {
    let t_id = test_group()._id.clone();
    let mut registry = Registry { bulbs: vec![], groups: vec![test_group()], load_failed: false };
    let res = registry.turn_off_by_id(t_id, &vec![ack()]).unwrap();
    assert_eq!(res, true);
}

#[test]
fn turn_on_unknown_id_is_not_found_and_changes_nothing() {
    let mut registry = Registry { bulbs: vec![test_bulb()], groups: vec![test_group()], load_failed: false };
    let err = registry.turn_on_by_id(Id::Number(12345), &vec![ack()]).unwrap_err();
    assert_eq!(err.function_name, "turn_on_by_id");
    assert_eq!(err.inner_error, "Id not contained in registry: 12345");
    assert_eq!(registry.bulbs, vec![test_bulb()]);
    assert_eq!(registry.groups, vec![test_group()]);
    let err = registry.turn_off_by_id(Id::Text("kitchen".to_string()), &vec![]).unwrap_err();
    assert_eq!(err.function_name, "turn_off_by_id");
    assert_eq!(err.inner_error, "Id not contained in registry: kitchen");
}

#[test]
fn device_error_by_id_names_the_request() {
    let mut registry = Registry { bulbs: vec![test_bulb()], groups: vec![], load_failed: false };
    let err = registry.turn_on_by_id(Id::Number(0), &vec![device_error()]).unwrap_err();
    assert_eq!(err.function_name, "On");
    assert_eq!(err.inner_error, "code: -32600 - message: Invalid Request");
    assert!(!registry.bulbs[0].state);
    let err = registry.turn_off_by_id(Id::Number(0), &vec![]).unwrap_err();
    assert_eq!(err.function_name, "Off");
    assert_eq!(err.inner_error, "code: 69 - message: unknown error detected");
}

#[test]
fn group_fan_out_stops_at_first_failure() {
    let inner = Group::new(Id::Number(2), "inner".to_string(), vec![Member::Bulb(bulb_at(2)), Member::Bulb(bulb_at(3))]);
    let mut g = Group::new(Id::Number(1), "outer".to_string(), vec![Member::Bulb(bulb_at(1)), Member::Group(inner)]);
    assert_eq!(
        g.devices(),
        vec![Address::new(192, 168, 68, 1), Address::new(192, 168, 68, 1), Address::new(192, 168, 68, 1)]
    );
    let r = g.on(&vec![ack(), device_error(), ack()]);
    assert_eq!(r.unwrap_err().error.code, -32600);
    match &g.collects[0] {
        Member::Bulb(b) => assert!(b.state),
        Member::Group(_) => panic!("a light was expected"),
    }
    match &g.collects[1] {
        Member::Group(inner) => {
            for m in inner.collects.iter() {
                match m {
                    Member::Bulb(b) => assert!(!b.state),
                    Member::Group(_) => panic!("a light was expected"),
                }
            }
        },
        Member::Bulb(_) => panic!("a group was expected"),
    }
    assert!(g.on(&vec![ack(), ack(), ack()]).unwrap());
}

#[test]
fn test_group_on_and_off() {
    let mut g = Group::new(Id::Number(22), "deez".to_string(), vec![Member::Bulb(test_bulb())]);
    assert!(g.on(&vec![ack()]).unwrap());
    assert!(g.off(&vec![ack()]).unwrap());
    let mut empty = Group::new(Id::Number(23), "none".to_string(), vec![]);
    assert!(empty.on(&vec![]).unwrap());
}

#[test]
fn test_add_bulb() {
    let (mut store, mut registry) = empty_registry();
    registry.add(&mut store, &Member::Bulb(test_bulb().clone()));
    assert_eq!(registry.bulbs, vec![test_bulb()]);
}

#[test]
fn test_add_duplicate_bulb() {
    let (mut store, mut registry) = empty_registry();
    registry.add(&mut store, &Member::Bulb(test_bulb().clone()));
    registry.add(&mut store, &Member::Bulb(test_bulb().clone()));
    assert_eq!(registry.bulbs, vec![test_bulb()]);
}

#[test]
fn test_add_group() {
    let (mut store, mut registry) = empty_registry();
    let g0 = Group::new(Id::Number(22), "deez".to_string(), vec![Member::Bulb(test_bulb().clone())]);
    let g1 = Group::new(Id::Number(22), "deez".to_string(), vec![Member::Bulb(test_bulb())]);
    registry.add(&mut store, &Member::Group(g0));
    assert_eq!(registry.groups, vec![g1])
}

#[test]
fn add_group_twice_keeps_one() {
    let (mut store, mut registry) = empty_registry();
    let g = Group::new(Id::Number(22), "deez".to_string(), vec![Member::Bulb(test_bulb())]);
    registry.add(&mut store, &Member::Group(g));
    let g = Group::new(Id::Number(22), "deez".to_string(), vec![Member::Bulb(test_bulb())]);
    registry.add(&mut store, &Member::Group(g));
    assert_eq!(registry.groups.len(), 1);
    assert_eq!(registry.bulbs, vec![test_bulb()]);
    assert!(!registry.load_failed);
}

#[test]
fn scenario_add_then_find_by_name() {
    let (mut store, mut registry) = empty_registry();
    let device = Bulb::new(Address::new(1, 2, 3, 4), "b1".to_string(), 1);
    registry.add(&mut store, &Member::Bulb(device.clone()));
    assert_eq!(registry.find_bulb_by_name("b1".to_string()).unwrap(), device);
    assert_eq!(registry.bulbs.len(), 1);
}

#[test]
fn registry_load_drops_repeated_keys() {
    let r = Registry::new(Some(vec![bulb_at(1), bulb_at(2), bulb_at(1)]), None);
    assert_eq!(r.bulbs, vec![bulb_at(1), bulb_at(2)]);
    assert!(r.load_failed);
    assert!(r.groups.is_empty());
}

#[test]
fn group_keys() {
    assert_eq!(test_group().query_id_string(), "group:69");
    let g = Group::new(Id::Number(-3), "n".to_string(), vec![]);
    assert_eq!(g.query_id_string(), "group:-3");
    let g = Group::new(Id::Text("abc".to_string()), "n".to_string(), vec![]);
    assert_eq!(g.query_id_string(), "group:abc");
}

#[test]
fn repeated_group_write_keeps_the_last_name() {
    let mut store = Snapshot::new();
    store.apply_all(Group::new(Id::Number(1), "a".to_string(), vec![]).store());
    store.apply_all(Group::new(Id::Number(1), "b".to_string(), vec![]).store());
    assert_eq!(store.groups.len(), 1);
    assert_eq!(store.groups[0].name, "b");
    assert_eq!(Group::collect(&Id::Number(1), &store).unwrap().name, "b");
}

#[test]
fn repeated_light_write_keeps_the_last_record() {
    let mut store = Snapshot::new();
    store.apply_all(bulb_at(1).store());
    store.apply_all(bulb_at(2).store());
    let mut renamed = Bulb::new(Address::new(10, 0, 0, 9), "porch".to_string(), 1);
    renamed.state = true;
    store.apply_all(renamed.store());
    assert_eq!(store.bulbs, vec![renamed.clone(), bulb_at(2)]);
    assert_eq!(Bulb::get(&store, 1), Some(renamed));
}

#[test]
fn stored_group_replaces_an_earlier_light_record() {
    let mut store = Snapshot::new();
    store.apply_all(Bulb::new(Address::new(10, 0, 0, 1), "old".to_string(), 5).store());
    let g = Group::new(Id::Number(8), "g".to_string(), vec![Member::Bulb(bulb_at(5))]);
    store.apply_all(g.store());
    assert_eq!(Group::collect(&Id::Number(8), &store).unwrap(), g);
}

#[test]
fn group_stored_twice_is_collected_equal() {
    let mut store = Snapshot::new();
    let inner = Group::new(Id::Number(2), "inner".to_string(), vec![Member::Bulb(bulb_at(3))]);
    let g = Group::new(Id::Number(1), "outer".to_string(), vec![Member::Bulb(bulb_at(1)), Member::Group(inner)]);
    store.apply_all(g.store());
    store.apply_all(g.store());
    assert_eq!(store.groups.len(), 2);
    assert_eq!(store.bulbs.len(), 2);
    assert_eq!(Group::collect(&Id::Number(1), &store).unwrap(), g);
}
