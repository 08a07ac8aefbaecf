use protohackers::speed::{
    heartbeat_step, introduction, register_dispatcher, take_pending_tickets, ControlFlow,
    HeartbeatEvent, HeartbeatState, Introduction,
};
use protohackers::wire::{ClientMsg, Ticket};
use std::collections::HashMap;

fn ticket(plate: &str, road: u16) -> Ticket {
    Ticket {
        plate: plate.to_string(),
        road,
        mile1: 1,
        timestamp1: 2,
        mile2: 3,
        timestamp2: 4,
        speed: 5,
    }
}

#[test]
fn register_dispatcher_adds_to_each_road() {
    let mut d: HashMap<u16, Vec<u32>> = HashMap::new();
    d.insert(7, vec![1]);
    register_dispatcher(&mut d, &vec![7, 8], &2);
    assert_eq!(d.get(&7), Some(&vec![1, 2]));
    assert_eq!(d.get(&8), Some(&vec![2]));
    assert_eq!(d.len(), 2);
}

#[test]
fn register_dispatcher_repeats_for_repeated_roads() {
    let mut d: HashMap<u16, Vec<u32>> = HashMap::new();
    register_dispatcher(&mut d, &vec![5, 5], &9);
    assert_eq!(d.get(&5), Some(&vec![9, 9]));
}

#[test]
fn register_dispatcher_with_no_roads_changes_nothing() {
    let mut d: HashMap<u16, Vec<u32>> = HashMap::new();
    d.insert(1, vec![3]);
    register_dispatcher(&mut d, &vec![], &4);
    assert_eq!(d.len(), 1);
    assert_eq!(d.get(&1), Some(&vec![3]));
}

#[test]
fn take_pending_tickets_in_road_order() {
    let mut p: HashMap<u16, Vec<Ticket>> = HashMap::new();
    p.insert(1, vec![ticket("A", 1), ticket("B", 1)]);
    p.insert(2, vec![ticket("C", 2)]);
    p.insert(3, vec![ticket("D", 3)]);
    let got = take_pending_tickets(&mut p, &vec![2, 1, 2, 9]);
    let plates: Vec<String> = got.iter().map(|t| t.plate.clone()).collect();
    assert_eq!(plates, vec!["C", "A", "B"]);
    assert_eq!(p.len(), 1);
    assert!(p.contains_key(&3));
}

#[test]
fn take_pending_tickets_twice_finds_none() {
    let mut p: HashMap<u16, Vec<Ticket>> = HashMap::new();
    p.insert(4, vec![ticket("E", 4)]);
    let roads = vec![4];
    assert_eq!(take_pending_tickets(&mut p, &roads).len(), 1);
    assert_eq!(take_pending_tickets(&mut p, &roads).len(), 0);
}

#[test]
fn camera_and_dispatcher_introduce_themselves() {
    match introduction(ClientMsg::IAmCamera { road: 1, mile: 2, limit: 3 }) {
        Introduction::Camera { road, mile, limit } => assert_eq!((road, mile, limit), (1, 2, 3)),
        _ => panic!("expected a camera"),
    }
    match introduction(ClientMsg::IAmDispatcher { roads: vec![4, 5] }) {
        Introduction::Dispatcher { roads } => assert_eq!(roads, vec![4, 5]),
        _ => panic!("expected a dispatcher"),
    }
}

#[test]
fn other_first_messages_are_rejected() {
    for m in [
        ClientMsg::Plate { id: "X".to_string(), timestamp: 1 },
        ClientMsg::WantHeartBeat { interval: 10 },
        ClientMsg::UnknownMsg,
    ] {
        match introduction(m) {
            Introduction::Rejected(e) => assert_eq!(e.msg, "expected introduction"),
            _ => panic!("expected a rejection"),
        }
    }
}

#[test]
fn heartbeat_starts_and_keeps_beating() {
    let (flow, state) = heartbeat_step(HeartbeatState::Dormant, HeartbeatEvent::Started);
    assert!(matches!(flow, ControlFlow::HeartBeat));
    assert!(matches!(state, HeartbeatState::Beating));
    let (flow, state) = heartbeat_step(state, HeartbeatEvent::Ticked);
    assert!(matches!(flow, ControlFlow::HeartBeat));
    assert!(matches!(state, HeartbeatState::Beating));
}

#[test]
fn heartbeat_dies_when_interval_is_lost() {
    let (flow, state) = heartbeat_step(
        HeartbeatState::Dormant,
        HeartbeatEvent::Canceled("oneshot canceled".to_string()),
    );
    match flow {
        ControlFlow::Error(m) => assert_eq!(m, "heartbeat error: oneshot canceled"),
        _ => panic!("expected an error"),
    }
    assert!(matches!(state, HeartbeatState::Dead));
    let (flow, state) = heartbeat_step(state, HeartbeatEvent::Ticked);
    match flow {
        ControlFlow::Error(m) => assert_eq!(m, "heartbeat is dead"),
        _ => panic!("expected an error"),
    }
    assert!(matches!(state, HeartbeatState::Dead));
}
