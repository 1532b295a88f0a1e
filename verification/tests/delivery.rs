use std::cell::RefCell;
use std::rc::Rc;

use axum_wsb::connection::Connection;
use axum_wsb::delivery::FanOut;
use axum_wsb::frame::{Frame, Payload};
use axum_wsb::room::Room;

/// An endpoint that writes what it is sent into a journal shared by all the
/// endpoints of a test, or fails every send.
#[derive(Debug)]
struct Wire {
    name: &'static str,
    journal: Rc<RefCell<Vec<(&'static str, Frame<String>)>>>,
    attempts: usize,
    broken: bool,
}

impl Wire {
    fn send(&mut self, frame: Frame<String>) -> Result<(), String> {
        self.attempts += 1;
        if self.broken {
            return Err(format!("{} is gone", self.name));
        }
        self.journal.borrow_mut().push((self.name, frame));
        Ok(())
    }
}

type Journal = Rc<RefCell<Vec<(&'static str, Frame<String>)>>>;

fn journal() -> Journal {
    Rc::new(RefCell::new(Vec::new()))
}

fn wire(name: &'static str, journal: &Journal) -> Wire {
    Wire { name, journal: Rc::clone(journal), attempts: 0, broken: false }
}

fn broken_wire(name: &'static str, journal: &Journal) -> Wire {
    Wire { name, journal: Rc::clone(journal), attempts: 0, broken: true }
}

fn room_of(names: &[&'static str], journal: &Journal) -> Room<Wire> {
    let mut room = Room { id: String::from("room"), connections: Vec::new() };
    for name in names {
        room.add_connection(&String::from(*name), wire(name, journal));
    }
    room
}

/// Sends the plan's frame to each target in turn; a failed send stops nothing.
fn carry_out(room: &mut Room<Wire>, plan: &FanOut<String>) -> usize {
    let mut failed = 0;
    for target in &plan.targets {
        if room.connections[*target].receiver.send(plan.frame.clone()).is_err() {
            failed += 1;
        }
    }
    failed
}

fn names_in(journal: &Journal) -> Vec<&'static str> {
    journal.borrow().iter().map(|entry| entry.0).collect()
}

fn ids_in(room: &Room<Wire>) -> Vec<String> {
    room.connections.iter().map(|c| c.id.clone()).collect()
}

fn numbered(sinks: &[u32]) -> Room<u32> {
    let mut room = Room { id: String::from("n"), connections: Vec::new() };
    for (i, sink) in sinks.iter().enumerate() {
        room.add_connection(&format!("c{}", i), *sink);
    }
    room
}

fn is_even(connection: &Connection<u32>) -> bool {
    connection.receiver % 2 == 0
}

#[test]
fn broadcast_targets_every_member_in_joining_order() {
    let log = journal();
    let room = room_of(&["a", "b", "c"], &log);
    let plan = room.broadcast(String::from("hello"));
    assert_eq!(plan.targets, vec![0, 1, 2]);
    assert_eq!(plan.frame, Frame::Data(String::from("hello")));
}

#[test]
fn broadcast_reaches_the_sinks_in_joining_order() {
    let log = journal();
    let mut room = room_of(&["a", "b", "c"], &log);
    let plan = room.broadcast(String::from("hello"));
    let failed = carry_out(&mut room, &plan);
    assert_eq!(failed, 0);
    assert_eq!(names_in(&log), vec!["a", "b", "c"]);
    for entry in log.borrow().iter() {
        assert_eq!(entry.1, Frame::Data(String::from("hello")));
    }
}

#[test]
fn broadcast_order_is_the_order_of_joining_not_of_names() {
    let log = journal();
    let mut room = room_of(&["c", "a", "b"], &log);
    let plan = room.broadcast(String::from("x"));
    carry_out(&mut room, &plan);
    assert_eq!(names_in(&log), vec!["c", "a", "b"]);
}

#[test]
fn broadcast_to_an_empty_room_targets_nobody() {
    let room: Room<u32> = Room { id: String::from("r"), connections: Vec::new() };
    let plan = room.broadcast(String::from("hello"));
    assert!(plan.targets.is_empty());
    assert_eq!(plan.frame, Frame::Data(String::from("hello")));
}

#[test]
fn broadcast_never_prunes() {
    let log = journal();
    let mut room = Room { id: String::from("room"), connections: Vec::new() };
    room.add_connection(&String::from("a"), wire("a", &log));
    room.add_connection(&String::from("b"), broken_wire("b", &log));
    room.add_connection(&String::from("c"), wire("c", &log));

    let plan = room.broadcast(String::from("one"));
    let failed = carry_out(&mut room, &plan);
    assert_eq!(failed, 1);
    assert_eq!(ids_in(&room), vec!["a", "b", "c"]);
    assert_eq!(names_in(&log), vec!["a", "c"]);

    let again = room.broadcast(String::from("two"));
    assert_eq!(again.targets, vec![0, 1, 2]);
    carry_out(&mut room, &again);
    assert_eq!(room.connections[1].receiver.attempts, 2);
    assert_eq!(ids_in(&room), vec!["a", "b", "c"]);
    assert_eq!(names_in(&log), vec!["a", "c", "a", "c"]);
}

#[test]
fn broadcast_accepts_a_borrowed_message() {
    let room = numbered(&[1, 2]);
    let message = String::from("shared");
    let plan = room.broadcast(&message);
    assert_eq!(plan.frame, Frame::Data(&message));
    assert_eq!(plan.targets, vec![0, 1]);
}

#[test]
fn broadcast_if_targets_the_members_the_condition_accepts() {
    let room = numbered(&[2, 3, 4, 5, 6]);
    let plan = room.broadcast_if(String::from("m"), is_even);
    assert_eq!(plan.targets, vec![0, 2, 4]);
    assert_eq!(plan.frame, Frame::Data(String::from("m")));
}

#[test]
fn broadcast_if_not_targets_the_members_the_condition_rejects() {
    let room = numbered(&[2, 3, 4, 5, 6]);
    let plan = room.broadcast_if_not(String::from("m"), is_even);
    assert_eq!(plan.targets, vec![1, 3]);
    assert_eq!(plan.frame, Frame::Data(String::from("m")));
}

#[test]
fn broadcast_if_with_a_condition_nobody_meets() {
    let room = numbered(&[1, 3, 5]);
    let plan = room.broadcast_if(String::from("m"), is_even);
    assert!(plan.targets.is_empty());
    let others = room.broadcast_if_not(String::from("m"), is_even);
    assert_eq!(others.targets, vec![0, 1, 2]);
}

#[test]
fn broadcast_if_can_select_by_identifier() {
    let log = journal();
    let mut room = room_of(&["alice", "bob", "carol"], &log);
    let plan = room.broadcast_if(String::from("psst"), |c: &Connection<Wire>| c.id != "bob");
    assert_eq!(plan.targets, vec![0, 2]);
    carry_out(&mut room, &plan);
    assert_eq!(names_in(&log), vec!["alice", "carol"]);
}

#[test]
fn the_condition_is_asked_once_for_each_member_in_order() {
    let room = numbered(&[10, 11, 12]);
    let asked: RefCell<Vec<u32>> = RefCell::new(Vec::new());
    let plan = room.broadcast_if(String::from("m"), |c: &Connection<u32>| {
        asked.borrow_mut().push(c.receiver);
        c.receiver > 10
    });
    assert_eq!(plan.targets, vec![1, 2]);
    assert_eq!(*asked.borrow(), vec![10, 11, 12]);
}

#[test]
fn filtered_delivery_leaves_the_room_unchanged() {
    let room = numbered(&[1, 2, 3]);
    let _ = room.broadcast_if(String::from("m"), is_even);
    let _ = room.broadcast_if_not(String::from("m"), is_even);
    let sinks: Vec<u32> = room.connections.iter().map(|c| c.receiver).collect();
    assert_eq!(sinks, vec![1, 2, 3]);
}

#[test]
fn ping_carries_its_bytes_to_everyone() {
    let room = numbered(&[1, 2, 3]);
    let bytes = vec![1u8, 2, 3];
    let plan: FanOut<String> = room.ping(&bytes);
    assert_eq!(plan.frame, Frame::Ping(vec![1, 2, 3]));
    assert_eq!(plan.targets, vec![0, 1, 2]);
}

#[test]
fn ping_with_no_bytes() {
    let room = numbered(&[1]);
    let plan: FanOut<String> = room.ping(&Vec::new());
    assert_eq!(plan.frame, Frame::Ping(Vec::new()));
    assert_eq!(plan.targets, vec![0]);
}

#[test]
fn ping_if_and_ping_if_not_split_the_room() {
    let room = numbered(&[1, 2, 3, 4]);
    let bytes = vec![9u8];
    let yes: FanOut<String> = room.ping_if(&bytes, is_even);
    let no: FanOut<String> = room.ping_if_not(&bytes, is_even);
    assert_eq!(yes.frame, Frame::Ping(vec![9]));
    assert_eq!(no.frame, Frame::Ping(vec![9]));
    assert_eq!(yes.targets, vec![1, 3]);
    assert_eq!(no.targets, vec![0, 2]);
}

#[test]
fn pong_carries_its_bytes_to_everyone() {
    let room = numbered(&[1, 2]);
    let bytes = vec![7u8, 7];
    let plan: FanOut<String> = room.pong(&bytes);
    assert_eq!(plan.frame, Frame::Pong(vec![7, 7]));
    assert_eq!(plan.targets, vec![0, 1]);
}

#[test]
fn pong_if_and_pong_if_not_split_the_room() {
    let room = numbered(&[1, 2, 3, 4]);
    let bytes = vec![0u8, 255];
    let yes: FanOut<String> = room.pong_if(&bytes, is_even);
    let no: FanOut<String> = room.pong_if_not(&bytes, is_even);
    assert_eq!(yes.frame, Frame::Pong(vec![0, 255]));
    assert_eq!(no.frame, Frame::Pong(vec![0, 255]));
    assert_eq!(yes.targets, vec![1, 3]);
    assert_eq!(no.targets, vec![0, 2]);
}

#[test]
fn binary_carries_its_bytes_as_data() {
    let room = numbered(&[1, 2]);
    let bytes = vec![0xde_u8, 0xad, 0xbe, 0xef];
    let plan = room.binary(&bytes);
    assert_eq!(plan.frame, Frame::Data(Payload::Binary(vec![0xde, 0xad, 0xbe, 0xef])));
    assert_eq!(plan.targets, vec![0, 1]);
}

#[test]
fn binary_if_and_binary_if_not_split_the_room() {
    let room = numbered(&[1, 2, 3, 4]);
    let bytes = vec![5u8];
    let yes = room.binary_if(&bytes, is_even);
    let no = room.binary_if_not(&bytes, is_even);
    assert_eq!(yes.frame, Frame::Data(Payload::Binary(vec![5])));
    assert_eq!(no.frame, Frame::Data(Payload::Binary(vec![5])));
    assert_eq!(yes.targets, vec![1, 3]);
    assert_eq!(no.targets, vec![0, 2]);
}

#[test]
fn text_and_binary_payloads_differ() {
    let room = numbered(&[1]);
    let text = room.broadcast(Payload::Text(String::from("AB")));
    let binary = room.binary(&vec![65u8, 66]);
    assert_eq!(text.frame, Frame::Data(Payload::Text(String::from("AB"))));
    assert_ne!(text.frame, binary.frame);
}

#[test]
fn control_frames_do_not_change_who_is_in_the_room() {
    let log = journal();
    let mut room = Room { id: String::from("room"), connections: Vec::new() };
    room.add_connection(&String::from("a"), broken_wire("a", &log));
    room.add_connection(&String::from("b"), wire("b", &log));
    let ping: FanOut<String> = room.ping(&vec![1u8]);
    let failed = carry_out(&mut room, &ping);
    assert_eq!(failed, 1);
    let pong: FanOut<String> = room.pong(&vec![2u8]);
    carry_out(&mut room, &pong);
    assert_eq!(ids_in(&room), vec!["a", "b"]);
    let sent: Vec<Frame<String>> = log.borrow().iter().map(|entry| entry.1.clone()).collect();
    assert_eq!(sent, vec![Frame::Ping(vec![1]), Frame::Pong(vec![2])]);
}

#[test]
fn every_target_is_a_position_in_the_room() {
    let room = numbered(&[4, 8, 15, 16, 23, 42]);
    let plans = vec![
        room.broadcast(0u8),
        room.broadcast_if(0u8, is_even),
        room.broadcast_if_not(0u8, is_even),
        room.ping(&vec![1u8]),
        room.pong_if(&vec![1u8], is_even),
    ];
    for plan in &plans {
        for pair in plan.targets.windows(2) {
            assert!(pair[0] < pair[1]);
        }
        for target in &plan.targets {
            assert!(*target < room.connections.len());
        }
    }
}
