use std::cell::RefCell;
use std::rc::Rc;

use axum_wsb::broadcaster::Broadcaster;
use axum_wsb::closing::Closing;
use axum_wsb::delivery::FanOut;
use axum_wsb::frame::Frame;
use axum_wsb::room::Room;

/// An endpoint whose record outlives the registry's hold on it.
#[derive(Debug, Clone)]
struct Probe {
    record: Rc<RefCell<Vec<Frame<String>>>>,
}

impl Probe {
    fn new() -> Probe {
        Probe { record: Rc::new(RefCell::new(Vec::new())) }
    }

    fn send(&mut self, frame: Frame<String>) {
        self.record.borrow_mut().push(frame);
    }

    fn recorded(&self) -> Vec<Frame<String>> {
        self.record.borrow().clone()
    }
}

fn word(text: &str) -> String {
    String::from(text)
}

fn data(text: &str) -> Frame<String> {
    Frame::Data(word(text))
}

fn send_all(room: &mut Room<Probe>, plan: FanOut<String>) {
    for target in plan.targets {
        room.connections[target].receiver.send(plan.frame.clone());
    }
}

fn close_all(closing: Closing<Probe>) {
    for mut connection in closing.connections {
        connection.receiver.send(Frame::Close(closing.close_frame.clone()));
    }
}

fn broadcast_to(registry: &mut Broadcaster<Probe>, room_id: &str, text: &str) {
    let room = registry.room(&word(room_id));
    let plan = room.broadcast(word(text));
    send_all(room, plan);
}

#[test]
fn end_to_end() {
    let alice = Probe::new();
    let bob = Probe::new();
    let mut registry = Broadcaster::new();

    registry.handle(&word("lobby"), &word("alice"), alice.clone());
    registry.handle(&word("lobby"), &word("bob"), bob.clone());
    broadcast_to(&mut registry, "lobby", "hello");
    assert_eq!(alice.recorded(), vec![data("hello")]);
    assert_eq!(bob.recorded(), vec![data("hello")]);

    let taken = registry.remove_connection(&word("alice"));
    assert!(taken.is_some());
    broadcast_to(&mut registry, "lobby", "hi");
    assert_eq!(alice.recorded(), vec![data("hello")]);
    assert_eq!(bob.recorded(), vec![data("hello"), data("hi")]);

    let closing = registry.room(&word("lobby")).close_conn(None, &word("bob"));
    close_all(closing);
    assert_eq!(bob.recorded(), vec![data("hello"), data("hi"), Frame::Close(None)]);
    assert!(registry.room(&word("lobby")).connections.is_empty());
    assert!(registry.check(&word("lobby")));

    registry.remove_empty_rooms();
    assert!(!registry.check(&word("lobby")));
    assert!(registry.rooms.is_empty());
}

#[test]
fn a_second_join_does_not_replace_the_endpoint() {
    let first = Probe::new();
    let second = Probe::new();
    let mut registry = Broadcaster::new();
    registry.handle(&word("r"), &word("c"), first.clone());
    registry.handle(&word("r"), &word("c"), second.clone());
    assert_eq!(registry.rooms.len(), 1);
    assert_eq!(registry.rooms[0].connections.len(), 1);
    broadcast_to(&mut registry, "r", "who hears this");
    assert_eq!(first.recorded(), vec![data("who hears this")]);
    assert!(second.recorded().is_empty());
}

#[test]
fn a_broadcast_stays_in_its_room() {
    let a = Probe::new();
    let b = Probe::new();
    let mut registry = Broadcaster::new();
    registry.handle(&word("one"), &word("a"), a.clone());
    registry.handle(&word("two"), &word("b"), b.clone());
    broadcast_to(&mut registry, "two", "for two");
    assert!(a.recorded().is_empty());
    assert_eq!(b.recorded(), vec![data("for two")]);
}

#[test]
fn removing_a_room_closes_its_members_and_only_them() {
    let a = Probe::new();
    let b = Probe::new();
    let c = Probe::new();
    let mut registry = Broadcaster::new();
    registry.handle(&word("one"), &word("a"), a.clone());
    registry.handle(&word("two"), &word("b"), b.clone());
    registry.handle(&word("two"), &word("c"), c.clone());
    let closing = registry.remove_room(&word("two"));
    close_all(closing);
    assert!(a.recorded().is_empty());
    assert_eq!(b.recorded(), vec![Frame::Close(None)]);
    assert_eq!(c.recorded(), vec![Frame::Close(None)]);
    assert!(!registry.check(&word("two")));
    assert!(registry.check(&word("one")));
}

#[test]
fn a_member_that_left_hears_nothing_more() {
    let a = Probe::new();
    let b = Probe::new();
    let mut registry = Broadcaster::new();
    registry.handle(&word("r"), &word("a"), a.clone());
    registry.handle(&word("r"), &word("b"), b.clone());
    registry.room(&word("r")).remove_connection(word("a"));
    broadcast_to(&mut registry, "r", "after");
    assert!(a.recorded().is_empty());
    assert_eq!(b.recorded(), vec![data("after")]);
    registry.handle(&word("r"), &word("a"), a.clone());
    broadcast_to(&mut registry, "r", "back");
    assert_eq!(a.recorded(), vec![data("back")]);
    assert_eq!(b.recorded(), vec![data("after"), data("back")]);
}
