use axum_wsb::connection::Connection;
use axum_wsb::room::Room;

fn text(s: &str) -> String {
    String::from(s)
}

fn room_named(id: &str) -> Room<u32> {
    Room { id: text(id), connections: Vec::new() }
}

fn ids_of(room: &Room<u32>) -> Vec<String> {
    room.connections.iter().map(|c| c.id.clone()).collect()
}

fn sinks_of(room: &Room<u32>) -> Vec<u32> {
    room.connections.iter().map(|c| c.receiver).collect()
}

#[test]
fn create_names_the_endpoint() {
    let connection = Connection::create(text("alice"), 7u32);
    assert_eq!(connection.id, "alice");
    assert_eq!(connection.receiver, 7);
}

#[test]
fn create_accepts_an_empty_identifier() {
    let connection = Connection::create(String::new(), 1u32);
    assert_eq!(connection.id, "");
    assert_eq!(connection.receiver, 1);
}

#[test]
fn add_connection_appends_in_joining_order() {
    let mut room = room_named("r");
    room.add_connection(&text("a"), 1);
    room.add_connection(&text("b"), 2);
    room.add_connection(&text("c"), 3);
    assert_eq!(ids_of(&room), vec![text("a"), text("b"), text("c")]);
    assert_eq!(sinks_of(&room), vec![1, 2, 3]);
    assert_eq!(room.id, "r");
}

#[test]
fn add_connection_under_a_taken_identifier_changes_nothing() {
    let mut room = room_named("r");
    room.add_connection(&text("c"), 10);
    room.add_connection(&text("c"), 20);
    assert_eq!(ids_of(&room), vec![text("c")]);
    assert_eq!(sinks_of(&room), vec![10]);
}

#[test]
fn add_connection_keeps_the_first_holder_between_other_joins() {
    let mut room = room_named("r");
    room.add_connection(&text("a"), 1);
    room.add_connection(&text("b"), 2);
    room.add_connection(&text("a"), 3);
    room.add_connection(&text("c"), 4);
    room.add_connection(&text("b"), 5);
    assert_eq!(ids_of(&room), vec![text("a"), text("b"), text("c")]);
    assert_eq!(sinks_of(&room), vec![1, 2, 4]);
}

#[test]
fn add_connection_tells_identifiers_apart_by_every_character() {
    let mut room = room_named("r");
    room.add_connection(&text("ab"), 1);
    room.add_connection(&text("a"), 2);
    room.add_connection(&text("AB"), 3);
    room.add_connection(&text(""), 4);
    assert_eq!(ids_of(&room), vec![text("ab"), text("a"), text("AB"), text("")]);
}

#[test]
fn remove_connection_removes_the_match_and_keeps_the_order() {
    let mut room = room_named("r");
    room.add_connection(&text("a"), 1);
    room.add_connection(&text("b"), 2);
    room.add_connection(&text("c"), 3);
    room.remove_connection(text("b"));
    assert_eq!(ids_of(&room), vec![text("a"), text("c")]);
    assert_eq!(sinks_of(&room), vec![1, 3]);
    assert_eq!(room.id, "r");
}

#[test]
fn remove_connection_of_an_absent_identifier_changes_nothing() {
    let mut room = room_named("r");
    room.add_connection(&text("a"), 1);
    room.remove_connection(text("z"));
    assert_eq!(ids_of(&room), vec![text("a")]);
    assert_eq!(sinks_of(&room), vec![1]);
}

#[test]
fn remove_connection_may_leave_the_room_empty() {
    let mut room = room_named("r");
    room.add_connection(&text("a"), 1);
    room.remove_connection(text("a"));
    assert!(room.connections.is_empty());
    assert_eq!(room.id, "r");
}

#[test]
fn remove_connection_on_an_empty_room() {
    let mut room = room_named("r");
    room.remove_connection(text("a"));
    assert!(room.connections.is_empty());
}

#[test]
fn remove_connection_takes_every_holder_of_the_identifier() {
    let mut room = Room {
        id: text("r"),
        connections: vec![
            Connection::create(text("a"), 1u32),
            Connection::create(text("b"), 2),
            Connection::create(text("a"), 3),
        ],
    };
    room.remove_connection(text("a"));
    assert_eq!(ids_of(&room), vec![text("b")]);
    assert_eq!(sinks_of(&room), vec![2]);
}

#[test]
fn a_removed_identifier_can_join_again_as_a_new_member() {
    let mut room = room_named("r");
    room.add_connection(&text("a"), 1);
    room.add_connection(&text("b"), 2);
    room.remove_connection(text("a"));
    room.add_connection(&text("a"), 9);
    assert_eq!(ids_of(&room), vec![text("b"), text("a")]);
    assert_eq!(sinks_of(&room), vec![2, 9]);
}

#[test]
fn check_connection_finds_the_member() {
    let mut room = room_named("r");
    room.add_connection(&text("a"), 1);
    room.add_connection(&text("b"), 2);
    let found = room.check_connection(&text("b"));
    assert!(found.is_some());
    let connection = found.unwrap();
    assert_eq!(connection.id, "b");
    assert_eq!(connection.receiver, 2);
}

#[test]
fn check_connection_finds_the_first_of_two_holders() {
    let mut room = Room {
        id: text("r"),
        connections: vec![
            Connection::create(text("x"), 1u32),
            Connection::create(text("a"), 2),
            Connection::create(text("a"), 3),
        ],
    };
    let found = room.check_connection(&text("a"));
    assert_eq!(found.map(|c| c.receiver), Some(2));
}

#[test]
fn check_connection_of_an_absent_identifier_finds_nothing() {
    let mut room = room_named("r");
    room.add_connection(&text("a"), 1);
    assert!(room.check_connection(&text("b")).is_none());
    assert!(room.check_connection(&text("")).is_none());
}

#[test]
fn check_connection_leaves_the_room_as_it_is() {
    let mut room = room_named("r");
    room.add_connection(&text("a"), 1);
    room.add_connection(&text("b"), 2);
    let _ = room.check_connection(&text("a"));
    let _ = room.check_connection(&text("z"));
    assert_eq!(ids_of(&room), vec![text("a"), text("b")]);
    assert_eq!(sinks_of(&room), vec![1, 2]);
}
