//! The registry: rooms in the order they were created.

use vstd::prelude::*;
use crate::closing::Closing;
use crate::connection::{members_of, Connection};
use crate::registry::{all_members, occupied, registry_of, room_named, room_not_named, RegistryView};
use crate::room::{room_of, Room, RoomView};
use crate::selection::{divide, lemma_chosen_is_filter, lemma_chosen_maps};

verus! {

/// The rooms that a sequence of rooms stands for.
pub open spec fn rooms_of<S>(rooms: Seq<Room<S>>) -> Seq<RoomView<S>> {
    rooms.map_values(|r: Room<S>| r@)
}

/// Putting a room in place of another puts its view in place of the other's.
pub proof fn lemma_put_views<S>(rooms: Seq<Room<S>>, i: int)
    requires
        0 <= i < rooms.len(),
    ensures
        forall|room: Room<S>| #[trigger]
            rooms_of(rooms.update(i, room)) == rooms_of(rooms).update(i, room@),
{
    assert forall|room: Room<S>| #[trigger]
        rooms_of(rooms.update(i, room)) == rooms_of(rooms).update(i, room@) by {
        assert(rooms_of(rooms.update(i, room)) =~= rooms_of(rooms).update(i, room@));
    }
}

/// The registry of rooms. One value is shared by every task that serves a
/// connection; each call below is one step under exclusive access to it.
#[derive(Debug)]
pub struct Broadcaster<S> {
    pub rooms: Vec<Room<S>>,
}

impl<S> View for Broadcaster<S> {
    type V = RegistryView<S>;

    open spec fn view(&self) -> RegistryView<S> {
        registry_of(rooms_of(self.rooms@))
    }
}

impl<S> Broadcaster<S> {
    /// A registry without rooms.
    pub fn new() -> (registry: Self)
        ensures
            registry@.rooms == Seq::<RoomView<S>>::empty(),
            registry@.wf(),
    {
        let registry = Broadcaster { rooms: Vec::new() };
        assert(registry@.rooms =~= Seq::<RoomView<S>>::empty());
        registry
    }

    /// Where the first room with this identifier stands, if there is one.
    fn locate(&self, id: &String) -> (at: Option<usize>)
        ensures
            match at {
                Some(i) => self@.first_room_at(id@, i as int),
                None => !self@.has_room(id@),
            },
    {
        let mut i: usize = 0;
        while i < self.rooms.len()
            invariant
                i <= self.rooms.len(),
                forall|j: int| 0 <= j < i ==> (#[trigger] self@.rooms[j]).id != id@,
            decreases self.rooms.len() - i,
        {
            if self.rooms[i].id == *id {
                return Some(i);
            }
            i += 1;
        }
        None
    }

    /// The room at `i`, to be changed in place.
    fn slot(&mut self, i: usize) -> (room: &mut Room<S>)
        requires
            i < old(self).rooms.len(),
        ensures
            *room == old(self).rooms@[i as int],
            final(self).rooms@ == old(self).rooms@.update(i as int, *final(room)),
    {
        &mut self.rooms[i]
    }

    /// The room with this identifier, created empty at the end of the
    /// registry when there is none. One step: no second room of the same
    /// identifier can come between the look-up and the creation.
    pub fn handle_room(&mut self, id: &String) -> (room: &mut Room<S>)
        ensures
            room@ == old(self)@.with_room(id@).room(id@),
            final(self)@ == old(self)@.with_room(id@).put(
                old(self)@.with_room(id@).room_position(id@),
                final(room)@,
            ),
            old(self)@.wf() && final(room)@.id == room@.id && final(room)@.unique() ==> final(self)@.wf(),
    {
        let at = match self.locate(id) {
            Some(i) => i,
            None => {
                let i = self.rooms.len();
                let room = Room { id: id.clone(), connections: Vec::new() };
                assert(room@.members =~= Seq::empty());
                self.rooms.push(room);
                assert(self@.rooms =~= old(self)@.rooms.push(room_of(id@, Seq::empty())));
                assert(self@.first_room_at(id@, i as int));
                i
            },
        };
        let ghost with = self@;
        assert(with == old(self)@.with_room(id@));
        assert(with.first_room_at(id@, at as int));
        proof {
            lemma_put_views(self.rooms@, at as int);
            if old(self)@.wf() {
                old(self)@.lemma_with_room_wf(id@);
                with.lemma_put_any_wf(at as int);
            }
        }
        self.slot(at)
    }

    /// Joins `receiver` as `conn_id` to the room `room_id`, which is created
    /// when it is not there. One step: the room is found or made and the
    /// member added under the same exclusive access.
    pub fn handle(&mut self, room_id: &String, conn_id: &String, receiver: S)
        ensures
            final(self)@ == old(self)@.join(room_id@, conn_id@, receiver),
            old(self)@.wf() ==> final(self)@.wf(),
    {
        proof {
            if self@.wf() {
                self@.lemma_join_wf(room_id@, conn_id@, receiver);
            }
        }
        self.handle_room(room_id).add_connection(conn_id, receiver);
    }

    /// The room with this identifier, for a caller that knows it is there.
    pub fn room(&mut self, id: &String) -> (room: &mut Room<S>)
        requires
            old(self)@.has_room(id@),
        ensures
            room@ == old(self)@.room(id@),
            final(self)@ == old(self)@.put(old(self)@.room_position(id@), final(room)@),
            old(self)@.wf() && final(room)@.id == room@.id && final(room)@.unique() ==> final(self)@.wf(),
    {
        let ghost at = self@.room_position(id@);
        proof {
            self@.lemma_room_position(id@);
        }
        let mut i: usize = 0;
        while self.rooms[i].id != *id
            invariant
                *self == *old(self),
                i <= at < self.rooms.len(),
                self@.first_room_at(id@, at),
            decreases at - i,
        {
            assert(self@.rooms[i as int].id != id@);
            i += 1;
        }
        proof {
            assert(self@.rooms[i as int].id == id@);
            lemma_put_views(self.rooms@, i as int);
            if self@.wf() {
                self@.lemma_put_any_wf(i as int);
            }
        }
        self.slot(i)
    }

    /// The room with this identifier, or nothing when there is none.
    pub fn check_room(&mut self, id: &String) -> (found: Option<&mut Room<S>>)
        ensures
            match found {
                Some(room) => {
                    &&& old(self)@.has_room(id@)
                    &&& room@ == old(self)@.room(id@)
                    &&& final(self)@ == old(self)@.put(old(self)@.room_position(id@), final(room)@)
                    &&& old(self)@.wf() && final(room)@.id == room@.id && final(room)@.unique()
                        ==> final(self)@.wf()
                },
                None => !old(self)@.has_room(id@) && *final(self) == *old(self),
            },
    {
        match self.locate(id) {
            Some(i) => {
                proof {
                    lemma_put_views(self.rooms@, i as int);
                    if self@.wf() {
                        self@.lemma_put_any_wf(i as int);
                    }
                }
                Some(self.slot(i))
            },
            None => None,
        }
    }

    /// Whether a room with this identifier is there.
    pub fn check(&self, id: &String) -> (present: bool)
        ensures
            present == self@.has_room(id@),
    {
        self.locate(id).is_some()
    }

    /// Removes the room named `id`, closing it first: its members leave in
    /// joining order and are handed over, each owed a close frame without a
    /// reason. The room goes whatever becomes of those frames. The other
    /// rooms stay as they are.
    pub fn remove_room(&mut self, id: &String) -> (closing: Closing<S>)
        ensures
            final(self)@ == old(self)@.without_room(id@),
            members_of(closing.connections@) == old(self)@.members_in(id@),
            closing.close_frame is None,
            old(self)@.wf() ==> final(self)@.wf(),
    {
        let mut flags: Vec<bool> = Vec::new();
        let mut i: usize = 0;
        while i < self.rooms.len()
            invariant
                i <= self.rooms.len(),
                *self == *old(self),
                flags.len() == i,
                forall|j: int| 0 <= j < i ==> #[trigger] flags@[j] == (self.rooms@[j].id@ == id@),
            decreases self.rooms.len() - i,
        {
            flags.push(self.rooms[i].id == *id);
            i += 1;
        }
        let mut all: Vec<Room<S>> = Vec::new();
        std::mem::swap(&mut self.rooms, &mut all);
        let (stay, leave) = divide(all, &flags, true);
        self.rooms = stay;
        proof {
            let before = old(self).rooms@;
            let view = |r: Room<S>| r@;
            lemma_chosen_maps(before, flags@, true, view);
            lemma_chosen_maps(before, flags@, false, view);
            lemma_chosen_is_filter(rooms_of(before), flags@, true, room_named(id@));
            lemma_chosen_is_filter(rooms_of(before), flags@, false, room_not_named(id@));
            if old(self)@.wf() {
                old(self)@.lemma_without_room_wf(id@);
            }
        }
        let mut connections: Vec<Connection<S>> = Vec::new();
        let ghost mut seen: int = 0;
        for room in it: leave
            invariant
                seen == it.index(),
                members_of(connections@) == all_members(rooms_of(leave@.take(seen))),
        {
            let mut room = room;
            proof {
                assert(leave@.take(seen + 1).drop_last() =~= leave@.take(seen));
                assert(rooms_of(leave@.take(seen + 1)).drop_last() =~= rooms_of(leave@.take(seen)));
                assert(members_of(connections@ + room.connections@) =~= members_of(connections@)
                    + room@.members);
                seen = seen + 1;
            }
            connections.append(&mut room.connections);
        }
        assert(leave@.take(seen) =~= leave@);
        Closing { close_frame: None, connections }
    }

    /// Removes every room without members, in one pass. The rooms that have
    /// members stay as they are, in their order.
    pub fn remove_empty_rooms(&mut self)
        ensures
            final(self)@ == old(self)@.pruned(),
            old(self)@.wf() ==> final(self)@.wf(),
    {
        let mut flags: Vec<bool> = Vec::new();
        let mut i: usize = 0;
        while i < self.rooms.len()
            invariant
                i <= self.rooms.len(),
                *self == *old(self),
                flags.len() == i,
                forall|j: int| 0 <= j < i ==> #[trigger] flags@[j] == (self.rooms@[j].connections@.len() == 0),
            decreases self.rooms.len() - i,
        {
            flags.push(self.rooms[i].connections.is_empty());
            i += 1;
        }
        let mut all: Vec<Room<S>> = Vec::new();
        std::mem::swap(&mut self.rooms, &mut all);
        let (stay, _) = divide(all, &flags, true);
        self.rooms = stay;
        proof {
            let before = old(self).rooms@;
            lemma_chosen_maps(before, flags@, false, |r: Room<S>| r@);
            lemma_chosen_is_filter(rooms_of(before), flags@, false, occupied());
            if old(self)@.wf() {
                old(self)@.lemma_pruned_wf();
            }
        }
    }

    /// Removes the first member named `id`, from the first room that has
    /// one, and hands its endpoint back; the caller owes it whatever close
    /// frame it wants sent. Nothing changes, and nothing comes back, when no
    /// room has such a member.
    pub fn remove_connection(&mut self, id: &String) -> (sink: Option<S>)
        ensures
            final(self)@ == old(self)@.without_connection(id@),
            match sink {
                Some(endpoint) => old(self)@.holds(id@) && endpoint == old(self)@.found(id@).sink,
                None => !old(self)@.holds(id@),
            },
            old(self)@.wf() ==> final(self)@.wf(),
    {
        proof {
            if self@.wf() {
                self@.lemma_without_connection_wf(id@);
            }
        }
        let mut i: usize = 0;
        while i < self.rooms.len()
            invariant
                i <= self.rooms.len(),
                *self == *old(self),
                forall|j: int| 0 <= j < i ==> !(#[trigger] self@.rooms[j]).has(id@),
            decreases self.rooms.len() - i,
        {
            if let Some(at) = self.rooms[i].locate(id) {
                assert(self@.first_holder_at(id@, i as int));
                assert(self@.rooms[i as int].first_at(id@, at as int));
                proof {
                    lemma_put_views(self.rooms@, i as int);
                }
                let connection = self.slot(i).take_at(at);
                return Some(connection.receiver);
            }
            i += 1;
        }
        None
    }
}

impl<S> Default for Broadcaster<S> {
    /// A registry without rooms.
    fn default() -> (registry: Self)
        ensures
            registry@.rooms == Seq::<RoomView<S>>::empty(),
            registry@.wf(),
    {
        Broadcaster::new()
    }
}

} // verus!
