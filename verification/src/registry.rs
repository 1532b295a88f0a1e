//! What the registry is, apart from how it is stored: a sequence of rooms,
//! and the sequence that each operation makes of it.

use vstd::prelude::*;
use crate::connection::Member;
use crate::room::{room_of, RoomView};
use crate::selection::{lemma_filter_all, lemma_filter_all_but, lemma_filter_keeps, lemma_filter_none};
use crate::selection::{lemma_filter_only, lemma_least};

verus! {

/// A room with this identifier.
pub open spec fn room_named<S>(id: Seq<char>) -> spec_fn(RoomView<S>) -> bool {
    |r: RoomView<S>| r.id == id
}

/// A room with another identifier.
pub open spec fn room_not_named<S>(id: Seq<char>) -> spec_fn(RoomView<S>) -> bool {
    |r: RoomView<S>| r.id != id
}

/// A room with at least one member.
pub open spec fn occupied<S>() -> spec_fn(RoomView<S>) -> bool {
    |r: RoomView<S>| r.members.len() > 0
}

/// Two rooms with different identifiers.
pub open spec fn rooms_differ<S>() -> spec_fn(RoomView<S>, RoomView<S>) -> bool {
    |a: RoomView<S>, b: RoomView<S>| a.id != b.id
}

/// The members of all the rooms, room after room.
pub open spec fn all_members<S>(rooms: Seq<RoomView<S>>) -> Seq<Member<S>>
    decreases rooms.len(),
{
    if rooms.len() == 0 {
        Seq::empty()
    } else {
        all_members(rooms.drop_last()) + rooms.last().members
    }
}

/// What the registry is: its rooms in the order they were created.
pub ghost struct RegistryView<S> {
    pub rooms: Seq<RoomView<S>>,
}

/// The registry of these rooms.
pub open spec fn registry_of<S>(rooms: Seq<RoomView<S>>) -> RegistryView<S> {
    RegistryView { rooms }
}

impl<S> RegistryView<S> {
    /// Some room has this identifier.
    pub open spec fn has_room(self, id: Seq<char>) -> bool {
        exists|i: int| 0 <= i < self.rooms.len() && (#[trigger] self.rooms[i]).id == id
    }

    /// The room at `i` is the first with this identifier.
    pub open spec fn first_room_at(self, id: Seq<char>, i: int) -> bool {
        &&& 0 <= i < self.rooms.len()
        &&& self.rooms[i].id == id
        &&& forall|j: int| 0 <= j < i ==> (#[trigger] self.rooms[j]).id != id
    }

    /// Where the first room with this identifier stands.
    pub open spec fn room_position(self, id: Seq<char>) -> int {
        choose|i: int| self.first_room_at(id, i)
    }

    /// The first room with this identifier.
    pub open spec fn room(self, id: Seq<char>) -> RoomView<S> {
        self.rooms[self.room_position(id)]
    }

    /// The registry with a room of this identifier: unchanged when there is
    /// one, else with a new empty room at the end.
    pub open spec fn with_room(self, id: Seq<char>) -> Self {
        if self.has_room(id) {
            self
        } else {
            registry_of(self.rooms.push(room_of(id, Seq::empty())))
        }
    }

    /// The registry with `room` in place of the room at `i`.
    pub open spec fn put(self, i: int, room: RoomView<S>) -> Self {
        registry_of(self.rooms.update(i, room))
    }

    /// The registry after a join: the room is there, created if need be, and
    /// the member has joined it.
    pub open spec fn join(self, room_id: Seq<char>, conn_id: Seq<char>, sink: S) -> Self {
        let with = self.with_room(room_id);
        let i = with.room_position(room_id);
        with.put(i, with.rooms[i].add(conn_id, sink))
    }

    /// The registry without the rooms of this identifier.
    pub open spec fn without_room(self, id: Seq<char>) -> Self {
        registry_of(self.rooms.filter(room_not_named(id)))
    }

    /// The members of the rooms of this identifier, room after room.
    pub open spec fn members_in(self, id: Seq<char>) -> Seq<Member<S>> {
        all_members(self.rooms.filter(room_named(id)))
    }

    /// The registry without its empty rooms.
    pub open spec fn pruned(self) -> Self {
        registry_of(self.rooms.filter(occupied()))
    }

    /// Some room has a member with this identifier.
    pub open spec fn holds(self, id: Seq<char>) -> bool {
        exists|i: int| 0 <= i < self.rooms.len() && (#[trigger] self.rooms[i]).has(id)
    }

    /// The room at `i` is the first that has a member with this identifier.
    pub open spec fn first_holder_at(self, id: Seq<char>, i: int) -> bool {
        &&& 0 <= i < self.rooms.len()
        &&& self.rooms[i].has(id)
        &&& forall|j: int| 0 <= j < i ==> !(#[trigger] self.rooms[j]).has(id)
    }

    /// Where the first room that has a member with this identifier stands.
    pub open spec fn holder(self, id: Seq<char>) -> int {
        choose|i: int| self.first_holder_at(id, i)
    }

    /// The first member with this identifier, in the first room that has one.
    pub open spec fn found(self, id: Seq<char>) -> Member<S> {
        let room = self.rooms[self.holder(id)];
        room.members[room.position(id)]
    }

    /// The registry without the first member with this identifier, taken
    /// from the first room that has one; unchanged when no room has one.
    pub open spec fn without_connection(self, id: Seq<char>) -> Self {
        if self.holds(id) {
            let i = self.holder(id);
            self.put(i, self.rooms[i].remove_at(self.rooms[i].position(id)))
        } else {
            self
        }
    }

    /// No two rooms share an identifier, and in no room do two members.
    pub open spec fn wf(self) -> bool {
        &&& forall|i: int, j: int|
            0 <= i < j < self.rooms.len() ==> (#[trigger] self.rooms[i]).id != (
            #[trigger] self.rooms[j]).id
        &&& forall|i: int| 0 <= i < self.rooms.len() ==> (#[trigger] self.rooms[i]).unique()
    }

    /// The first room of an identifier stands where `room_position` says,
    /// and nowhere else.
    pub proof fn lemma_room_position_is(self, id: Seq<char>, i: int)
        requires
            self.first_room_at(id, i),
        ensures
            self.has_room(id),
            self.room_position(id) == i,
    {
        let at = self.room_position(id);
        if at < i {
            assert(self.rooms[at].id != id);
        } else if i < at {
            assert(self.rooms[i].id != id);
        }
    }

    /// The first room that has a member of an identifier stands where
    /// `holder` says, and nowhere else.
    pub proof fn lemma_holder_is(self, id: Seq<char>, i: int)
        requires
            self.first_holder_at(id, i),
        ensures
            self.holds(id),
            self.holder(id) == i,
    {
        let at = self.holder(id);
        if at < i {
            assert(!self.rooms[at].has(id));
        } else if i < at {
            assert(!self.rooms[i].has(id));
        }
    }

    /// Putting a room where it already stands changes nothing: a room that
    /// was only read leaves the registry as it was.
    pub proof fn lemma_put_same(self, i: int)
        requires
            0 <= i < self.rooms.len(),
        ensures
            self.put(i, self.rooms[i]) == self,
    {
        assert(self.put(i, self.rooms[i]).rooms =~= self.rooms);
    }

    /// The registry stays well formed when a room gives way to one of the
    /// same identifier whose members have unique identifiers.
    pub proof fn lemma_put_wf(self, i: int, room: RoomView<S>)
        requires
            self.wf(),
            0 <= i < self.rooms.len(),
            room.id == self.rooms[i].id,
            room.unique(),
        ensures
            self.put(i, room).wf(),
    {
        let after = self.put(i, room);
        assert forall|k: int, l: int| 0 <= k < l < after.rooms.len() implies (#[trigger] after.rooms[k]).id
            != (#[trigger] after.rooms[l]).id by {
            assert(after.rooms[k].id == self.rooms[k].id);
            assert(after.rooms[l].id == self.rooms[l].id);
        }
        assert forall|k: int| 0 <= k < after.rooms.len() implies (#[trigger] after.rooms[k]).unique() by {
            if k != i {
                assert(after.rooms[k] == self.rooms[k]);
            }
        }
    }

    /// Whatever well-formed room takes the place of the room at `i` under
    /// the same identifier, the registry stays well formed.
    pub proof fn lemma_put_any_wf(self, i: int)
        requires
            self.wf(),
            0 <= i < self.rooms.len(),
        ensures
            forall|room: RoomView<S>|
                room.id == self.rooms[i].id && room.unique() ==> (#[trigger] self.put(i, room)).wf(),
    {
        assert forall|room: RoomView<S>| room.id == self.rooms[i].id && room.unique() implies (
        #[trigger] self.put(i, room)).wf() by {
            self.lemma_put_wf(i, room);
        }
    }

    /// Finding or creating a room keeps the registry well formed, and the
    /// room is there afterwards.
    pub proof fn lemma_with_room_wf(self, id: Seq<char>)
        requires
            self.wf(),
        ensures
            self.with_room(id).wf(),
            self.with_room(id).has_room(id),
    {
        let after = self.with_room(id);
        if !self.has_room(id) {
            let last = after.rooms.len() - 1;
            assert(after.rooms[last].id == id);
            assert forall|k: int, l: int| 0 <= k < l < after.rooms.len() implies (
            #[trigger] after.rooms[k]).id != (#[trigger] after.rooms[l]).id by {
                assert(after.rooms[k] == self.rooms[k]);
                if l < last {
                    assert(after.rooms[l] == self.rooms[l]);
                }
            }
            assert forall|k: int| 0 <= k < after.rooms.len() implies (#[trigger] after.rooms[k]).unique() by {
                if k < last {
                    assert(after.rooms[k] == self.rooms[k]);
                }
            }
        }
    }

    /// A join keeps the registry well formed.
    pub proof fn lemma_join_wf(self, room_id: Seq<char>, conn_id: Seq<char>, sink: S)
        requires
            self.wf(),
        ensures
            self.join(room_id, conn_id, sink).wf(),
    {
        let with = self.with_room(room_id);
        self.lemma_with_room_wf(room_id);
        with.lemma_room_position(room_id);
        let i = with.room_position(room_id);
        with.rooms[i].lemma_add_unique(conn_id, sink);
        with.lemma_put_wf(i, with.rooms[i].add(conn_id, sink));
    }

    /// The rooms that pass a filter make a well-formed registry.
    pub proof fn lemma_filter_wf(self, p: spec_fn(RoomView<S>) -> bool)
        requires
            self.wf(),
        ensures
            registry_of(self.rooms.filter(p)).wf(),
    {
        assert forall|i: int, j: int| 0 <= i < j < self.rooms.len() implies #[trigger] rooms_differ()(
            self.rooms[i],
            self.rooms[j],
        ) by {}
        lemma_filter_keeps(self.rooms, p, rooms_differ());
        let stay = self.rooms.filter(p);
        assert forall|k: int, l: int| 0 <= k < l < stay.len() implies (#[trigger] stay[k]).id != (
        #[trigger] stay[l]).id by {
            assert(rooms_differ()(stay[k], stay[l]));
        }
        assert forall|k: int| 0 <= k < stay.len() implies (#[trigger] stay[k]).unique() by {
            assert(self.rooms.contains(stay[k]));
            let i = choose|i: int| 0 <= i < self.rooms.len() && self.rooms[i] == stay[k];
            assert(self.rooms[i].unique());
        }
    }

    /// Removing a room keeps the registry well formed.
    pub proof fn lemma_without_room_wf(self, id: Seq<char>)
        requires
            self.wf(),
        ensures
            self.without_room(id).wf(),
    {
        self.lemma_filter_wf(room_not_named(id));
    }

    /// Removing the empty rooms keeps the registry well formed.
    pub proof fn lemma_pruned_wf(self)
        requires
            self.wf(),
        ensures
            self.pruned().wf(),
    {
        self.lemma_filter_wf(occupied());
    }

    /// Removing the empty rooms removes them and nothing else: a room is
    /// there afterwards exactly when it was there before and has a member.
    pub proof fn lemma_pruned_selects(self)
        ensures
            forall|room: RoomView<S>|
                #[trigger] self.pruned().rooms.contains(room) <==> self.rooms.contains(room)
                    && room.members.len() > 0,
    {
        let stay = self.pruned().rooms;
        assert forall|room: RoomView<S>| #[trigger] stay.contains(room) implies self.rooms.contains(room)
            && room.members.len() > 0 by {
            let k = choose|k: int| 0 <= k < stay.len() && stay[k] == room;
            self.rooms.lemma_filter_pred(occupied(), k);
            lemma_filter_keeps(self.rooms, occupied(), |a: RoomView<S>, b: RoomView<S>| true);
        }
        assert forall|room: RoomView<S>| self.rooms.contains(room) && room.members.len()
            > 0 implies #[trigger] stay.contains(room) by {
            let i = choose|i: int| 0 <= i < self.rooms.len() && self.rooms[i] == room;
            self.rooms.lemma_filter_contains(occupied(), i);
        }
    }

    /// Removing a member keeps the registry well formed.
    pub proof fn lemma_without_connection_wf(self, id: Seq<char>)
        requires
            self.wf(),
        ensures
            self.without_connection(id).wf(),
    {
        if self.holds(id) {
            self.lemma_holder(id);
            let i = self.holder(id);
            self.rooms[i].lemma_position(id);
            self.rooms[i].lemma_remove_at_unique(self.rooms[i].position(id));
            self.lemma_put_wf(i, self.rooms[i].remove_at(self.rooms[i].position(id)));
        }
    }

    /// Where room identifiers are unique, at most one room has a given one:
    /// removing by identifier removes the room at `room_position` and no
    /// other, and the members that leave are the members of that room.
    pub proof fn lemma_without_room_one(self, id: Seq<char>)
        requires
            self.wf(),
            self.has_room(id),
        ensures
            self.without_room(id).rooms == self.rooms.remove(self.room_position(id)),
            self.members_in(id) == self.room(id).members,
    {
        self.lemma_room_position(id);
        let at = self.room_position(id);
        assert forall|i: int| 0 <= i < self.rooms.len() implies (room_not_named::<S>(id)(
            #[trigger] self.rooms[i],
        ) <==> i != at) by {
            if i != at && self.rooms[i].id == id {
                if i < at {
                    assert(self.rooms[i].id != self.rooms[at].id);
                } else {
                    assert(self.rooms[at].id != self.rooms[i].id);
                }
            }
        }
        lemma_filter_all_but(self.rooms, room_not_named(id), at);
        assert forall|i: int| 0 <= i < self.rooms.len() implies (room_named::<S>(id)(
            #[trigger] self.rooms[i],
        ) <==> i == at) by {
            assert(room_not_named::<S>(id)(self.rooms[i]) <==> i != at);
        }
        lemma_filter_only(self.rooms, room_named(id), at);
        let only = seq![self.rooms[at]];
        assert(only.drop_last() =~= Seq::<RoomView<S>>::empty());
        assert(all_members(only) =~= self.rooms[at].members) by {
            assert(all_members(only.drop_last()) =~= Seq::<Member<S>>::empty());
        }
    }

    /// Removing an identifier that no room has changes nothing, and no
    /// member leaves.
    pub proof fn lemma_without_room_absent(self, id: Seq<char>)
        requires
            !self.has_room(id),
        ensures
            self.without_room(id) == self,
            self.members_in(id) == Seq::<Member<S>>::empty(),
    {
        lemma_filter_all(self.rooms, room_not_named(id));
        lemma_filter_none(self.rooms, room_named(id));
    }

    /// Where the registry has a room of an identifier, `room_position` is
    /// where the first of them stands.
    pub proof fn lemma_room_position(self, id: Seq<char>)
        requires
            self.has_room(id),
        ensures
            self.first_room_at(id, self.room_position(id)),
    {
        let p = |i: int| 0 <= i < self.rooms.len() && self.rooms[i].id == id;
        let k = choose|i: int| 0 <= i < self.rooms.len() && (#[trigger] self.rooms[i]).id == id;
        assert(p(k));
        let least = lemma_least(p, k);
        assert forall|j: int| 0 <= j < least implies (#[trigger] self.rooms[j]).id != id by {
            assert(!p(j));
        }
        assert(self.first_room_at(id, least));
    }

    /// Where some room has a member of an identifier, `holder` is where the
    /// first such room stands.
    pub proof fn lemma_holder(self, id: Seq<char>)
        requires
            self.holds(id),
        ensures
            self.first_holder_at(id, self.holder(id)),
    {
        let p = |i: int| 0 <= i < self.rooms.len() && self.rooms[i].has(id);
        let k = choose|i: int| 0 <= i < self.rooms.len() && (#[trigger] self.rooms[i]).has(id);
        assert(p(k));
        let least = lemma_least(p, k);
        assert forall|j: int| 0 <= j < least implies !(#[trigger] self.rooms[j]).has(id) by {
            assert(!p(j));
        }
        assert(self.first_holder_at(id, least));
    }

}

} // verus!
