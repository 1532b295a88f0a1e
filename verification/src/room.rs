//! A room: connections under one identifier, in the order they joined.

use vstd::prelude::*;
use crate::connection::{differ, distinct, member, members_of, named, not_named, Connection, Member};
use crate::selection::{chosen, divide, flags_of};
use crate::selection::{lemma_chosen_is_filter, lemma_chosen_keeps, lemma_chosen_maps, lemma_filter_all};
use crate::selection::{lemma_filter_all_but, lemma_filter_none, lemma_filter_only, lemma_least};

verus! {

/// What a room is to the registry: an identifier and its members in joining
/// order.
pub ghost struct RoomView<S> {
    pub id: Seq<char>,
    pub members: Seq<Member<S>>,
}

/// The room of this identifier with these members.
pub open spec fn room_of<S>(id: Seq<char>, members: Seq<Member<S>>) -> RoomView<S> {
    RoomView { id, members }
}

impl<S> RoomView<S> {
    /// Some member has this identifier.
    pub open spec fn has(self, id: Seq<char>) -> bool {
        exists|i: int| 0 <= i < self.members.len() && (#[trigger] self.members[i]).id == id
    }

    /// The member at `i` is the first with this identifier.
    pub open spec fn first_at(self, id: Seq<char>, i: int) -> bool {
        &&& 0 <= i < self.members.len()
        &&& self.members[i].id == id
        &&& forall|j: int| 0 <= j < i ==> (#[trigger] self.members[j]).id != id
    }

    /// Where the first member with this identifier stands.
    pub open spec fn position(self, id: Seq<char>) -> int {
        choose|i: int| self.first_at(id, i)
    }

    /// No two members share an identifier.
    pub open spec fn unique(self) -> bool {
        distinct(self.members)
    }

    /// The room after a join: unchanged when the identifier is taken, else
    /// with the new member at the end.
    pub open spec fn add(self, id: Seq<char>, sink: S) -> Self {
        if self.has(id) {
            self
        } else {
            room_of(self.id, self.members.push(member(id, sink)))
        }
    }

    /// The room without the members of this identifier.
    pub open spec fn remove(self, id: Seq<char>) -> Self {
        room_of(self.id, self.members.filter(not_named(id)))
    }

    /// The room without the member at `i`.
    pub open spec fn remove_at(self, i: int) -> Self {
        room_of(self.id, self.members.remove(i))
    }

    /// The room without any member.
    pub open spec fn emptied(self) -> Self {
        room_of(self.id, Seq::empty())
    }

    /// Where a room has a member of an identifier, `position` is where the
    /// first of them stands.
    pub proof fn lemma_position(self, id: Seq<char>)
        requires
            self.has(id),
        ensures
            self.first_at(id, self.position(id)),
    {
        let p = |i: int| 0 <= i < self.members.len() && self.members[i].id == id;
        let k = choose|i: int| 0 <= i < self.members.len() && (#[trigger] self.members[i]).id == id;
        assert(p(k));
        let least = lemma_least(p, k);
        assert forall|j: int| 0 <= j < least implies (#[trigger] self.members[j]).id != id by {
            assert(!p(j));
        }
        assert(self.first_at(id, least));
    }

    /// The first member of an identifier stands where `position` says, and
    /// nowhere else.
    pub proof fn lemma_position_is(self, id: Seq<char>, i: int)
        requires
            self.first_at(id, i),
        ensures
            self.has(id),
            self.position(id) == i,
    {
        let at = self.position(id);
        if at < i {
            assert(self.members[at].id != id);
        } else if i < at {
            assert(self.members[i].id != id);
        }
    }

    /// A join keeps the identifiers unique.
    pub proof fn lemma_add_unique(self, id: Seq<char>, sink: S)
        requires
            self.unique(),
        ensures
            self.add(id, sink).unique(),
    {
    }

    /// Whichever members are chosen, their identifiers are unique.
    pub proof fn lemma_chosen_unique(self, flags: Seq<bool>, want: bool)
        requires
            self.unique(),
        ensures
            distinct(chosen(self.members, flags, want)),
    {
        assert forall|i: int, j: int| 0 <= i < j < self.members.len() implies #[trigger] differ()(
            self.members[i],
            self.members[j],
        ) by {}
        lemma_chosen_keeps(self.members, flags, want, differ());
        let stay = chosen(self.members, flags, want);
        assert forall|k: int, l: int| 0 <= k < l < stay.len() implies (#[trigger] stay[k]).id != (
        #[trigger] stay[l]).id by {
            assert(differ()(stay[k], stay[l]));
        }
    }

    /// Removing by identifier keeps the identifiers unique.
    pub proof fn lemma_remove_unique(self, id: Seq<char>)
        requires
            self.unique(),
        ensures
            self.remove(id).unique(),
    {
        let p = not_named::<S>(id);
        lemma_chosen_is_filter(self.members, flags_of(self.members, p), true, p);
        self.lemma_chosen_unique(flags_of(self.members, p), true);
    }

    /// Removing one member keeps the identifiers unique.
    pub proof fn lemma_remove_at_unique(self, i: int)
        requires
            self.unique(),
            0 <= i < self.members.len(),
        ensures
            self.remove_at(i).unique(),
    {
        let rest = self.remove_at(i).members;
        assert forall|k: int, l: int| 0 <= k < l < rest.len() implies (#[trigger] rest[k]).id != (
        #[trigger] rest[l]).id by {
            let from_k = if k < i { k } else { k + 1 };
            let from_l = if l < i { l } else { l + 1 };
            assert(rest[k] == self.members[from_k]);
            assert(rest[l] == self.members[from_l]);
        }
    }

    /// Where identifiers are unique, at most one member has a given one:
    /// removing by identifier removes the member at `position` and no other.
    pub proof fn lemma_remove_one(self, id: Seq<char>)
        requires
            self.unique(),
            self.has(id),
        ensures
            self.remove(id) == self.remove_at(self.position(id)),
            self.members.filter(named(id)) == seq![self.members[self.position(id)]],
    {
        self.lemma_position(id);
        let at = self.position(id);
        assert forall|i: int| 0 <= i < self.members.len() implies (not_named::<S>(id)(
            #[trigger] self.members[i],
        ) <==> i != at) by {
            if i != at && self.members[i].id == id {
                if i < at {
                    assert(self.members[i].id != self.members[at].id);
                } else {
                    assert(self.members[at].id != self.members[i].id);
                }
            }
        }
        lemma_filter_all_but(self.members, not_named(id), at);
        assert forall|i: int| 0 <= i < self.members.len() implies (named::<S>(id)(
            #[trigger] self.members[i],
        ) <==> i == at) by {
            assert(not_named::<S>(id)(self.members[i]) <==> i != at);
        }
        lemma_filter_only(self.members, named(id), at);
    }

    /// Removing an identifier that no member has changes nothing.
    pub proof fn lemma_remove_absent(self, id: Seq<char>)
        requires
            !self.has(id),
        ensures
            self.remove(id) == self,
            self.members.filter(named(id)) == Seq::<Member<S>>::empty(),
    {
        lemma_filter_all(self.members, not_named(id));
        lemma_filter_none(self.members, named(id));
    }
}

/// A room of the registry.
#[derive(Debug)]
pub struct Room<S> {
    pub id: String,
    pub connections: Vec<Connection<S>>,
}

impl<S> View for Room<S> {
    type V = RoomView<S>;

    open spec fn view(&self) -> RoomView<S> {
        room_of(self.id@, members_of(self.connections@))
    }
}

impl<S> Room<S> {
    /// Where the first connection with this identifier stands, if there is
    /// one.
    pub(crate) fn locate(&self, id: &String) -> (at: Option<usize>)
        ensures
            match at {
                Some(i) => self@.first_at(id@, i as int),
                None => !self@.has(id@),
            },
    {
        let mut i: usize = 0;
        while i < self.connections.len()
            invariant
                i <= self.connections.len(),
                forall|j: int| 0 <= j < i ==> (#[trigger] self@.members[j]).id != id@,
            decreases self.connections.len() - i,
        {
            if self.connections[i].id == *id {
                assert(self@.members[i as int].id == id@);
                return Some(i);
            }
            i += 1;
        }
        None
    }

    /// Whether each connection has this identifier, in order.
    pub(crate) fn flags_by_id(&self, id: &String) -> (flags: Vec<bool>)
        ensures
            flags.len() == self.connections.len(),
            forall|i: int|
                0 <= i < flags.len() ==> #[trigger] flags@[i] == (self.connections@[i].id@ == id@),
    {
        let mut flags: Vec<bool> = Vec::new();
        let mut i: usize = 0;
        while i < self.connections.len()
            invariant
                i <= self.connections.len(),
                flags.len() == i,
                forall|j: int| 0 <= j < i ==> #[trigger] flags@[j] == (self.connections@[j].id@ == id@),
            decreases self.connections.len() - i,
        {
            flags.push(self.connections[i].id == *id);
            i += 1;
        }
        flags
    }

    /// Takes out the connections whose flag is `want`, in order; the others
    /// stay, in order.
    pub(crate) fn take_out(&mut self, flags: &Vec<bool>, want: bool) -> (leave: Vec<Connection<S>>)
        requires
            flags.len() == old(self).connections.len(),
        ensures
            final(self).id == old(self).id,
            final(self).connections@ == chosen(old(self).connections@, flags@, !want),
            leave@ == chosen(old(self).connections@, flags@, want),
            final(self)@.members == chosen(old(self)@.members, flags@, !want),
            members_of(leave@) == chosen(old(self)@.members, flags@, want),
    {
        let mut all: Vec<Connection<S>> = Vec::new();
        std::mem::swap(&mut self.connections, &mut all);
        let (stay, leave) = divide(all, flags, want);
        self.connections = stay;
        proof {
            let view = |c: Connection<S>| c@;
            lemma_chosen_maps(old(self).connections@, flags@, true, view);
            lemma_chosen_maps(old(self).connections@, flags@, false, view);
        }
        leave
    }

    /// Takes the connection at `i` out of the room.
    pub(crate) fn take_at(&mut self, i: usize) -> (connection: Connection<S>)
        requires
            i < old(self).connections.len(),
        ensures
            connection == old(self).connections@[i as int],
            final(self)@ == old(self)@.remove_at(i as int),
    {
        let connection = self.connections.remove(i);
        assert(final(self)@.members =~= old(self)@.members.remove(i as int));
        connection
    }

    /// Joins `receiver` under `id`. A join under an identifier that is taken
    /// changes nothing: the member that holds it stays, and `receiver` is
    /// dropped.
    pub fn add_connection(&mut self, id: &String, receiver: S)
        ensures
            final(self)@ == old(self)@.add(id@, receiver),
            old(self)@.unique() ==> final(self)@.unique(),
    {
        proof {
            if self@.unique() {
                self@.lemma_add_unique(id@, receiver);
            }
        }
        if self.locate(id).is_none() {
            let connection = Connection { id: id.clone(), receiver };
            self.connections.push(connection);
            assert(final(self)@.members =~= old(self)@.members.push(member(id@, receiver)));
        }
    }

    /// Removes the member named `id`; the endpoint it held is dropped, and
    /// nothing is handed back. The other members keep their order.
    pub fn remove_connection(&mut self, id: String)
        ensures
            final(self)@ == old(self)@.remove(id@),
            old(self)@.unique() ==> final(self)@.unique(),
    {
        let flags = self.flags_by_id(&id);
        let _ = self.take_out(&flags, true);
        proof {
            lemma_chosen_is_filter(old(self)@.members, flags@, false, not_named(id@));
            if old(self)@.unique() {
                old(self)@.lemma_remove_unique(id@);
            }
        }
    }

    /// Looks a member up by identifier: the first connection named `id`, or
    /// nothing when the room has none. The room is left as it is.
    pub fn check_connection(&mut self, id: &String) -> (found: Option<&Connection<S>>)
        ensures
            *final(self) == *old(self),
            match found {
                Some(connection) => old(self)@.has(id@) && *connection == old(self).connections@[old(
                    self,
                )@.position(id@)],
                None => !old(self)@.has(id@),
            },
    {
        match self.locate(id) {
            Some(i) => {
                proof {
                    self@.lemma_position_is(id@, i as int);
                }
                Some(&self.connections[i])
            },
            None => None,
        }
    }
}

} // verus!
