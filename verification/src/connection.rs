//! A connection: one member's outbound endpoint under an identifier.

use vstd::prelude::*;

verus! {

/// A named handle on one member's outbound endpoint. The registry carries
/// the endpoint along and never looks inside it.
#[derive(Debug)]
pub struct Connection<S> {
    pub id: String,
    pub receiver: S,
}

/// What a connection is to the registry: an identifier and the endpoint it
/// names.
pub ghost struct Member<S> {
    pub id: Seq<char>,
    pub sink: S,
}

impl<S> View for Connection<S> {
    type V = Member<S>;

    open spec fn view(&self) -> Member<S> {
        member(self.id@, self.receiver)
    }
}

impl<S> Connection<S> {
    /// Names `receiver` as `id`.
    pub fn create(id: String, receiver: S) -> (connection: Self)
        ensures
            connection.id == id,
            connection.receiver == receiver,
    {
        Connection { id, receiver }
    }
}

/// The member that names `sink` as `id`.
pub open spec fn member<S>(id: Seq<char>, sink: S) -> Member<S> {
    Member { id, sink }
}

/// The members that a sequence of connections stands for.
pub open spec fn members_of<S>(connections: Seq<Connection<S>>) -> Seq<Member<S>> {
    connections.map_values(|c: Connection<S>| c@)
}

/// A member with this identifier.
pub open spec fn named<S>(id: Seq<char>) -> spec_fn(Member<S>) -> bool {
    |m: Member<S>| m.id == id
}

/// A member with another identifier.
pub open spec fn not_named<S>(id: Seq<char>) -> spec_fn(Member<S>) -> bool {
    |m: Member<S>| m.id != id
}

/// Two members with different identifiers.
pub open spec fn differ<S>() -> spec_fn(Member<S>, Member<S>) -> bool {
    |a: Member<S>, b: Member<S>| a.id != b.id
}

/// No two of the members share an identifier.
pub open spec fn distinct<S>(members: Seq<Member<S>>) -> bool {
    forall|i: int, j: int|
        0 <= i < j < members.len() ==> (#[trigger] members[i]).id != (#[trigger] members[j]).id
}

} // verus!
