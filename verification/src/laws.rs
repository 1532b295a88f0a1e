//! What holds across calls: of joins that repeat, and of joins that meet in
//! a room that was not there.

use vstd::prelude::*;
use crate::connection::{distinct, member, named, Member};
use crate::registry::RegistryView;
use crate::room::room_of;
use crate::selection::lemma_filter_only;

verus! {

/// The registry after the given members have joined one room, one join
/// after the other, in the order of `arrivals`.
pub open spec fn joined<S>(
    registry: RegistryView<S>,
    room_id: Seq<char>,
    arrivals: Seq<Member<S>>,
) -> RegistryView<S>
    decreases arrivals.len(),
{
    if arrivals.len() == 0 {
        registry
    } else {
        joined(registry, room_id, arrivals.drop_last()).join(
            room_id,
            arrivals.last().id,
            arrivals.last().sink,
        )
    }
}

/// A join puts the room there and the member in it.
pub proof fn lemma_join_joins<S>(registry: RegistryView<S>, room_id: Seq<char>, conn_id: Seq<char>, sink: S)
    ensures
        registry.join(room_id, conn_id, sink).has_room(room_id),
        registry.join(room_id, conn_id, sink).room_position(room_id) == registry.with_room(
            room_id,
        ).room_position(room_id),
        registry.join(room_id, conn_id, sink).room(room_id) == registry.with_room(room_id).room(
            room_id,
        ).add(conn_id, sink),
        registry.join(room_id, conn_id, sink).room(room_id).has(conn_id),
{
    let with = registry.with_room(room_id);
    if !registry.has_room(room_id) {
        assert(with.rooms[with.rooms.len() - 1].id == room_id);
    }
    with.lemma_room_position(room_id);
    let at = with.room_position(room_id);
    let room = with.rooms[at].add(conn_id, sink);
    let after = registry.join(room_id, conn_id, sink);
    assert(after.first_room_at(room_id, at)) by {
        assert forall|j: int| 0 <= j < at implies (#[trigger] after.rooms[j]).id != room_id by {
            assert(after.rooms[j] == with.rooms[j]);
        }
    }
    after.lemma_room_position_is(room_id, at);
    if !with.rooms[at].has(conn_id) {
        assert(room.members[room.members.len() - 1].id == conn_id);
    }
}

/// A join under identifiers that have joined changes nothing: the member
/// that holds the identifier stays, with the endpoint it came with, and the
/// endpoint that comes second is not taken.
pub proof fn lemma_join_again<S>(
    registry: RegistryView<S>,
    room_id: Seq<char>,
    conn_id: Seq<char>,
    first: S,
    second: S,
)
    ensures
        registry.join(room_id, conn_id, first).join(room_id, conn_id, second) == registry.join(
            room_id,
            conn_id,
            first,
        ),
{
    let once = registry.join(room_id, conn_id, first);
    lemma_join_joins(registry, room_id, conn_id, first);
    once.lemma_room_position(room_id);
    once.lemma_put_same(once.room_position(room_id));
}

/// After a join into a room that had no member of that identifier, and
/// after any second join under the same identifiers, exactly one member of
/// the room has the identifier, and its endpoint is the one that came first.
pub proof fn lemma_join_once<S>(
    registry: RegistryView<S>,
    room_id: Seq<char>,
    conn_id: Seq<char>,
    first: S,
    second: S,
)
    requires
        !registry.with_room(room_id).room(room_id).has(conn_id),
    ensures
        registry.join(room_id, conn_id, first).join(room_id, conn_id, second).has_room(room_id),
        registry.join(room_id, conn_id, first).join(room_id, conn_id, second).room(
            room_id,
        ).members.filter(named(conn_id)) == seq![member(conn_id, first)],
{
    lemma_join_again(registry, room_id, conn_id, first, second);
    lemma_join_joins(registry, room_id, conn_id, first);
    let before = registry.with_room(room_id).room(room_id);
    let room = before.add(conn_id, first);
    let last = room.members.len() - 1;
    assert forall|i: int| 0 <= i < room.members.len() implies (named::<S>(conn_id)(
        #[trigger] room.members[i],
    ) <==> i == last) by {
        if i < last {
            assert(room.members[i] == before.members[i]);
        }
    }
    lemma_filter_only(room.members, named(conn_id), last);
}

/// In whatever order exclusive access admits the joins of members with
/// distinct identifiers to a room that was not there, afterwards the
/// registry has one room more: the one they joined, with exactly these
/// members, in the order they were admitted.
pub proof fn lemma_joins_make_one_room<S>(
    registry: RegistryView<S>,
    room_id: Seq<char>,
    arrivals: Seq<Member<S>>,
)
    requires
        !registry.has_room(room_id),
        arrivals.len() > 0,
        distinct(arrivals),
    ensures
        joined(registry, room_id, arrivals).rooms == registry.rooms.push(room_of(room_id, arrivals)),
    decreases arrivals.len(),
{
    let earlier = arrivals.drop_last();
    let newcomer = arrivals.last();
    let at = registry.rooms.len() as int;
    let before = joined(registry, room_id, earlier);
    let after = joined(registry, room_id, arrivals);
    if earlier.len() == 0 {
        let with = registry.with_room(room_id);
        assert(with.first_room_at(room_id, at));
        with.lemma_room_position_is(room_id, at);
        assert(with.rooms[at].add(newcomer.id, newcomer.sink).members =~= arrivals);
        assert(after.rooms =~= registry.rooms.push(room_of(room_id, arrivals)));
    } else {
        assert forall|i: int, j: int| 0 <= i < j < earlier.len() implies (#[trigger] earlier[i]).id != (
        #[trigger] earlier[j]).id by {
            assert(arrivals[i].id != arrivals[j].id);
        }
        lemma_joins_make_one_room(registry, room_id, earlier);
        assert(before.first_room_at(room_id, at)) by {
            assert forall|j: int| 0 <= j < at implies (#[trigger] before.rooms[j]).id != room_id by {
                assert(before.rooms[j] == registry.rooms[j]);
            }
        }
        before.lemma_room_position_is(room_id, at);
        assert(!before.rooms[at].has(newcomer.id)) by {
            assert forall|i: int| 0 <= i < earlier.len() implies (#[trigger] earlier[i]).id
                != newcomer.id by {
                assert(arrivals[i].id != arrivals[arrivals.len() - 1].id);
            }
        }
        assert(before.rooms[at].add(newcomer.id, newcomer.sink).members =~= arrivals);
        assert(after.rooms =~= registry.rooms.push(room_of(room_id, arrivals)));
    }
}

} // verus!
