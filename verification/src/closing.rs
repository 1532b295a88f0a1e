//! Closing: which members leave a room, and what is owed to them.
//!
//! A close call takes the leaving members out of the room and hands them
//! over, each with its endpoint. The caller sends every one of them the
//! close frame before it lets go of the registry, and drops them whether or
//! not the frame arrived: no send has a say in who leaves.

use vstd::prelude::*;
use crate::connection::{members_of, named, not_named, Connection, Member};
use crate::delivery::{askable, decides};
use crate::frame::CloseFrame;
use crate::room::Room;
use crate::selection::{answers, ask, chosen, lemma_chosen_answered, lemma_chosen_counts};
use crate::selection::{lemma_chosen_is_filter, lemma_chosen_maps};

verus! {

/// The members that left a room by a close call, in the order they had in
/// the room. Each is owed one close frame that carries `close_frame`.
#[derive(Debug)]
pub struct Closing<S> {
    pub close_frame: Option<CloseFrame>,
    pub connections: Vec<Connection<S>>,
}

/// `leave` are the connections about which `condition` answered `want`, and
/// `stay` are the others, both in the order of `before`.
pub open spec fn parts<S, F: Fn(&Connection<S>) -> bool>(
    condition: F,
    want: bool,
    before: Seq<Connection<S>>,
    stay: Seq<Connection<S>>,
    leave: Seq<Connection<S>>,
) -> bool {
    exists|flags: Seq<bool>| #[trigger]
        answers(condition, before, flags) && stay == chosen(before, flags, !want) && leave
            == chosen(before, flags, want)
}

/// What a filtered close parts: about every member that leaves the
/// condition gave the answer `want`, about every member that stays the
/// other answer, and nobody is lost.
pub proof fn lemma_parts_means<S, F: Fn(&Connection<S>) -> bool>(
    condition: F,
    want: bool,
    before: Seq<Connection<S>>,
    stay: Seq<Connection<S>>,
    leave: Seq<Connection<S>>,
)
    requires
        parts(condition, want, before, stay, leave),
    ensures
        forall|k: int| 0 <= k < leave.len() ==> call_ensures(condition, (&#[trigger] leave[k],), want),
        forall|k: int| 0 <= k < stay.len() ==> call_ensures(condition, (&#[trigger] stay[k],), !want),
        stay.len() + leave.len() == before.len(),
{
    let flags = choose|flags: Seq<bool>| #[trigger]
        answers(condition, before, flags) && stay == chosen(before, flags, !want) && leave
            == chosen(before, flags, want);
    lemma_chosen_answered(condition, before, flags, want);
    lemma_chosen_answered(condition, before, flags, !want);
    lemma_chosen_counts(before, flags, want);
}

/// A member of which `p` says `want`.
pub open spec fn says<S>(p: spec_fn(Member<S>) -> bool, want: bool) -> spec_fn(Member<S>) -> bool {
    |m: Member<S>| p(m) == want
}

/// Where a condition computes a predicate of members, a filtered close
/// takes out the members of which the predicate says `want`, and leaves the
/// others.
pub proof fn lemma_parts_decided<S, F: Fn(&Connection<S>) -> bool>(
    condition: F,
    p: spec_fn(Member<S>) -> bool,
    want: bool,
    before: Seq<Connection<S>>,
    stay: Seq<Connection<S>>,
    leave: Seq<Connection<S>>,
)
    requires
        parts(condition, want, before, stay, leave),
        decides(condition, p),
    ensures
        members_of(leave) == members_of(before).filter(says(p, want)),
        members_of(stay) == members_of(before).filter(says(p, !want)),
{
    let flags = choose|flags: Seq<bool>| #[trigger]
        answers(condition, before, flags) && stay == chosen(before, flags, !want) && leave
            == chosen(before, flags, want);
    let view = |c: Connection<S>| c@;
    lemma_chosen_maps(before, flags, want, view);
    lemma_chosen_maps(before, flags, !want, view);
    lemma_chosen_is_filter(members_of(before), flags, want, says(p, want));
    lemma_chosen_is_filter(members_of(before), flags, !want, says(p, !want));
}

impl<S> Room<S> {
    /// Closes one member by identifier: the room loses the member named
    /// `id` and hands it over with the close frame owed to it. The other
    /// members stay as they are, and so does the room, even when it is left
    /// empty.
    pub fn close_conn(&mut self, close_frame: Option<CloseFrame>, id: &String) -> (closing: Closing<S>)
        ensures
            final(self)@ == old(self)@.remove(id@),
            members_of(closing.connections@) == old(self)@.members.filter(named(id@)),
            closing.close_frame == close_frame,
            old(self)@.unique() ==> final(self)@.unique(),
    {
        let flags = self.flags_by_id(id);
        let leave = self.take_out(&flags, true);
        proof {
            lemma_chosen_is_filter(old(self)@.members, flags@, true, named(id@));
            lemma_chosen_is_filter(old(self)@.members, flags@, false, not_named(id@));
            if old(self)@.unique() {
                old(self)@.lemma_remove_unique(id@);
            }
        }
        Closing { close_frame, connections: leave }
    }

    /// Closes every member: the room is left empty and hands all of them
    /// over, in joining order, with the close frame owed to each.
    pub fn close(&mut self, close_frame: Option<CloseFrame>) -> (closing: Closing<S>)
        ensures
            final(self)@ == old(self)@.emptied(),
            closing.connections@ == old(self).connections@,
            closing.close_frame == close_frame,
    {
        let mut all: Vec<Connection<S>> = Vec::new();
        std::mem::swap(&mut self.connections, &mut all);
        assert(final(self)@.members =~= Seq::empty());
        Closing { close_frame, connections: all }
    }

    /// Closes the members about which `condition` answers yes: the room
    /// loses exactly those and hands them over with the close frame owed to
    /// each. The others stay, in their order.
    pub fn close_if<F: Fn(&Connection<S>) -> bool>(
        &mut self,
        close_frame: Option<CloseFrame>,
        condition: F,
    ) -> (closing: Closing<S>)
        requires
            askable(condition, old(self).connections@),
        ensures
            parts(condition, true, old(self).connections@, final(self).connections@, closing.connections@),
            final(self).id == old(self).id,
            closing.close_frame == close_frame,
            old(self)@.unique() ==> final(self)@.unique(),
    {
        let flags = ask(&self.connections, condition);
        let leave = self.take_out(&flags, true);
        proof {
            if old(self)@.unique() {
                old(self)@.lemma_chosen_unique(flags@, false);
            }
        }
        Closing { close_frame, connections: leave }
    }

    /// Closes the members about which `condition` answers no: the room
    /// loses exactly those and hands them over with the close frame owed to
    /// each. The others stay, in their order.
    pub fn close_if_not<F: Fn(&Connection<S>) -> bool>(
        &mut self,
        close_frame: Option<CloseFrame>,
        condition: F,
    ) -> (closing: Closing<S>)
        requires
            askable(condition, old(self).connections@),
        ensures
            parts(condition, false, old(self).connections@, final(self).connections@, closing.connections@),
            final(self).id == old(self).id,
            closing.close_frame == close_frame,
            old(self)@.unique() ==> final(self)@.unique(),
    {
        let flags = ask(&self.connections, condition);
        let leave = self.take_out(&flags, false);
        proof {
            if old(self)@.unique() {
                old(self)@.lemma_chosen_unique(flags@, true);
            }
        }
        Closing { close_frame, connections: leave }
    }
}

} // verus!
