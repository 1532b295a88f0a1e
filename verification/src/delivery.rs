//! Fan-out: which frame a room sends, and to which members, in which order.
//!
//! A delivery call changes nothing. It answers with a plan; the caller sends
//! the plan's frame to each target in turn and lets no failed send stop the
//! ones that follow. A member whose endpoint fails stays in the room until
//! someone removes it.

use vstd::prelude::*;
use crate::connection::{members_of, Connection, Member};
use crate::frame::{Frame, Payload};
use crate::room::Room;
use crate::selection::{all_positions, answers, ask, find, flags_of, positions};
use crate::selection::{lemma_positions, lemma_positions_all};

verus! {

/// What a room owes its members after a delivery call: one frame, and the
/// positions of the members to send it to, in the order of sending.
#[derive(Debug)]
pub struct FanOut<P> {
    pub frame: Frame<P>,
    pub targets: Vec<usize>,
}

impl<P> FanOut<P> {
    /// The targets ascend, and each is a position in a room of `len`
    /// members.
    pub open spec fn fits(&self, len: nat) -> bool {
        &&& forall|j: int| 0 <= j < self.targets@.len() ==> (#[trigger] self.targets@[j]) < len
        &&& forall|j: int, k: int|
            0 <= j < k < self.targets@.len() ==> (#[trigger] self.targets@[j]) < (
            #[trigger] self.targets@[k])
    }
}

/// `condition` can be asked about every one of `connections`.
pub open spec fn askable<S, F: Fn(&Connection<S>) -> bool>(
    condition: F,
    connections: Seq<Connection<S>>,
) -> bool {
    forall|i: int| 0 <= i < connections.len() ==> call_requires(condition, (&#[trigger] connections[i],))
}

/// `targets` are the positions, ascending, of the connections about which
/// `condition` answered `want`.
pub open spec fn reaches<S, F: Fn(&Connection<S>) -> bool>(
    condition: F,
    want: bool,
    connections: Seq<Connection<S>>,
    targets: Seq<usize>,
) -> bool {
    exists|flags: Seq<bool>| #[trigger]
        answers(condition, connections, flags) && targets == positions(flags, want)
}

/// Whatever `condition` answers about a connection is what `p` says of the
/// member it stands for.
pub open spec fn decides<S, F: Fn(&Connection<S>) -> bool>(
    condition: F,
    p: spec_fn(Member<S>) -> bool,
) -> bool {
    forall|c: Connection<S>, answer: bool| #[trigger]
        call_ensures(condition, (&c,), answer) ==> answer == p(c@)
}

/// Where a condition computes a predicate of members, a filtered delivery
/// reaches the members of which the predicate says `want`, and no others.
pub proof fn lemma_reaches_decided<S, F: Fn(&Connection<S>) -> bool>(
    condition: F,
    p: spec_fn(Member<S>) -> bool,
    want: bool,
    connections: Seq<Connection<S>>,
    targets: Seq<usize>,
)
    requires
        reaches(condition, want, connections, targets),
        decides(condition, p),
    ensures
        targets == positions(flags_of(members_of(connections), p), want),
{
    let flags = choose|flags: Seq<bool>| #[trigger]
        answers(condition, connections, flags) && targets == positions(flags, want);
    assert(flags =~= flags_of(members_of(connections), p));
}

/// What a filtered delivery reaches: about every target the condition gave
/// the answer `want`, and about every other member the other answer.
pub proof fn lemma_reaches_means<S, F: Fn(&Connection<S>) -> bool>(
    condition: F,
    want: bool,
    connections: Seq<Connection<S>>,
    targets: Seq<usize>,
)
    requires
        reaches(condition, want, connections, targets),
        connections.len() <= usize::MAX,
    ensures
        forall|j: int|
            0 <= j < targets.len() ==> (#[trigger] targets[j]) < connections.len() && call_ensures(
                condition,
                (&connections[targets[j] as int],),
                want,
            ),
        forall|i: int|
            0 <= i < connections.len() && !targets.contains(i as usize) ==> call_ensures(
                condition,
                (&#[trigger] connections[i],),
                !want,
            ),
{
    let flags = choose|flags: Seq<bool>| #[trigger]
        answers(condition, connections, flags) && targets == positions(flags, want);
    lemma_positions(flags, want);
    assert forall|j: int| 0 <= j < targets.len() implies (#[trigger] targets[j]) < connections.len()
        && call_ensures(condition, (&connections[targets[j] as int],), want) by {
        assert(flags[targets[j] as int] == want);
    }
    assert forall|i: int| 0 <= i < connections.len() && !targets.contains(i as usize) implies call_ensures(
        condition,
        (&#[trigger] connections[i],),
        !want,
    ) by {
        assert(flags[i] == !want);
    }
}

/// A condition that gives the wanted answer about every member reaches
/// every member: the filtered delivery is then the delivery to all.
pub proof fn lemma_reaches_all<S, F: Fn(&Connection<S>) -> bool>(
    condition: F,
    want: bool,
    connections: Seq<Connection<S>>,
    targets: Seq<usize>,
)
    requires
        reaches(condition, want, connections, targets),
        connections.len() <= usize::MAX,
        forall|c: Connection<S>, answer: bool| #[trigger]
            call_ensures(condition, (&c,), answer) ==> answer == want,
    ensures
        targets == all_positions(connections.len()),
{
    let flags = choose|flags: Seq<bool>| #[trigger]
        answers(condition, connections, flags) && targets == positions(flags, want);
    lemma_positions_all(flags, want);
}

/// Fan-out follows joining order: the target at `k` of a delivery to all is
/// the position `k`, where the member that joined as the `k`-th stands.
pub proof fn lemma_all_in_order(len: nat, k: int)
    requires
        0 <= k < len <= usize::MAX,
    ensures
        all_positions(len).len() == len,
        all_positions(len)[k] == k,
{
}

impl<S> Room<S> {
    /// The plan for one frame to every member, in joining order.
    fn to_all<P>(&self, frame: Frame<P>) -> (plan: FanOut<P>)
        ensures
            plan.frame == frame,
            plan.targets@ == all_positions(self.connections@.len()),
            plan.fits(self.connections@.len()),
    {
        let mut targets: Vec<usize> = Vec::new();
        let mut i: usize = 0;
        while i < self.connections.len()
            invariant
                i <= self.connections.len(),
                targets@ == all_positions(i as nat),
            decreases self.connections.len() - i,
        {
            targets.push(i);
            assert(targets@ =~= all_positions((i + 1) as nat));
            i += 1;
        }
        FanOut { frame, targets }
    }

    /// The plan for one frame to the members about which `condition`
    /// answers `want`, in joining order.
    fn to_some<P, F: Fn(&Connection<S>) -> bool>(&self, frame: Frame<P>, condition: F, want: bool) -> (plan:
        FanOut<P>)
        requires
            askable(condition, self.connections@),
        ensures
            plan.frame == frame,
            reaches(condition, want, self.connections@, plan.targets@),
            plan.fits(self.connections@.len()),
    {
        let flags = ask(&self.connections, condition);
        let targets = find(&flags, want);
        proof {
            assert(flags@.len() == flags.len());
            lemma_positions(flags@, want);
        }
        FanOut { frame, targets }
    }

    /// Plans a data frame that carries `message` for every member, in
    /// joining order. The room is not changed, and nothing of a later call
    /// depends on what becomes of the sends.
    pub fn broadcast<P>(&self, message: P) -> (plan: FanOut<P>)
        ensures
            plan.frame == Frame::Data(message),
            plan.targets@ == all_positions(self.connections@.len()),
            plan.fits(self.connections@.len()),
    {
        self.to_all(Frame::Data(message))
    }

    /// Plans a data frame that carries `message` for the members about
    /// which `condition` answers yes.
    pub fn broadcast_if<P, F: Fn(&Connection<S>) -> bool>(&self, message: P, condition: F) -> (plan: FanOut<P>)
        requires
            askable(condition, self.connections@),
        ensures
            plan.frame == Frame::Data(message),
            reaches(condition, true, self.connections@, plan.targets@),
            plan.fits(self.connections@.len()),
    {
        self.to_some(Frame::Data(message), condition, true)
    }

    /// Plans a data frame that carries `message` for the members about
    /// which `condition` answers no.
    pub fn broadcast_if_not<P, F: Fn(&Connection<S>) -> bool>(&self, message: P, condition: F) -> (plan:
        FanOut<P>)
        requires
            askable(condition, self.connections@),
        ensures
            plan.frame == Frame::Data(message),
            reaches(condition, false, self.connections@, plan.targets@),
            plan.fits(self.connections@.len()),
    {
        self.to_some(Frame::Data(message), condition, false)
    }

    /// Plans a ping that carries `message` for every member, in joining
    /// order.
    pub fn ping<P>(&self, message: &Vec<u8>) -> (plan: FanOut<P>)
        ensures
            plan.frame matches Frame::Ping(bytes) && bytes@ == message@,
            plan.targets@ == all_positions(self.connections@.len()),
            plan.fits(self.connections@.len()),
    {
        self.to_all(Frame::Ping(message.clone()))
    }

    /// Plans a ping that carries `message` for the members about which
    /// `condition` answers yes.
    pub fn ping_if<P, F: Fn(&Connection<S>) -> bool>(&self, message: &Vec<u8>, condition: F) -> (plan: FanOut<
        P,
    >)
        requires
            askable(condition, self.connections@),
        ensures
            plan.frame matches Frame::Ping(bytes) && bytes@ == message@,
            reaches(condition, true, self.connections@, plan.targets@),
            plan.fits(self.connections@.len()),
    {
        self.to_some(Frame::Ping(message.clone()), condition, true)
    }

    /// Plans a ping that carries `message` for the members about which
    /// `condition` answers no.
    pub fn ping_if_not<P, F: Fn(&Connection<S>) -> bool>(&self, message: &Vec<u8>, condition: F) -> (plan:
        FanOut<P>)
        requires
            askable(condition, self.connections@),
        ensures
            plan.frame matches Frame::Ping(bytes) && bytes@ == message@,
            reaches(condition, false, self.connections@, plan.targets@),
            plan.fits(self.connections@.len()),
    {
        self.to_some(Frame::Ping(message.clone()), condition, false)
    }

    /// Plans a pong that carries `message` for every member, in joining
    /// order.
    pub fn pong<P>(&self, message: &Vec<u8>) -> (plan: FanOut<P>)
        ensures
            plan.frame matches Frame::Pong(bytes) && bytes@ == message@,
            plan.targets@ == all_positions(self.connections@.len()),
            plan.fits(self.connections@.len()),
    {
        self.to_all(Frame::Pong(message.clone()))
    }

    /// Plans a pong that carries `message` for the members about which
    /// `condition` answers yes.
    pub fn pong_if<P, F: Fn(&Connection<S>) -> bool>(&self, message: &Vec<u8>, condition: F) -> (plan: FanOut<
        P,
    >)
        requires
            askable(condition, self.connections@),
        ensures
            plan.frame matches Frame::Pong(bytes) && bytes@ == message@,
            reaches(condition, true, self.connections@, plan.targets@),
            plan.fits(self.connections@.len()),
    {
        self.to_some(Frame::Pong(message.clone()), condition, true)
    }

    /// Plans a pong that carries `message` for the members about which
    /// `condition` answers no.
    pub fn pong_if_not<P, F: Fn(&Connection<S>) -> bool>(&self, message: &Vec<u8>, condition: F) -> (plan:
        FanOut<P>)
        requires
            askable(condition, self.connections@),
        ensures
            plan.frame matches Frame::Pong(bytes) && bytes@ == message@,
            reaches(condition, false, self.connections@, plan.targets@),
            plan.fits(self.connections@.len()),
    {
        self.to_some(Frame::Pong(message.clone()), condition, false)
    }

    /// Plans a binary data frame that carries `bytes` for every member, in
    /// joining order.
    pub fn binary(&self, bytes: &Vec<u8>) -> (plan: FanOut<Payload>)
        ensures
            plan.frame matches Frame::Data(Payload::Binary(sent)) && sent@ == bytes@,
            plan.targets@ == all_positions(self.connections@.len()),
            plan.fits(self.connections@.len()),
    {
        self.to_all(Frame::Data(Payload::Binary(bytes.clone())))
    }

    /// Plans a binary data frame that carries `bytes` for the members about
    /// which `condition` answers yes.
    pub fn binary_if<F: Fn(&Connection<S>) -> bool>(&self, bytes: &Vec<u8>, condition: F) -> (plan: FanOut<
        Payload,
    >)
        requires
            askable(condition, self.connections@),
        ensures
            plan.frame matches Frame::Data(Payload::Binary(sent)) && sent@ == bytes@,
            reaches(condition, true, self.connections@, plan.targets@),
            plan.fits(self.connections@.len()),
    {
        self.to_some(Frame::Data(Payload::Binary(bytes.clone())), condition, true)
    }

    /// Plans a binary data frame that carries `bytes` for the members about
    /// which `condition` answers no.
    pub fn binary_if_not<F: Fn(&Connection<S>) -> bool>(&self, bytes: &Vec<u8>, condition: F) -> (plan:
        FanOut<Payload>)
        requires
            askable(condition, self.connections@),
        ensures
            plan.frame matches Frame::Data(Payload::Binary(sent)) && sent@ == bytes@,
            reaches(condition, false, self.connections@, plan.targets@),
            plan.fits(self.connections@.len()),
    {
        self.to_some(Frame::Data(Payload::Binary(bytes.clone())), condition, false)
    }
}

} // verus!
