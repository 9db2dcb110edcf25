//! What each step of a replica changes and what it leaves, part by part.

use vstd::prelude::*;

use crate::app::Execution;
use crate::common::{ClientId, ReplicaId, RequestNumber};
use crate::protocol::neo::lemmas::{lemma_linked_below, lemma_run_length};
use crate::protocol::neo::message::{
    OrderedMulticast, SignedReply, Status, VerifiedOrderedMulticast,
};
use crate::protocol::neo::model::{
    executions, in_range, linked_below, performed, renders, run_length, Effect, Notice, Output,
    ReplicaState,
};
use crate::protocol::neo::replica::{remaining, Replica};
use crate::protocol::neo::shared::Shared;
use crate::transport::Receiver;

verus! {

/// A replica starts with nothing: no entries, no waiting messages, no clients,
/// no routes, and nothing counted.
pub proof fn law_replica_starts_empty<A>(k: u32, client_id: ClientId)
    ensures
        ({
            let initial = ReplicaState::<A>::initial();
            &&& initial.op_number == 0
            &&& initial.log.len() == 0
            &&& !initial.received.contains_key(k)
            &&& !initial.verified.contains_key(k)
            &&& !initial.clients.contains_key(client_id)
            &&& !initial.routes.contains_key(client_id)
            &&& initial.signed_count == 0
            &&& initial.unsigned_count == 0
            &&& initial.skipped_count == 0
        }),
{
}

/// What a replica can be given is not narrowed down: every sequence number but
/// the very last, and as first sequence number any that no waiting message
/// precedes. A log that starts with number one agrees with the lookup by
/// position, and so does every log that does not reach that far.
pub proof fn law_what_a_replica_can_be_given<A>(state: ReplicaState<A>, start: u32, n: u32)
    ensures
        in_range(n) <==> n < u32::MAX,
        state.starts_at(start) <==> (forall|k: u32| #[trigger]
            state.received.contains_key(k) ==> start <= k) && (forall|k: u32| #[trigger]
            state.verified.contains_key(k) ==> start <= k),
        state.child_position_agrees(n) <==> (n >= state.log.len()
            || state.log[n as int].meta.sequence_number == n + 1),
{
}

/// A state is well formed if the positions are those of the log, a route is
/// known to the client of every message that is logged or waits, and waiting
/// messages stand under their own numbers.
pub proof fn law_what_a_well_formed_state_is<A>(state: ReplicaState<A>)
    requires
        state.op_number == state.log.len(),
        forall|i: int|
            0 <= i < state.log.len() ==> state.routes.contains_key(
                (#[trigger] state.log[i]).meta.request.client_id,
            ),
        forall|k: u32| #[trigger]
            state.received.contains_key(k) ==> {
                &&& k < u32::MAX
                &&& state.received[k].meta.sequence_number == k
                &&& state.routes.contains_key(state.received[k].meta.request.client_id)
            },
        forall|k: u32| #[trigger]
            state.verified.contains_key(k) ==> {
                &&& k < u32::MAX
                &&& state.verified[k].meta.sequence_number == k
                &&& state.routes.contains_key(state.verified[k].meta.request.client_id)
            },
    ensures
        state.well_formed(),
{
}

/// A replica and the part of it that keeps no state answer at the address that
/// the configuration has for the replica's id.
pub proof fn law_replica_answers_at_its_address<A, K, M, P>(
    replica: Replica<A, K, M, P>,
    shared: Shared<A, K, M>,
)
    ensures
        replica.address() == replica.setup().config.replica_address@[replica.setup().id as int],
        shared.address() == shared.cluster().replica_address@[shared.replica_id() as int],
{
}

// ---------------------------------------------------------------------------
// Logging

/// A request of an unknown client, or with a greater number than the latest of
/// its client, is executed, whatever reply is recorded for the client: exactly
/// one execution is asked for, with the client, the number and the operation of
/// the request at the next position, to be answered where the client was last
/// heard from. It becomes the client's latest request, without a reply.
pub proof fn law_new_request_is_executed<A>(
    state: ReplicaState<A>,
    message: VerifiedOrderedMulticast,
)
    requires
        ({
            let request = message.meta.request;
            state.clients.contains_key(request.client_id) ==> state.clients[request.client_id].0
                < request.request_number
        }),
    ensures
        ({
            let request = message.meta.request;
            &&& state.logged_effects(message) == seq![
                Effect::Execute {
                    remote: state.routes[request.client_id],
                    client_id: request.client_id,
                    op_number: state.op_number + 1,
                    request_number: request.request_number,
                    op: request.op@,
                },
            ]
            &&& state.logged(message).clients == state.clients.insert(
                request.client_id,
                (request.request_number, None),
            )
        }),
{
}

/// A request that is not newer than the latest one of its client executes
/// nothing and leaves the client table. A recorded reply is sent for it only if
/// it has the very number of the latest request, and then just once, to where
/// the client was last heard from.
pub proof fn law_old_request_is_not_executed<A>(
    state: ReplicaState<A>,
    message: VerifiedOrderedMulticast,
)
    requires
        ({
            let request = message.meta.request;
            &&& state.clients.contains_key(request.client_id)
            &&& request.request_number <= state.clients[request.client_id].0
        }),
    ensures
        ({
            let request = message.meta.request;
            let latest = state.clients[request.client_id];
            &&& state.logged(message).clients == state.clients
            &&& state.logged_effects(message) == if latest.0 == request.request_number
                && latest.1 is Some {
                seq![
                    Effect::Resend {
                        remote: state.routes[request.client_id],
                        reply: latest.1->0@,
                    },
                ]
            } else {
                seq![]
            }
        }),
{
}

/// Logging appends the message to the log, takes the next position, and
/// touches neither waiting messages nor routes nor counters.
pub proof fn law_logging_appends_one_entry<A>(
    state: ReplicaState<A>,
    message: VerifiedOrderedMulticast,
)
    ensures
        ({
            let after = state.logged(message);
            &&& after.log == state.log.push(message)
            &&& after.op_number == state.op_number + 1
            &&& after.received == state.received
            &&& after.verified == state.verified
            &&& after.routes == state.routes
            &&& after.signed_count == state.signed_count
            &&& after.unsigned_count == state.unsigned_count
            &&& after.skipped_count == state.skipped_count
        }),
{
}

/// Several messages are logged one after another, and so is what they ask for.
pub proof fn law_messages_are_logged_in_turn<A>(
    state: ReplicaState<A>,
    messages: Seq<VerifiedOrderedMulticast>,
    message: VerifiedOrderedMulticast,
)
    ensures
        state.logged_all(seq![]) == state,
        state.logged_all_effects(seq![]) == Seq::<Effect<A>>::empty(),
        state.logged_all(messages.push(message)) == state.logged_all(messages).logged(message),
        state.logged_all_effects(messages.push(message)) == state.logged_all_effects(messages)
            + state.logged_all(messages).logged_effects(message),
{
    assert(messages.push(message).drop_last() =~= messages);
}

// ---------------------------------------------------------------------------
// Authentic messages

/// An authentic message whose turn it is not waits under its sequence number,
/// in place of another one with this number, which is then mentioned. Nothing
/// else changes.
pub proof fn law_message_out_of_turn_waits<A>(
    state: ReplicaState<A>,
    start: u32,
    message: VerifiedOrderedMulticast,
)
    requires
        message.meta.sequence_number != start + state.op_number,
    ensures
        ({
            let n = message.meta.sequence_number;
            &&& state.inserted(start, message) == (ReplicaState {
                verified: state.verified.insert(n, message),
                ..state
            })
            &&& state.inserted_effects(start, message) == if state.verified.contains_key(n) {
                seq![Effect::<A>::Mention(Notice::DuplicatedSequence(n))]
            } else {
                seq![]
            }
        }),
{
}

/// An authentic message whose turn it is is logged, and behind it the waiting
/// messages with the following sequence numbers, up to the first that is
/// missing. Just these stop waiting, and what is asked for is what logging them
/// asks for.
pub proof fn law_message_in_turn_is_logged<A>(
    state: ReplicaState<A>,
    start: u32,
    message: VerifiedOrderedMulticast,
)
    requires
        message.meta.sequence_number == start + state.op_number,
        in_range(message.meta.sequence_number),
    ensures
        ({
            let n = message.meta.sequence_number;
            let after = state.inserted(start, message);
            let length = state.log.len() as int;
            let more = after.log.len() - length - 1;
            let logged = after.log.skip(length);
            &&& 0 <= more
            &&& n + 1 + more <= u32::MAX
            &&& state.log.is_prefix_of(after.log)
            &&& after.log[length] == message
            &&& forall|k: u32|
                n < k <= n + more ==> #[trigger] state.verified.contains_key(k)
                    && after.log[length + (k - n)] == state.verified[k]
            &&& n + 1 + more < u32::MAX ==> !state.verified.contains_key((n + 1 + more) as u32)
            &&& forall|k: u32| #[trigger]
                after.verified.contains_key(k) <==> state.verified.contains_key(k) && !(n < k <= n
                    + more)
            &&& forall|k: u32| #[trigger]
                after.verified.contains_key(k) ==> after.verified[k] == state.verified[k]
            &&& after.op_number == state.op_number + 1 + more
            &&& after.clients == state.logged_all(logged).clients
            &&& state.inserted_effects(start, message) == state.logged_all_effects(logged)
            &&& after.received == state.received
            &&& after.routes == state.routes
            &&& after.signed_count == state.signed_count
            &&& after.unsigned_count == state.unsigned_count
            &&& after.skipped_count == state.skipped_count
        }),
{
    let n = message.meta.sequence_number;
    let after = state.inserted(start, message);
    let length = state.log.len() as int;
    let ready = state.ready(message);
    lemma_run_length(state.verified, n + 1);
    state.lemma_logged_all(ready);
    assert(after.log == state.log + ready);
    assert(after.log.skip(length) =~= ready);
    assert(state.log =~= after.log.subrange(0, length));
    let more = run_length(state.verified, n + 1);
    assert forall|k: u32| n < k <= n + more implies #[trigger] state.verified.contains_key(k)
        && after.log[length + (k - n)] == state.verified[k] by {
        assert(after.log[length + (k - n)] == ready[k - n]);
    }
}

/// Several authentic messages arrive one after another, and so does what they
/// ask for.
pub proof fn law_messages_arrive_in_turn<A>(
    state: ReplicaState<A>,
    start: u32,
    messages: Seq<VerifiedOrderedMulticast>,
    message: VerifiedOrderedMulticast,
)
    ensures
        state.inserted_all(start, seq![]) == state,
        state.inserted_all_effects(start, seq![]) == Seq::<Effect<A>>::empty(),
        state.inserted_all(start, messages.push(message)) == state.inserted_all(
            start,
            messages,
        ).inserted(start, message),
        state.inserted_all_effects(start, messages.push(message)) == state.inserted_all_effects(
            start,
            messages,
        ) + state.inserted_all(start, messages).inserted_effects(start, message),
{
    assert(messages.push(message).drop_last() =~= messages);
}

// ---------------------------------------------------------------------------
// Chains

/// A chain goes on as long as the next older message is there and is named.
proof fn lemma_chain_is_longest(
    received: Map<u32, VerifiedOrderedMulticast>,
    child: OrderedMulticast,
    n: nat,
)
    requires
        n <= u32::MAX,
    ensures
        ({
            let chain = linked_below(received, child, n);
            let oldest = if chain.len() == 0 {
                child
            } else {
                chain[0].meta
            };
            &&& chain.len() > 0 ==> child.linked@ == chain[chain.len() - 1].meta.digest@
            &&& forall|i: int, j: int|
                #![trigger chain[i], chain[j]]
                0 <= i && j == i + 1 && j < chain.len() ==> chain[j].meta.linked@
                    == chain[i].meta.digest@
            &&& chain.len() < n && received.contains_key((n - chain.len() - 1) as u32)
                ==> oldest.linked@ != received[(n - chain.len() - 1) as u32].meta.digest@
        }),
    decreases n,
{
    if n > 0 {
        let k = (n - 1) as u32;
        if received.contains_key(k) && child.linked@ == received[k].meta.digest@ {
            let chain = linked_below(received, child, n);
            let below = linked_below(received, received[k].meta, (n - 1) as nat);
            lemma_chain_is_longest(received, received[k].meta, (n - 1) as nat);
            assert(chain == below.push(received[k]));
            assert forall|i: int, j: int|
                #![trigger chain[i], chain[j]]
                0 <= i && j == i + 1 && j < chain.len() implies chain[j].meta.linked@
                == chain[i].meta.digest@ by {
                assert(chain[i] == below[i]);
                if j < below.len() {
                    assert(chain[j] == below[j]);
                }
            }
        }
    }
}

/// A message vouches for the received messages with the numbers right below
/// its own, each of which carries the digest that the next one names, up to
/// the first that is missing or carries another digest. All of these stop
/// waiting, also the one with another digest, which is mentioned. No other
/// message stops waiting, and nothing else changes.
pub proof fn law_message_settles_what_precedes_it<A>(
    state: ReplicaState<A>,
    child: OrderedMulticast,
)
    ensures
        ({
            let n = child.sequence_number as int;
            let chain = state.vouched(child);
            let length = chain.len() as int;
            let oldest = if length == 0 {
                child
            } else {
                chain[0].meta
            };
            let after = state.settled_below(child);
            let broken = (n - length - 1) as u32;
            &&& length <= n
            &&& forall|k: u32|
                n - length <= k < n ==> #[trigger] state.received.contains_key(k) && chain[k - (n
                    - length)] == state.received[k]
            &&& length > 0 ==> child.linked@ == chain[length - 1].meta.digest@
            &&& forall|i: int, j: int|
                #![trigger chain[i], chain[j]]
                0 <= i && j == i + 1 && j < length ==> chain[j].meta.linked@
                    == chain[i].meta.digest@
            &&& length < n && state.received.contains_key(broken) ==> oldest.linked@
                != state.received[broken].meta.digest@
            &&& state.break_effects(child) == if length < n && state.received.contains_key(
                broken,
            ) {
                seq![Effect::<A>::Mention(Notice::BrokenChain(broken))]
            } else {
                seq![]
            }
            &&& forall|k: u32| #[trigger]
                after.received.contains_key(k) <==> state.received.contains_key(k) && !(n - length
                    - 1 <= k < n)
            &&& forall|k: u32| #[trigger]
                after.received.contains_key(k) ==> after.received[k] == state.received[k]
            &&& after == (ReplicaState { received: after.received, ..state })
        }),
{
    let n = child.sequence_number as nat;
    let chain = state.vouched(child);
    lemma_linked_below(state.received, child, n);
    lemma_chain_is_longest(state.received, child, n);
    assert forall|k: u32| n - chain.len() <= k < n implies #[trigger] state.received.contains_key(k)
        && chain[k - (n - chain.len())] == state.received[k] by {}
}

/// An authentic message arrives after all that it vouches for, the oldest
/// first. A broken chain is mentioned before.
pub proof fn law_authentic_message_arrives_last<A>(
    state: ReplicaState<A>,
    start: u32,
    message: VerifiedOrderedMulticast,
)
    ensures
        ({
            let settled = state.settled_below(message.meta);
            let chain = state.vouched(message.meta);
            let before = settled.inserted_all(start, chain);
            &&& state.accepted(start, message) == before.inserted(start, message)
            &&& state.accepted_effects(start, message) == state.break_effects(message.meta)
                + settled.inserted_all_effects(start, chain) + before.inserted_effects(
                start,
                message,
            )
            &&& state.chain_verified(start, message.meta) == before
            &&& state.chain_verified_effects(start, message.meta) == state.break_effects(
                message.meta,
            ) + settled.inserted_all_effects(start, chain)
        }),
{
    let chain = state.vouched(message.meta);
    assert(chain.push(message).drop_last() =~= chain);
    assert(state.accepted_effects(start, message) =~= state.break_effects(message.meta)
        + state.settled_below(message.meta).inserted_all_effects(start, chain)
        + state.settled_below(message.meta).inserted_all(start, chain).inserted_effects(
        start,
        message,
    ));
}

/// What is looked up to vouch for a message is the authentic message with the
/// next sequence number: the entry of the log at that position, as long as the
/// log starts with sequence number one, or else the waiting one. Nothing is
/// found only if there is neither.
pub proof fn law_successor_vouches<A>(state: ReplicaState<A>, n: u32)
    requires
        state.well_formed(),
        in_range(n),
        n < state.log.len() ==> state.log[n as int].meta.sequence_number == n + 1,
    ensures
        match state.child_of(n) {
            Some(child) => {
                &&& child.sequence_number == n + 1
                &&& {
                    ||| n < state.log.len() && child == state.log[n as int].meta
                    ||| n >= state.log.len() && state.verified.contains_key((n + 1) as u32) && child
                        == state.verified[(n + 1) as u32].meta
                }
            },
            None => {
                &&& state.log.len() <= n
                &&& !state.verified.contains_key((n + 1) as u32)
            },
        },
{
}

// ---------------------------------------------------------------------------
// Messages from the network

/// The state with the sender of `message` as the route to its client, and one
/// more message of its status counted.
pub open spec fn heard<A>(
    state: ReplicaState<A>,
    remote: A,
    message: VerifiedOrderedMulticast,
) -> ReplicaState<A> {
    ReplicaState {
        routes: state.routes.insert(message.meta.request.client_id, remote),
        signed_count: if message.status == Status::Signed {
            state.signed_count + 1
        } else {
            state.signed_count
        },
        unsigned_count: if message.status == Status::Unsigned {
            state.unsigned_count + 1
        } else {
            state.unsigned_count
        },
        skipped_count: if message.status == Status::Skipped {
            state.skipped_count + 1
        } else {
            state.skipped_count
        },
        ..state
    }
}

/// A signed message is authentic by itself. Any other message is authentic if
/// the message with the next sequence number is and names its digest; if that
/// one names another digest, it is dropped and mentioned; if that one is not
/// there, it waits under its sequence number, in place of another one with this
/// number, which is then mentioned. In all cases its sender becomes the route to
/// its client and it is counted by its status.
pub proof fn law_handling_a_message<A>(
    state: ReplicaState<A>,
    start: u32,
    remote: A,
    message: VerifiedOrderedMulticast,
)
    requires
        in_range(message.meta.sequence_number),
    ensures
        ({
            let n = message.meta.sequence_number;
            let heard = heard(state, remote, message);
            let after = state.handled(start, remote, message);
            let effects = state.handled_effects(start, remote, message);
            let successor = if n < state.log.len() {
                Some(state.log[n as int].meta)
            } else if state.verified.contains_key((n + 1) as u32) {
                Some(state.verified[(n + 1) as u32].meta)
            } else {
                None
            };
            match (message.status, successor) {
                (Status::Signed, _) => {
                    &&& after == heard.accepted(start, message)
                    &&& effects == heard.accepted_effects(start, message)
                },
                (_, Some(child)) => if child.linked@ == message.meta.digest@ {
                    &&& after == heard.accepted(start, message)
                    &&& effects == heard.accepted_effects(start, message)
                } else {
                    &&& after == heard
                    &&& effects == seq![Effect::<A>::Mention(Notice::BrokenChain(n))]
                },
                (_, None) => {
                    &&& after == (ReplicaState {
                        received: state.received.insert(n, message),
                        ..heard
                    })
                    &&& effects == if state.received.contains_key(n) {
                        seq![Effect::<A>::Mention(Notice::DuplicatedChain(n))]
                    } else {
                        seq![]
                    }
                },
            }
        }),
{
    assert(state.noted(remote, message) == heard(state, remote, message));
}

/// A reply that comes back signed while its request is still the latest of its
/// client is recorded for this client, and for no other.
pub proof fn law_signed_reply_is_recorded<A>(
    state: ReplicaState<A>,
    client_id: ClientId,
    request_number: RequestNumber,
    signed: SignedReply,
    other: ClientId,
)
    requires
        state.clients.contains_key(client_id),
    ensures
        ({
            let after = state.reply_installed(client_id, request_number, signed).clients;
            &&& after.contains_key(other) == state.clients.contains_key(other)
            &&& state.clients[client_id].0 == request_number ==> after[client_id] == (
                request_number,
                Some(signed),
            )
            &&& state.clients.contains_key(other) && (other != client_id
                || state.clients[client_id].0 != request_number) ==> after[other]
                == state.clients[other]
        }),
{
}

impl<A> ReplicaState<A> {
    /// A held message stays held when a message with another number arrives.
    proof fn lemma_inserted_keeps_held(
        self,
        start: u32,
        message: VerifiedOrderedMulticast,
        held: VerifiedOrderedMulticast,
    )
        requires
            self.well_formed(),
            in_range(message.meta.sequence_number),
            start <= message.meta.sequence_number,
            self.holds(held),
            self.log.contains(held) || held.meta.sequence_number != message.meta.sequence_number,
        ensures
            self.inserted(start, message).holds(held),
            self.log.contains(held) ==> self.inserted(start, message).log.contains(held),
    {
        let after = self.inserted(start, message);
        let n = message.meta.sequence_number;
        if n - start == self.op_number {
            law_message_in_turn_is_logged(self, start, message);
            let length = self.log.len() as int;
            if self.log.contains(held) {
                let i = choose|i: int| 0 <= i < self.log.len() && self.log[i] == held;
                assert(after.log.subrange(0, length)[i] == held);
                assert(after.log[i] == held);
            } else {
                let k = choose|k: u32| #[trigger]
                    self.verified.contains_key(k) && self.verified[k] == held;
                if !after.verified.contains_key(k) {
                    assert(after.log[length + (k - n)] == held);
                    assert(after.log.contains(held));
                }
            }
        } else {
            if !self.log.contains(held) {
                let k = choose|k: u32| #[trigger]
                    self.verified.contains_key(k) && self.verified[k] == held;
                assert(after.verified.contains_key(k) && after.verified[k] == held);
            }
        }
    }

    /// A message that arrives is held.
    proof fn lemma_inserted_is_held(self, start: u32, message: VerifiedOrderedMulticast)
        requires
            in_range(message.meta.sequence_number),
            start <= message.meta.sequence_number,
        ensures
            self.inserted(start, message).holds(message),
    {
        let after = self.inserted(start, message);
        let n = message.meta.sequence_number;
        if n - start == self.op_number {
            law_message_in_turn_is_logged(self, start, message);
            assert(after.log[self.log.len() as int] == message);
        } else {
            assert(after.verified.contains_key(n) && after.verified[n] == message);
        }
    }

    proof fn lemma_inserted_all_held(
        self,
        start: u32,
        messages: Seq<VerifiedOrderedMulticast>,
        held: VerifiedOrderedMulticast,
    )
        requires
            self.well_formed(),
            self.starts_at(start),
            forall|i: int|
                0 <= i < messages.len() ==> {
                    &&& in_range((#[trigger] messages[i]).meta.sequence_number)
                    &&& start <= messages[i].meta.sequence_number
                    &&& self.routes.contains_key(messages[i].meta.request.client_id)
                },
            forall|i: int, j: int|
                0 <= i < j < messages.len() ==> (#[trigger] messages[i]).meta.sequence_number != (
                #[trigger] messages[j]).meta.sequence_number,
            ({
                ||| self.log.contains(held)
                ||| messages.contains(held)
                ||| self.holds(held) && forall|i: int|
                    0 <= i < messages.len() ==> (#[trigger] messages[i]).meta.sequence_number
                        != held.meta.sequence_number
            }),
        ensures
            self.inserted_all(start, messages).holds(held),
            self.log.contains(held) ==> self.inserted_all(start, messages).log.contains(held),
        decreases messages.len(),
    {
        if messages.len() > 0 {
            let earlier = messages.drop_last();
            let last = messages.last();
            let n = messages.len() - 1;
            let middle = self.inserted_all(start, earlier);
            assert(messages[n] == last);
            assert forall|i: int| 0 <= i < earlier.len() implies {
                &&& in_range((#[trigger] earlier[i]).meta.sequence_number)
                &&& start <= earlier[i].meta.sequence_number
                &&& self.routes.contains_key(earlier[i].meta.request.client_id)
                &&& earlier[i] == messages[i]
            } by {
                assert(earlier[i] == messages[i]);
            }
            self.lemma_inserted_all(start, earlier);
            if held == last && !self.log.contains(held) {
                middle.lemma_inserted_is_held(start, last);
            } else {
                if messages.contains(held) && !self.log.contains(held) {
                    let i = choose|i: int| 0 <= i < messages.len() && messages[i] == held;
                    assert(earlier[i] == held);
                    assert(messages[i].meta.sequence_number != messages[n].meta.sequence_number);
                }
                self.lemma_inserted_all_held(start, earlier, held);
                middle.lemma_inserted_keeps_held(start, last, held);
            }
        }
    }
}

/// An authentic message enters, and so does all that it vouches for: each is in
/// the log or waits for its turn afterwards. What was authentic before stays
/// so, except that a waiting message gives way to one with its own number.
pub proof fn law_authentic_messages_enter<A>(
    state: ReplicaState<A>,
    start: u32,
    remote: A,
    message: VerifiedOrderedMulticast,
    held: VerifiedOrderedMulticast,
)
    requires
        state.well_formed(),
        state.starts_at(start),
        in_range(message.meta.sequence_number),
        start <= message.meta.sequence_number,
    ensures
        ({
            let after = state.handled(start, remote, message);
            let n = message.meta.sequence_number;
            let admitted = state.admitted(message);
            &&& state.authenticates(message) && admitted.contains(held) ==> after.holds(held)
            &&& state.authenticates(message) ==> after.holds(message)
            &&& state.log.contains(held) ==> after.log.contains(held)
            &&& state.holds(held) && (forall|i: int|
                0 <= i < admitted.len() ==> (#[trigger] admitted[i]).meta.sequence_number
                    != held.meta.sequence_number) ==> after.holds(held)
        }),
{
    let noted = state.noted(remote, message);
    let after = state.handled(start, remote, message);
    let n = message.meta.sequence_number as int;
    let settled = noted.settled_below(message.meta);
    let chain = noted.vouched(message.meta);
    let admitted = noted.admitted(message);
    assert(admitted == state.admitted(message));
    assert(noted.child_of(message.meta.sequence_number) == state.child_of(
        message.meta.sequence_number,
    ));
    noted.lemma_vouched(start, message.meta);
    lemma_linked_below(noted.received, message.meta, n as nat);
    assert forall|i: int| 0 <= i < admitted.len() implies {
        &&& (#[trigger] admitted[i]).meta.sequence_number == n - chain.len() + i
        &&& in_range(admitted[i].meta.sequence_number)
        &&& start <= admitted[i].meta.sequence_number
        &&& settled.routes.contains_key(admitted[i].meta.request.client_id)
    } by {
        if i < chain.len() {
            let k = (n - chain.len() + i) as u32;
            assert(admitted[i] == chain[i]);
            assert(noted.received.contains_key(k));
        }
    }
    assert(admitted[admitted.len() - 1] == message);
    if state.authenticates(message) {
        if state.log.contains(held) {
            assert(settled.log.contains(held));
            settled.lemma_inserted_all_held(start, admitted, held);
        } else if admitted.contains(held) {
            settled.lemma_inserted_all_held(start, admitted, held);
        } else if state.holds(held) && (forall|i: int|
            0 <= i < admitted.len() ==> (#[trigger] admitted[i]).meta.sequence_number
                != held.meta.sequence_number) {
            assert(settled.holds(held)) by {
                let k = choose|k: u32| #[trigger]
                    state.verified.contains_key(k) && state.verified[k] == held;
                assert(settled.verified.contains_key(k) && settled.verified[k] == held);
            }
            settled.lemma_inserted_all_held(start, admitted, held);
        }
        settled.lemma_inserted_all_held(start, admitted, message);
    } else {
        assert(after.log == state.log);
        assert(after.verified == state.verified);
        if state.holds(held) && !state.log.contains(held) {
            let k = choose|k: u32| #[trigger]
                state.verified.contains_key(k) && state.verified[k] == held;
            assert(after.verified.contains_key(k) && after.verified[k] == held);
        }
    }
}

// ---------------------------------------------------------------------------
// What is left to do

/// A mention is passed on as it is. A recorded reply is sent on as it was
/// signed. An execution is answered to the client that asked, where it was last
/// heard from, with the number of the request, the position of the entry, the
/// replica's own id, view zero and an empty log digest.
pub proof fn law_outputs_answer_effects<A: Clone>(
    replica_id: ReplicaId,
    effect: Effect<A>,
    output: Output<A>,
)
    requires
        renders(replica_id, effect, output),
    ensures
        match effect {
            Effect::Mention(notice) => output == Output::<A>::Mention(notice),
            Effect::Resend { remote, reply } => {
                &&& output matches Output::Resend { remote: sent_to, signed }
                &&& cloned(remote, sent_to)
                &&& signed.signature@ == reply.signature
                &&& signed.reply.view_number == reply.reply.view_number
                &&& signed.reply.replica_id == reply.reply.replica_id
                &&& signed.reply.op_number == reply.reply.op_number
                &&& signed.reply.log_hash@ == reply.reply.log_hash
                &&& signed.reply.request_number == reply.reply.request_number
                &&& signed.reply.result@ == reply.reply.result
            },
            Effect::Execute { remote, client_id, op_number, request_number, .. } => {
                &&& output matches Output::Sign { remote: sent_to, client_id: answered, reply }
                &&& cloned(remote, sent_to)
                &&& answered == client_id
                &&& reply.view_number == 0
                &&& reply.replica_id == replica_id
                &&& reply.op_number == op_number as u32
                &&& reply.log_hash@.len() == 32
                &&& forall|i: int| 0 <= i < 32 ==> #[trigger] reply.log_hash@[i] == 0
                &&& reply.request_number == request_number
            },
        },
{
}

/// Carrying out effects leaves one thing to do for each, and takes the
/// application through the executions among them, in order: each with the
/// position and the operation that were asked for, and with the result that the
/// reply reports. Nothing else reaches the application.
pub proof fn law_application_runs_the_executions<A: Clone>(
    replica_id: ReplicaId,
    effects: Seq<Effect<A>>,
    effect: Effect<A>,
    before: Seq<Execution>,
    after: Seq<Execution>,
    outputs: Seq<Output<A>>,
    output: Output<A>,
)
    requires
        performed(replica_id, effects.push(effect), before, after, outputs.push(output)),
    ensures
        outputs.len() == effects.len(),
        renders(replica_id, effect, output),
        exists|middle: Seq<Execution>| #[trigger]
            performed(replica_id, effects, before, middle, outputs) && match effect {
                Effect::Execute { op_number, op, .. } => {
                    &&& output matches Output::Sign { reply, .. }
                    &&& after == middle.push(
                        Execution { op_number: op_number as u32, op, result: reply.result@ },
                    )
                },
                _ => after == middle,
            },
{
    let all = effects.push(effect);
    let out = outputs.push(output);
    let middle = before + executions(effects, outputs);
    assert(all.drop_last() =~= effects);
    assert(out.drop_last() =~= outputs);
    assert forall|i: int| 0 <= i < effects.len() implies renders(
        replica_id,
        #[trigger] effects[i],
        outputs[i],
    ) by {
        assert(all[i] == effects[i] && out[i] == outputs[i]);
    }
    assert(all[effects.len() as int] == effect && out[effects.len() as int] == output);
    assert(performed(replica_id, effects, before, middle, outputs));
    if let Effect::Execute { op_number, op, .. } = effect {
        if let Output::Sign { reply, .. } = output {
            assert(after =~= middle.push(
                Execution { op_number: op_number as u32, op, result: reply.result@ },
            ));
        }
    } else {
        assert(after =~= middle);
    }
}

/// Where there is nothing to carry out, nothing reaches the application and
/// nothing is left to do.
pub proof fn law_nothing_asked_nothing_done<A: Clone>(
    replica_id: ReplicaId,
    before: Seq<Execution>,
    after: Seq<Execution>,
    outputs: Seq<Output<A>>,
)
    requires
        performed(replica_id, Seq::<Effect<A>>::empty(), before, after, outputs),
    ensures
        after == before,
        outputs.len() == 0,
{
    assert(after =~= before);
}

/// A report gives the number of waiting messages exactly if there are any.
pub proof fn law_report_counts_waiting_messages(buffer: Map<u32, VerifiedOrderedMulticast>)
    requires
        buffer.dom().finite(),
        buffer.dom().len() <= usize::MAX,
    ensures
        match remaining(buffer) {
            Some(count) => count > 0 && count == buffer.dom().len(),
            None => buffer.dom() == Set::<u32>::empty(),
        },
{
    if remaining(buffer) is None {
        assert(buffer.dom() =~= Set::empty());
    } else if buffer.dom().len() == 0 {
        assert(buffer.dom() =~= Set::empty());
        assert(buffer =~= Map::empty());
    }
}

} // verus!
