//! The replica as mathematics: its state, what each step makes of it, and
//! what the step asks of the world outside.

use vstd::prelude::*;

use crate::app::Execution;
use crate::common::{zero_digest, ClientId, ReplicaId, RequestNumber};
use crate::protocol::neo::message::{
    OrderedMulticast, Reply, ReplyView, Request, SignedReply, SignedReplyView, Status,
    VerifiedOrderedMulticast,
};

verus! {

/// What a replica knows.
///
/// `received` holds messages that nobody has vouched for yet and `verified`
/// holds authentic messages that wait for an earlier one. Both are keyed by
/// sequence number.
pub struct ReplicaState<A> {
    pub op_number: nat,
    pub log: Seq<VerifiedOrderedMulticast>,
    pub received: Map<u32, VerifiedOrderedMulticast>,
    pub verified: Map<u32, VerifiedOrderedMulticast>,
    pub clients: Map<ClientId, (RequestNumber, Option<SignedReply>)>,
    pub routes: Map<ClientId, A>,
    pub signed_count: nat,
    pub unsigned_count: nat,
    pub skipped_count: nat,
}

/// Something odd about the messages, worth a line in a log of events.
#[derive(Clone, Copy, Debug, PartialEq, Eq, Structural)]
pub enum Notice {
    /// An unvouched message replaced another one with this sequence number.
    DuplicatedChain(u32),
    /// An authentic message replaced another one with this sequence number.
    DuplicatedSequence(u32),
    /// The successor of the message with this sequence number contradicts it.
    BrokenChain(u32),
}

/// What a step asks for.
pub enum Effect<A> {
    /// Mention this.
    Mention(Notice),
    /// Send a reply that was signed before.
    Resend { remote: A, reply: SignedReplyView },
    /// Carry out an operation, then sign the result and send it.
    Execute {
        remote: A,
        client_id: ClientId,
        op_number: nat,
        request_number: RequestNumber,
        op: Seq<u8>,
    },
}

/// What is left to do for a replica once a step is over: the parts that need
/// a signing key or a network.
#[derive(Debug)]
pub enum Output<A> {
    /// Mention this to whoever looks after the replica.
    Mention(Notice),
    /// Send `signed` to `remote`.
    Resend { remote: A, signed: SignedReply },
    /// Sign `reply`, send it to `remote` and hand the signed reply back for
    /// the client `client_id`.
    Sign { remote: A, client_id: ClientId, reply: Reply },
}

/// The sequence numbers that messages may have: there is a next one.
pub open spec fn in_range(sequence_number: u32) -> bool {
    sequence_number < u32::MAX
}

impl<A> ReplicaState<A> {
    /// The state of a replica that has seen nothing.
    pub open spec fn initial() -> Self {
        ReplicaState {
            op_number: 0,
            log: Seq::empty(),
            received: Map::empty(),
            verified: Map::empty(),
            clients: Map::empty(),
            routes: Map::empty(),
            signed_count: 0,
            unsigned_count: 0,
            skipped_count: 0,
        }
    }

    /// Every message of `buffer` stands under its own sequence number, and a
    /// route to its client is known.
    pub open spec fn buffer_well_formed(
        self,
        buffer: Map<u32, VerifiedOrderedMulticast>,
    ) -> bool {
        forall|k: u32| #[trigger]
            buffer.contains_key(k) ==> {
                &&& in_range(k)
                &&& buffer[k].meta.sequence_number == k
                &&& self.routes.contains_key(buffer[k].meta.request.client_id)
            }
    }

    /// A route is known to the client of every logged request.
    pub open spec fn log_has_routes(self) -> bool {
        forall|i: int|
            0 <= i < self.log.len() ==> self.routes.contains_key(
                (#[trigger] self.log[i]).meta.request.client_id,
            )
    }

    pub open spec fn well_formed(self) -> bool {
        &&& self.op_number == self.log.len()
        &&& self.log_has_routes()
        &&& self.buffer_well_formed(self.received)
        &&& self.buffer_well_formed(self.verified)
    }

    /// No waiting message precedes `start`, the first sequence number seen.
    pub open spec fn starts_at(self, start: u32) -> bool {
        &&& forall|k: u32| #[trigger] self.received.contains_key(k) ==> start <= k
        &&& forall|k: u32| #[trigger] self.verified.contains_key(k) ==> start <= k
    }

    /// `request` is newer than anything this client had executed.
    pub open spec fn fresh(self, request: Request) -> bool {
        self.clients.contains_key(request.client_id) ==> self.clients[request.client_id].0
            < request.request_number
    }

    /// The entry `message` is appended to the log and, if it is fresh,
    /// executed.
    pub open spec fn logged(self, message: VerifiedOrderedMulticast) -> Self {
        let request = message.meta.request;
        ReplicaState {
            op_number: self.op_number + 1,
            log: self.log.push(message),
            clients: if self.fresh(request) {
                self.clients.insert(request.client_id, (request.request_number, None))
            } else {
                self.clients
            },
            ..self
        }
    }

    /// What appending `message` asks for: execution of a fresh request, the
    /// recorded reply for a repetition of the latest one, nothing for an
    /// older one or for a repetition whose reply is still being signed.
    pub open spec fn logged_effects(self, message: VerifiedOrderedMulticast) -> Seq<Effect<A>> {
        let request = message.meta.request;
        let remote = self.routes[request.client_id];
        if self.fresh(request) {
            seq![
                Effect::Execute {
                    remote,
                    client_id: request.client_id,
                    op_number: self.op_number + 1,
                    request_number: request.request_number,
                    op: request.op@,
                },
            ]
        } else {
            match self.clients[request.client_id] {
                (number, Some(reply)) if number == request.request_number => seq![
                    Effect::Resend { remote, reply: reply@ },
                ],
                _ => seq![],
            }
        }
    }

    /// `messages` are appended one after another.
    pub open spec fn logged_all(self, messages: Seq<VerifiedOrderedMulticast>) -> Self
        decreases messages.len(),
    {
        if messages.len() == 0 {
            self
        } else {
            self.logged_all(messages.drop_last()).logged(messages.last())
        }
    }

    pub open spec fn logged_all_effects(
        self,
        messages: Seq<VerifiedOrderedMulticast>,
    ) -> Seq<Effect<A>>
        decreases messages.len(),
    {
        if messages.len() == 0 {
            seq![]
        } else {
            self.logged_all_effects(messages.drop_last()) + self.logged_all(
                messages.drop_last(),
            ).logged_effects(messages.last())
        }
    }

    /// `message` and the verified messages that follow it without a gap.
    pub open spec fn ready(self, message: VerifiedOrderedMulticast) -> Seq<
        VerifiedOrderedMulticast,
    > {
        seq![message] + consecutive(self.verified, message.meta.sequence_number + 1)
    }

    /// An authentic message arrives. If it is the next one to log, it is
    /// logged together with all that waited for it, otherwise it waits.
    pub open spec fn inserted(self, start: u32, message: VerifiedOrderedMulticast) -> Self {
        let sequence_number = message.meta.sequence_number;
        if sequence_number - start != self.op_number {
            ReplicaState { verified: self.verified.insert(sequence_number, message), ..self }
        } else {
            let first = sequence_number + 1;
            let end = first + run_length(self.verified, first);
            ReplicaState {
                verified: self.verified.remove_keys(Set::new(|k: u32| first <= k < end)),
                ..self.logged_all(self.ready(message))
            }
        }
    }

    pub open spec fn inserted_effects(
        self,
        start: u32,
        message: VerifiedOrderedMulticast,
    ) -> Seq<Effect<A>> {
        let sequence_number = message.meta.sequence_number;
        if sequence_number - start != self.op_number {
            if self.verified.contains_key(sequence_number) {
                seq![Effect::Mention(Notice::DuplicatedSequence(sequence_number))]
            } else {
                seq![]
            }
        } else {
            self.logged_all_effects(self.ready(message))
        }
    }

    /// Authentic `messages` arrive one after another.
    pub open spec fn inserted_all(
        self,
        start: u32,
        messages: Seq<VerifiedOrderedMulticast>,
    ) -> Self
        decreases messages.len(),
    {
        if messages.len() == 0 {
            self
        } else {
            self.inserted_all(start, messages.drop_last()).inserted(start, messages.last())
        }
    }

    pub open spec fn inserted_all_effects(
        self,
        start: u32,
        messages: Seq<VerifiedOrderedMulticast>,
    ) -> Seq<Effect<A>>
        decreases messages.len(),
    {
        if messages.len() == 0 {
            seq![]
        } else {
            self.inserted_all_effects(start, messages.drop_last()) + self.inserted_all(
                start,
                messages.drop_last(),
            ).inserted_effects(start, messages.last())
        }
    }

    /// The received messages that `child` vouches for, directly or through
    /// one another, oldest first.
    pub open spec fn vouched(self, child: OrderedMulticast) -> Seq<VerifiedOrderedMulticast> {
        linked_below(self.received, child, child.sequence_number as nat)
    }

    /// The state without the received messages that `child` decides on:
    /// those that it vouches for, and the one where the chain breaks.
    pub open spec fn settled_below(self, child: OrderedMulticast) -> Self {
        ReplicaState {
            received: unlinked_below(self.received, child, child.sequence_number as nat),
            ..self
        }
    }

    /// The mention of the received message where the chain below `child`
    /// breaks, if there is one.
    pub open spec fn break_effects(self, child: OrderedMulticast) -> Seq<Effect<A>> {
        let broken = child.sequence_number - self.vouched(child).len() - 1;
        if 0 <= broken && self.received.contains_key(broken as u32) {
            seq![Effect::Mention(Notice::BrokenChain(broken as u32))]
        } else {
            seq![]
        }
    }

    /// `child` turned out authentic, so all that it vouches for is too.
    pub open spec fn chain_verified(self, start: u32, child: OrderedMulticast) -> Self {
        self.settled_below(child).inserted_all(start, self.vouched(child))
    }

    pub open spec fn chain_verified_effects(
        self,
        start: u32,
        child: OrderedMulticast,
    ) -> Seq<Effect<A>> {
        self.break_effects(child) + self.settled_below(child).inserted_all_effects(
            start,
            self.vouched(child),
        )
    }

    /// The messages that an authentic `message` brings in, itself last.
    pub open spec fn admitted(self, message: VerifiedOrderedMulticast) -> Seq<
        VerifiedOrderedMulticast,
    > {
        self.vouched(message.meta).push(message)
    }

    /// `message` is authentic: it arrives after all that it vouches for.
    pub open spec fn accepted(self, start: u32, message: VerifiedOrderedMulticast) -> Self {
        self.settled_below(message.meta).inserted_all(start, self.admitted(message))
    }

    pub open spec fn accepted_effects(
        self,
        start: u32,
        message: VerifiedOrderedMulticast,
    ) -> Seq<Effect<A>> {
        self.break_effects(message.meta) + self.settled_below(message.meta).inserted_all_effects(
            start,
            self.admitted(message),
        )
    }

    /// The authentic message that can vouch for a message with this sequence
    /// number. A log that starts with sequence number one is looked up by
    /// position.
    pub open spec fn child_of(self, sequence_number: u32) -> Option<OrderedMulticast> {
        if sequence_number < self.log.len() {
            Some(self.log[sequence_number as int].meta)
        } else if self.verified.contains_key((sequence_number + 1) as u32) {
            Some(self.verified[(sequence_number + 1) as u32].meta)
        } else {
            None
        }
    }

    /// The entry of the log that the lookup of a child finds, if any, is the
    /// child.
    pub open spec fn child_position_agrees(self, sequence_number: u32) -> bool {
        sequence_number < self.log.len() ==> self.log[sequence_number as int].meta.sequence_number
            == sequence_number + 1
    }

    /// A message arrives that only its successor can vouch for.
    pub open spec fn chained(self, start: u32, message: VerifiedOrderedMulticast) -> Self {
        match self.child_of(message.meta.sequence_number) {
            None => ReplicaState {
                received: self.received.insert(message.meta.sequence_number, message),
                ..self
            },
            Some(child) => if child.links(message.meta) {
                self.accepted(start, message)
            } else {
                self
            },
        }
    }

    pub open spec fn chained_effects(
        self,
        start: u32,
        message: VerifiedOrderedMulticast,
    ) -> Seq<Effect<A>> {
        let sequence_number = message.meta.sequence_number;
        match self.child_of(sequence_number) {
            None => if self.received.contains_key(sequence_number) {
                seq![Effect::Mention(Notice::DuplicatedChain(sequence_number))]
            } else {
                seq![]
            },
            Some(child) => if child.links(message.meta) {
                self.accepted_effects(start, message)
            } else {
                seq![Effect::Mention(Notice::BrokenChain(sequence_number))]
            },
        }
    }

    /// The client's address is noted and the message is counted.
    pub open spec fn noted(self, remote: A, message: VerifiedOrderedMulticast) -> Self {
        ReplicaState {
            routes: self.routes.insert(message.meta.request.client_id, remote),
            signed_count: self.signed_count + if message.status == Status::Signed {
                1nat
            } else {
                0
            },
            unsigned_count: self.unsigned_count + if message.status == Status::Unsigned {
                1nat
            } else {
                0
            },
            skipped_count: self.skipped_count + if message.status == Status::Skipped {
                1nat
            } else {
                0
            },
            ..self
        }
    }

    /// A message arrives from the network.
    pub open spec fn handled(
        self,
        start: u32,
        remote: A,
        message: VerifiedOrderedMulticast,
    ) -> Self {
        if message.status == Status::Signed {
            self.noted(remote, message).accepted(start, message)
        } else {
            self.noted(remote, message).chained(start, message)
        }
    }

    pub open spec fn handled_effects(
        self,
        start: u32,
        remote: A,
        message: VerifiedOrderedMulticast,
    ) -> Seq<Effect<A>> {
        if message.status == Status::Signed {
            self.noted(remote, message).accepted_effects(start, message)
        } else {
            self.noted(remote, message).chained_effects(start, message)
        }
    }

    /// A reply comes back signed. It is kept if it still answers the latest
    /// request of its client.
    pub open spec fn reply_installed(
        self,
        client_id: ClientId,
        request_number: RequestNumber,
        reply: SignedReply,
    ) -> Self {
        if self.clients[client_id].0 == request_number {
            ReplicaState {
                clients: self.clients.insert(client_id, (request_number, Some(reply))),
                ..self
            }
        } else {
            self
        }
    }
}

/// How many keys of `buffer` follow one another from `first` on.
pub open spec fn run_length(buffer: Map<u32, VerifiedOrderedMulticast>, first: int) -> nat
    decreases u32::MAX - first,
{
    if 0 <= first < u32::MAX && buffer.contains_key(first as u32) {
        1 + run_length(buffer, first + 1)
    } else {
        0
    }
}

/// The messages under those keys.
pub open spec fn consecutive(buffer: Map<u32, VerifiedOrderedMulticast>, first: int) -> Seq<
    VerifiedOrderedMulticast,
> {
    Seq::new(run_length(buffer, first), |i: int| buffer[(first + i) as u32])
}

/// The messages of `buffer` below number `n` that are chained to `child`,
/// oldest first.
pub open spec fn linked_below(
    buffer: Map<u32, VerifiedOrderedMulticast>,
    child: OrderedMulticast,
    n: nat,
) -> Seq<VerifiedOrderedMulticast>
    decreases n,
{
    if n > 0 && buffer.contains_key((n - 1) as u32) && child.links(buffer[(n - 1) as u32].meta) {
        let parent = buffer[(n - 1) as u32];
        linked_below(buffer, parent.meta, (n - 1) as nat).push(parent)
    } else {
        seq![]
    }
}

/// `buffer` without the messages that [`linked_below`] lists and without the
/// one that stands where the chain breaks.
pub open spec fn unlinked_below(
    buffer: Map<u32, VerifiedOrderedMulticast>,
    child: OrderedMulticast,
    n: nat,
) -> Map<u32, VerifiedOrderedMulticast> {
    let end = n as int;
    let first = end - linked_below(buffer, child, n).len() - 1;
    buffer.remove_keys(Set::new(|k: u32| first <= k < end))
}

/// `output` is what `effect` leaves to do on replica `replica_id`. The result
/// of an execution is whatever the application answered.
pub open spec fn renders<A: Clone>(
    replica_id: ReplicaId,
    effect: Effect<A>,
    output: Output<A>,
) -> bool {
    match (effect, output) {
        (Effect::Mention(noticed), Output::Mention(mentioned)) => mentioned == noticed,
        (
            Effect::Resend { remote, reply },
            Output::Resend { remote: sent_to, signed },
        ) => cloned(remote, sent_to) && signed@ == reply,
        (
            Effect::Execute { remote, client_id, op_number, request_number, op },
            Output::Sign { remote: sent_to, client_id: answered, reply },
        ) => {
            &&& cloned(remote, sent_to)
            &&& answered == client_id
            &&& reply@ == (ReplyView {
                view_number: 0,
                replica_id,
                op_number: op_number as u32,
                log_hash: zero_digest(),
                request_number,
                result: reply.result@,
            })
        },
        _ => false,
    }
}

/// The executions among `effects`, with the results that `outputs` report.
pub open spec fn executions<A>(effects: Seq<Effect<A>>, outputs: Seq<Output<A>>) -> Seq<Execution>
    decreases effects.len(),
{
    if effects.len() == 0 {
        seq![]
    } else {
        let earlier = executions(effects.drop_last(), outputs.drop_last());
        match (effects.last(), outputs.last()) {
            (Effect::Execute { op_number, op, .. }, Output::Sign { reply, .. }) => earlier.push(
                Execution { op_number: op_number as u32, op, result: reply.result@ },
            ),
            _ => earlier,
        }
    }
}

/// `effects` were carried out, in order: the application went from the trace
/// `before` to the trace `after`, and `outputs` are left to do.
pub open spec fn performed<A: Clone>(
    replica_id: ReplicaId,
    effects: Seq<Effect<A>>,
    before: Seq<Execution>,
    after: Seq<Execution>,
    outputs: Seq<Output<A>>,
) -> bool {
    &&& outputs.len() == effects.len()
    &&& forall|i: int|
        0 <= i < effects.len() ==> renders(replica_id, #[trigger] effects[i], outputs[i])
    &&& after == before + executions(effects, outputs)
}

/// `effects` were carried out and what they leave to do was appended to
/// `pending`, which became `extended`.
pub open spec fn carried_out<A: Clone>(
    replica_id: ReplicaId,
    effects: Seq<Effect<A>>,
    before: Seq<Execution>,
    after: Seq<Execution>,
    pending: Seq<Output<A>>,
    extended: Seq<Output<A>>,
) -> bool {
    &&& pending.len() <= extended.len()
    &&& extended.take(pending.len() as int) == pending
    &&& performed(replica_id, effects, before, after, extended.skip(pending.len() as int))
}

} // verus!
