//! The replica: it puts authentic requests in the order of the multicast,
//! executes them and answers the clients.

use std::collections::HashMap;
use std::sync::Arc;
use vstd::prelude::*;

use crate::app::App;
use crate::common::{ClientId, Digest, OpNumber, ReplicaId, RequestNumber};
use crate::config::Config;
use crate::protocol::neo::laws::{at_most_once, follows_log};
use crate::protocol::neo::lemmas::{
    lemma_carried_out_concat, lemma_carried_out_nothing, lemma_carried_out_one,
    lemma_linked_below, lemma_linked_below_remove, lemma_run_length,
};
use crate::protocol::neo::message::{
    MulticastVerifyingKey, OrderedMulticast, Reply, SignedReply, Status, VerifiedOrderedMulticast,
};
use crate::protocol::neo::model::{
    carried_out, in_range, linked_below, performed, run_length, Notice, Output, ReplicaState,
};
use crate::protocol::neo::shared::Shared;
use crate::transport::Receiver;

verus! {

broadcast use vstd::std_specs::hash::group_hash_axioms;

/// What a replica is set up with.
pub struct Setup<A, K, M> {
    pub config: Config<A, K>,
    pub id: ReplicaId,
    pub multicast_key: MulticastVerifyingKey<M>,
    pub skip_size: u32,
    pub batch_size: usize,
    pub check_equivocation: bool,
}

/// A replica of an application `P`.
///
/// The replica does no I/O: handling a message returns what is left to sign
/// and to send.
pub struct Replica<A, K, M, P> {
    shared: Arc<Shared<A, K, M>>,
    app: P,
    batch_size: usize,
    check_equivocation: bool,
    op_number: OpNumber,
    log: Vec<VerifiedOrderedMulticast>,
    received_buffer: HashMap<u32, VerifiedOrderedMulticast>,
    verified_buffer: HashMap<u32, VerifiedOrderedMulticast>,
    client_table: HashMap<ClientId, (RequestNumber, Option<SignedReply>)>,
    route_table: HashMap<ClientId, A>,
    signed_count: u32,
    unsigned_count: u32,
    skipped_count: u32,
}

/// What a replica has to say of itself when it stops.
#[derive(Clone, Copy, Debug, PartialEq, Eq)]
pub struct Report {
    pub signed_count: u32,
    pub unsigned_count: u32,
    pub skipped_count: u32,
    /// How many messages nobody vouched for, if any.
    pub chain_remaining: Option<usize>,
    /// How many authentic messages waited in vain, if any.
    pub reorder_remaining: Option<usize>,
}

/// The size of a buffer, if it holds anything.
pub open spec fn remaining(buffer: Map<u32, VerifiedOrderedMulticast>) -> Option<usize> {
    if buffer.is_empty() {
        None
    } else {
        Some(buffer.len() as usize)
    }
}

impl<A, K, M, P> Replica<A, K, M, P> {
    /// What the replica knows.
    pub closed spec fn state(&self) -> ReplicaState<A> {
        ReplicaState {
            op_number: self.op_number as nat,
            log: self.log@,
            received: self.received_buffer@,
            verified: self.verified_buffer@,
            clients: self.client_table@,
            routes: self.route_table@,
            signed_count: self.signed_count as nat,
            unsigned_count: self.unsigned_count as nat,
            skipped_count: self.skipped_count as nat,
        }
    }

    /// What the replica was set up with.
    pub closed spec fn setup(&self) -> Setup<A, K, M> {
        Setup {
            config: self.shared.cluster(),
            id: self.shared.replica_id(),
            multicast_key: self.shared.key(),
            skip_size: self.shared.skipped_distance(),
            batch_size: self.batch_size,
            check_equivocation: self.check_equivocation,
        }
    }

    /// The application.
    pub closed spec fn application(&self) -> P {
        self.app
    }

    pub open spec fn well_formed(&self) -> bool {
        self.state().well_formed()
    }
}

impl<A, K, M, P> Replica<A, K, M, P> {
    /// Sets up replica `replica_id` of the cluster.
    pub fn register_new(
        config: Config<A, K>,
        replica_id: ReplicaId,
        app: P,
        batch_size: usize,
        multicast_key: MulticastVerifyingKey<M>,
        check_equivocation: bool,
    ) -> (replica: Self)
        requires
            replica_id < config.replica_address.len(),
        ensures
            replica.setup() == (Setup {
                config,
                id: replica_id,
                multicast_key,
                skip_size: batch_size as u32,
                batch_size,
                check_equivocation,
            }),
            replica.application() == app,
            replica.state() == ReplicaState::<A>::initial(),
            replica.well_formed(),
    {
        Replica {
            shared: Arc::new(
                Shared::new(
                    config,
                    replica_id,
                    multicast_key,
                    #[verifier::truncate]
                    (batch_size as u32),
                ),
            ),
            app,
            batch_size,
            check_equivocation,
            op_number: 0,
            log: Vec::new(),
            received_buffer: HashMap::new(),
            verified_buffer: HashMap::new(),
            client_table: HashMap::new(),
            route_table: HashMap::new(),
            signed_count: 0,
            unsigned_count: 0,
            skipped_count: 0,
        }
    }

    /// The part of the replica that keeps no state.
    pub fn shared(&self) -> (shared: Arc<Shared<A, K, M>>)
        ensures
            shared.cluster() == self.setup().config,
            shared.replica_id() == self.setup().id,
            shared.key() == self.setup().multicast_key,
            shared.skipped_distance() == self.setup().skip_size,
    {
        self.shared.clone()
    }

    /// The number of the latest entry of the log.
    pub fn op_number(&self) -> (op_number: OpNumber)
        ensures
            op_number == self.state().op_number,
    {
        self.op_number
    }

    /// The log.
    pub fn log(&self) -> (log: &Vec<VerifiedOrderedMulticast>)
        ensures
            log@ == self.state().log,
    {
        &self.log
    }

    /// Keeps the signed reply to `request_number` for repetitions of the
    /// request, unless the client has moved on.
    pub fn install_reply(
        &mut self,
        client_id: ClientId,
        request_number: RequestNumber,
        signed: SignedReply,
    )
        requires
            old(self).state().clients.contains_key(client_id),
        ensures
            final(self).state() == old(self).state().reply_installed(
                client_id,
                request_number,
                signed,
            ),
            final(self).setup() == old(self).setup(),
            final(self).application() == old(self).application(),
            old(self).well_formed() ==> final(self).well_formed(),
    {
        let ghost before = self.state();
        let current = match self.client_table.get(&client_id) {
            Some((latest_number, _)) => *latest_number == request_number,
            None => false,
        };
        if current {
            self.client_table.insert(client_id, (request_number, Some(signed)));
        }
        assert(self.state() == before.reply_installed(client_id, request_number, signed));
    }

    /// What to say when the replica stops.
    pub fn report(&self) -> (report: Report)
        ensures
            report.signed_count == self.state().signed_count,
            report.unsigned_count == self.state().unsigned_count,
            report.skipped_count == self.state().skipped_count,
            report.chain_remaining == remaining(self.state().received),
            report.reorder_remaining == remaining(self.state().verified),
    {
        Report {
            signed_count: self.signed_count,
            unsigned_count: self.unsigned_count,
            skipped_count: self.skipped_count,
            chain_remaining: if self.received_buffer.is_empty() {
                None
            } else {
                Some(self.received_buffer.len())
            },
            reorder_remaining: if self.verified_buffer.is_empty() {
                None
            } else {
                Some(self.verified_buffer.len())
            },
        }
    }
}

impl<A, K, M, P> Receiver<A> for Replica<A, K, M, P> {
    open spec fn address(&self) -> A {
        self.setup().config.replica_address[self.setup().id as int]
    }

    fn get_address(&self) -> (address: &A) {
        self.shared.get_address()
    }
}

impl<A: Clone, K, M, P: App> Replica<A, K, M, P> {
    /// Appends an authentic message to the log, executes it if its request is
    /// new and repeats the recorded reply if it is the client's latest.
    pub(crate) fn insert_log(
        &mut self,
        verified: VerifiedOrderedMulticast,
        output: &mut Vec<Output<A>>,
    )
        requires
            old(self).state().op_number < u32::MAX,
            old(self).state().routes.contains_key(verified.meta.request.client_id),
        ensures
            final(self).state() == old(self).state().logged(verified),
            final(self).setup() == old(self).setup(),
            carried_out(
                old(self).setup().id,
                old(self).state().logged_effects(verified),
                old(self).application().history(),
                final(self).application().history(),
                old(output)@,
                final(output)@,
            ),
            at_most_once(
                old(self).state().clients,
                old(self).state().logged_effects(verified),
                final(self).state().clients,
            ),
            old(self).state().op_number == old(self).state().log.len() ==> follows_log(
                old(self).state().log,
                old(self).state().logged_effects(verified),
                final(self).state().log,
            ),
            old(self).state().table_is_current() ==> final(self).state().table_is_current(),
    {
        let ghost before = self.state();
        let ghost pending = output@;
        let ghost message = verified;
        proof {
            if before.table_is_current() {
                before.lemma_logged_table(message);
            }
            let after = before.logged(message);
            assert(before.log =~= after.log.subrange(0, before.log.len() as int));
        }
        self.op_number = self.op_number + 1;
        let client_id = verified.meta.request.client_id;
        let request_number = verified.meta.request.request_number;
        let op = verified.meta.request.op.clone();
        assert(op@ =~= message.meta.request.op@);
        self.log.push(verified);

        let remote = match self.route_table.get(&client_id) {
            Some(remote) => remote.clone(),
            None => {
                assert(false);
                return;
            },
        };
        proof {
            lemma_carried_out_nothing(self.setup().id, self.app.history(), pending);
        }
        if let Some((latest_number, reply)) = self.client_table.get(&client_id) {
            if *latest_number > request_number {
                return;
            }
            if *latest_number == request_number {
                if let Some(reply) = reply {
                    let signed = reply.clone();
                    output.push(Output::Resend { remote, signed });
                    proof {
                        lemma_carried_out_one(
                            self.setup().id,
                            before.logged_effects(message)[0],
                            output@.last(),
                            self.app.history(),
                            self.app.history(),
                            pending,
                        );
                    }
                }
                return;
            }
        }
        let op_number = self.op_number;
        let ghost history = self.app.history();
        let result = self.app.execute(op_number, op);
        let reply = Reply {
            view_number: 0,
            replica_id: self.shared.id(),
            op_number,
            log_hash: Digest::default(),
            request_number,
            result,
        };
        self.client_table.insert(client_id, (request_number, None));
        output.push(Output::Sign { remote, client_id, reply });
        proof {
            lemma_carried_out_one(
                self.setup().id,
                before.logged_effects(message)[0],
                output@.last(),
                history,
                self.app.history(),
                pending,
            );
        }
    }

    /// Takes in an authentic message: logs it, and what waited for it, if it
    /// is the next one, and keeps it waiting otherwise.
    pub(crate) fn insert_request(
        &mut self,
        start: u32,
        request: VerifiedOrderedMulticast,
        output: &mut Vec<Output<A>>,
    )
        requires
            old(self).state().well_formed(),
            old(self).state().starts_at(start),
            in_range(request.meta.sequence_number),
            start <= request.meta.sequence_number,
            old(self).state().routes.contains_key(request.meta.request.client_id),
        ensures
            final(self).state() == old(self).state().inserted(start, request),
            final(self).setup() == old(self).setup(),
            carried_out(
                old(self).setup().id,
                old(self).state().inserted_effects(start, request),
                old(self).application().history(),
                final(self).application().history(),
                old(output)@,
                final(output)@,
            ),
            final(self).state().well_formed(),
            final(self).state().starts_at(start),
            old(self).state().log.is_prefix_of(final(self).state().log),
            old(self).state().in_sequence(start) ==> final(self).state().in_sequence(start),
            old(self).state().nothing_ready(start) ==> final(self).state().nothing_ready(start),
    {
        let ghost before = self.state();
        let ghost setup = self.setup();
        let ghost history = self.app.history();
        let ghost pending = output@;
        let ghost message = request;
        proof {
            before.lemma_inserted_keeps(start, message);
        }
        let sequence_number = request.meta.sequence_number;
        if sequence_number - start != self.op_number {
            if self.verified_buffer.insert(sequence_number, request).is_some() {
                output.push(Output::Mention(Notice::DuplicatedSequence(sequence_number)));
                proof {
                    lemma_carried_out_one(
                        setup.id,
                        before.inserted_effects(start, message)[0],
                        output@.last(),
                        history,
                        history,
                        pending,
                    );
                }
            } else {
                proof {
                    lemma_carried_out_nothing(setup.id, history, pending);
                }
            }
            return;
        }
        let ghost first = sequence_number + 1;
        let ghost ready = before.ready(message);
        proof {
            lemma_run_length(before.verified, first);
            assert(ready.take(0) =~= seq![]);
            assert(ready.take(1).drop_last() =~= ready.take(0));
            assert(before.logged_all(ready.take(0)) == before);
            assert(before.logged_all_effects(ready.take(0)) =~= seq![]);
            assert(ready.take(1).last() == message);
            assert(before.logged_all_effects(ready.take(1)) =~= before.logged_effects(message));
        }
        self.insert_log(request, output);
        let mut insert_number: u32 = sequence_number + 1;
        proof {
            assert(before.verified =~= before.verified.remove_keys(
                Set::new(|k: u32| first <= k < insert_number),
            ));
        }
        loop
            invariant
                before.well_formed(),
                before.starts_at(start),
                start <= sequence_number < insert_number <= u32::MAX,
                sequence_number - start == before.op_number,
                first == sequence_number + 1,
                message.meta.sequence_number == sequence_number,
                ready == before.ready(message),
                run_length(before.verified, first) == insert_number - first + run_length(
                    before.verified,
                    insert_number as int,
                ),
                self.setup() == setup,
                self.state() == (ReplicaState {
                    verified: before.verified.remove_keys(
                        Set::new(|k: u32| first <= k < insert_number),
                    ),
                    ..before.logged_all(ready.take(insert_number - sequence_number))
                }),
                carried_out(
                    setup.id,
                    before.logged_all_effects(ready.take(insert_number - sequence_number)),
                    history,
                    self.app.history(),
                    pending,
                    output@,
                ),
            ensures
                run_length(before.verified, insert_number as int) == 0,
            decreases u32::MAX - insert_number,
        {
            let ghost done = ready.take(insert_number - sequence_number);
            let ghost current = self.state();
            let ghost number = insert_number;
            proof {
                before.lemma_logged_all(done);
            }
            match self.verified_buffer.remove(&insert_number) {
                Some(request) => {
                    proof {
                        assert(before.verified.contains_key(number));
                        assert(request == before.verified[number]);
                        assert(ready[number - sequence_number] == request);
                        assert(ready.take(number + 1 - sequence_number).drop_last() =~= done);
                        assert(current.verified.remove(number) =~= before.verified.remove_keys(
                            Set::new(|k: u32| first <= k < number + 1),
                        ));
                    }
                    insert_number = request.meta.sequence_number + 1;
                    let ghost middle = self.state();
                    let ghost between = self.app.history();
                    let ghost extended = output@;
                    self.insert_log(request, output);
                    proof {
                        lemma_carried_out_concat(
                            setup.id,
                            before.logged_all_effects(done),
                            middle.logged_effects(request),
                            history,
                            between,
                            self.app.history(),
                            pending,
                            extended,
                            output@,
                        );
                    }
                },
                None => {
                    assert(current.verified.remove(number) =~= current.verified);
                    break;
                },
            }
        }
        proof {
            assert(ready.take(insert_number - sequence_number) =~= ready);
        }
    }

    /// Takes in, oldest first, the received messages that the authentic
    /// message `child` vouches for, and drops the one where the chain breaks.
    /// Message 0 has nothing before it.
    fn verify_chain(&mut self, start: u32, child: &OrderedMulticast, output: &mut Vec<Output<A>>)
        requires
            old(self).state().well_formed(),
            old(self).state().starts_at(start),
        ensures
            final(self).state() == old(self).state().chain_verified(start, *child),
            final(self).setup() == old(self).setup(),
            carried_out(
                old(self).setup().id,
                old(self).state().chain_verified_effects(start, *child),
                old(self).application().history(),
                final(self).application().history(),
                old(output)@,
                final(output)@,
            ),
        decreases child.sequence_number,
    {
        let ghost before = self.state();
        let ghost setup = self.setup();
        let ghost history = self.app.history();
        let ghost pending = output@;
        let ghost n = child.sequence_number as nat;
        proof {
            lemma_carried_out_nothing(setup.id, history, pending);
            lemma_linked_below(before.received, *child, n);
        }
        if child.sequence_number == 0 {
            assert(before.vouched(*child) =~= seq![]);
            assert(before.received =~= before.settled_below(*child).received);
            assert(before.chain_verified_effects(start, *child) =~= seq![]);
            return;
        }
        let parent_number: u32 = child.sequence_number - 1;
        match self.received_buffer.remove(&parent_number) {
            Some(request) => {
                let ghost removed = self.state();
                assert(request == before.received[parent_number]);
                match child.verify_parent(request) {
                    Ok(verified) => {
                        let ghost below = linked_below(
                            before.received,
                            verified.meta,
                            parent_number as nat,
                        );
                        proof {
                            lemma_linked_below_remove(
                                before.received,
                                parent_number,
                                verified.meta,
                                parent_number as nat,
                            );
                            assert(before.vouched(*child).drop_last() =~= below);
                            assert(removed.vouched(verified.meta) == below);
                            assert(removed.settled_below(verified.meta).received
                                =~= before.settled_below(*child).received);
                            removed.lemma_vouched(start, verified.meta);
                            removed.settled_below(verified.meta).lemma_inserted_all(start, below);
                        }
                        self.verify_chain(start, &verified.meta, output);
                        let ghost middle = self.state();
                        let ghost between = self.app.history();
                        let ghost extended = output@;
                        self.insert_request(start, verified, output);
                        proof {
                            lemma_carried_out_concat(
                                setup.id,
                                removed.chain_verified_effects(start, verified.meta),
                                middle.inserted_effects(start, verified),
                                history,
                                between,
                                self.app.history(),
                                pending,
                                extended,
                                output@,
                            );
                            assert(before.chain_verified_effects(start, *child)
                                =~= removed.chain_verified_effects(start, verified.meta)
                                + middle.inserted_effects(start, verified));
                        }
                    },
                    Err(_) => {
                        assert(before.vouched(*child) =~= seq![]);
                        assert(removed.received =~= before.settled_below(*child).received);
                        output.push(Output::Mention(Notice::BrokenChain(parent_number)));
                        proof {
                            lemma_carried_out_one(
                                setup.id,
                                before.break_effects(*child)[0],
                                output@.last(),
                                history,
                                history,
                                pending,
                            );
                            assert(before.chain_verified_effects(start, *child)
                                =~= before.break_effects(*child));
                        }
                    },
                }
            },
            None => {
                assert(before.vouched(*child) =~= seq![]);
                assert(self.state().received =~= before.settled_below(*child).received);
                assert(before.chain_verified_effects(start, *child) =~= seq![]);
            },
        }
    }

    /// Takes in a message that only its successor can vouch for.
    fn insert_chain(
        &mut self,
        start: u32,
        request: VerifiedOrderedMulticast,
        output: &mut Vec<Output<A>>,
    )
        requires
            old(self).state().well_formed(),
            old(self).state().starts_at(start),
            in_range(request.meta.sequence_number),
            start <= request.meta.sequence_number,
            old(self).state().routes.contains_key(request.meta.request.client_id),
        ensures
            final(self).state() == old(self).state().chained(start, request),
            final(self).setup() == old(self).setup(),
            carried_out(
                old(self).setup().id,
                old(self).state().chained_effects(start, request),
                old(self).application().history(),
                final(self).application().history(),
                old(output)@,
                final(output)@,
            ),
    {
        let ghost before = self.state();
        let ghost setup = self.setup();
        let ghost history = self.app.history();
        let ghost pending = output@;
        proof {
            lemma_carried_out_nothing(setup.id, history, pending);
            before.lemma_accepted(start, request);
        }
        let sequence_number = request.meta.sequence_number;
        let position = sequence_number as usize;
        let verified = if position < self.log.len() {
            self.log[position].meta.verify_parent(request)
        } else {
            match self.verified_buffer.get(&(sequence_number + 1)) {
                Some(child) => child.meta.verify_parent(request),
                None => {
                    if self.received_buffer.insert(sequence_number, request).is_some() {
                        output.push(Output::Mention(Notice::DuplicatedChain(sequence_number)));
                        proof {
                            lemma_carried_out_one(
                                setup.id,
                                before.chained_effects(start, request)[0],
                                output@.last(),
                                history,
                                history,
                                pending,
                            );
                        }
                    }
                    return;
                },
            }
        };
        if let Ok(verified) = verified {
            self.verify_chain(start, &verified.meta, output);
            let ghost middle = self.state();
            let ghost between = self.app.history();
            let ghost extended = output@;
            self.insert_request(start, verified, output);
            proof {
                lemma_carried_out_concat(
                    setup.id,
                    before.chain_verified_effects(start, verified.meta),
                    middle.inserted_effects(start, verified),
                    history,
                    between,
                    self.app.history(),
                    pending,
                    extended,
                    output@,
                );
            }
        } else {
            output.push(Output::Mention(Notice::BrokenChain(sequence_number)));
            proof {
                lemma_carried_out_one(
                    setup.id,
                    before.chained_effects(start, request)[0],
                    output@.last(),
                    history,
                    history,
                    pending,
                );
            }
        }
    }

    /// Handles a message from the network and returns, in order, what is left
    /// to sign and to send. `start` is the first sequence number seen so far.
    ///
    /// A signed message is authentic and vouches for its past at once. Any
    /// other waits until its successor vouches for it. Checking for
    /// equivocation of signed messages is not supported.
    pub fn handle_request(
        &mut self,
        start: u32,
        remote: A,
        request: VerifiedOrderedMulticast,
    ) -> (output: Vec<Output<A>>)
        requires
            old(self).well_formed(),
            old(self).state().starts_at(start),
            in_range(request.meta.sequence_number),
            start <= request.meta.sequence_number,
            request.status == Status::Signed ==> !old(self).setup().check_equivocation,
            request.status != Status::Signed ==> old(self).state().child_position_agrees(
                request.meta.sequence_number,
            ),
            match request.status {
                Status::Signed => old(self).state().signed_count < u32::MAX,
                Status::Unsigned => old(self).state().unsigned_count < u32::MAX,
                Status::Skipped => old(self).state().skipped_count < u32::MAX,
            },
        ensures
            final(self).state() == old(self).state().handled(start, remote, request),
            final(self).setup() == old(self).setup(),
            performed(
                old(self).setup().id,
                old(self).state().handled_effects(start, remote, request),
                old(self).application().history(),
                final(self).application().history(),
                output@,
            ),
            final(self).well_formed(),
            final(self).state().starts_at(start),
    {
        let ghost before = self.state();
        let ghost noted = before.noted(remote, request);
        let mut output: Vec<Output<A>> = Vec::new();
        self.route_table.insert(request.meta.request.client_id, remote);
        match request.status {
            Status::Unsigned => {
                self.unsigned_count = self.unsigned_count + 1;
            },
            Status::Skipped => {
                self.skipped_count = self.skipped_count + 1;
            },
            Status::Signed => {
                self.signed_count = self.signed_count + 1;
            },
        }
        assert(self.state() == noted);
        proof {
            noted.lemma_accepted(start, request);
        }
        if request.status != Status::Signed {
            self.insert_chain(start, request, &mut output);
            assert(output@.skip(0) =~= output@);
            return output;
        }
        let ghost history = self.app.history();
        self.verify_chain(start, &request.meta, &mut output);
        let ghost middle = self.state();
        let ghost between = self.app.history();
        let ghost extended = output@;
        self.insert_request(start, request, &mut output);
        proof {
            lemma_carried_out_concat(
                self.setup().id,
                noted.chain_verified_effects(start, request.meta),
                middle.inserted_effects(start, request),
                history,
                between,
                self.app.history(),
                seq![],
                extended,
                output@,
            );
            assert(output@.skip(0) =~= output@);
        }
        output
    }
}

} // verus!
