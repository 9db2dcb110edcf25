//! The client: it issues a request, collects what the replicas answer and
//! decides when a result is final.
//!
//! Two timers run while a request is pending. The resend timer sends the
//! request to all replicas and starts both timers anew. The commit timer does
//! not restart itself and does nothing unless enough replicas agreed.

use std::collections::HashMap;
use vstd::prelude::*;

use crate::common::{bytes_equal, ClientId, Opaque, ReplicaId, RequestNumber, ViewNumber};
use crate::config::Config;
use crate::protocol::zyzzyva::message::{Request, SpeculativeResponse};
use crate::protocol::zyzzyva::model::{
    supporters, ClientState, InvocationState, Occurrence, Reaction, Verdict, COMMIT_INTERVAL,
    RESEND_INTERVAL,
};
use crate::transport::Receiver;

verus! {

broadcast use vstd::std_specs::hash::group_hash_axioms;

/// A client of a cluster.
#[derive(Debug)]
pub struct Client<A, K> {
    address: A,
    id: ClientId,
    config: Config<A, K>,
    request_number: RequestNumber,
    view_number: ViewNumber,
}

/// A request that a client waits for.
#[derive(Debug)]
pub struct Invocation {
    request: Request,
    result_table: HashMap<ReplicaId, Opaque>,
    certification: Option<Opaque>,
    commit_timeout: u64,
    resend_timeout: u64,
}

/// What a response means for the request.
#[derive(Debug)]
pub enum Status {
    /// All replicas agree: the result is final.
    Committed(Opaque),
    /// Enough replicas agree for a certificate of the result.
    Certified(Opaque),
    Other,
}

/// What happens to a waiting client. Times are in milliseconds.
#[derive(Debug)]
pub enum Event {
    /// A replica executed a request with this result.
    Response(SpeculativeResponse, ReplicaId, Opaque),
    ResendTimeout { now: u64 },
    CommitTimeout,
}

/// What the client has to do next.
#[derive(Debug)]
pub enum Action {
    Wait,
    /// Send the request to all replicas.
    Resend,
    /// Send the certificate of this result to all replicas.
    Commit(Opaque),
    /// The request has this result.
    Return(Opaque),
}

impl View for Status {
    type V = Verdict;

    open spec fn view(&self) -> Verdict {
        match self {
            Status::Committed(result) => Verdict::Committed(result@),
            Status::Certified(result) => Verdict::Certified(result@),
            Status::Other => Verdict::Other,
        }
    }
}

impl View for Event {
    type V = Occurrence;

    open spec fn view(&self) -> Occurrence {
        match self {
            Event::Response(response, replica_id, result) => Occurrence::Response {
                response: *response,
                replica_id: *replica_id,
                result: result@,
            },
            Event::ResendTimeout { now } => Occurrence::ResendTimeout { now: *now as nat },
            Event::CommitTimeout => Occurrence::CommitTimeout,
        }
    }
}

impl View for Action {
    type V = Reaction;

    open spec fn view(&self) -> Reaction {
        match self {
            Action::Wait => Reaction::Wait,
            Action::Resend => Reaction::Resend,
            Action::Commit(result) => Reaction::Commit(result@),
            Action::Return(result) => Reaction::Return(result@),
        }
    }
}

/// The results that replicas reported.
pub open spec fn reported_results(table: Map<ReplicaId, Opaque>) -> Map<ReplicaId, Seq<u8>> {
    table.map_values(|result: Opaque| result@)
}

impl View for Invocation {
    type V = InvocationState;

    closed spec fn view(&self) -> InvocationState {
        InvocationState {
            op: self.request.op@,
            request_number: self.request.request_number,
            client_id: self.request.client_id,
            results: reported_results(self.result_table@),
            certified: match self.certification {
                Some(result) => Some(result@),
                None => None,
            },
            commit_timeout: self.commit_timeout as nat,
            resend_timeout: self.resend_timeout as nat,
        }
    }
}

impl Invocation {
    /// The request, for sending it again.
    pub fn request(&self) -> (request: &Request)
        ensures
            request.op@ == self@.op,
            request.request_number == self@.request_number,
            request.client_id == self@.client_id,
    {
        &self.request
    }

    /// The result that enough replicas agreed on first.
    pub open spec fn certified_result(&self) -> Option<Seq<u8>> {
        self@.certified
    }

    /// The result that enough replicas agreed on first, if they did.
    pub fn certification(&self) -> (result: Option<&Opaque>)
        ensures
            match result {
                Some(result) => self.certified_result() == Some(result@),
                None => self.certified_result() is None,
            },
    {
        self.certification.as_ref()
    }

    /// When the commit timer runs out.
    pub fn commit_timeout(&self) -> (time: u64)
        ensures
            time == self@.commit_timeout,
    {
        self.commit_timeout
    }

    /// When the resend timer runs out.
    pub fn resend_timeout(&self) -> (time: u64)
        ensures
            time == self@.resend_timeout,
    {
        self.resend_timeout
    }
}

/// How many replicas reported `result`.
fn count_supporters(table: &HashMap<ReplicaId, Opaque>, result: &Opaque) -> (count: usize)
    ensures
        count == supporters(reported_results(table@), result@).len(),
{
    let ghost results = reported_results(table@);
    let ghost mut counted: Set<ReplicaId> = Set::empty();
    let mut count: usize = 0;
    assert(table.len() == table@.len());
    for (id, reported) in it: table.iter()
        invariant
            results == reported_results(table@),
            it.seq().no_duplicates(),
            it.seq().len() == table@.dom().len(),
            table@.dom().len() <= usize::MAX,
            forall|j: int|
                0 <= j < it.seq().len() ==> table@.contains_key(*(#[trigger] it.seq()[j]).0)
                    && table@[*it.seq()[j].0] == *it.seq()[j].1,
            forall|k: ReplicaId| #[trigger]
                table@.contains_key(k) ==> it.seq().contains((&k, &table@[k])),
            counted.finite(),
            counted.len() == count,
            count <= it.index(),
            forall|k: ReplicaId| #[trigger]
                counted.contains(k) <==> exists|j: int|
                    0 <= j < it.index() && *(#[trigger] it.seq()[j]).0 == k && it.seq()[j].1@
                        == result@,
    {
        if bytes_equal(reported, result) {
            count += 1;
            proof {
                counted = counted.insert(*id);
            }
        }
    }
    assert(counted =~= supporters(results, result@));
    count
}

impl<A, K> Client<A, K> {
    /// What the client knows.
    pub closed spec fn state(&self) -> ClientState {
        ClientState {
            id: self.id,
            n_fault: self.config.n_fault as nat,
            request_number: self.request_number,
            view_number: self.view_number,
        }
    }

    /// The cluster that the client talks to.
    pub closed spec fn cluster(&self) -> Config<A, K> {
        self.config
    }

    /// Sets up a client with its own address and identity.
    pub fn register_new(address: A, id: ClientId, config: Config<A, K>) -> (client: Self)
        ensures
            client.state() == (ClientState {
                id,
                n_fault: config.n_fault as nat,
                request_number: 0,
                view_number: 0,
            }),
            client.cluster() == config,
            client.address() == address,
    {
        Client { address, id, config, request_number: 0, view_number: 0 }
    }

    /// The cluster that the client talks to.
    pub fn config(&self) -> (config: &Config<A, K>)
        ensures
            *config == self.cluster(),
    {
        &self.config
    }

    /// The number of the client's latest request.
    pub fn request_number(&self) -> (request_number: RequestNumber)
        ensures
            request_number == self.state().request_number,
    {
        self.request_number
    }

    /// Issues a request. It has to be sent to the replica that is returned,
    /// the primary of the view that the client is in.
    pub fn invoke(&mut self, op: Opaque, now: u64) -> (started: (Invocation, ReplicaId))
        requires
            old(self).state().request_number < u32::MAX,
            old(self).cluster().replica_address.len() > 0,
            now + RESEND_INTERVAL <= u64::MAX,
        ensures
            final(self).state() == old(self).state().invoking(),
            final(self).cluster() == old(self).cluster(),
            final(self).address() == old(self).address(),
            started.0@ == InvocationState::issued(final(self).state(), op@, now as nat),
            started.1 == old(self).state().view_number as int
                % old(self).cluster().replica_address.len() as int,
    {
        self.request_number = self.request_number + 1;
        let invocation = Invocation {
            request: Request {
                op,
                request_number: self.request_number,
                client_id: self.id,
            },
            result_table: HashMap::new(),
            certification: None,
            commit_timeout: now + COMMIT_INTERVAL,
            resend_timeout: now + RESEND_INTERVAL,
        };
        assert(invocation@.results =~= Map::empty());
        let primary = self.config.view_primary(self.view_number);
        (invocation, primary)
    }

    /// Takes in a response and says what it means.
    pub fn receive_response(
        &mut self,
        invocation: &mut Invocation,
        response: SpeculativeResponse,
        replica_id: ReplicaId,
        result: Opaque,
    ) -> (status: Status)
        requires
            3 * old(self).state().n_fault + 1 <= usize::MAX,
        ensures
            final(self).state() == old(self).state().responded(response),
            final(self).cluster() == old(self).cluster(),
            final(self).address() == old(self).address(),
            final(invocation)@ == old(invocation)@.reported(
                old(self).state(),
                response,
                replica_id,
                result@,
            ),
            status@ == old(invocation)@.reported_verdict(
                old(self).state(),
                response,
                replica_id,
                result@,
            ),
    {
        if response.request_number != self.request_number {
            return Status::Other;
        }
        let ghost before = invocation@;
        let copy = result.clone();
        assert(copy@ =~= result@);
        invocation.result_table.insert(replica_id, copy);
        assert(invocation@.results =~= before.results.insert(replica_id, result@));
        if response.view_number > self.view_number {
            self.view_number = response.view_number;
        }
        let count = count_supporters(&invocation.result_table, &result);
        if count == 3 * self.config.n_fault + 1 {
            Status::Committed(result)
        } else if count >= 2 * self.config.n_fault + 1 {
            Status::Certified(result)
        } else {
            Status::Other
        }
    }

    /// Reacts to what happens while the client waits.
    pub fn step(&mut self, invocation: &mut Invocation, event: Event) -> (action: Action)
        requires
            3 * old(self).state().n_fault + 1 <= usize::MAX,
            event matches Event::ResendTimeout { now } ==> now + RESEND_INTERVAL <= u64::MAX,
        ensures
            final(self).state() == old(self).state().stepped(event@),
            final(self).cluster() == old(self).cluster(),
            final(self).address() == old(self).address(),
            final(invocation)@ == old(invocation)@.stepped(old(self).state(), event@),
            action@ == old(invocation)@.reaction(old(self).state(), event@),
            match (event@, old(invocation).certified_result()) {
                (
                    Occurrence::Response { response, replica_id, result },
                    None,
                ) => if old(invocation)@.reported_verdict(
                    old(self).state(),
                    response,
                    replica_id,
                    result,
                ) is Certified {
                    &&& final(invocation).certified_result() == Some(result)
                    &&& supporters(final(invocation)@.results, result).len() >= 2
                        * old(self).state().n_fault + 1
                } else {
                    final(invocation).certified_result() is None
                },
                _ => final(invocation).certified_result() == old(invocation).certified_result(),
            },
    {
        match event {
            Event::Response(response, replica_id, result) => {
                match self.receive_response(invocation, response, replica_id, result) {
                    Status::Committed(result) => Action::Return(result),
                    Status::Certified(result) => {
                        if invocation.certification.is_none() {
                            invocation.certification = Some(result);
                        }
                        Action::Wait
                    },
                    Status::Other => Action::Wait,
                }
            },
            Event::ResendTimeout { now } => {
                invocation.resend_timeout = now + RESEND_INTERVAL;
                invocation.commit_timeout = now + COMMIT_INTERVAL;
                Action::Resend
            },
            Event::CommitTimeout => {
                match &invocation.certification {
                    Some(result) => {
                        let copy = result.clone();
                        assert(copy@ =~= result@);
                        Action::Commit(copy)
                    },
                    None => Action::Wait,
                }
            },
        }
    }
}

impl<A, K> Receiver<A> for Client<A, K> {
    closed spec fn address(&self) -> A {
        self.address
    }

    fn get_address(&self) -> (address: &A) {
        &self.address
    }
}

/// An event says who answered which request with what in which view, or what
/// time it is; an action and a status carry the result that they are about.
pub proof fn law_events_say_what_happened(
    response: SpeculativeResponse,
    replica_id: ReplicaId,
    result: Opaque,
    now: u64,
)
    ensures
        Event::Response(response, replica_id, result)@ == (Occurrence::Response {
            response,
            replica_id,
            result: result@,
        }),
        (Event::ResendTimeout { now })@ == (Occurrence::ResendTimeout { now: now as nat }),
        Event::CommitTimeout@ == Occurrence::CommitTimeout,
        Action::Wait@ == Reaction::Wait,
        Action::Resend@ == Reaction::Resend,
        Action::Commit(result)@ == Reaction::Commit(result@),
        Action::Return(result)@ == Reaction::Return(result@),
        Status::Committed(result)@ == Verdict::Committed(result@),
        Status::Certified(result)@ == Verdict::Certified(result@),
        Status::Other@ == Verdict::Other,
{
}

/// The certified result of a request is the one that its state has.
pub proof fn law_certified_result_is_that_of_the_state(invocation: Invocation)
    ensures
        invocation.certified_result() == invocation@.certified,
{
}

} // verus!
