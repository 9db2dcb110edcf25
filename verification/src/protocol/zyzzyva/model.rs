//! The client as mathematics.

use vstd::prelude::*;

use crate::common::{ClientId, ReplicaId, RequestNumber, ViewNumber};
use crate::protocol::zyzzyva::message::SpeculativeResponse;

verus! {

/// How long after sending a request the client looks for a certificate, in
/// milliseconds.
pub const COMMIT_INTERVAL: u64 = 100;

/// How long after sending a request the client sends it again, in
/// milliseconds.
pub const RESEND_INTERVAL: u64 = 1000;

/// What a client knows between its requests.
pub struct ClientState {
    pub id: ClientId,
    pub n_fault: nat,
    pub request_number: RequestNumber,
    pub view_number: ViewNumber,
}

/// What a client knows of a request that it waits for.
pub struct InvocationState {
    pub op: Seq<u8>,
    pub request_number: RequestNumber,
    pub client_id: ClientId,
    /// The latest result that each replica reported.
    pub results: Map<ReplicaId, Seq<u8>>,
    /// The result that enough replicas agreed on first.
    pub certified: Option<Seq<u8>>,
    pub commit_timeout: nat,
    pub resend_timeout: nat,
}

/// What happens to a waiting client.
pub enum Occurrence {
    Response { response: SpeculativeResponse, replica_id: ReplicaId, result: Seq<u8> },
    ResendTimeout { now: nat },
    CommitTimeout,
}

/// What a response means for a request.
pub enum Verdict {
    /// All replicas agree: the result is final.
    Committed(Seq<u8>),
    /// Enough replicas agree for a certificate of the result.
    Certified(Seq<u8>),
    /// Neither.
    Other,
}

/// What the client has to do next.
pub enum Reaction {
    Wait,
    /// Send the request to all replicas.
    Resend,
    /// Send the certificate of this result to all replicas.
    Commit(Seq<u8>),
    /// Give the result to whoever asked for it.
    Return(Seq<u8>),
}

/// The replicas that reported `result`.
pub open spec fn supporters(results: Map<ReplicaId, Seq<u8>>, result: Seq<u8>) -> Set<ReplicaId> {
    results.dom().filter(|id: ReplicaId| results[id] == result)
}

/// What the agreement of `count` replicas is worth.
pub open spec fn verdict(n_fault: nat, count: nat, result: Seq<u8>) -> Verdict {
    if count == 3 * n_fault + 1 {
        Verdict::Committed(result)
    } else if count >= 2 * n_fault + 1 {
        Verdict::Certified(result)
    } else {
        Verdict::Other
    }
}

impl ClientState {
    /// The response answers the client's current request.
    pub open spec fn expects(self, response: SpeculativeResponse) -> bool {
        response.request_number == self.request_number
    }

    /// A new request is issued.
    pub open spec fn invoking(self) -> Self {
        ClientState { request_number: (self.request_number + 1) as u32, ..self }
    }

    /// The client follows the newest view that a response mentions.
    pub open spec fn responded(self, response: SpeculativeResponse) -> Self {
        if self.expects(response) && response.view_number > self.view_number {
            ClientState { view_number: response.view_number, ..self }
        } else {
            self
        }
    }

    pub open spec fn stepped(self, occurrence: Occurrence) -> Self {
        match occurrence {
            Occurrence::Response { response, .. } => self.responded(response),
            _ => self,
        }
    }
}

impl InvocationState {
    /// The request that `client` has just issued at time `now`.
    pub open spec fn issued(client: ClientState, op: Seq<u8>, now: nat) -> Self {
        InvocationState {
            op,
            request_number: client.request_number,
            client_id: client.id,
            results: Map::empty(),
            certified: None,
            commit_timeout: now + COMMIT_INTERVAL as nat,
            resend_timeout: now + RESEND_INTERVAL as nat,
        }
    }

    /// The result of a replica is noted; an earlier one of the same replica
    /// no longer counts.
    pub open spec fn reported(
        self,
        client: ClientState,
        response: SpeculativeResponse,
        replica_id: ReplicaId,
        result: Seq<u8>,
    ) -> Self {
        if client.expects(response) {
            InvocationState { results: self.results.insert(replica_id, result), ..self }
        } else {
            self
        }
    }

    pub open spec fn reported_verdict(
        self,
        client: ClientState,
        response: SpeculativeResponse,
        replica_id: ReplicaId,
        result: Seq<u8>,
    ) -> Verdict {
        if client.expects(response) {
            verdict(
                client.n_fault,
                supporters(self.results.insert(replica_id, result), result).len(),
                result,
            )
        } else {
            Verdict::Other
        }
    }

    /// Both timers start anew.
    pub open spec fn resent(self, now: nat) -> Self {
        InvocationState {
            commit_timeout: now + COMMIT_INTERVAL as nat,
            resend_timeout: now + RESEND_INTERVAL as nat,
            ..self
        }
    }

    pub open spec fn stepped(self, client: ClientState, occurrence: Occurrence) -> Self {
        match occurrence {
            Occurrence::Response { response, replica_id, result } => {
                let noted = self.reported(client, response, replica_id, result);
                match (
                    self.reported_verdict(client, response, replica_id, result),
                    self.certified,
                ) {
                    (Verdict::Certified(result), None) => InvocationState {
                        certified: Some(result),
                        ..noted
                    },
                    _ => noted,
                }
            },
            Occurrence::ResendTimeout { now } => self.resent(now),
            Occurrence::CommitTimeout => self,
        }
    }

    pub open spec fn reaction(self, client: ClientState, occurrence: Occurrence) -> Reaction {
        match occurrence {
            Occurrence::Response { response, replica_id, result } => match self.reported_verdict(
                client,
                response,
                replica_id,
                result,
            ) {
                Verdict::Committed(result) => Reaction::Return(result),
                _ => Reaction::Wait,
            },
            Occurrence::ResendTimeout { .. } => Reaction::Resend,
            Occurrence::CommitTimeout => match self.certified {
                Some(result) => Reaction::Commit(result),
                None => Reaction::Wait,
            },
        }
    }
}

} // verus!
