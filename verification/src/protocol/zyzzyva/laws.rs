//! What holds of a client whatever happens to it.

use vstd::prelude::*;

use crate::common::ReplicaId;
use crate::protocol::zyzzyva::message::SpeculativeResponse;
use crate::protocol::zyzzyva::model::{
    supporters, ClientState, InvocationState, Occurrence, Reaction, Verdict,
};

verus! {

impl InvocationState {
    /// A certificate rests on enough replies, and replies are finitely many.
    pub open spec fn well_founded(self, n_fault: nat) -> bool {
        &&& self.results.dom().finite()
        &&& self.certified is Some ==> self.results.dom().len() >= 2 * n_fault + 1
    }
}

impl InvocationState {
    /// Whenever enough replicas agree on a result, some result is certified.
    pub open spec fn agreement_is_certified(self, n_fault: nat) -> bool {
        forall|result: Seq<u8>| #[trigger]
            supporters(self.results, result).len() >= 2 * n_fault + 1 ==> self.certified is Some
    }
}

/// A result is returned exactly when a response to the current request makes
/// the number of replicas that report this very result `3f + 1`.
pub proof fn law_commit_needs_all_replicas(
    client: ClientState,
    invocation: InvocationState,
    response: SpeculativeResponse,
    replica_id: ReplicaId,
    result: Seq<u8>,
    returned: Seq<u8>,
)
    ensures
        ({
            let occurrence = Occurrence::Response { response, replica_id, result };
            let after = invocation.stepped(client, occurrence);
            invocation.reaction(client, occurrence) == Reaction::Return(returned) <==> {
                &&& response.request_number == client.request_number
                &&& returned == result
                &&& supporters(after.results, returned).len() == 3 * client.n_fault + 1
            }
        }),
{
}

/// Nothing but a response makes a client return.
pub proof fn law_timers_never_return(
    client: ClientState,
    invocation: InvocationState,
    occurrence: Occurrence,
)
    requires
        !(occurrence is Response),
    ensures
        !(invocation.reaction(client, occurrence) is Return),
        invocation.stepped(client, occurrence).results == invocation.results,
        invocation.stepped(client, occurrence).certified == invocation.certified,
{
}

/// A response to another request changes nothing.
pub proof fn law_other_responses_are_ignored(
    client: ClientState,
    invocation: InvocationState,
    response: SpeculativeResponse,
    replica_id: ReplicaId,
    result: Seq<u8>,
)
    requires
        response.request_number != client.request_number,
    ensures
        ({
            let occurrence = Occurrence::Response { response, replica_id, result };
            &&& client.stepped(occurrence) == client
            &&& invocation.stepped(client, occurrence) == invocation
            &&& invocation.reaction(client, occurrence) == Reaction::Wait
        }),
{
}

/// The client's view never goes back, and its identity and the number of its
/// request stay while it waits.
pub proof fn law_view_never_goes_back(client: ClientState, occurrence: Occurrence)
    ensures
        client.view_number <= client.stepped(occurrence).view_number,
        client.stepped(occurrence).id == client.id,
        client.stepped(occurrence).request_number == client.request_number,
        client.stepped(occurrence).n_fault == client.n_fault,
{
}

/// What is sent again is what was sent first.
pub proof fn law_request_stays_the_same(
    client: ClientState,
    invocation: InvocationState,
    occurrence: Occurrence,
)
    ensures
        invocation.stepped(client, occurrence).op == invocation.op,
        invocation.stepped(client, occurrence).request_number == invocation.request_number,
        invocation.stepped(client, occurrence).client_id == invocation.client_id,
{
}

/// The resend timer always sends the request again and starts both timers
/// anew. The commit timer starts neither, and no response does.
pub proof fn law_timers(client: ClientState, invocation: InvocationState, occurrence: Occurrence)
    ensures
        match occurrence {
            Occurrence::ResendTimeout { now } => {
                &&& invocation.reaction(client, occurrence) == Reaction::Resend
                &&& invocation.stepped(client, occurrence).commit_timeout == now + 100
                &&& invocation.stepped(client, occurrence).resend_timeout == now + 1000
            },
            _ => {
                &&& invocation.stepped(client, occurrence).commit_timeout
                    == invocation.commit_timeout
                &&& invocation.stepped(client, occurrence).resend_timeout
                    == invocation.resend_timeout
            },
        },
{
}

/// A fresh request is well founded.
pub proof fn law_issued_is_well_founded(client: ClientState, op: Seq<u8>, now: nat)
    ensures
        InvocationState::issued(client, op, now).well_founded(client.n_fault),
{
}

/// Whatever happens, a certificate rests on at least `2f + 1` replies.
pub proof fn law_certificate_needs_replies(
    client: ClientState,
    invocation: InvocationState,
    occurrence: Occurrence,
)
    requires
        invocation.well_founded(client.n_fault),
    ensures
        invocation.stepped(client, occurrence).well_founded(client.n_fault),
{
    if let Occurrence::Response { response, replica_id, result } = occurrence {
        let results = invocation.results.insert(replica_id, result);
        vstd::set_lib::lemma_len_subset(supporters(results, result), results.dom());
        assert(results.dom() =~= invocation.results.dom().insert(replica_id));
    }
}

/// A result is certified exactly when none was before and a response to the
/// current request makes the number of replicas that report this very result
/// at least `2f + 1`, but not `3f + 1`. It then stays the certified one.
pub proof fn law_certificate_is_of_agreed_result(
    client: ClientState,
    invocation: InvocationState,
    response: SpeculativeResponse,
    replica_id: ReplicaId,
    result: Seq<u8>,
    certified: Seq<u8>,
)
    ensures
        ({
            let occurrence = Occurrence::Response { response, replica_id, result };
            let after = invocation.stepped(client, occurrence);
            let count = supporters(after.results, certified).len();
            after.certified == Some(certified) <==> {
                ||| invocation.certified == Some(certified)
                ||| {
                    &&& invocation.certified is None
                    &&& response.request_number == client.request_number
                    &&& certified == result
                    &&& count >= 2 * client.n_fault + 1
                    &&& count != 3 * client.n_fault + 1
                }
            }
        }),
{
}

/// The commit timer asks to send the certificate of the certified result, and
/// asks for nothing where there is none.
pub proof fn law_commit_is_of_certified_result(client: ClientState, invocation: InvocationState)
    ensures
        invocation.reaction(client, Occurrence::CommitTimeout) == match invocation.certified {
            Some(result) => Reaction::Commit(result),
            None => Reaction::Wait,
        },
        invocation.stepped(client, Occurrence::CommitTimeout) == invocation,
{
}

/// While the request is not over, enough replicas never agree on a result
/// without some result being certified.
pub proof fn law_agreement_is_certified(
    client: ClientState,
    invocation: InvocationState,
    occurrence: Occurrence,
)
    requires
        invocation.well_founded(client.n_fault),
        invocation.agreement_is_certified(client.n_fault),
        !(invocation.reaction(client, occurrence) is Return),
    ensures
        invocation.stepped(client, occurrence).agreement_is_certified(client.n_fault),
{
    if let Occurrence::Response { replica_id, result, .. } = occurrence {
        let after = invocation.stepped(client, occurrence);
        assert forall|other: Seq<u8>| #[trigger]
            supporters(after.results, other).len() >= 2 * client.n_fault + 1 implies
            after.certified is Some by {
            if other != result {
                vstd::set_lib::lemma_len_subset(
                    supporters(after.results, other),
                    supporters(invocation.results, other),
                );
            }
        }
    }
}

/// With fewer than `2f + 1` replies the commit timer does nothing.
pub proof fn law_commit_timer_waits_for_replies(client: ClientState, invocation: InvocationState)
    requires
        invocation.well_founded(client.n_fault),
        invocation.results.dom().len() < 2 * client.n_fault + 1,
    ensures
        invocation.stepped(client, Occurrence::CommitTimeout) == invocation,
        invocation.reaction(client, Occurrence::CommitTimeout) == Reaction::Wait,
{
}

/// Among `3f + 1` replicas no two results can both be certified.
pub proof fn law_certified_result_is_unique(
    n_fault: nat,
    results: Map<ReplicaId, Seq<u8>>,
    a: Seq<u8>,
    b: Seq<u8>,
)
    requires
        results.dom().finite(),
        results.dom().len() <= 3 * n_fault + 1,
        supporters(results, a).len() >= 2 * n_fault + 1,
        supporters(results, b).len() >= 2 * n_fault + 1,
    ensures
        a == b,
{
    let left = supporters(results, a);
    let right = supporters(results, b);
    if a != b {
        assert(left.disjoint(right));
        vstd::set_lib::lemma_set_disjoint_lens(left, right);
        vstd::set_lib::lemma_len_subset(left + right, results.dom());
    }
}

/// A response to the current request takes the client to the newer of its own
/// view and the one that the response mentions. Nothing else moves it.
pub proof fn law_client_follows_the_newest_view(
    client: ClientState,
    response: SpeculativeResponse,
    replica_id: ReplicaId,
    result: Seq<u8>,
)
    ensures
        ({
            let occurrence = Occurrence::Response { response, replica_id, result };
            let after = client.stepped(occurrence);
            &&& client.responded(response) == after
            &&& after.view_number == if response.request_number == client.request_number {
                vstd::math::max(client.view_number as int, response.view_number as int)
            } else {
                client.view_number as int
            }
        }),
        forall|now: nat| #[trigger]
            client.stepped(Occurrence::ResendTimeout { now }) == client,
        client.stepped(Occurrence::CommitTimeout) == client,
{
}

/// A new request takes the next number. The client's identity, its view and
/// the number of faulty replicas that it reckons with stay.
pub proof fn law_new_request_takes_the_next_number(client: ClientState)
    requires
        client.request_number < u32::MAX,
    ensures
        client.invoking().request_number == client.request_number + 1,
        client.invoking().id == client.id,
        client.invoking().view_number == client.view_number,
        client.invoking().n_fault == client.n_fault,
{
}

/// A request starts with no replies and no certificate. It carries the number
/// and the identity of its client and the operation, and its timers run out
/// after 100 and 1000 milliseconds.
pub proof fn law_request_starts_empty(client: ClientState, op: Seq<u8>, now: nat)
    ensures
        ({
            let issued = InvocationState::issued(client, op, now);
            &&& issued.op == op
            &&& issued.request_number == client.request_number
            &&& issued.client_id == client.id
            &&& issued.results.dom() == Set::<ReplicaId>::empty()
            &&& issued.certified is None
            &&& issued.commit_timeout == now + 100
            &&& issued.resend_timeout == now + 1000
        }),
{
}

/// A response to the current request makes its result the one that its replica
/// reported, and leaves what other replicas reported. A response to another
/// request leaves all.
pub proof fn law_response_is_noted(
    client: ClientState,
    invocation: InvocationState,
    response: SpeculativeResponse,
    replica_id: ReplicaId,
    result: Seq<u8>,
    other: ReplicaId,
)
    ensures
        ({
            let occurrence = Occurrence::Response { response, replica_id, result };
            let after = invocation.stepped(client, occurrence);
            &&& after.results == invocation.reported(client, response, replica_id, result).results
            &&& if response.request_number == client.request_number && other == replica_id {
                after.results.contains_key(other) && after.results[other] == result
            } else {
                &&& after.results.contains_key(other) == invocation.results.contains_key(other)
                &&& invocation.results.contains_key(other) ==> after.results[other]
                    == invocation.results[other]
            }
        }),
        ({
            let noted = invocation.reported(client, response, replica_id, result);
            &&& noted.op == invocation.op
            &&& noted.request_number == invocation.request_number
            &&& noted.client_id == invocation.client_id
            &&& noted.certified == invocation.certified
            &&& noted.commit_timeout == invocation.commit_timeout
            &&& noted.resend_timeout == invocation.resend_timeout
        }),
{
}

/// Those who support a result are the replicas whose latest report is this
/// very result, and no others.
pub proof fn law_supporters_reported_the_result(
    results: Map<ReplicaId, Seq<u8>>,
    result: Seq<u8>,
    id: ReplicaId,
)
    ensures
        supporters(results, result).contains(id) <==> results.contains_key(id) && results[id]
            == result,
        supporters(results, result) == Set::new(
            |id: ReplicaId| results.contains_key(id) && results[id] == result,
        ),
{
    assert(supporters(results, result) =~= Set::new(
        |id: ReplicaId| results.contains_key(id) && results[id] == result,
    ));
}

/// What a response to the current request means depends on how many replicas
/// now report its result: `3f + 1` of them make it final, any other number
/// from `2f + 1` on certifies it, and fewer do neither. A response to another
/// request means nothing.
pub proof fn law_verdict_counts_replicas(
    client: ClientState,
    invocation: InvocationState,
    response: SpeculativeResponse,
    replica_id: ReplicaId,
    result: Seq<u8>,
)
    ensures
        ({
            let after = invocation.reported(client, response, replica_id, result).results;
            let count = Set::new(
                |id: ReplicaId| after.contains_key(id) && after[id] == result,
            ).len();
            match invocation.reported_verdict(client, response, replica_id, result) {
                Verdict::Committed(final_result) => {
                    &&& response.request_number == client.request_number
                    &&& final_result == result
                    &&& count == 3 * client.n_fault + 1
                },
                Verdict::Certified(certified) => {
                    &&& response.request_number == client.request_number
                    &&& certified == result
                    &&& count != 3 * client.n_fault + 1
                    &&& count >= 2 * client.n_fault + 1
                },
                Verdict::Other => {
                    ||| response.request_number != client.request_number
                    ||| count < 2 * client.n_fault + 1 && count != 3 * client.n_fault + 1
                },
            }
        }),
{
    let after = invocation.reported(client, response, replica_id, result).results;
    law_supporters_reported_the_result(after, result, replica_id);
}

/// A response makes the client return or wait; it never makes it send
/// anything.
pub proof fn law_response_sends_nothing(
    client: ClientState,
    invocation: InvocationState,
    response: SpeculativeResponse,
    replica_id: ReplicaId,
    result: Seq<u8>,
)
    ensures
        ({
            let reaction = invocation.reaction(
                client,
                Occurrence::Response { response, replica_id, result },
            );
            reaction is Return || reaction is Wait
        }),
{
}

} // verus!
