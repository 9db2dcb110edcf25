//! What holds of a client over any number of events and requests.

use vstd::prelude::*;

use crate::common::ReplicaId;
use crate::protocol::zyzzyva::laws::{
    law_agreement_is_certified, law_certificate_needs_replies, law_other_responses_are_ignored,
    law_request_stays_the_same, law_supporters_reported_the_result,
};
use crate::protocol::zyzzyva::model::{
    supporters, ClientState, InvocationState, Occurrence, Reaction,
};

verus! {

/// Where a client stands with a request.
pub struct Run {
    pub client: ClientState,
    pub invocation: InvocationState,
    /// The result, once the request is over.
    pub returned: Option<Seq<u8>>,
}

impl Run {
    /// `client` issues a request at time `now`.
    pub open spec fn issued(client: ClientState, op: Seq<u8>, now: nat) -> Self {
        Run {
            client: client.invoking(),
            invocation: InvocationState::issued(client.invoking(), op, now),
            returned: None,
        }
    }

    /// Something happens. Once the request is over, nothing matters to it.
    pub open spec fn stepped(self, occurrence: Occurrence) -> Self {
        if self.returned is Some {
            self
        } else {
            Run {
                client: self.client.stepped(occurrence),
                invocation: self.invocation.stepped(self.client, occurrence),
                returned: match self.invocation.reaction(self.client, occurrence) {
                    Reaction::Return(result) => Some(result),
                    _ => None,
                },
            }
        }
    }

    /// `occurrences` happen one after another.
    pub open spec fn after(self, occurrences: Seq<Occurrence>) -> Self
        decreases occurrences.len(),
    {
        if occurrences.len() == 0 {
            self
        } else {
            self.after(occurrences.drop_last()).stepped(occurrences.last())
        }
    }
}

/// `occurrence` is a response to another request than number `request_number`.
pub open spec fn is_foreign(occurrence: Occurrence, request_number: u32) -> bool {
    occurrence matches Occurrence::Response { response, .. } && response.request_number
        != request_number
}

/// `more` is `occurrences` with responses to other requests than number
/// `request_number` among them.
pub open spec fn has_foreign(
    occurrences: Seq<Occurrence>,
    more: Seq<Occurrence>,
    request_number: u32,
) -> bool
    decreases more.len(),
{
    if more.len() == 0 {
        occurrences.len() == 0
    } else {
        ||| is_foreign(more.last(), request_number) && has_foreign(
            occurrences,
            more.drop_last(),
            request_number,
        )
        ||| occurrences.len() > 0 && occurrences.last() == more.last() && has_foreign(
            occurrences.drop_last(),
            more.drop_last(),
            request_number,
        )
    }
}

/// A request of a client and what happens while the client waits for it.
pub struct Call {
    pub op: Seq<u8>,
    pub now: nat,
    pub occurrences: Seq<Occurrence>,
}

impl ClientState {
    /// The client after it has made `calls`.
    pub open spec fn after_calls(self, calls: Seq<Call>) -> Self
        decreases calls.len(),
    {
        if calls.len() == 0 {
            self
        } else {
            let call = calls.last();
            Run::issued(self.after_calls(calls.drop_last()), call.op, call.now).after(
                call.occurrences,
            ).client
        }
    }
}

/// While a client waits, its identity, the number of its request and the
/// request that it would send again stay.
pub proof fn law_waiting_keeps_the_request(run: Run, occurrences: Seq<Occurrence>)
    ensures
        run.after(occurrences).client.id == run.client.id,
        run.after(occurrences).client.n_fault == run.client.n_fault,
        run.after(occurrences).client.request_number == run.client.request_number,
        run.after(occurrences).client.view_number >= run.client.view_number,
        run.after(occurrences).invocation.op == run.invocation.op,
        run.after(occurrences).invocation.request_number == run.invocation.request_number,
        run.after(occurrences).invocation.client_id == run.invocation.client_id,
    decreases occurrences.len(),
{
    if occurrences.len() > 0 {
        let before = run.after(occurrences.drop_last());
        law_waiting_keeps_the_request(run, occurrences.drop_last());
        law_request_stays_the_same(before.client, before.invocation, occurrences.last());
    }
}

/// Responses to other requests, wherever they come in, change nothing: the
/// client returns the same result, if any, and ends up in the same view with
/// the same request number.
pub proof fn law_foreign_responses_are_ignored(
    run: Run,
    occurrences: Seq<Occurrence>,
    more: Seq<Occurrence>,
)
    requires
        has_foreign(occurrences, more, run.client.request_number),
    ensures
        run.after(more) == run.after(occurrences),
    decreases more.len(),
{
    if more.len() > 0 {
        let number = run.client.request_number;
        if is_foreign(more.last(), number) && has_foreign(occurrences, more.drop_last(), number) {
            let before = run.after(more.drop_last());
            law_foreign_responses_are_ignored(run, occurrences, more.drop_last());
            law_waiting_keeps_the_request(run, more.drop_last());
            if let Occurrence::Response { response, replica_id, result } = more.last() {
                law_other_responses_are_ignored(
                    before.client,
                    before.invocation,
                    response,
                    replica_id,
                    result,
                );
            }
        } else {
            law_foreign_responses_are_ignored(run, occurrences.drop_last(), more.drop_last());
        }
    }
}

/// At some point of `occurrences` at least `2f + 1` replicas reported `result`
/// for the request.
pub open spec fn was_agreed(run: Run, occurrences: Seq<Occurrence>, result: Seq<u8>) -> bool {
    exists|n: int|
        0 <= n <= occurrences.len() && supporters(
            (#[trigger] run.after(occurrences.take(n))).invocation.results,
            result,
        ).len() >= 2 * run.client.n_fault + 1
}

proof fn lemma_certificates(run: Run, occurrences: Seq<Occurrence>)
    requires
        run.returned is None,
        run.invocation.certified is None,
        run.invocation.well_founded(run.client.n_fault),
        run.invocation.agreement_is_certified(run.client.n_fault),
    ensures
        ({
            let now = run.after(occurrences);
            &&& now.invocation.well_founded(run.client.n_fault)
            &&& now.returned is None ==> now.invocation.agreement_is_certified(run.client.n_fault)
            &&& now.invocation.certified matches Some(result) ==> was_agreed(
                run,
                occurrences,
                result,
            )
        }),
    decreases occurrences.len(),
{
    if occurrences.len() > 0 {
        let earlier = occurrences.drop_last();
        let before = run.after(earlier);
        let now = run.after(occurrences);
        lemma_certificates(run, earlier);
        law_waiting_keeps_the_request(run, earlier);
        if before.returned is None {
            law_certificate_needs_replies(before.client, before.invocation, occurrences.last());
            if now.returned is None {
                law_agreement_is_certified(before.client, before.invocation, occurrences.last());
            }
        }
        if let Some(result) = now.invocation.certified {
            if before.invocation.certified is Some {
                let n = choose|n: int|
                    0 <= n <= earlier.len() && supporters(
                        (#[trigger] run.after(earlier.take(n))).invocation.results,
                        result,
                    ).len() >= 2 * run.client.n_fault + 1;
                assert(earlier.take(n) =~= occurrences.take(n));
                assert(run.after(occurrences.take(n)) == run.after(earlier.take(n)));
            } else {
                assert(occurrences.take(occurrences.len() as int) =~= occurrences);
                assert(run.after(occurrences.take(occurrences.len() as int)) == now);
            }
        }
    }
}

/// Where the commit timer runs out before the request is over while at least
/// `2f + 1` replicas report equal results for it, the client sends a
/// certificate instead of the request, and the certificate is of a result that
/// at least `2f + 1` replicas reported for this request.
pub proof fn law_agreement_is_committed(
    client: ClientState,
    op: Seq<u8>,
    now: nat,
    occurrences: Seq<Occurrence>,
    agreed: Seq<u8>,
)
    requires
        ({
            let waiting = Run::issued(client, op, now).after(occurrences);
            &&& waiting.returned is None
            &&& supporters(waiting.invocation.results, agreed).len() >= 2 * client.n_fault + 1
        }),
    ensures
        ({
            let issued = Run::issued(client, op, now);
            let waiting = issued.after(occurrences);
            &&& waiting.invocation.reaction(
                waiting.client,
                Occurrence::CommitTimeout,
            ) matches Reaction::Commit(result)
            &&& was_agreed(issued, occurrences, result)
        }),
{
    let issued = Run::issued(client, op, now);
    lemma_nothing_is_agreed_at_first(issued.client, op, now);
    lemma_certificates(issued, occurrences);
}

/// Whatever happens, a certificate that the client sends is of a result that
/// at least `2f + 1` replicas reported for this request.
pub proof fn law_commit_was_agreed(
    client: ClientState,
    op: Seq<u8>,
    now: nat,
    occurrences: Seq<Occurrence>,
    occurrence: Occurrence,
    result: Seq<u8>,
)
    requires
        ({
            let waiting = Run::issued(client, op, now).after(occurrences);
            waiting.invocation.reaction(waiting.client, occurrence) == Reaction::Commit(result)
        }),
    ensures
        was_agreed(Run::issued(client, op, now), occurrences, result),
{
    let issued = Run::issued(client, op, now);
    lemma_nothing_is_agreed_at_first(issued.client, op, now);
    lemma_certificates(issued, occurrences);
}

proof fn lemma_nothing_is_agreed_at_first(client: ClientState, op: Seq<u8>, now: nat)
    ensures
        InvocationState::issued(client, op, now).agreement_is_certified(client.n_fault),
{
    let issued = InvocationState::issued(client, op, now);
    assert forall|result: Seq<u8>| #[trigger]
        supporters(issued.results, result).len() >= 2 * client.n_fault + 1 implies
        issued.certified is Some by {
        assert(supporters(issued.results, result) =~= Set::empty());
    }
}

proof fn lemma_calls_are_counted(client: ClientState, calls: Seq<Call>)
    requires
        client.request_number + calls.len() <= u32::MAX,
    ensures
        client.after_calls(calls).request_number == client.request_number + calls.len(),
        client.after_calls(calls).id == client.id,
    decreases calls.len(),
{
    if calls.len() > 0 {
        let call = calls.last();
        lemma_calls_are_counted(client, calls.drop_last());
        law_waiting_keeps_the_request(
            Run::issued(client.after_calls(calls.drop_last()), call.op, call.now),
            call.occurrences,
        );
    }
}

/// The requests of a client are numbered from one on: after `calls`, whatever
/// happened during them, the next request carries the next number, the
/// client's id and its own operation, when it is first sent and whenever it is
/// sent again.
pub proof fn law_requests_are_numbered(
    client: ClientState,
    calls: Seq<Call>,
    op: Seq<u8>,
    now: nat,
    occurrences: Seq<Occurrence>,
)
    requires
        client.request_number == 0,
        calls.len() < u32::MAX,
    ensures
        ({
            let issued = Run::issued(client.after_calls(calls), op, now);
            let waiting = issued.after(occurrences).invocation;
            &&& issued.invocation.request_number == calls.len() + 1
            &&& issued.invocation.client_id == client.id
            &&& issued.invocation.op == op
            &&& waiting.request_number == calls.len() + 1
            &&& waiting.client_id == client.id
            &&& waiting.op == op
        }),
{
    lemma_calls_are_counted(client, calls);
    law_waiting_keeps_the_request(Run::issued(client.after_calls(calls), op, now), occurrences);
}

/// `occurrence` is a response to request `request_number`.
pub open spec fn is_answer(occurrence: Occurrence, request_number: u32) -> bool {
    occurrence matches Occurrence::Response { response, .. } && response.request_number
        == request_number
}

/// The view that a response mentions.
pub open spec fn mentioned_view(occurrence: Occurrence) -> u8 {
    match occurrence {
        Occurrence::Response { response, .. } => response.view_number,
        _ => 0,
    }
}

/// While a client waits, its view is the greatest among the one that it
/// started in and those that the responses to its request mention.
pub proof fn law_view_is_the_greatest_mentioned(run: Run, occurrences: Seq<Occurrence>)
    requires
        run.after(occurrences).returned is None,
    ensures
        ({
            let number = run.client.request_number;
            let view = run.after(occurrences).client.view_number;
            &&& run.client.view_number <= view
            &&& forall|i: int|
                0 <= i < occurrences.len() && is_answer(#[trigger] occurrences[i], number)
                    ==> mentioned_view(occurrences[i]) <= view
            &&& {
                ||| view == run.client.view_number
                ||| exists|i: int|
                    0 <= i < occurrences.len() && is_answer(#[trigger] occurrences[i], number)
                        && mentioned_view(occurrences[i]) == view
            }
        }),
    decreases occurrences.len(),
{
    if occurrences.len() > 0 {
        let earlier = occurrences.drop_last();
        let number = run.client.request_number;
        let before = run.after(earlier);
        let view = run.after(occurrences).client.view_number;
        law_view_is_the_greatest_mentioned(run, earlier);
        law_waiting_keeps_the_request(run, earlier);
        assert(occurrences[occurrences.len() - 1] == occurrences.last());
        assert forall|i: int|
            0 <= i < occurrences.len() && is_answer(
                #[trigger] occurrences[i],
                number,
            ) implies mentioned_view(occurrences[i]) <= view by {
            if i < earlier.len() {
                assert(earlier[i] == occurrences[i]);
            }
        }
        if view == before.client.view_number && view != run.client.view_number {
            let i = choose|i: int|
                0 <= i < earlier.len() && is_answer(#[trigger] earlier[i], number)
                    && mentioned_view(earlier[i]) == view;
            assert(occurrences[i] == earlier[i]);
        }
    }
}

/// The view that a client is in when it issues its next request is the one
/// that it was in when the request before was over.
pub proof fn law_view_outlasts_the_request(client: ClientState, op: Seq<u8>, now: nat)
    ensures
        Run::issued(client, op, now).client.view_number == client.view_number,
        Run::issued(client, op, now).client.n_fault == client.n_fault,
        Run::issued(client, op, now).client.id == client.id,
{
}

/// `occurrence` is a response of replica `id` to request `request_number`.
pub open spec fn is_report(occurrence: Occurrence, request_number: u32, id: ReplicaId) -> bool {
    occurrence matches Occurrence::Response { response, replica_id, .. }
        && response.request_number == request_number && replica_id == id
}

/// The result in a response.
pub open spec fn reported_result(occurrence: Occurrence) -> Seq<u8> {
    match occurrence {
        Occurrence::Response { result, .. } => result,
        _ => seq![],
    }
}

/// Occurrence `i` is the last response of replica `id` to the request.
pub open spec fn is_last_report(
    occurrences: Seq<Occurrence>,
    request_number: u32,
    id: ReplicaId,
    i: int,
) -> bool {
    &&& 0 <= i < occurrences.len()
    &&& is_report(occurrences[i], request_number, id)
    &&& forall|j: int|
        i < j < occurrences.len() ==> !is_report(#[trigger] occurrences[j], request_number, id)
}

/// While a client waits, it knows of each replica the result in the last
/// response to the request, and knows nothing of replicas that sent none.
pub proof fn law_latest_reports_count(
    client: ClientState,
    op: Seq<u8>,
    now: nat,
    occurrences: Seq<Occurrence>,
    id: ReplicaId,
)
    requires
        Run::issued(client, op, now).after(occurrences).returned is None,
    ensures
        ({
            let number = client.invoking().request_number;
            let results = Run::issued(client, op, now).after(occurrences).invocation.results;
            &&& results.contains_key(id) ==> exists|i: int| #[trigger]
                is_last_report(occurrences, number, id, i) && reported_result(occurrences[i])
                    == results[id]
            &&& forall|i: int|
                0 <= i < occurrences.len() && is_report(#[trigger] occurrences[i], number, id)
                    ==> results.contains_key(id)
        }),
    decreases occurrences.len(),
{
    let number = client.invoking().request_number;
    let issued = Run::issued(client, op, now);
    if occurrences.len() > 0 {
        let earlier = occurrences.drop_last();
        let n = occurrences.len() - 1;
        let before = issued.after(earlier).invocation.results;
        let results = issued.after(occurrences).invocation.results;
        law_latest_reports_count(client, op, now, earlier, id);
        law_waiting_keeps_the_request(issued, earlier);
        assert(occurrences[n] == occurrences.last());
        if is_report(occurrences[n], number, id) {
            assert(is_last_report(occurrences, number, id, n));
        } else {
            assert(results.contains_key(id) == before.contains_key(id));
            if results.contains_key(id) {
                let i = choose|i: int| #[trigger]
                    is_last_report(earlier, number, id, i) && reported_result(earlier[i])
                        == before[id];
                assert(occurrences[i] == earlier[i]);
                assert forall|j: int| i < j < occurrences.len() implies !is_report(
                    #[trigger] occurrences[j],
                    number,
                    id,
                ) by {
                    if j < n {
                        assert(earlier[j] == occurrences[j]);
                    }
                }
                assert(is_last_report(occurrences, number, id, i));
            }
        }
        assert forall|i: int|
            0 <= i < occurrences.len() && is_report(
                #[trigger] occurrences[i],
                number,
                id,
            ) implies results.contains_key(id) by {
            if i < n {
                assert(earlier[i] == occurrences[i]);
            }
        }
    }
}

/// What a client returns is a result that exactly `3f + 1` replicas report,
/// and a client that still waits knows of no such result.
pub proof fn law_returns_what_all_report(
    client: ClientState,
    op: Seq<u8>,
    now: nat,
    occurrences: Seq<Occurrence>,
    result: Seq<u8>,
)
    ensures
        ({
            let run = Run::issued(client, op, now).after(occurrences);
            let results = run.invocation.results;
            let count = Set::new(
                |id: ReplicaId| results.contains_key(id) && results[id] == result,
            ).len();
            &&& run.returned == Some(result) ==> count == 3 * client.n_fault + 1
            &&& run.returned is None ==> count < 3 * client.n_fault + 1
            &&& results.dom().finite()
        }),
    decreases occurrences.len(),
{
    let run = Run::issued(client, op, now).after(occurrences);
    let results = run.invocation.results;
    law_supporters_reported_the_result(results, result, 0);
    if occurrences.len() == 0 {
        assert(supporters(results, result) =~= Set::empty());
    } else {
        let earlier = occurrences.drop_last();
        let before = Run::issued(client, op, now).after(earlier);
        let known = before.invocation.results;
        law_returns_what_all_report(client, op, now, earlier, result);
        law_supporters_reported_the_result(known, result, 0);
        law_waiting_keeps_the_request(Run::issued(client, op, now), earlier);
        if before.returned is None {
            if let Occurrence::Response { response, replica_id, result: reported } =
                occurrences.last() {
                if response.request_number == before.client.request_number {
                    assert(results.dom() =~= known.dom().insert(replica_id));
                    let old_supporters = supporters(known, result);
                    let new_supporters = supporters(results, result);
                    if reported == result {
                        assert(new_supporters =~= old_supporters.insert(replica_id));
                    } else {
                        assert(new_supporters =~= old_supporters.remove(replica_id));
                    }
                }
            }
        }
    }
}

} // verus!
