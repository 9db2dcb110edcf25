//! What holds of a replica over any number of steps.

use vstd::prelude::*;

use crate::common::{ClientId, RequestNumber};
use crate::protocol::neo::laws::{
    at_most_once, execution_of, follows_log, law_executions_follow_the_log, law_installed_reply_disturbs_nothing,
    law_log_is_in_sequence, law_nothing_ready_waits, law_nothing_vouched_waits,
    law_requests_execute_at_most_once, lemma_at_most_once_concat, lemma_follows_log_concat,
};
use crate::protocol::neo::message::{SignedReply, Status, VerifiedOrderedMulticast};
use crate::protocol::neo::model::{in_range, Effect, ReplicaState};

verus! {

/// Something that happens to a replica.
pub enum Step<A> {
    /// A message arrives from the network.
    Handle { start: u32, remote: A, message: VerifiedOrderedMulticast },
    /// A reply comes back signed.
    Install { client_id: ClientId, request_number: RequestNumber, signed: SignedReply },
}

impl<A> ReplicaState<A> {
    pub open spec fn stepped(self, step: Step<A>) -> Self {
        match step {
            Step::Handle { start, remote, message } => self.handled(start, remote, message),
            Step::Install { client_id, request_number, signed } => self.reply_installed(
                client_id,
                request_number,
                signed,
            ),
        }
    }

    pub open spec fn stepped_effects(self, step: Step<A>) -> Seq<Effect<A>> {
        match step {
            Step::Handle { start, remote, message } => self.handled_effects(start, remote, message),
            Step::Install { .. } => seq![],
        }
    }

    /// `step` fits this state: no message precedes the first sequence number,
    /// and a reply is for a client that has been answered.
    pub open spec fn allows(self, step: Step<A>) -> bool {
        match step {
            Step::Handle { start, message, .. } => {
                &&& self.starts_at(start)
                &&& in_range(message.meta.sequence_number)
                &&& start <= message.meta.sequence_number
            },
            Step::Install { client_id, .. } => self.clients.contains_key(client_id),
        }
    }

    /// `steps` are taken one after another.
    pub open spec fn ran(self, steps: Seq<Step<A>>) -> Self
        decreases steps.len(),
    {
        if steps.len() == 0 {
            self
        } else {
            self.ran(steps.drop_last()).stepped(steps.last())
        }
    }

    pub open spec fn ran_effects(self, steps: Seq<Step<A>>) -> Seq<Effect<A>>
        decreases steps.len(),
    {
        if steps.len() == 0 {
            seq![]
        } else {
            self.ran_effects(steps.drop_last()) + self.ran(steps.drop_last()).stepped_effects(
                steps.last(),
            )
        }
    }

    pub open spec fn allows_all(self, steps: Seq<Step<A>>) -> bool
        decreases steps.len(),
    {
        steps.len() > 0 ==> {
            &&& self.allows_all(steps.drop_last())
            &&& self.ran(steps.drop_last()).allows(steps.last())
        }
    }

    /// How many messages were handled.
    pub open spec fn handled_count(self) -> nat {
        self.signed_count + self.unsigned_count + self.skipped_count
    }

    /// The client table has the greatest request number that was logged for
    /// each client, and knows no other clients.
    pub open spec fn table_is_current(self) -> bool {
        &&& forall|c: ClientId| #[trigger]
            self.clients.contains_key(c) ==> is_greatest(self.log, c, self.clients[c].0)
        &&& forall|i: int|
            0 <= i < self.log.len() ==> self.clients.contains_key(
                (#[trigger] self.log[i]).meta.request.client_id,
            )
    }
}

/// `number` is the greatest request number of the client in the log.
pub open spec fn is_greatest(
    log: Seq<VerifiedOrderedMulticast>,
    client_id: ClientId,
    number: RequestNumber,
) -> bool {
    &&& exists|i: int|
        0 <= i < log.len() && (#[trigger] log[i]).meta.request.client_id == client_id
            && log[i].meta.request.request_number == number
    &&& forall|i: int|
        0 <= i < log.len() && (#[trigger] log[i]).meta.request.client_id == client_id
            ==> log[i].meta.request.request_number <= number
}

/// The number of messages among `steps`.
pub open spec fn messages_in<A>(steps: Seq<Step<A>>) -> nat
    decreases steps.len(),
{
    if steps.len() == 0 {
        0
    } else {
        messages_in(steps.drop_last()) + if steps.last() is Handle {
            1nat
        } else {
            0
        }
    }
}

/// The first sequence number is `start` whenever a message is handled.
pub open spec fn start_stays<A>(steps: Seq<Step<A>>, start: u32) -> bool {
    forall|i: int|
        0 <= i < steps.len() ==> ((#[trigger] steps[i]) matches Step::Handle { start: first, .. }
            ==> first == start)
}

// ---------------------------------------------------------------------------
// Steps that several laws build on

impl<A> ReplicaState<A> {
    pub proof fn lemma_logged_table(self, message: VerifiedOrderedMulticast)
        requires
            self.table_is_current(),
        ensures
            self.logged(message).table_is_current(),
    {
        let after = self.logged(message);
        let request = message.meta.request;
        let n = self.log.len() as int;
        assert(after.log[n] == message);
        assert forall|i: int| 0 <= i < n implies #[trigger] after.log[i] == self.log[i] by {}
        assert forall|c: ClientId| #[trigger] after.clients.contains_key(c) implies is_greatest(
            after.log,
            c,
            after.clients[c].0,
        ) by {
            if c != request.client_id || !self.fresh(request) {
                assert(is_greatest(self.log, c, self.clients[c].0));
                let i = choose|i: int|
                    0 <= i < n && (#[trigger] self.log[i]).meta.request.client_id == c
                        && self.log[i].meta.request.request_number == self.clients[c].0;
                assert(after.log[i] == self.log[i]);
            } else {
                assert forall|i: int|
                    0 <= i < after.log.len() && (
                    #[trigger] after.log[i]).meta.request.client_id == c implies after.log[
                    i
                ].meta.request.request_number <= request.request_number by {
                    if i < n {
                        assert(after.log[i] == self.log[i]);
                        assert(is_greatest(self.log, c, self.clients[c].0));
                    }
                }
            }
        }
        assert forall|i: int| 0 <= i < after.log.len() implies after.clients.contains_key(
            (#[trigger] after.log[i]).meta.request.client_id,
        ) by {
            if i < n {
                assert(after.log[i] == self.log[i]);
            }
        }
    }

    proof fn lemma_logged_all_table(self, messages: Seq<VerifiedOrderedMulticast>)
        requires
            self.table_is_current(),
        ensures
            self.logged_all(messages).table_is_current(),
        decreases messages.len(),
    {
        if messages.len() > 0 {
            self.lemma_logged_all_table(messages.drop_last());
            self.logged_all(messages.drop_last()).lemma_logged_table(messages.last());
        }
    }

    proof fn lemma_inserted_all_table(self, start: u32, messages: Seq<VerifiedOrderedMulticast>)
        requires
            self.table_is_current(),
        ensures
            self.inserted_all(start, messages).table_is_current(),
        decreases messages.len(),
    {
        if messages.len() > 0 {
            let middle = self.inserted_all(start, messages.drop_last());
            self.lemma_inserted_all_table(start, messages.drop_last());
            middle.lemma_logged_all_table(middle.ready(messages.last()));
            assert(middle.inserted(start, messages.last()).table_is_current());
        }
    }

    /// Authentic messages change neither the routes nor the counters.
    proof fn lemma_inserted_all_counts(self, start: u32, messages: Seq<VerifiedOrderedMulticast>)
        ensures
            self.inserted_all(start, messages).routes == self.routes,
            self.inserted_all(start, messages).signed_count == self.signed_count,
            self.inserted_all(start, messages).unsigned_count == self.unsigned_count,
            self.inserted_all(start, messages).skipped_count == self.skipped_count,
        decreases messages.len(),
    {
        if messages.len() > 0 {
            let middle = self.inserted_all(start, messages.drop_last());
            self.lemma_inserted_all_counts(start, messages.drop_last());
            middle.lemma_logged_all(middle.ready(messages.last()));
        }
    }
}

// ---------------------------------------------------------------------------
// The laws

/// Whatever happens to a replica, its state stays well formed.
pub proof fn law_runs_keep_well_formed<A>(state: ReplicaState<A>, steps: Seq<Step<A>>)
    requires
        state.well_formed(),
        state.allows_all(steps),
    ensures
        state.ran(steps).well_formed(),
    decreases steps.len(),
{
    if steps.len() > 0 {
        let before = state.ran(steps.drop_last());
        law_runs_keep_well_formed(state, steps.drop_last());
        if let Step::Handle { start, remote, message } = steps.last() {
            before.noted(remote, message).lemma_accepted(start, message);
        }
    }
}

/// Over a run in which `start` stays the first sequence number, the log stays
/// the multicast from `start` on, nothing waits whose turn has come, and
/// nothing waits to be vouched for whose successor waits as authentic.
pub proof fn law_runs_keep_order<A>(state: ReplicaState<A>, start: u32, steps: Seq<Step<A>>)
    requires
        state.well_formed(),
        state.starts_at(start),
        state.in_sequence(start),
        state.nothing_ready(start),
        state.nothing_vouched_waits(),
        state.allows_all(steps),
        start_stays(steps, start),
    ensures
        state.ran(steps).starts_at(start),
        state.ran(steps).in_sequence(start),
        state.ran(steps).nothing_ready(start),
        state.ran(steps).nothing_vouched_waits(),
    decreases steps.len(),
{
    if steps.len() > 0 {
        let earlier = steps.drop_last();
        let before = state.ran(earlier);
        assert(start_stays(earlier, start)) by {
            assert forall|i: int| 0 <= i < earlier.len() implies ((
            #[trigger] earlier[i]) matches Step::Handle { start: first, .. } ==> first == start) by {
                assert(earlier[i] == steps[i]);
            }
        }
        law_runs_keep_order(state, start, earlier);
        law_runs_keep_well_formed(state, earlier);
        assert(steps.last() == steps[steps.len() - 1]);
        if let Step::Handle { remote, message, .. } = steps.last() {
            law_log_is_in_sequence(before, start, remote, message);
            law_nothing_ready_waits(before, start, remote, message);
            law_nothing_vouched_waits(before, start, remote, message);
            before.noted(remote, message).lemma_accepted(start, message);
        }
    }
}

/// Over any run each request of a client is executed at most once, a client's
/// requests are executed in the order of their numbers, and every execution
/// is of the entry at its own position, in the order of the log.
pub proof fn law_runs_execute_the_log_once<A>(state: ReplicaState<A>, steps: Seq<Step<A>>)
    requires
        state.well_formed(),
        state.allows_all(steps),
    ensures
        at_most_once(state.clients, state.ran_effects(steps), state.ran(steps).clients),
        follows_log(state.log, state.ran_effects(steps), state.ran(steps).log),
    decreases steps.len(),
{
    if steps.len() == 0 {
        assert(state.log =~= state.log.subrange(0, state.log.len() as int));
    } else {
        let earlier = steps.drop_last();
        let before = state.ran(earlier);
        let step = steps.last();
        law_runs_execute_the_log_once(state, earlier);
        law_runs_keep_well_formed(state, earlier);
        match step {
            Step::Handle { start, remote, message } => {
                law_requests_execute_at_most_once(before, start, remote, message);
                law_executions_follow_the_log(before, start, remote, message);
            },
            Step::Install { client_id, request_number, signed } => {
                law_installed_reply_disturbs_nothing(before, client_id, request_number, signed);
                assert(before.log =~= before.log.subrange(0, before.log.len() as int));
            },
        }
        lemma_at_most_once_concat(
            state.clients,
            state.ran_effects(earlier),
            before.clients,
            before.stepped_effects(step),
            before.stepped(step).clients,
        );
        lemma_follows_log_concat(
            state.log,
            state.ran_effects(earlier),
            before.log,
            before.stepped_effects(step),
            before.stepped(step).log,
        );
    }
}

/// Over any run of log entries each client's requests are executed in the
/// order of their numbers, each at most once, every execution is of the entry
/// at its own position and positions grow; and if the client table had the
/// greatest number logged for each client, it still has.
pub proof fn law_logging_executes_in_order<A>(
    state: ReplicaState<A>,
    messages: Seq<VerifiedOrderedMulticast>,
)
    requires
        state.well_formed(),
        state.table_is_current(),
    ensures
        at_most_once(
            state.clients,
            state.logged_all_effects(messages),
            state.logged_all(messages).clients,
        ),
        follows_log(
            state.log,
            state.logged_all_effects(messages),
            state.logged_all(messages).log,
        ),
        state.logged_all(messages).log == state.log + messages,
        state.logged_all(messages).table_is_current(),
{
    state.lemma_logged_all_executes(messages);
    state.lemma_logged_all(messages);
    state.lemma_logged_all_table(messages);
}

/// From the beginning of a replica on, the client table has the greatest
/// request number that was logged for each client.
pub proof fn law_table_has_greatest_number<A>(steps: Seq<Step<A>>)
    requires
        ReplicaState::<A>::initial().allows_all(steps),
    ensures
        ReplicaState::<A>::initial().ran(steps).table_is_current(),
    decreases steps.len(),
{
    if steps.len() > 0 {
        let before = ReplicaState::<A>::initial().ran(steps.drop_last());
        law_table_has_greatest_number(steps.drop_last());
        match steps.last() {
            Step::Handle { start, remote, message } => {
                let noted = before.noted(remote, message);
                assert(noted.table_is_current());
                assert(noted.settled_below(message.meta).table_is_current());
                noted.settled_below(message.meta).lemma_inserted_all_table(
                    start,
                    noted.admitted(message),
                );
            },
            Step::Install { client_id, request_number, signed } => {
                law_installed_reply_disturbs_nothing(before, client_id, request_number, signed);
                let after = before.reply_installed(client_id, request_number, signed);
                assert forall|c: ClientId| #[trigger]
                    after.clients.contains_key(c) implies is_greatest(
                    after.log,
                    c,
                    after.clients[c].0,
                ) by {
                    assert(before.clients.contains_key(c));
                }
            },
        }
    }
}

/// A handled message is counted once, under its own status.
pub proof fn law_message_is_counted_once<A>(
    state: ReplicaState<A>,
    start: u32,
    remote: A,
    message: VerifiedOrderedMulticast,
)
    ensures
        ({
            let after = state.handled(start, remote, message);
            let noted = state.noted(remote, message);
            &&& after.signed_count == noted.signed_count
            &&& after.unsigned_count == noted.unsigned_count
            &&& after.skipped_count == noted.skipped_count
            &&& after.handled_count() == state.handled_count() + 1
        }),
{
    let noted = state.noted(remote, message);
    noted.settled_below(message.meta).lemma_inserted_all_counts(start, noted.admitted(message));
}

/// The three counters add up to the number of messages handled.
pub proof fn law_counters_add_up<A>(state: ReplicaState<A>, steps: Seq<Step<A>>)
    ensures
        state.ran(steps).handled_count() == state.handled_count() + messages_in(steps),
    decreases steps.len(),
{
    if steps.len() > 0 {
        law_counters_add_up(state, steps.drop_last());
        if let Step::Handle { start, remote, message } = steps.last() {
            law_message_is_counted_once(state.ran(steps.drop_last()), start, remote, message);
        }
    }
}

/// Handling a message makes its sender the route to its client and changes no
/// other route.
pub proof fn law_handling_sets_one_route<A>(
    state: ReplicaState<A>,
    start: u32,
    remote: A,
    message: VerifiedOrderedMulticast,
)
    ensures
        state.handled(start, remote, message).routes == state.routes.insert(
            message.meta.request.client_id,
            remote,
        ),
{
    let noted = state.noted(remote, message);
    noted.settled_below(message.meta).lemma_inserted_all_counts(start, noted.admitted(message));
}

/// From the beginning of a replica on, a route is known to the client of
/// every request that is logged or waits.
pub proof fn law_requests_have_routes<A>(steps: Seq<Step<A>>)
    requires
        ReplicaState::<A>::initial().allows_all(steps),
    ensures
        ({
            let state = ReplicaState::<A>::initial().ran(steps);
            &&& forall|i: int|
                0 <= i < state.log.len() ==> state.routes.contains_key(
                    (#[trigger] state.log[i]).meta.request.client_id,
                )
            &&& forall|k: u32| #[trigger]
                state.received.contains_key(k) ==> state.routes.contains_key(
                    state.received[k].meta.request.client_id,
                )
            &&& forall|k: u32| #[trigger]
                state.verified.contains_key(k) ==> state.routes.contains_key(
                    state.verified[k].meta.request.client_id,
                )
        }),
{
    law_runs_keep_well_formed(ReplicaState::<A>::initial(), steps);
}

// ---------------------------------------------------------------------------
// Executions and the log

/// Entry `i` of the log is of a new request: its number is greater than those
/// of all earlier entries of its client.
pub open spec fn is_new(log: Seq<VerifiedOrderedMulticast>, i: int) -> bool {
    forall|j: int|
        0 <= j < i && (#[trigger] log[j]).meta.request.client_id == log[i].meta.request.client_id
            ==> log[j].meta.request.request_number < log[i].meta.request.request_number
}

/// The executions that a log calls for: its new requests, in order. Each is a
/// client, the number of its request, the position in the log and the
/// operation.
pub open spec fn due(log: Seq<VerifiedOrderedMulticast>) -> Seq<
    (ClientId, RequestNumber, nat, Seq<u8>),
>
    decreases log.len(),
{
    if log.len() == 0 {
        seq![]
    } else {
        let request = log.last().meta.request;
        let earlier = due(log.drop_last());
        if is_new(log, log.len() - 1) {
            earlier.push((request.client_id, request.request_number, log.len(), request.op@))
        } else {
            earlier
        }
    }
}

/// The executions among `effects`, in order.
pub open spec fn executed<A>(effects: Seq<Effect<A>>) -> Seq<
    (ClientId, RequestNumber, nat, Seq<u8>),
>
    decreases effects.len(),
{
    if effects.len() == 0 {
        seq![]
    } else {
        match execution_of(effects.last()) {
            Some(execution) => executed(effects.drop_last()).push(execution),
            None => executed(effects.drop_last()),
        }
    }
}

proof fn lemma_executed_concat<A>(first: Seq<Effect<A>>, second: Seq<Effect<A>>)
    ensures
        executed(first + second) == executed(first) + executed(second),
    decreases second.len(),
{
    if second.len() == 0 {
        assert(first + second =~= first);
        assert(executed(first) + executed(second) =~= executed(first));
    } else {
        lemma_executed_concat(first, second.drop_last());
        assert((first + second).drop_last() =~= first + second.drop_last());
        assert(executed(first + second) =~= executed(first) + executed(second));
    }
}

proof fn lemma_executed_one<A>(effect: Effect<A>)
    ensures
        executed(seq![effect]) == match execution_of(effect) {
            Some(execution) => seq![execution],
            None => seq![],
        },
{
    let effects = seq![effect];
    assert(effects.drop_last() =~= seq![]);
    assert(executed(effects.drop_last()) =~= seq![]);
    assert(executed(effects) =~= match execution_of(effect) {
        Some(execution) => seq![execution],
        None => seq![],
    });
}

impl<A> ReplicaState<A> {
    /// Logging a message executes what the log newly calls for.
    proof fn lemma_logged_executes_due(self, message: VerifiedOrderedMulticast)
        requires
            self.op_number == self.log.len(),
            self.table_is_current(),
        ensures
            due(self.logged(message).log) == due(self.log) + executed(
                self.logged_effects(message),
            ),
    {
        let log = self.log.push(message);
        let n = self.log.len() as int;
        let request = message.meta.request;
        let effects = self.logged_effects(message);
        assert(log.drop_last() =~= self.log);
        assert(log[n] == message);
        assert forall|j: int| 0 <= j < n implies #[trigger] log[j] == self.log[j] by {}
        if self.clients.contains_key(request.client_id) {
            let latest = self.clients[request.client_id].0;
            assert(is_greatest(self.log, request.client_id, latest));
            let i = choose|i: int|
                0 <= i < n && (#[trigger] self.log[i]).meta.request.client_id == request.client_id
                    && self.log[i].meta.request.request_number == latest;
            assert(log[i] == self.log[i]);
            if latest < request.request_number {
                assert forall|j: int|
                    0 <= j < n && (#[trigger] log[j]).meta.request.client_id
                        == log[n].meta.request.client_id implies log[j].meta.request.request_number
                    < log[n].meta.request.request_number by {
                    assert(log[j] == self.log[j]);
                }
                assert(is_new(log, n));
            } else {
                assert(!is_new(log, n));
            }
        } else {
            assert forall|j: int|
                0 <= j < n && (#[trigger] log[j]).meta.request.client_id
                    == log[n].meta.request.client_id implies log[j].meta.request.request_number
                < log[n].meta.request.request_number by {
                assert(log[j] == self.log[j]);
                assert(self.clients.contains_key(self.log[j].meta.request.client_id));
            }
            assert(is_new(log, n));
        }
        if effects.len() > 0 {
            assert(effects =~= seq![effects[0]]);
            lemma_executed_one(effects[0]);
        }
        assert(due(log) =~= due(self.log) + executed(effects));
    }

    proof fn lemma_logged_all_executes_due(self, messages: Seq<VerifiedOrderedMulticast>)
        requires
            self.op_number == self.log.len(),
            self.table_is_current(),
        ensures
            due(self.logged_all(messages).log) == due(self.log) + executed(
                self.logged_all_effects(messages),
            ),
        decreases messages.len(),
    {
        if messages.len() == 0 {
            assert(due(self.log) + executed(self.logged_all_effects(messages)) =~= due(self.log));
        } else {
            let earlier = messages.drop_last();
            let middle = self.logged_all(earlier);
            self.lemma_logged_all_executes_due(earlier);
            self.lemma_logged_all(earlier);
            self.lemma_logged_all_table(earlier);
            middle.lemma_logged_executes_due(messages.last());
            lemma_executed_concat(
                self.logged_all_effects(earlier),
                middle.logged_effects(messages.last()),
            );
            assert(due(self.logged_all(messages).log) =~= due(self.log) + executed(
                self.logged_all_effects(messages),
            ));
        }
    }

    proof fn lemma_inserted_all_executes_due(
        self,
        start: u32,
        messages: Seq<VerifiedOrderedMulticast>,
    )
        requires
            self.op_number == self.log.len(),
            self.table_is_current(),
        ensures
            self.inserted_all(start, messages).op_number == self.inserted_all(
                start,
                messages,
            ).log.len(),
            due(self.inserted_all(start, messages).log) == due(self.log) + executed(
                self.inserted_all_effects(start, messages),
            ),
        decreases messages.len(),
    {
        if messages.len() == 0 {
            assert(due(self.log) + executed(self.inserted_all_effects(start, messages)) =~= due(
                self.log,
            ));
        } else {
            let earlier = messages.drop_last();
            let last = messages.last();
            let middle = self.inserted_all(start, earlier);
            let effects = middle.inserted_effects(start, last);
            self.lemma_inserted_all_executes_due(start, earlier);
            self.lemma_inserted_all_table(start, earlier);
            middle.lemma_logged_all_executes_due(middle.ready(last));
            middle.lemma_logged_all(middle.ready(last));
            if last.meta.sequence_number - start != middle.op_number && effects.len() > 0 {
                assert(effects =~= seq![effects[0]]);
                lemma_executed_one(effects[0]);
            }
            lemma_executed_concat(self.inserted_all_effects(start, earlier), effects);
            assert(due(self.inserted_all(start, messages).log) =~= due(self.log) + executed(
                self.inserted_all_effects(start, messages),
            ));
        }
    }

    proof fn lemma_handled_executes_due(
        self,
        start: u32,
        remote: A,
        message: VerifiedOrderedMulticast,
    )
        requires
            self.op_number == self.log.len(),
            self.table_is_current(),
        ensures
            due(self.handled(start, remote, message).log) == due(self.log) + executed(
                self.handled_effects(start, remote, message),
            ),
    {
        let noted = self.noted(remote, message);
        let settled = noted.settled_below(message.meta);
        let broken = noted.break_effects(message.meta);
        let effects = self.handled_effects(start, remote, message);
        let entered = settled.inserted_all_effects(start, noted.admitted(message));
        assert(settled.table_is_current());
        settled.lemma_inserted_all_executes_due(start, noted.admitted(message));
        if broken.len() > 0 {
            assert(broken =~= seq![broken[0]]);
            lemma_executed_one(broken[0]);
        }
        lemma_executed_concat(broken, entered);
        assert(executed(broken) + executed(entered) =~= executed(entered));
        assert(noted.child_of(message.meta.sequence_number) == self.child_of(
            message.meta.sequence_number,
        ));
        if !self.authenticates(message) {
            if effects.len() > 0 {
                assert(effects =~= seq![effects[0]]);
                lemma_executed_one(effects[0]);
            }
            assert(due(self.log) + executed(effects) =~= due(self.log));
        } else {
            assert(due(self.log) + executed(effects) =~= due(self.log) + executed(entered));
        }
    }
}

/// From the beginning of a replica on, the application is asked to execute
/// exactly what the log calls for: every request with a greater number than all
/// that were logged before for its client, whatever replies are recorded, and
/// nothing else, in the order of the log, each once and at its own position.
pub proof fn law_every_new_request_is_executed<A>(steps: Seq<Step<A>>)
    requires
        ReplicaState::<A>::initial().allows_all(steps),
    ensures
        executed(ReplicaState::<A>::initial().ran_effects(steps)) == due(
            ReplicaState::<A>::initial().ran(steps).log,
        ),
    decreases steps.len(),
{
    let initial = ReplicaState::<A>::initial();
    if steps.len() > 0 {
        let earlier = steps.drop_last();
        let before = initial.ran(earlier);
        let effects = before.stepped_effects(steps.last());
        law_every_new_request_is_executed(earlier);
        law_table_has_greatest_number(earlier);
        law_runs_keep_well_formed(initial, earlier);
        lemma_executed_concat(initial.ran_effects(earlier), effects);
        match steps.last() {
            Step::Handle { start, remote, message } => {
                before.lemma_handled_executes_due(start, remote, message);
            },
            Step::Install { .. } => {
                assert(executed(initial.ran_effects(earlier)) + executed(effects) =~= executed(
                    initial.ran_effects(earlier),
                ));
            },
        }
    }
}

impl<A> ReplicaState<A> {
    /// Authentic messages record no replies.
    proof fn lemma_logged_all_records_nothing(
        self,
        messages: Seq<VerifiedOrderedMulticast>,
        client_id: ClientId,
    )
        ensures
            ({
                let after = self.logged_all(messages).clients;
                after.contains_key(client_id) && after[client_id].1 is Some
                    ==> self.clients.contains_key(client_id) && after[client_id]
                    == self.clients[client_id]
            }),
        decreases messages.len(),
    {
        if messages.len() > 0 {
            self.lemma_logged_all_records_nothing(messages.drop_last(), client_id);
        }
    }

    proof fn lemma_inserted_all_records_nothing(
        self,
        start: u32,
        messages: Seq<VerifiedOrderedMulticast>,
        client_id: ClientId,
    )
        ensures
            ({
                let after = self.inserted_all(start, messages).clients;
                after.contains_key(client_id) && after[client_id].1 is Some
                    ==> self.clients.contains_key(client_id) && after[client_id]
                    == self.clients[client_id]
            }),
        decreases messages.len(),
    {
        if messages.len() > 0 {
            let middle = self.inserted_all(start, messages.drop_last());
            self.lemma_inserted_all_records_nothing(start, messages.drop_last(), client_id);
            middle.lemma_logged_all_records_nothing(middle.ready(messages.last()), client_id);
        }
    }
}

/// From the beginning of a replica on, a reply that is recorded for a client
/// is one that came back signed for this client and for the very request that
/// is recorded as its latest.
pub proof fn law_recorded_reply_is_for_the_latest_request<A>(
    steps: Seq<Step<A>>,
    client_id: ClientId,
)
    requires
        ReplicaState::<A>::initial().allows_all(steps),
        ({
            let clients = ReplicaState::<A>::initial().ran(steps).clients;
            clients.contains_key(client_id) && clients[client_id].1 is Some
        }),
    ensures
        ({
            let latest = ReplicaState::<A>::initial().ran(steps).clients[client_id];
            steps.contains(
                Step::Install { client_id, request_number: latest.0, signed: latest.1->0 },
            )
        }),
    decreases steps.len(),
{
    let initial = ReplicaState::<A>::initial();
    if steps.len() > 0 {
        let earlier = steps.drop_last();
        let before = initial.ran(earlier);
        let latest = initial.ran(steps).clients[client_id];
        let install = Step::<A>::Install {
            client_id,
            request_number: latest.0,
            signed: latest.1->0,
        };
        assert(steps[steps.len() - 1] == steps.last());
        if let Step::Handle { start, remote, message } = steps.last() {
            let noted = before.noted(remote, message);
            noted.settled_below(message.meta).lemma_inserted_all_records_nothing(
                start,
                noted.admitted(message),
                client_id,
            );
        }
        if steps.last() != install {
            assert(before.clients.contains_key(client_id));
            assert(before.clients[client_id] == latest);
            law_recorded_reply_is_for_the_latest_request(earlier, client_id);
            let i = choose|i: int| 0 <= i < earlier.len() && earlier[i] == install;
            assert(steps[i] == install);
        }
    }
}

/// The number of messages with this status among `steps`.
pub open spec fn messages_with<A>(steps: Seq<Step<A>>, status: Status) -> nat
    decreases steps.len(),
{
    if steps.len() == 0 {
        0
    } else {
        messages_with(steps.drop_last(), status) + match steps.last() {
            Step::Handle { message, .. } if message.status == status => 1nat,
            _ => 0,
        }
    }
}

/// Each counter is the number of messages handled with its own status.
pub proof fn law_messages_are_counted_by_status<A>(state: ReplicaState<A>, steps: Seq<Step<A>>)
    ensures
        ({
            let after = state.ran(steps);
            &&& after.signed_count == state.signed_count + messages_with(steps, Status::Signed)
            &&& after.unsigned_count == state.unsigned_count + messages_with(
                steps,
                Status::Unsigned,
            )
            &&& after.skipped_count == state.skipped_count + messages_with(steps, Status::Skipped)
        }),
    decreases steps.len(),
{
    if steps.len() > 0 {
        law_messages_are_counted_by_status(state, steps.drop_last());
        if let Step::Handle { start, remote, message } = steps.last() {
            law_message_is_counted_once(state.ran(steps.drop_last()), start, remote, message);
        }
    }
}

/// `step` handles a message of this client.
pub open spec fn hears_from<A>(step: Step<A>, client_id: ClientId) -> bool {
    step matches Step::Handle { message, .. } && message.meta.request.client_id == client_id
}

/// The route to a client is where its latest message came from, whatever its
/// status was.
pub proof fn law_route_is_the_latest_sender<A>(
    state: ReplicaState<A>,
    steps: Seq<Step<A>>,
    client_id: ClientId,
    i: int,
)
    requires
        0 <= i < steps.len(),
        hears_from(steps[i], client_id),
        forall|j: int| i < j < steps.len() ==> !hears_from(#[trigger] steps[j], client_id),
    ensures
        state.ran(steps).routes.contains_key(client_id),
        steps[i] matches Step::Handle { remote, .. } && state.ran(steps).routes[client_id]
            == remote,
    decreases steps.len(),
{
    let earlier = steps.drop_last();
    let n = steps.len() - 1;
    assert(steps[n] == steps.last());
    if let Step::Handle { start, remote, message } = steps.last() {
        law_handling_sets_one_route(state.ran(earlier), start, remote, message);
    }
    if i < n {
        assert(earlier[i] == steps[i]);
        assert forall|j: int| i < j < earlier.len() implies !hears_from(
            #[trigger] earlier[j],
            client_id,
        ) by {
            assert(earlier[j] == steps[j]);
        }
        law_route_is_the_latest_sender(state, earlier, client_id, i);
    }
}

} // verus!
