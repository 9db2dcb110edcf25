//! Facts about the model that the replica's proofs and the laws share.

use vstd::prelude::*;

use crate::app::Execution;
use crate::common::ReplicaId;
use crate::protocol::neo::message::{OrderedMulticast, VerifiedOrderedMulticast};
use crate::protocol::neo::model::{
    carried_out, executions, in_range, linked_below, performed, renders, run_length, Effect, Output,
    ReplicaState,
};

verus! {

/// Carrying out two lists of effects one after the other carries out their
/// concatenation.
pub proof fn lemma_performed_concat<A: Clone>(
    replica_id: ReplicaId,
    first: Seq<Effect<A>>,
    second: Seq<Effect<A>>,
    before: Seq<Execution>,
    between: Seq<Execution>,
    after: Seq<Execution>,
    first_outputs: Seq<Output<A>>,
    second_outputs: Seq<Output<A>>,
)
    requires
        performed(replica_id, first, before, between, first_outputs),
        performed(replica_id, second, between, after, second_outputs),
    ensures
        performed(replica_id, first + second, before, after, first_outputs + second_outputs),
{
    lemma_executions_concat(first, second, first_outputs, second_outputs);
    let effects = first + second;
    let outputs = first_outputs + second_outputs;
    assert forall|i: int| 0 <= i < effects.len() implies renders(
        replica_id,
        #[trigger] effects[i],
        outputs[i],
    ) by {
        if i < first.len() {
            assert(effects[i] == first[i] && outputs[i] == first_outputs[i]);
        } else {
            let j = i - first.len();
            assert(effects[i] == second[j] && outputs[i] == second_outputs[j]);
        }
    }
    assert(after =~= before + executions(effects, outputs));
}

/// The same, with the outputs collected in one list.
pub proof fn lemma_carried_out_concat<A: Clone>(
    replica_id: ReplicaId,
    first: Seq<Effect<A>>,
    second: Seq<Effect<A>>,
    before: Seq<Execution>,
    between: Seq<Execution>,
    after: Seq<Execution>,
    pending: Seq<Output<A>>,
    extended: Seq<Output<A>>,
    full: Seq<Output<A>>,
)
    requires
        carried_out(replica_id, first, before, between, pending, extended),
        carried_out(replica_id, second, between, after, extended, full),
    ensures
        carried_out(replica_id, first + second, before, after, pending, full),
{
    let n = pending.len() as int;
    let m = extended.len() as int;
    lemma_performed_concat(
        replica_id,
        first,
        second,
        before,
        between,
        after,
        extended.skip(n),
        full.skip(m),
    );
    assert(full.take(n) =~= full.take(m).take(n));
    assert(full.skip(n) =~= full.take(m).skip(n) + full.skip(m));
}

/// Nothing to do is done at once.
pub proof fn lemma_carried_out_nothing<A: Clone>(
    replica_id: ReplicaId,
    history: Seq<Execution>,
    pending: Seq<Output<A>>,
)
    ensures
        carried_out(replica_id, seq![], history, history, pending, pending),
{
    assert(pending.take(pending.len() as int) =~= pending);
    assert(executions(Seq::<Effect<A>>::empty(), pending.skip(pending.len() as int)) =~= seq![]);
    assert(history + Seq::<Execution>::empty() =~= history);
}

/// One effect is carried out by one output and, if it is an execution, by one
/// call of the application.
pub proof fn lemma_carried_out_one<A: Clone>(
    replica_id: ReplicaId,
    effect: Effect<A>,
    output: Output<A>,
    before: Seq<Execution>,
    after: Seq<Execution>,
    pending: Seq<Output<A>>,
)
    requires
        renders(replica_id, effect, output),
        match (effect, output) {
            (Effect::Execute { op_number, op, .. }, Output::Sign { reply, .. }) => after
                == before.push(
                Execution { op_number: op_number as u32, op, result: reply.result@ },
            ),
            _ => after == before,
        },
    ensures
        carried_out(replica_id, seq![effect], before, after, pending, pending.push(output)),
{
    let extended = pending.push(output);
    let effects = seq![effect];
    let outputs = extended.skip(pending.len() as int);
    assert(extended.take(pending.len() as int) =~= pending);
    assert(outputs =~= seq![output]);
    assert(effects.drop_last() =~= seq![]);
    assert(outputs.drop_last() =~= seq![]);
    assert(executions(effects.drop_last(), outputs.drop_last()) =~= seq![]);
    assert(after =~= before + executions(effects, outputs));
}

proof fn lemma_executions_concat<A>(
    first: Seq<Effect<A>>,
    second: Seq<Effect<A>>,
    first_outputs: Seq<Output<A>>,
    second_outputs: Seq<Output<A>>,
)
    requires
        first.len() == first_outputs.len(),
        second.len() == second_outputs.len(),
    ensures
        executions(first + second, first_outputs + second_outputs) == executions(
            first,
            first_outputs,
        ) + executions(second, second_outputs),
    decreases second.len(),
{
    let effects = first + second;
    let outputs = first_outputs + second_outputs;
    if second.len() == 0 {
        assert(effects =~= first);
        assert(outputs =~= first_outputs);
        assert(executions(second, second_outputs) =~= Seq::<Execution>::empty());
        assert(executions(first, first_outputs) + Seq::<Execution>::empty() =~= executions(
            first,
            first_outputs,
        ));
    } else {
        lemma_executions_concat(
            first,
            second.drop_last(),
            first_outputs,
            second_outputs.drop_last(),
        );
        assert(effects.drop_last() =~= first + second.drop_last());
        assert(outputs.drop_last() =~= first_outputs + second_outputs.drop_last());
        assert(executions(effects, outputs) =~= executions(first, first_outputs) + executions(
            second,
            second_outputs,
        ));
    }
}

/// Removing a key at or above the chain does not change the chain.
pub proof fn lemma_linked_below_remove(
    buffer: Map<u32, VerifiedOrderedMulticast>,
    key: u32,
    child: OrderedMulticast,
    n: nat,
)
    requires
        n <= key,
    ensures
        linked_below(buffer.remove(key), child, n) == linked_below(buffer, child, n),
    decreases n,
{
    if n > 0 {
        let k = (n - 1) as u32;
        assert(buffer.remove(key).contains_key(k) == buffer.contains_key(k));
        if buffer.contains_key(k) {
            lemma_linked_below_remove(buffer, key, buffer[k].meta, (n - 1) as nat);
        }
    }
}

/// A chain is no longer than the number it starts from, and stands under
/// consecutive keys.
pub proof fn lemma_linked_below(
    buffer: Map<u32, VerifiedOrderedMulticast>,
    child: OrderedMulticast,
    n: nat,
)
    requires
        n <= u32::MAX,
    ensures
        linked_below(buffer, child, n).len() <= n,
        forall|k: u32|
            n - linked_below(buffer, child, n).len() <= k < n ==> #[trigger] buffer.contains_key(
                k,
            ),
        forall|i: int|
            0 <= i < linked_below(buffer, child, n).len() ==> #[trigger] linked_below(
                buffer,
                child,
                n,
            )[i] == buffer[(n - linked_below(buffer, child, n).len() + i) as u32],
    decreases n,
{
    let k = (n - 1) as u32;
    let chain = linked_below(buffer, child, n);
    if n > 0 && buffer.contains_key(k) && child.links(buffer[k].meta) {
        let below = linked_below(buffer, buffer[k].meta, (n - 1) as nat);
        lemma_linked_below(buffer, buffer[k].meta, (n - 1) as nat);
        assert(chain == below.push(buffer[k]));
    } else {
        assert(chain.len() == 0);
    }
}

/// The keys that a run covers are in the buffer, and the key after it is not.
pub proof fn lemma_run_length(buffer: Map<u32, VerifiedOrderedMulticast>, first: int)
    requires
        0 <= first <= u32::MAX,
    ensures
        first + run_length(buffer, first) <= u32::MAX,
        forall|k: u32|
            first <= k < first + run_length(buffer, first) ==> #[trigger] buffer.contains_key(k),
        first + run_length(buffer, first) < u32::MAX ==> !buffer.contains_key(
            (first + run_length(buffer, first)) as u32,
        ),
    decreases u32::MAX - first,
{
    if first < u32::MAX && buffer.contains_key(first as u32) {
        lemma_run_length(buffer, first + 1);
    }
}

impl<A> ReplicaState<A> {
    /// What a number of log entries leaves as it was.
    pub proof fn lemma_logged_all(self, messages: Seq<VerifiedOrderedMulticast>)
        ensures
            self.logged_all(messages) == (ReplicaState {
                op_number: self.op_number + messages.len(),
                log: self.log + messages,
                clients: self.logged_all(messages).clients,
                ..self
            }),
        decreases messages.len(),
    {
        if messages.len() == 0 {
            assert(self.log + messages =~= self.log);
        } else {
            self.lemma_logged_all(messages.drop_last());
            assert((self.log + messages.drop_last()).push(messages.last()) =~= self.log
                + messages);
        }
    }

    /// One authentic message keeps the state well formed.
    pub proof fn lemma_inserted(self, start: u32, message: VerifiedOrderedMulticast)
        requires
            self.well_formed(),
            self.starts_at(start),
            in_range(message.meta.sequence_number),
            start <= message.meta.sequence_number,
            self.routes.contains_key(message.meta.request.client_id),
        ensures
            self.inserted(start, message).well_formed(),
            self.inserted(start, message).starts_at(start),
            self.inserted(start, message).routes == self.routes,
            self.inserted(start, message).received == self.received,
    {
        if message.meta.sequence_number - start == self.op_number {
            let first = message.meta.sequence_number + 1;
            let after = self.inserted(start, message);
            self.lemma_logged_all(self.ready(message));
            lemma_run_length(self.verified, first);
            assert forall|i: int| 0 <= i < after.log.len() implies after.routes.contains_key(
                (#[trigger] after.log[i]).meta.request.client_id,
            ) by {
                if i < self.log.len() {
                    assert(after.log[i] == self.log[i]);
                } else if i > self.log.len() {
                    let k = (first + (i - self.log.len() - 1)) as u32;
                    assert(self.verified.contains_key(k));
                    assert(after.log[i] == self.verified[k]);
                }
            }
        }
    }

    /// So do several.
    pub proof fn lemma_inserted_all(self, start: u32, messages: Seq<VerifiedOrderedMulticast>)
        requires
            self.well_formed(),
            self.starts_at(start),
            forall|i: int|
                0 <= i < messages.len() ==> {
                    &&& in_range((#[trigger] messages[i]).meta.sequence_number)
                    &&& start <= messages[i].meta.sequence_number
                    &&& self.routes.contains_key(messages[i].meta.request.client_id)
                },
        ensures
            self.inserted_all(start, messages).well_formed(),
            self.inserted_all(start, messages).starts_at(start),
            self.inserted_all(start, messages).routes == self.routes,
            self.inserted_all(start, messages).received == self.received,
        decreases messages.len(),
    {
        if messages.len() > 0 {
            let earlier = messages.drop_last();
            assert forall|i: int| 0 <= i < earlier.len() implies {
                &&& in_range((#[trigger] earlier[i]).meta.sequence_number)
                &&& start <= earlier[i].meta.sequence_number
                &&& self.routes.contains_key(earlier[i].meta.request.client_id)
            } by {
                assert(earlier[i] == messages[i]);
            }
            self.lemma_inserted_all(start, earlier);
            assert(messages.last() == messages[messages.len() - 1]);
            self.inserted_all(start, earlier).lemma_inserted(start, messages.last());
        }
    }

    /// The messages that `child` vouches for are fit to arrive.
    pub proof fn lemma_vouched(self, start: u32, child: OrderedMulticast)
        requires
            self.well_formed(),
            self.starts_at(start),
        ensures
            self.settled_below(child).well_formed(),
            self.settled_below(child).starts_at(start),
            forall|i: int|
                0 <= i < self.vouched(child).len() ==> {
                    &&& in_range((#[trigger] self.vouched(child)[i]).meta.sequence_number)
                    &&& start <= self.vouched(child)[i].meta.sequence_number
                    &&& self.routes.contains_key(self.vouched(child)[i].meta.request.client_id)
                },
    {
        let n = child.sequence_number as nat;
        let chain = self.vouched(child);
        lemma_linked_below(self.received, child, n);
        assert forall|i: int| 0 <= i < chain.len() implies {
            &&& in_range((#[trigger] chain[i]).meta.sequence_number)
            &&& start <= chain[i].meta.sequence_number
            &&& self.routes.contains_key(chain[i].meta.request.client_id)
        } by {
            assert(self.received.contains_key((n - chain.len() + i) as u32));
        }
    }

    /// An authentic message and all that it vouches for keep the state well
    /// formed.
    pub proof fn lemma_accepted(self, start: u32, message: VerifiedOrderedMulticast)
        requires
            self.well_formed(),
            self.starts_at(start),
            in_range(message.meta.sequence_number),
            start <= message.meta.sequence_number,
            self.routes.contains_key(message.meta.request.client_id),
        ensures
            self.accepted(start, message).well_formed(),
            self.accepted(start, message).starts_at(start),
            self.accepted(start, message).routes == self.routes,
            self.accepted(start, message) == self.chain_verified(start, message.meta).inserted(
                start,
                message,
            ),
            self.accepted_effects(start, message) == self.chain_verified_effects(
                start,
                message.meta,
            ) + self.chain_verified(start, message.meta).inserted_effects(start, message),
            self.chain_verified(start, message.meta).well_formed(),
            self.chain_verified(start, message.meta).starts_at(start),
            self.chain_verified(start, message.meta).routes == self.routes,
    {
        let chain = self.vouched(message.meta);
        self.lemma_vouched(start, message.meta);
        self.settled_below(message.meta).lemma_inserted_all(start, chain);
        self.chain_verified(start, message.meta).lemma_inserted(start, message);
        assert(chain.push(message).drop_last() =~= chain);
        assert(self.accepted_effects(start, message) =~= self.chain_verified_effects(
            start,
            message.meta,
        ) + self.chain_verified(start, message.meta).inserted_effects(start, message));
    }
}

} // verus!
