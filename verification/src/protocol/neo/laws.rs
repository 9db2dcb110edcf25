//! What holds of a replica whatever messages it is given.

use vstd::prelude::*;

use crate::common::{ClientId, RequestNumber};
use crate::protocol::neo::lemmas::{lemma_linked_below, lemma_run_length};
use crate::protocol::neo::message::{
    OrderedMulticast, SignedReply, Status, VerifiedOrderedMulticast,
};
use crate::protocol::neo::model::{
    in_range, linked_below, run_length, Effect, Notice, ReplicaState,
};
use crate::protocol::neo::shared::SequenceWindow;

verus! {

impl<A> ReplicaState<A> {
    /// The log holds the multicast from `start` on, without gap or repetition.
    pub open spec fn in_sequence(self, start: u32) -> bool {
        forall|i: int|
            0 <= i < self.log.len() ==> (#[trigger] self.log[i]).meta.sequence_number == start + i
    }

    /// The message that the log needs next is not waiting.
    pub open spec fn nothing_ready(self, start: u32) -> bool {
        forall|k: u32| #[trigger] self.verified.contains_key(k) ==> k != start + self.op_number
    }

    /// No message waits for somebody to vouch for it while its successor is
    /// known to be authentic.
    pub open spec fn nothing_vouched_waits(self) -> bool {
        forall|k: u32| #[trigger]
            self.received.contains_key(k) ==> !self.verified.contains_key((k + 1) as u32)
    }

    /// The replica regards `message` as authentic.
    pub open spec fn holds(self, message: VerifiedOrderedMulticast) -> bool {
        ||| self.log.contains(message)
        ||| exists|k: u32| #[trigger]
            self.verified.contains_key(k) && self.verified[k] == message
    }

    /// `message` may enter: it is signed, or an authentic successor names it.
    pub open spec fn authenticates(self, message: VerifiedOrderedMulticast) -> bool {
        ||| message.status == Status::Signed
        ||| self.child_of(message.meta.sequence_number) matches Some(child) && child.links(
            message.meta,
        )
    }
}

/// Each message of `chain` names the one before it as its predecessor.
pub open spec fn is_chain(chain: Seq<VerifiedOrderedMulticast>) -> bool {
    forall|i: int, j: int|
        #![trigger chain[i], chain[j]]
        0 <= i && j == i + 1 && j < chain.len() ==> {
            &&& chain[j].meta.links(chain[i].meta)
            &&& chain[j].meta.sequence_number == chain[i].meta.sequence_number + 1
        }
}

/// What a step asks the application to do: the client, the number of its
/// request, the position in the log and the operation.
pub open spec fn execution_of<A>(effect: Effect<A>) -> Option<
    (ClientId, RequestNumber, nat, Seq<u8>),
> {
    match effect {
        Effect::Execute { client_id, request_number, op_number, op, .. } => Some(
            (client_id, request_number, op_number, op),
        ),
        _ => None,
    }
}

/// Between the client tables `before` and `after`, each request is executed
/// at most once: what is executed is newer than what its client had executed,
/// later executions for a client are of later requests, and the table covers
/// them all and never goes back.
pub open spec fn at_most_once<A>(
    before: Map<ClientId, (RequestNumber, Option<SignedReply>)>,
    effects: Seq<Effect<A>>,
    after: Map<ClientId, (RequestNumber, Option<SignedReply>)>,
) -> bool {
    &&& forall|c: ClientId| #[trigger]
        before.contains_key(c) ==> after.contains_key(c) && before[c].0 <= after[c].0
    &&& forall|i: int|
        0 <= i < effects.len() ==> (execution_of(#[trigger] effects[i]) matches Some(e) ==> {
            &&& before.contains_key(e.0) ==> before[e.0].0 < e.1
            &&& after.contains_key(e.0) && e.1 <= after[e.0].0
        })
    &&& forall|i: int, j: int|
        #![trigger effects[i], effects[j]]
        0 <= i < j < effects.len() ==> (execution_of(effects[i]) matches Some(e) ==> (execution_of(
            effects[j],
        ) matches Some(f) ==> (e.0 == f.0 ==> e.1 < f.1)))
}

/// Between the logs `before` and `after`, executions are of new entries, each
/// of the entry at its own position, in the order of the log.
pub open spec fn follows_log<A>(
    before: Seq<VerifiedOrderedMulticast>,
    effects: Seq<Effect<A>>,
    after: Seq<VerifiedOrderedMulticast>,
) -> bool {
    &&& before.is_prefix_of(after)
    &&& forall|i: int|
        0 <= i < effects.len() ==> (execution_of(#[trigger] effects[i]) matches Some(e) ==> {
            let request = after[e.2 - 1].meta.request;
            &&& before.len() < e.2 <= after.len()
            &&& request.client_id == e.0
            &&& request.request_number == e.1
            &&& request.op@ == e.3
        })
    &&& forall|i: int, j: int|
        #![trigger effects[i], effects[j]]
        0 <= i < j < effects.len() ==> (execution_of(effects[i]) matches Some(e) ==> (execution_of(
            effects[j],
        ) matches Some(f) ==> e.2 < f.2))
}

// ---------------------------------------------------------------------------
// Steps that several laws build on

impl<A> ReplicaState<A> {
    proof fn lemma_inserted_log(self, start: u32, message: VerifiedOrderedMulticast)
        ensures
            self.inserted(start, message).log == if message.meta.sequence_number - start
                != self.op_number {
                self.log
            } else {
                self.log + self.ready(message)
            },
            self.inserted(start, message).routes == self.routes,
            self.inserted(start, message).received == self.received,
    {
        self.lemma_logged_all(self.ready(message));
    }

    proof fn lemma_inserted_all_log(self, start: u32, messages: Seq<VerifiedOrderedMulticast>)
        ensures
            self.log.len() <= self.inserted_all(start, messages).log.len(),
            self.inserted_all(start, messages).log.take(self.log.len() as int) == self.log,
        decreases messages.len(),
    {
        if messages.len() > 0 {
            let middle = self.inserted_all(start, messages.drop_last());
            let after = middle.inserted(start, messages.last());
            self.lemma_inserted_all_log(start, messages.drop_last());
            middle.lemma_inserted_log(start, messages.last());
            assert(after.log.take(self.log.len() as int) =~= middle.log.take(
                self.log.len() as int,
            ));
        } else {
            assert(self.log.take(self.log.len() as int) =~= self.log);
        }
    }

    proof fn lemma_inserted_keeps_order(self, start: u32, message: VerifiedOrderedMulticast)
        requires
            self.well_formed(),
            self.starts_at(start),
            in_range(message.meta.sequence_number),
            start <= message.meta.sequence_number,
        ensures
            self.in_sequence(start) ==> self.inserted(start, message).in_sequence(start),
            self.nothing_ready(start) ==> self.inserted(start, message).nothing_ready(start),
    {
        let after = self.inserted(start, message);
        let first = message.meta.sequence_number + 1;
        if message.meta.sequence_number - start == self.op_number {
            let ready = self.ready(message);
            self.lemma_logged_all(ready);
            lemma_run_length(self.verified, first);
            if self.in_sequence(start) {
                assert forall|i: int| 0 <= i < after.log.len() implies (
                #[trigger] after.log[i]).meta.sequence_number == start + i by {
                    if i < self.log.len() {
                        assert(after.log[i] == self.log[i]);
                    } else if i > self.log.len() {
                        let k = (start + i) as u32;
                        assert(self.verified.contains_key(k));
                        assert(after.log[i] == self.verified[k]);
                    }
                }
            }
        }
    }

    /// What one authentic message keeps.
    pub proof fn lemma_inserted_keeps(self, start: u32, message: VerifiedOrderedMulticast)
        requires
            self.well_formed(),
            self.starts_at(start),
            in_range(message.meta.sequence_number),
            start <= message.meta.sequence_number,
            self.routes.contains_key(message.meta.request.client_id),
        ensures
            self.inserted(start, message).well_formed(),
            self.inserted(start, message).starts_at(start),
            self.log.is_prefix_of(self.inserted(start, message).log),
            self.in_sequence(start) ==> self.inserted(start, message).in_sequence(start),
            self.nothing_ready(start) ==> self.inserted(start, message).nothing_ready(start),
    {
        self.lemma_inserted(start, message);
        self.lemma_inserted_keeps_order(start, message);
        self.lemma_inserted_log(start, message);
        let after = self.inserted(start, message);
        assert(self.log =~= after.log.subrange(0, self.log.len() as int));
    }

    proof fn lemma_inserted_all_keeps_order(
        self,
        start: u32,
        messages: Seq<VerifiedOrderedMulticast>,
    )
        requires
            self.well_formed(),
            self.starts_at(start),
            forall|i: int|
                0 <= i < messages.len() ==> {
                    &&& in_range((#[trigger] messages[i]).meta.sequence_number)
                    &&& start <= messages[i].meta.sequence_number
                    &&& self.routes.contains_key(messages[i].meta.request.client_id)
                },
        ensures
            self.in_sequence(start) ==> self.inserted_all(start, messages).in_sequence(start),
            self.nothing_ready(start) ==> self.inserted_all(start, messages).nothing_ready(start),
        decreases messages.len(),
    {
        if messages.len() > 0 {
            let earlier = messages.drop_last();
            assert forall|i: int| 0 <= i < earlier.len() implies {
                &&& in_range((#[trigger] earlier[i]).meta.sequence_number)
                &&& start <= earlier[i].meta.sequence_number
                &&& self.routes.contains_key(earlier[i].meta.request.client_id)
            } by {
                assert(earlier[i] == messages[i]);
            }
            assert(messages.last() == messages[messages.len() - 1]);
            self.lemma_inserted_all(start, earlier);
            self.lemma_inserted_all_keeps_order(start, earlier);
            self.inserted_all(start, earlier).lemma_inserted_keeps_order(start, messages.last());
        }
    }

    /// What an accepted message brings in is fit to arrive.
    proof fn lemma_admitted(self, start: u32, message: VerifiedOrderedMulticast)
        requires
            self.well_formed(),
            self.starts_at(start),
            in_range(message.meta.sequence_number),
            start <= message.meta.sequence_number,
            self.routes.contains_key(message.meta.request.client_id),
        ensures
            self.settled_below(message.meta).well_formed(),
            self.settled_below(message.meta).starts_at(start),
            forall|i: int|
                0 <= i < self.admitted(message).len() ==> {
                    &&& in_range((#[trigger] self.admitted(message)[i]).meta.sequence_number)
                    &&& start <= self.admitted(message)[i].meta.sequence_number
                    &&& self.routes.contains_key(
                        self.admitted(message)[i].meta.request.client_id,
                    )
                },
    {
        let chain = self.vouched(message.meta);
        self.lemma_vouched(start, message.meta);
        assert forall|i: int| 0 <= i < self.admitted(message).len() implies {
            &&& in_range((#[trigger] self.admitted(message)[i]).meta.sequence_number)
            &&& start <= self.admitted(message)[i].meta.sequence_number
            &&& self.routes.contains_key(self.admitted(message)[i].meta.request.client_id)
        } by {
            if i < chain.len() {
                assert(self.admitted(message)[i] == chain[i]);
            }
        }
    }
}

impl<A> ReplicaState<A> {
    /// What arrives is what the buffer and the log gain.
    pub proof fn lemma_inserted_all_holds(self, start: u32, messages: Seq<VerifiedOrderedMulticast>)
        ensures
            forall|m: VerifiedOrderedMulticast| #[trigger]
                self.inserted_all(start, messages).holds(m) ==> self.holds(m)
                    || messages.contains(m),
            forall|k: u32| #[trigger]
                self.inserted_all(start, messages).verified.contains_key(k)
                    ==> self.verified.contains_key(k) || exists|i: int|
                    0 <= i < messages.len() && (#[trigger] messages[i]).meta.sequence_number == k,
            self.inserted_all(start, messages).received == self.received,
        decreases messages.len(),
    {
        if messages.len() > 0 {
            let earlier = messages.drop_last();
            let last = messages.last();
            let middle = self.inserted_all(start, earlier);
            let after = middle.inserted(start, last);
            self.lemma_inserted_all_holds(start, earlier);
            middle.lemma_inserted_log(start, last);
            assert(messages[messages.len() - 1] == last);
            assert forall|m: VerifiedOrderedMulticast| #[trigger] after.holds(m) implies self.holds(
                m,
            ) || messages.contains(m) by {
                if after.log.contains(m) {
                    let i = choose|i: int| 0 <= i < after.log.len() && after.log[i] == m;
                    if i < middle.log.len() {
                        assert(middle.log[i] == m);
                        assert(middle.log.contains(m));
                        assert(middle.holds(m));
                    } else if i > middle.log.len() {
                        let first = last.meta.sequence_number + 1;
                        lemma_run_length(middle.verified, first);
                        let k = (first + (i - middle.log.len() - 1)) as u32;
                        assert(middle.verified.contains_key(k));
                        assert(middle.verified[k] == m);
                        assert(middle.holds(m));
                    }
                } else {
                    let k = choose|k: u32| #[trigger]
                        after.verified.contains_key(k) && after.verified[k] == m;
                    if m != last {
                        assert(middle.verified.contains_key(k) && middle.verified[k] == m);
                        assert(middle.holds(m));
                    }
                }
                if middle.holds(m) {
                    if earlier.contains(m) {
                        let i = choose|i: int| 0 <= i < earlier.len() && earlier[i] == m;
                        assert(messages[i] == m);
                    }
                }
            }
            assert forall|k: u32| #[trigger]
                after.verified.contains_key(k) implies self.verified.contains_key(k) || exists|
                i: int,
            |
                0 <= i < messages.len() && (#[trigger] messages[i]).meta.sequence_number == k by {
                if middle.verified.contains_key(k) {
                    if !self.verified.contains_key(k) {
                        let i = choose|i: int|
                            0 <= i < earlier.len() && (
                            #[trigger] earlier[i]).meta.sequence_number == k;
                        assert(messages[i] == earlier[i]);
                    }
                }
            }
        }
    }
}

/// The messages under a chain form a chain, up to the child.
proof fn lemma_linked_below_is_chain(
    buffer: Map<u32, VerifiedOrderedMulticast>,
    child: OrderedMulticast,
    n: nat,
)
    requires
        n <= u32::MAX,
        forall|k: u32| #[trigger]
            buffer.contains_key(k) ==> buffer[k].meta.sequence_number == k,
    ensures
        is_chain(linked_below(buffer, child, n)),
        linked_below(buffer, child, n).len() > 0 ==> {
            let parent = linked_below(buffer, child, n).last();
            child.links(parent.meta) && parent.meta.sequence_number == n - 1
        },
    decreases n,
{
    if n > 0 {
        let k = (n - 1) as u32;
        if buffer.contains_key(k) && child.links(buffer[k].meta) {
            let below = linked_below(buffer, buffer[k].meta, (n - 1) as nat);
            let chain = linked_below(buffer, child, n);
            lemma_linked_below_is_chain(buffer, buffer[k].meta, (n - 1) as nat);
            assert(chain == below.push(buffer[k]));
            assert forall|i: int, j: int|
                #![trigger chain[i], chain[j]]
                0 <= i && j == i + 1 && j < chain.len() implies {
                &&& chain[j].meta.links(chain[i].meta)
                &&& chain[j].meta.sequence_number == chain[i].meta.sequence_number + 1
            } by {
                assert(chain[i] == below[i]);
                if j < below.len() {
                    assert(chain[j] == below[j]);
                }
            }
        }
    }
}

pub proof fn lemma_at_most_once_concat<A>(
    before: Map<ClientId, (RequestNumber, Option<SignedReply>)>,
    first: Seq<Effect<A>>,
    middle: Map<ClientId, (RequestNumber, Option<SignedReply>)>,
    second: Seq<Effect<A>>,
    after: Map<ClientId, (RequestNumber, Option<SignedReply>)>,
)
    requires
        at_most_once(before, first, middle),
        at_most_once(middle, second, after),
    ensures
        at_most_once(before, first + second, after),
{
    let effects = first + second;
    assert forall|c: ClientId| #[trigger] before.contains_key(c) implies after.contains_key(c)
        && before[c].0 <= after[c].0 by {
        assert(middle.contains_key(c));
    }
    assert forall|i: int| 0 <= i < effects.len() implies (execution_of(
        #[trigger] effects[i],
    ) matches Some(e) ==> {
        &&& before.contains_key(e.0) ==> before[e.0].0 < e.1
        &&& after.contains_key(e.0) && e.1 <= after[e.0].0
    }) by {
        if i < first.len() {
            assert(effects[i] == first[i]);
        } else {
            assert(effects[i] == second[i - first.len()]);
        }
    }
    assert forall|i: int, j: int|
        #![trigger effects[i], effects[j]]
        0 <= i < j < effects.len() implies (execution_of(effects[i]) matches Some(e) ==> (
    execution_of(effects[j]) matches Some(f) ==> (e.0 == f.0 ==> e.1 < f.1))) by {
        if i < first.len() {
            assert(effects[i] == first[i]);
        } else {
            assert(effects[i] == second[i - first.len()]);
        }
        if j < first.len() {
            assert(effects[j] == first[j]);
        } else {
            assert(effects[j] == second[j - first.len()]);
        }
    }
}

pub proof fn lemma_follows_log_concat<A>(
    before: Seq<VerifiedOrderedMulticast>,
    first: Seq<Effect<A>>,
    middle: Seq<VerifiedOrderedMulticast>,
    second: Seq<Effect<A>>,
    after: Seq<VerifiedOrderedMulticast>,
)
    requires
        follows_log(before, first, middle),
        follows_log(middle, second, after),
    ensures
        follows_log(before, first + second, after),
{
    let effects = first + second;
    assert forall|k: int| 0 <= k < middle.len() implies #[trigger] middle[k] == after[k] by {
        assert(middle[k] == after.subrange(0, middle.len() as int)[k]);
    }
    assert forall|k: int| 0 <= k < before.len() implies #[trigger] before[k] == after[k] by {
        assert(before[k] == middle.subrange(0, before.len() as int)[k]);
    }
    assert(before =~= after.subrange(0, before.len() as int));
    assert forall|i: int| 0 <= i < effects.len() implies (execution_of(
        #[trigger] effects[i],
    ) matches Some(e) ==> {
        let request = after[e.2 - 1].meta.request;
        &&& before.len() < e.2 <= after.len()
        &&& request.client_id == e.0
        &&& request.request_number == e.1
        &&& request.op@ == e.3
    }) by {
        if i < first.len() {
            assert(effects[i] == first[i]);
            if let Some(e) = execution_of(first[i]) {
                assert(middle[e.2 - 1] == after[e.2 - 1]);
            }
        } else {
            assert(effects[i] == second[i - first.len()]);
        }
    }
    assert forall|i: int, j: int|
        #![trigger effects[i], effects[j]]
        0 <= i < j < effects.len() implies (execution_of(effects[i]) matches Some(e) ==> (
    execution_of(effects[j]) matches Some(f) ==> e.2 < f.2)) by {
        if i < first.len() {
            assert(effects[i] == first[i]);
        } else {
            assert(effects[i] == second[i - first.len()]);
        }
        if j < first.len() {
            assert(effects[j] == first[j]);
        } else {
            assert(effects[j] == second[j - first.len()]);
        }
    }
}

impl<A> ReplicaState<A> {
    pub proof fn lemma_logged_all_executes(self, messages: Seq<VerifiedOrderedMulticast>)
        requires
            self.op_number == self.log.len(),
        ensures
            at_most_once(
                self.clients,
                self.logged_all_effects(messages),
                self.logged_all(messages).clients,
            ),
            follows_log(
                self.log,
                self.logged_all_effects(messages),
                self.logged_all(messages).log,
            ),
        decreases messages.len(),
    {
        if messages.len() == 0 {
            assert(self.log =~= self.log.subrange(0, self.log.len() as int));
        } else {
            let middle = self.logged_all(messages.drop_last());
            let last = messages.last();
            let after = middle.logged(last);
            self.lemma_logged_all_executes(messages.drop_last());
            self.lemma_logged_all(messages.drop_last());
            assert(middle.log =~= after.log.subrange(0, middle.log.len() as int));
            assert(at_most_once(middle.clients, middle.logged_effects(last), after.clients));
            assert(follows_log(middle.log, middle.logged_effects(last), after.log));
            lemma_at_most_once_concat(
                self.clients,
                self.logged_all_effects(messages.drop_last()),
                middle.clients,
                middle.logged_effects(last),
                after.clients,
            );
            lemma_follows_log_concat(
                self.log,
                self.logged_all_effects(messages.drop_last()),
                middle.log,
                middle.logged_effects(last),
                after.log,
            );
        }
    }

    proof fn lemma_inserted_all_executes(
        self,
        start: u32,
        messages: Seq<VerifiedOrderedMulticast>,
    )
        requires
            self.op_number == self.log.len(),
        ensures
            self.inserted_all(start, messages).op_number == self.inserted_all(
                start,
                messages,
            ).log.len(),
            at_most_once(
                self.clients,
                self.inserted_all_effects(start, messages),
                self.inserted_all(start, messages).clients,
            ),
            follows_log(
                self.log,
                self.inserted_all_effects(start, messages),
                self.inserted_all(start, messages).log,
            ),
        decreases messages.len(),
    {
        if messages.len() == 0 {
            assert(self.log =~= self.log.subrange(0, self.log.len() as int));
        } else {
            let middle = self.inserted_all(start, messages.drop_last());
            let last = messages.last();
            let after = middle.inserted(start, last);
            self.lemma_inserted_all_executes(start, messages.drop_last());
            middle.lemma_logged_all_executes(middle.ready(last));
            middle.lemma_logged_all(middle.ready(last));
            assert(middle.log =~= middle.log.subrange(0, middle.log.len() as int));
            assert(at_most_once(
                middle.clients,
                middle.inserted_effects(start, last),
                after.clients,
            ));
            assert(follows_log(middle.log, middle.inserted_effects(start, last), after.log));
            lemma_at_most_once_concat(
                self.clients,
                self.inserted_all_effects(start, messages.drop_last()),
                middle.clients,
                middle.inserted_effects(start, last),
                after.clients,
            );
            lemma_follows_log_concat(
                self.log,
                self.inserted_all_effects(start, messages.drop_last()),
                middle.log,
                middle.inserted_effects(start, last),
                after.log,
            );
        }
    }
}

/// A run ends where the first key is missing.
proof fn lemma_run_length_is(
    buffer: Map<u32, VerifiedOrderedMulticast>,
    first: int,
    length: nat,
)
    requires
        0 <= first,
        first + length <= u32::MAX,
        forall|k: u32| first <= k < first + length ==> #[trigger] buffer.contains_key(k),
        first + length < u32::MAX ==> !buffer.contains_key((first + length) as u32),
    ensures
        run_length(buffer, first) == length,
    decreases length,
{
    if length > 0 {
        assert(buffer.contains_key(first as u32));
        lemma_run_length_is(buffer, first + 1, (length - 1) as nat);
    }
}

impl<A> ReplicaState<A> {
    /// Logging does not look at the messages that wait.
    pub proof fn lemma_logged_all_ignores_verified(
        self,
        verified: Map<u32, VerifiedOrderedMulticast>,
        messages: Seq<VerifiedOrderedMulticast>,
    )
        ensures
            (ReplicaState { verified, ..self }).logged_all(messages) == (ReplicaState {
                verified,
                ..self.logged_all(messages)
            }),
            (ReplicaState { verified, ..self }).logged_all_effects(messages)
                == self.logged_all_effects(messages),
        decreases messages.len(),
    {
        if messages.len() > 0 {
            self.lemma_logged_all_ignores_verified(verified, messages.drop_last());
        }
    }

    /// Logging in two parts is logging at once.
    pub proof fn lemma_logged_all_concat(
        self,
        first: Seq<VerifiedOrderedMulticast>,
        second: Seq<VerifiedOrderedMulticast>,
    )
        ensures
            self.logged_all(first + second) == self.logged_all(first).logged_all(second),
            self.logged_all_effects(first + second) == self.logged_all_effects(first)
                + self.logged_all(first).logged_all_effects(second),
        decreases second.len(),
    {
        if second.len() == 0 {
            assert(first + second =~= first);
            assert(self.logged_all_effects(first) + Seq::<Effect<A>>::empty()
                =~= self.logged_all_effects(first));
        } else {
            self.lemma_logged_all_concat(first, second.drop_last());
            assert((first + second).drop_last() =~= first + second.drop_last());
            assert(self.logged_all_effects(first + second) =~= self.logged_all_effects(first)
                + self.logged_all(first).logged_all_effects(second));
        }
    }

    /// Arrival order does not matter when one of the messages is the next one.
    proof fn lemma_next_and_other_commute(
        self,
        start: u32,
        next: VerifiedOrderedMulticast,
        other: VerifiedOrderedMulticast,
    )
        requires
            self.well_formed(),
            self.starts_at(start),
            in_range(next.meta.sequence_number),
            in_range(other.meta.sequence_number),
            start <= other.meta.sequence_number,
            next.meta.sequence_number - start == self.op_number,
            next.meta.sequence_number != other.meta.sequence_number,
            !self.verified.contains_key(other.meta.sequence_number),
        ensures
            self.inserted(start, next).inserted(start, other) == self.inserted(
                start,
                other,
            ).inserted(start, next),
            self.inserted_effects(start, next) + self.inserted(start, next).inserted_effects(
                start,
                other,
            ) == self.inserted_effects(start, other) + self.inserted(start, other).inserted_effects(
                start,
                next,
            ),
    {
        let n = other.meta.sequence_number;
        let first = next.meta.sequence_number + 1;
        let length = run_length(self.verified, first);
        let end = first + length;
        let ready = self.ready(next);
        let one = self.inserted(start, next);
        let waiting = self.inserted(start, other);
        lemma_run_length(self.verified, first);
        self.lemma_logged_all(ready);
        assert(one.verified == self.verified.remove_keys(Set::new(|k: u32| first <= k < end)));
        assert(waiting.verified == self.verified.insert(n, other));
        assert(waiting == (ReplicaState { verified: waiting.verified, ..self }));
        assert forall|k: u32| first <= k < end implies #[trigger] waiting.verified.contains_key(
            k,
        ) by {
            assert(self.verified.contains_key(k));
        }
        if n == end {
            let rest = run_length(self.verified, n + 1);
            lemma_run_length(self.verified, n + 1);
            assert forall|k: u32| n + 1 <= k < n + 1 + rest implies #[trigger]
                one.verified.contains_key(k) by {
                assert(self.verified.contains_key(k));
            }
            lemma_run_length_is(one.verified, n + 1, rest);
            assert forall|k: u32| first <= k < first + length + 1 + rest implies #[trigger]
                waiting.verified.contains_key(k) by {
                assert(k == n || self.verified.contains_key(k));
            }
            lemma_run_length_is(waiting.verified, first, length + 1 + rest);
            let more = one.ready(other);
            assert(waiting.ready(next) =~= ready + more);
            self.lemma_logged_all_concat(ready, more);
            self.logged_all(ready).lemma_logged_all_ignores_verified(one.verified, more);
            self.lemma_logged_all_ignores_verified(waiting.verified, ready + more);
            let last = n + 1 + rest;
            assert(one.verified.remove_keys(Set::new(|k: u32| n + 1 <= k < last))
                =~= waiting.verified.remove_keys(Set::new(|k: u32| first <= k < last)));
            assert(one.logged_all_effects(more) == self.logged_all(ready).logged_all_effects(
                more,
            ));
            assert(self.inserted_effects(start, other) + waiting.inserted_effects(start, next)
                =~= waiting.inserted_effects(start, next));
        } else {
            lemma_run_length_is(waiting.verified, first, length);
            assert(waiting.ready(next) =~= ready);
            self.lemma_logged_all_ignores_verified(waiting.verified, ready);
            assert(one.verified.insert(n, other) =~= waiting.verified.remove_keys(
                Set::new(|k: u32| first <= k < end),
            ));
            assert(self.inserted_effects(start, next) + one.inserted_effects(start, other)
                =~= self.inserted_effects(start, next));
            assert(self.inserted_effects(start, other) + waiting.inserted_effects(start, next)
                =~= waiting.inserted_effects(start, next));
        }
    }
}

// ---------------------------------------------------------------------------
// The laws

/// A replica that has seen nothing keeps all the rules, whatever sequence
/// number comes first.
pub proof fn law_initial_state<A>(start: u32)
    ensures
        ReplicaState::<A>::initial().well_formed(),
        ReplicaState::<A>::initial().starts_at(start),
        ReplicaState::<A>::initial().in_sequence(start),
        ReplicaState::<A>::initial().nothing_ready(start),
        ReplicaState::<A>::initial().nothing_vouched_waits(),
{
}

/// The log is append-only: handling a message never changes or removes what
/// was logged before.
pub proof fn law_log_is_append_only<A>(
    state: ReplicaState<A>,
    start: u32,
    remote: A,
    message: VerifiedOrderedMulticast,
)
    ensures
        state.log.is_prefix_of(state.handled(start, remote, message).log),
{
    let noted = state.noted(remote, message);
    noted.settled_below(message.meta).lemma_inserted_all_log(start, noted.admitted(message));
    let after = state.handled(start, remote, message);
    assert(after.log.take(state.log.len() as int) == state.log || after.log == state.log);
    assert(state.log =~= after.log.subrange(0, state.log.len() as int));
}

/// One authentic message leaves the log in sequence, with what was logged
/// before at its beginning, and leaves nothing waiting whose turn has come.
pub proof fn law_insertion_keeps_order<A>(
    state: ReplicaState<A>,
    start: u32,
    message: VerifiedOrderedMulticast,
)
    requires
        state.well_formed(),
        state.starts_at(start),
        in_range(message.meta.sequence_number),
        start <= message.meta.sequence_number,
        state.routes.contains_key(message.meta.request.client_id),
        state.in_sequence(start),
        state.nothing_ready(start),
    ensures
        state.inserted(start, message).well_formed(),
        state.inserted(start, message).starts_at(start),
        state.inserted(start, message).in_sequence(start),
        state.inserted(start, message).nothing_ready(start),
        state.log.is_prefix_of(state.inserted(start, message).log),
{
    state.lemma_inserted_keeps(start, message);
}

/// The log follows the multicast: as long as `start` is the first sequence
/// number, entry `i` of the log is message `start + i`.
pub proof fn law_log_is_in_sequence<A>(
    state: ReplicaState<A>,
    start: u32,
    remote: A,
    message: VerifiedOrderedMulticast,
)
    requires
        state.well_formed(),
        state.starts_at(start),
        in_range(message.meta.sequence_number),
        start <= message.meta.sequence_number,
        state.in_sequence(start),
    ensures
        state.handled(start, remote, message).in_sequence(start),
{
    let noted = state.noted(remote, message);
    noted.lemma_admitted(start, message);
    noted.settled_below(message.meta).lemma_inserted_all_keeps_order(
        start,
        noted.admitted(message),
    );
}

/// No message waits for its turn once its turn has come.
pub proof fn law_nothing_ready_waits<A>(
    state: ReplicaState<A>,
    start: u32,
    remote: A,
    message: VerifiedOrderedMulticast,
)
    requires
        state.well_formed(),
        state.starts_at(start),
        in_range(message.meta.sequence_number),
        start <= message.meta.sequence_number,
        state.nothing_ready(start),
    ensures
        state.handled(start, remote, message).nothing_ready(start),
{
    let noted = state.noted(remote, message);
    noted.lemma_admitted(start, message);
    noted.settled_below(message.meta).lemma_inserted_all_keeps_order(
        start,
        noted.admitted(message),
    );
}

/// No message waits to be vouched for once its successor is known to be
/// authentic and still waits itself.
pub proof fn law_nothing_vouched_waits<A>(
    state: ReplicaState<A>,
    start: u32,
    remote: A,
    message: VerifiedOrderedMulticast,
)
    requires
        state.well_formed(),
        state.starts_at(start),
        in_range(message.meta.sequence_number),
        start <= message.meta.sequence_number,
        state.nothing_vouched_waits(),
    ensures
        state.handled(start, remote, message).nothing_vouched_waits(),
{
    let noted = state.noted(remote, message);
    let after = state.handled(start, remote, message);
    if noted.authenticates(message) {
        let n = message.meta.sequence_number as nat;
        let settled = noted.settled_below(message.meta);
        let chain = noted.vouched(message.meta);
        let admitted = noted.admitted(message);
        settled.lemma_inserted_all_holds(start, admitted);
        lemma_linked_below(noted.received, message.meta, n);
        assert forall|k: u32| #[trigger] after.received.contains_key(k) implies
            !after.verified.contains_key((k + 1) as u32) by {
            assert(state.received.contains_key(k));
            let next = (k + 1) as u32;
            if after.verified.contains_key(next) {
                let i = choose|i: int|
                    0 <= i < admitted.len() && (#[trigger] admitted[i]).meta.sequence_number
                        == next;
                if i < chain.len() {
                    let key = (n - chain.len() + i) as u32;
                    assert(admitted[i] == chain[i]);
                    assert(noted.received.contains_key(key));
                    assert(next == key);
                }
                assert(n - chain.len() - 1 <= k < n);
            }
        }
    }
}

/// Only authentic messages enter. What the replica newly regards as authentic
/// when it handles `message` belongs to one chain that ends in `message`, and
/// `message` itself is signed or named by a successor that was authentic
/// before.
pub proof fn law_only_authentic_messages_enter<A>(
    state: ReplicaState<A>,
    start: u32,
    remote: A,
    message: VerifiedOrderedMulticast,
    entered: VerifiedOrderedMulticast,
)
    requires
        state.well_formed(),
        state.handled(start, remote, message).holds(entered),
        !state.holds(entered),
    ensures
        state.authenticates(message),
        state.admitted(message).contains(entered),
        is_chain(state.admitted(message)),
        state.admitted(message).last() == message,
{
    let noted = state.noted(remote, message);
    let after = state.handled(start, remote, message);
    let n = message.meta.sequence_number as nat;
    assert(noted.child_of(message.meta.sequence_number) == state.child_of(
        message.meta.sequence_number,
    ));
    if !state.authenticates(message) {
        assert(after.log == state.log);
        assert(after.verified == state.verified);
        assert(state.holds(entered));
    }
    let settled = noted.settled_below(message.meta);
    settled.lemma_inserted_all_holds(start, noted.admitted(message));
    assert(settled.holds(entered) ==> state.holds(entered)) by {
        if settled.holds(entered) && !settled.log.contains(entered) {
            let k = choose|k: u32| #[trigger]
                settled.verified.contains_key(k) && settled.verified[k] == entered;
            assert(state.verified.contains_key(k) && state.verified[k] == entered);
        }
    }
    lemma_linked_below_is_chain(state.received, message.meta, n);
    let chain = state.vouched(message.meta);
    let admitted = state.admitted(message);
    assert forall|i: int, j: int|
        #![trigger admitted[i], admitted[j]]
        0 <= i && j == i + 1 && j < admitted.len() implies {
        &&& admitted[j].meta.links(admitted[i].meta)
        &&& admitted[j].meta.sequence_number == admitted[i].meta.sequence_number + 1
    } by {
        assert(admitted[i] == chain[i]);
        if j < chain.len() {
            assert(admitted[j] == chain[j]);
        }
    }
}

/// A message that its successor contradicts is dropped: besides the client's
/// address and the counters nothing changes, and nothing is asked for but to
/// mention it.
pub proof fn law_contradicted_message_is_dropped<A>(
    state: ReplicaState<A>,
    start: u32,
    remote: A,
    message: VerifiedOrderedMulticast,
)
    requires
        message.status != Status::Signed,
        state.child_of(message.meta.sequence_number) is Some,
        !state.authenticates(message),
    ensures
        state.handled(start, remote, message) == state.noted(remote, message),
        state.handled_effects(start, remote, message) == seq![
            Effect::<A>::Mention(Notice::BrokenChain(message.meta.sequence_number)),
        ],
{
}

/// Each request of a client is executed at most once, and a client's requests
/// are executed in the order of their numbers.
pub proof fn law_requests_execute_at_most_once<A>(
    state: ReplicaState<A>,
    start: u32,
    remote: A,
    message: VerifiedOrderedMulticast,
)
    requires
        state.well_formed(),
    ensures
        at_most_once(
            state.clients,
            state.handled_effects(start, remote, message),
            state.handled(start, remote, message).clients,
        ),
{
    let noted = state.noted(remote, message);
    noted.settled_below(message.meta).lemma_inserted_all_executes(
        start,
        noted.admitted(message),
    );
}

/// The application executes the log: every execution is of the entry at its
/// own position, and executions come in the order of the log.
pub proof fn law_executions_follow_the_log<A>(
    state: ReplicaState<A>,
    start: u32,
    remote: A,
    message: VerifiedOrderedMulticast,
)
    requires
        state.well_formed(),
    ensures
        follows_log(
            state.log,
            state.handled_effects(start, remote, message),
            state.handled(start, remote, message).log,
        ),
{
    let noted = state.noted(remote, message);
    assert(state.log =~= state.log.subrange(0, state.log.len() as int));
    noted.settled_below(message.meta).lemma_inserted_all_executes(
        start,
        noted.admitted(message),
    );
}

/// A repetition of a client's latest request is answered with the reply that
/// was recorded for it, sent to where the client was last heard from, and
/// executes nothing.
pub proof fn law_repetition_gets_recorded_reply<A>(
    state: ReplicaState<A>,
    signed: SignedReply,
    message: VerifiedOrderedMulticast,
)
    requires
        ({
            let request = message.meta.request;
            &&& state.clients.contains_key(request.client_id)
            &&& state.clients[request.client_id].0 == request.request_number
        }),
    ensures
        ({
            let request = message.meta.request;
            let answered = state.reply_installed(
                request.client_id,
                request.request_number,
                signed,
            );
            &&& answered.logged_effects(message) == seq![
                Effect::Resend { remote: state.routes[request.client_id], reply: signed@ },
            ]
            &&& answered.logged(message).clients == answered.clients
        }),
{
}

/// A request older than the client's latest is neither executed nor answered.
pub proof fn law_stale_request_gets_nothing<A>(
    state: ReplicaState<A>,
    message: VerifiedOrderedMulticast,
)
    requires
        ({
            let request = message.meta.request;
            &&& state.clients.contains_key(request.client_id)
            &&& request.request_number < state.clients[request.client_id].0
        }),
    ensures
        state.logged_effects(message) == Seq::<Effect<A>>::empty(),
        state.logged(message).clients == state.clients,
{
}

/// A signed reply that comes back after its client has moved on is not kept.
pub proof fn law_late_reply_is_dropped<A>(
    state: ReplicaState<A>,
    client_id: ClientId,
    request_number: RequestNumber,
    signed: SignedReply,
)
    requires
        state.clients.contains_key(client_id),
        state.clients[client_id].0 != request_number,
    ensures
        state.reply_installed(client_id, request_number, signed) == state,
{
}

/// Keeping a signed reply touches nothing but the reply: the log, the
/// buffers, the routes and what counts as executed stay.
pub proof fn law_installed_reply_disturbs_nothing<A>(
    state: ReplicaState<A>,
    client_id: ClientId,
    request_number: RequestNumber,
    signed: SignedReply,
)
    requires
        state.clients.contains_key(client_id),
    ensures
        ({
            let after = state.reply_installed(client_id, request_number, signed);
            &&& after == ReplicaState { clients: after.clients, ..state }
            &&& after.clients.dom() == state.clients.dom()
            &&& forall|c: ClientId| #[trigger]
                state.clients.contains_key(c) ==> after.clients[c].0 == state.clients[c].0
            &&& forall|c: ClientId| #[trigger]
                state.clients.contains_key(c) && c != client_id ==> after.clients[c]
                    == state.clients[c]
        }),
{
    assert(state.reply_installed(client_id, request_number, signed).clients.dom()
        =~= state.clients.dom());
}

/// The first sequence number only moves back, it precedes every message
/// received, and moving it back keeps the replica's buffers behind it.
pub proof fn law_window_precedes_messages<A>(
    window: SequenceWindow,
    state: ReplicaState<A>,
    sequence_number: u32,
)
    requires
        state.starts_at(window.sequence_start),
    ensures
        window.received(sequence_number).sequence_start <= window.sequence_start,
        window.received(sequence_number).sequence_start <= sequence_number,
        state.starts_at(window.received(sequence_number).sequence_start),
{
}

/// Arrival order does not matter: two authentic messages that arrive in
/// either order leave the same state and ask for the same, in the same order.
pub proof fn law_arrival_order_does_not_matter<A>(
    state: ReplicaState<A>,
    start: u32,
    a: VerifiedOrderedMulticast,
    b: VerifiedOrderedMulticast,
)
    requires
        state.well_formed(),
        state.starts_at(start),
        in_range(a.meta.sequence_number),
        in_range(b.meta.sequence_number),
        start <= a.meta.sequence_number,
        start <= b.meta.sequence_number,
        a.meta.sequence_number != b.meta.sequence_number,
        !state.verified.contains_key(a.meta.sequence_number),
        !state.verified.contains_key(b.meta.sequence_number),
    ensures
        state.inserted(start, a).inserted(start, b) == state.inserted(start, b).inserted(start, a),
        state.inserted_effects(start, a) + state.inserted(start, a).inserted_effects(start, b)
            == state.inserted_effects(start, b) + state.inserted(start, b).inserted_effects(
            start,
            a,
        ),
{
    if a.meta.sequence_number - start == state.op_number {
        state.lemma_next_and_other_commute(start, a, b);
    } else if b.meta.sequence_number - start == state.op_number {
        state.lemma_next_and_other_commute(start, b, a);
    } else {
        assert(state.inserted(start, a).inserted(start, b).verified =~= state.inserted(
            start,
            b,
        ).inserted(start, a).verified);
    }
}

} // verus!
