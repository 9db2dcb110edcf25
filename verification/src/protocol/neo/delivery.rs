//! In whatever order messages are delivered, a replica ends up the same.

use vstd::prelude::*;

use crate::protocol::neo::laws::is_chain;
use crate::protocol::neo::lemmas::{lemma_linked_below, lemma_run_length};
use crate::protocol::neo::message::{Status, VerifiedOrderedMulticast};
use crate::protocol::neo::model::{linked_below, run_length, Effect, ReplicaState};
use crate::protocol::neo::runs::Step;

verus! {

/// `order` names each of the numbers below `n` once.
pub open spec fn is_order(order: Seq<int>, n: nat) -> bool {
    &&& order.no_duplicates()
    &&& forall|i: int| #[trigger] order.contains(i) <==> 0 <= i < n
}

/// The messages of `stream` in this order.
pub open spec fn in_order(stream: Seq<VerifiedOrderedMulticast>, order: Seq<int>) -> Seq<
    VerifiedOrderedMulticast,
> {
    Seq::new(order.len(), |i: int| stream[order[i]])
}

/// The messages of `stream` reach a replica in this order, where the first
/// sequence number is one.
pub open spec fn deliveries<A>(
    stream: Seq<VerifiedOrderedMulticast>,
    order: Seq<int>,
    remotes: Seq<A>,
) -> Seq<Step<A>> {
    Seq::new(
        order.len(),
        |i: int| Step::Handle { start: 1, remote: remotes[i], message: stream[order[i]] },
    )
}

/// The sequence numbers of those messages, if that of the first is `first`.
spec fn numbers(order: Seq<int>, first: int) -> Set<u32> {
    Set::new(|k: u32| order.contains(k - first))
}

/// The last message of an order adds its own number, which is new.
proof fn lemma_numbers_grow(order: Seq<int>, first: int)
    requires
        order.len() > 0,
        order.no_duplicates(),
        0 <= first + order.last() <= u32::MAX,
    ensures
        ({
            let k = (first + order.last()) as u32;
            &&& !numbers(order.drop_last(), first).contains(k)
            &&& numbers(order, first) == numbers(order.drop_last(), first).insert(k)
        }),
{
    let earlier = order.drop_last();
    let k = (first + order.last()) as u32;
    assert(order.last() == order[order.len() - 1]);
    if earlier.contains(order.last()) {
        let i = choose|i: int| 0 <= i < earlier.len() && earlier[i] == order.last();
        assert(order[i] == order[order.len() - 1]);
    }
    assert forall|j: u32| #[trigger] numbers(order, first).contains(j) == numbers(
        earlier,
        first,
    ).insert(k).contains(j) by {
        if order.contains(j - first) {
            let i = choose|i: int| 0 <= i < order.len() && order[i] == j - first;
            if i < earlier.len() {
                assert(earlier[i] == j - first);
            }
        }
        if earlier.contains(j - first) {
            let i = choose|i: int| 0 <= i < earlier.len() && earlier[i] == j - first;
            assert(order[i] == j - first);
        }
    }
    assert(numbers(order, first) =~= numbers(earlier, first).insert(k));
}

impl<A> ReplicaState<A> {
    /// Of the messages of `stream`, whose sequence numbers start from `first`,
    /// those with a number in `arrived` are in the log behind `base`, as far
    /// as there is no gap, or else wait as authentic.
    spec fn places(
        self,
        base: Seq<VerifiedOrderedMulticast>,
        first: int,
        stream: Seq<VerifiedOrderedMulticast>,
        arrived: Set<u32>,
    ) -> bool {
        let logged = self.log.len() - base.len();
        &&& 0 <= logged <= stream.len()
        &&& self.op_number == self.log.len()
        &&& self.log == base + stream.take(logged)
        &&& forall|k: u32| #[trigger]
            self.verified.contains_key(k) ==> first + logged < k < first + stream.len()
                && self.verified[k] == stream[k - first]
        &&& forall|k: u32| #[trigger]
            arrived.contains(k) <==> first <= k < first + logged || self.verified.contains_key(k)
    }

    /// One more message finds its place.
    proof fn lemma_inserted_places(
        self,
        start: u32,
        base: Seq<VerifiedOrderedMulticast>,
        first: int,
        stream: Seq<VerifiedOrderedMulticast>,
        arrived: Set<u32>,
        k: u32,
    )
        requires
            self.places(base, first, stream, arrived),
            first == start + base.len(),
            first + stream.len() <= u32::MAX,
            first <= k < first + stream.len(),
            stream[k - first].meta.sequence_number == k,
            !arrived.contains(k),
        ensures
            self.inserted(start, stream[k - first]).places(
                base,
                first,
                stream,
                arrived.insert(k),
            ),
            ({
                let logged = self.log.len() - base.len();
                let after = self.inserted(start, stream[k - first]).log.len() - base.len();
                &&& logged <= after
                &&& if k == first + logged {
                    self.ready(stream[k - first]) == stream.subrange(logged, after)
                } else {
                    logged == after
                }
            }),
    {
        let message = stream[k - first];
        let after = self.inserted(start, message);
        let logged = self.log.len() - base.len();
        let arrived_after = arrived.insert(k);
        if k == first + logged {
            let length = run_length(self.verified, k + 1);
            let now = logged + 1 + length;
            let ready = self.ready(message);
            lemma_run_length(self.verified, k + 1);
            self.lemma_logged_all(ready);
            assert(now <= stream.len()) by {
                if length > 0 {
                    assert(self.verified.contains_key((k + length) as u32));
                }
            }
            assert forall|i: int| 0 <= i < ready.len() implies #[trigger] ready[i] == stream[logged
                + i] by {
                if i > 0 {
                    assert(self.verified.contains_key((k + i) as u32));
                }
            }
            assert(ready =~= stream.subrange(logged, now));
            assert(after.log =~= base + stream.take(now));
            assert forall|j: u32| #[trigger] after.verified.contains_key(j) implies first + now < j
                < first + stream.len() && after.verified[j] == stream[j - first] by {
                assert(self.verified.contains_key(j));
            }
            assert forall|j: u32| #[trigger] arrived_after.contains(j) <==> first <= j < first + now
                || after.verified.contains_key(j) by {
                if k < j < first + now {
                    assert(self.verified.contains_key(j));
                }
            }
        }
    }

    /// So do the messages of a stretch of the stream.
    proof fn lemma_inserted_stretch_places(
        self,
        start: u32,
        base: Seq<VerifiedOrderedMulticast>,
        first: int,
        stream: Seq<VerifiedOrderedMulticast>,
        arrived: Set<u32>,
        from: int,
        to: int,
    )
        requires
            self.places(base, first, stream, arrived),
            first == start + base.len(),
            first + stream.len() <= u32::MAX,
            forall|i: int|
                0 <= i < stream.len() ==> (#[trigger] stream[i]).meta.sequence_number == first + i,
            0 <= from <= to <= stream.len(),
            forall|k: u32| first + from <= k < first + to ==> !#[trigger] arrived.contains(k),
        ensures
            self.inserted_all(start, stream.subrange(from, to)).places(
                base,
                first,
                stream,
                arrived.union(Set::new(|k: u32| first + from <= k < first + to)),
            ),
        decreases to - from,
    {
        let messages = stream.subrange(from, to);
        let all = arrived.union(Set::new(|k: u32| first + from <= k < first + to));
        if from == to {
            assert(all =~= arrived);
        } else {
            let k = (first + to - 1) as u32;
            let some = arrived.union(Set::new(|k: u32| first + from <= k < first + to - 1));
            self.lemma_inserted_stretch_places(start, base, first, stream, arrived, from, to - 1);
            assert(messages.drop_last() =~= stream.subrange(from, to - 1));
            let middle = self.inserted_all(start, messages.drop_last());
            middle.lemma_inserted_places(start, base, first, stream, some, k);
            assert(some.insert(k) =~= all);
        }
    }

    /// Authentic messages find their places in whatever order they arrive,
    /// and what is asked for is what logging those in the log asks for.
    proof fn lemma_arrivals(
        self,
        start: u32,
        stream: Seq<VerifiedOrderedMulticast>,
        order: Seq<int>,
    )
        requires
            self.op_number == self.log.len(),
            self.verified == Map::<u32, VerifiedOrderedMulticast>::empty(),
            start + self.op_number + stream.len() <= u32::MAX,
            forall|i: int|
                0 <= i < stream.len() ==> (#[trigger] stream[i]).meta.sequence_number == start
                    + self.op_number + i,
            order.no_duplicates(),
            forall|i: int| 0 <= i < order.len() ==> 0 <= #[trigger] order[i] < stream.len(),
        ensures
            ({
                let after = self.inserted_all(start, in_order(stream, order));
                let logged = stream.take(after.log.len() - self.log.len());
                &&& after.places(
                    self.log,
                    start + self.op_number,
                    stream,
                    numbers(order, start + self.op_number),
                )
                &&& after == (ReplicaState {
                    verified: after.verified,
                    ..self.logged_all(logged)
                })
                &&& self.inserted_all_effects(start, in_order(stream, order))
                    == self.logged_all_effects(logged)
            }),
        decreases order.len(),
    {
        let first = start + self.op_number as int;
        let messages = in_order(stream, order);
        let after = self.inserted_all(start, messages);
        if order.len() == 0 {
            assert(self.log + stream.take(0) =~= self.log);
            assert(stream.take(0) =~= seq![]);
        } else {
            let earlier = order.drop_last();
            let k = (first + order.last()) as u32;
            assert(order.last() == order[order.len() - 1]);
            assert forall|i: int| 0 <= i < earlier.len() implies 0 <= #[trigger] earlier[i]
                < stream.len() by {
                assert(earlier[i] == order[i]);
            }
            self.lemma_arrivals(start, stream, earlier);
            assert(messages.drop_last() =~= in_order(stream, earlier));
            let middle = self.inserted_all(start, messages.drop_last());
            let message = stream[order.last()];
            assert(messages.last() == message);
            lemma_numbers_grow(order, first);
            middle.lemma_inserted_places(
                start,
                self.log,
                first,
                stream,
                numbers(earlier, first),
                k,
            );
            let before = middle.log.len() - self.log.len();
            let now = after.log.len() - self.log.len();
            let effects = self.inserted_all_effects(start, messages.drop_last());
            if k == first + before {
                let ready = middle.ready(message);
                assert(stream.take(before) + ready =~= stream.take(now));
                self.lemma_logged_all_concat(stream.take(before), ready);
                self.logged_all(stream.take(before)).lemma_logged_all_ignores_verified(
                    middle.verified,
                    ready,
                );
            } else {
                assert(effects + Seq::<Effect<A>>::empty() =~= effects);
            }
        }
    }
}

/// Authentic messages with consecutive sequence numbers leave the same log,
/// state and executions in whatever order they arrive: those of logging them
/// in the order of their numbers.
pub proof fn law_authentic_messages_in_any_order<A>(
    state: ReplicaState<A>,
    start: u32,
    stream: Seq<VerifiedOrderedMulticast>,
    order: Seq<int>,
)
    requires
        state.well_formed(),
        state.verified == Map::<u32, VerifiedOrderedMulticast>::empty(),
        start + state.op_number + stream.len() <= u32::MAX,
        forall|i: int|
            0 <= i < stream.len() ==> (#[trigger] stream[i]).meta.sequence_number == start
                + state.op_number + i,
        is_order(order, stream.len()),
    ensures
        state.inserted_all(start, in_order(stream, order)) == state.logged_all(stream),
        state.inserted_all_effects(start, in_order(stream, order)) == state.logged_all_effects(
            stream,
        ),
        ({
            let after = state.inserted_all(start, in_order(stream, order));
            &&& after.log == state.log + stream
            &&& after.op_number == state.op_number + stream.len()
            &&& after.verified == Map::<u32, VerifiedOrderedMulticast>::empty()
        }),
{
    let first = start + state.op_number as int;
    let after = state.inserted_all(start, in_order(stream, order));
    let logged = after.log.len() - state.log.len();
    assert forall|i: int| 0 <= i < order.len() implies 0 <= #[trigger] order[i] < stream.len() by {
        assert(order.contains(order[i]));
    }
    state.lemma_arrivals(start, stream, order);
    assert(logged == stream.len()) by {
        if logged < stream.len() {
            assert(order.contains(logged));
            assert(numbers(order, first).contains((first + logged) as u32));
        }
    }
    assert(stream.take(logged) =~= stream);
    assert(after.verified =~= Map::empty());
    state.lemma_logged_all(stream);
}

/// Where every received message is named by its successor, the messages that
/// one vouches for go on until one is missing.
proof fn lemma_chain_ends_at_gap(
    received: Map<u32, VerifiedOrderedMulticast>,
    stream: Seq<VerifiedOrderedMulticast>,
    n: nat,
)
    requires
        is_chain(stream),
        1 <= n <= stream.len() < u32::MAX,
        forall|k: u32| #[trigger]
            received.contains_key(k) ==> 1 <= k <= stream.len() && received[k] == stream[k - 1],
    ensures
        ({
            let length = linked_below(received, stream[n - 1].meta, n).len();
            length < n ==> !received.contains_key((n - length - 1) as u32)
        }),
    decreases n,
{
    let k = (n - 1) as u32;
    if received.contains_key(k) {
        assert(received[k] == stream[n - 2]);
        assert(stream[n - 1].meta.links(stream[n - 2].meta));
        lemma_chain_ends_at_gap(received, stream, (n - 1) as nat);
    }
}

impl<A> ReplicaState<A> {
    /// Of the messages of `stream`, numbered from one, those with a number in
    /// `delivered` have a place, and those that still wait to be vouched for
    /// wait for a successor that is not authentic yet.
    spec fn gathers(self, stream: Seq<VerifiedOrderedMulticast>, delivered: Set<u32>) -> bool {
        let authentic = delivered.difference(self.received.dom());
        &&& self.places(seq![], 1, stream, authentic)
        &&& forall|k: u32| #[trigger]
            self.received.contains_key(k) ==> {
                &&& delivered.contains(k)
                &&& 1 <= k <= stream.len()
                &&& self.received[k] == stream[k - 1]
                &&& stream[k - 1].status != Status::Signed
                &&& !authentic.contains((k + 1) as u32)
            }
    }

    proof fn lemma_accepted_gathers(
        self,
        stream: Seq<VerifiedOrderedMulticast>,
        delivered: Set<u32>,
        n: u32,
    )
        requires
            self.gathers(stream, delivered),
            is_chain(stream),
            forall|i: int|
                0 <= i < stream.len() ==> (#[trigger] stream[i]).meta.sequence_number == 1 + i,
            1 <= n <= stream.len() < u32::MAX,
            !delivered.contains(n),
        ensures
            self.accepted(1, stream[n - 1]).gathers(stream, delivered.insert(n)),
    {
        let message = stream[n - 1];
        let vouched = self.vouched(message.meta);
        let from = n - vouched.len() - 1;
        let settled = self.settled_below(message.meta);
        let authentic = delivered.difference(self.received.dom());
        let admitted = self.admitted(message);
        lemma_linked_below(self.received, message.meta, n as nat);
        lemma_chain_ends_at_gap(self.received, stream, n as nat);
        assert(0 <= from) by {
            if vouched.len() == n {
                assert(self.received.contains_key(0));
            }
        }
        assert forall|i: int| 0 <= i < admitted.len() implies #[trigger] admitted[i] == stream[from
            + i] by {
            if i < vouched.len() {
                let k = (n - vouched.len() + i) as u32;
                assert(admitted[i] == vouched[i]);
                assert(self.received.contains_key(k));
            }
        }
        assert(admitted =~= stream.subrange(from, n as int));
        assert forall|k: u32| 1 + from <= k < 1 + n implies !#[trigger] authentic.contains(k) by {
            if k < n {
                assert(self.received.contains_key(k));
            }
        }
        assert(settled.places(seq![], 1, stream, authentic));
        settled.lemma_inserted_stretch_places(
            1,
            seq![],
            1,
            stream,
            authentic,
            from,
            n as int,
        );
        settled.lemma_inserted_all_holds(1, admitted);
        let after = self.accepted(1, message);
        let entered = Set::new(|k: u32| 1 + from <= k < 1 + n);
        assert(delivered.insert(n).difference(after.received.dom()) =~= authentic.union(entered))
            by {
            assert forall|k: u32|
                delivered.insert(n).difference(after.received.dom()).contains(k)
                    == #[trigger] authentic.union(entered).contains(k) by {
                if 1 + from <= k < n {
                    assert(self.received.contains_key(k));
                }
            }
        }
        assert forall|k: u32| #[trigger] after.received.contains_key(k) implies {
            &&& delivered.insert(n).contains(k)
            &&& 1 <= k <= stream.len()
            &&& after.received[k] == stream[k - 1]
            &&& stream[k - 1].status != Status::Signed
            &&& !authentic.union(entered).contains((k + 1) as u32)
        } by {
            assert(self.received.contains_key(k));
        }
    }

    proof fn lemma_handled_gathers(
        self,
        stream: Seq<VerifiedOrderedMulticast>,
        delivered: Set<u32>,
        n: u32,
        remote: A,
    )
        requires
            self.gathers(stream, delivered),
            is_chain(stream),
            forall|i: int|
                0 <= i < stream.len() ==> (#[trigger] stream[i]).meta.sequence_number == 1 + i,
            1 <= n <= stream.len() < u32::MAX,
            !delivered.contains(n),
        ensures
            self.handled(1, remote, stream[n - 1]).gathers(stream, delivered.insert(n)),
    {
        let message = stream[n - 1];
        let noted = self.noted(remote, message);
        let authentic = delivered.difference(self.received.dom());
        assert(noted.gathers(stream, delivered));
        assert(!authentic.contains(n));
        assert(self.log.len() < n);
        if message.status == Status::Signed {
            noted.lemma_accepted_gathers(stream, delivered, n);
        } else if self.verified.contains_key((n + 1) as u32) {
            assert(self.verified[(n + 1) as u32] == stream[n as int]);
            assert(stream[n as int].meta.links(stream[n - 1].meta));
            noted.lemma_accepted_gathers(stream, delivered, n);
        } else {
            let after = self.handled(1, remote, message);
            assert(after.received == self.received.insert(n, message));
            assert(!authentic.contains((n + 1) as u32));
            assert(delivered.insert(n).difference(after.received.dom()) =~= authentic);
            assert forall|k: u32| #[trigger] after.received.contains_key(k) implies {
                &&& delivered.insert(n).contains(k)
                &&& 1 <= k <= stream.len()
                &&& after.received[k] == stream[k - 1]
                &&& stream[k - 1].status != Status::Signed
                &&& !authentic.contains((k + 1) as u32)
            } by {
                if k != n {
                    assert(self.received.contains_key(k));
                }
            }
        }
    }

    /// Once all is delivered and the last message is signed, nothing waits to
    /// be vouched for.
    proof fn lemma_nothing_received_is_left(
        self,
        stream: Seq<VerifiedOrderedMulticast>,
        delivered: Set<u32>,
        n: u32,
    )
        requires
            self.gathers(stream, delivered),
            stream.len() < u32::MAX,
            stream.last().status == Status::Signed,
            forall|k: u32| 1 <= k <= stream.len() ==> #[trigger] delivered.contains(k),
            1 <= n <= stream.len(),
        ensures
            !self.received.contains_key(n),
        decreases stream.len() - n,
    {
        if n < stream.len() {
            self.lemma_nothing_received_is_left(stream, delivered, (n + 1) as u32);
            assert(delivered.contains((n + 1) as u32));
        }
    }
}

proof fn lemma_deliveries<A>(
    stream: Seq<VerifiedOrderedMulticast>,
    order: Seq<int>,
    remotes: Seq<A>,
)
    requires
        is_chain(stream),
        forall|i: int|
            0 <= i < stream.len() ==> (#[trigger] stream[i]).meta.sequence_number == 1 + i,
        stream.len() < u32::MAX,
        order.no_duplicates(),
        forall|i: int| 0 <= i < order.len() ==> 0 <= #[trigger] order[i] < stream.len(),
    ensures
        ReplicaState::<A>::initial().ran(deliveries(stream, order, remotes)).gathers(
            stream,
            numbers(order, 1),
        ),
        ReplicaState::<A>::initial().allows_all(deliveries(stream, order, remotes)),
    decreases order.len(),
{
    let initial = ReplicaState::<A>::initial();
    let steps = deliveries(stream, order, remotes);
    if order.len() == 0 {
        assert(initial.log + stream.take(0) =~= initial.log);
        assert(initial.ran(steps) == initial);
        assert(initial.log =~= Seq::<VerifiedOrderedMulticast>::empty() + stream.take(0));
    } else {
        let earlier = order.drop_last();
        let n = (1 + order.last()) as u32;
        assert(order.last() == order[order.len() - 1]);
        assert forall|i: int| 0 <= i < earlier.len() implies 0 <= #[trigger] earlier[i]
            < stream.len() by {
            assert(earlier[i] == order[i]);
        }
        lemma_deliveries(stream, earlier, remotes);
        assert(steps.drop_last() =~= deliveries(stream, earlier, remotes));
        lemma_numbers_grow(order, 1);
        initial.ran(steps.drop_last()).lemma_handled_gathers(
            stream,
            numbers(earlier, 1),
            n,
            remotes[order.len() - 1],
        );
    }
}

/// Messages 1 to n of which each names the one before it and the last one is
/// signed leave a fresh replica with exactly these messages in its log, in
/// order, and nothing waiting, in whatever order they are delivered.
pub proof fn law_vouched_messages_in_any_order<A>(
    stream: Seq<VerifiedOrderedMulticast>,
    order: Seq<int>,
    remotes: Seq<A>,
)
    requires
        is_chain(stream),
        forall|i: int|
            0 <= i < stream.len() ==> (#[trigger] stream[i]).meta.sequence_number == 1 + i,
        0 < stream.len() < u32::MAX,
        stream.last().status == Status::Signed,
        is_order(order, stream.len()),
    ensures
        ({
            let after = ReplicaState::<A>::initial().ran(deliveries(stream, order, remotes));
            &&& ReplicaState::<A>::initial().allows_all(deliveries(stream, order, remotes))
            &&& after.log == stream
            &&& after.op_number == stream.len()
            &&& after.received == Map::<u32, VerifiedOrderedMulticast>::empty()
            &&& after.verified == Map::<u32, VerifiedOrderedMulticast>::empty()
        }),
{
    let after = ReplicaState::<A>::initial().ran(deliveries(stream, order, remotes));
    let delivered = numbers(order, 1);
    assert forall|i: int| 0 <= i < order.len() implies 0 <= #[trigger] order[i] < stream.len() by {
        assert(order.contains(order[i]));
    }
    lemma_deliveries(stream, order, remotes);
    assert forall|k: u32| 1 <= k <= stream.len() implies #[trigger] delivered.contains(k) by {
        assert(order.contains(k - 1));
    }
    assert forall|k: u32| !#[trigger] after.received.contains_key(k) by {
        if after.received.contains_key(k) {
            after.lemma_nothing_received_is_left(stream, delivered, k);
        }
    }
    assert(after.received =~= Map::empty());
    let logged = after.log.len() as int;
    if logged < stream.len() {
        assert(delivered.difference(after.received.dom()).contains((1 + logged) as u32));
    }
    assert(after.log =~= stream);
    assert(after.verified =~= Map::empty());
}

} // verus!
