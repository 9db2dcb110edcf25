//! The part of a replica that keeps no state of its own: it decides how much
//! trouble to take over the signature of a message before the message may
//! enter the replica.

use vstd::prelude::*;

use crate::common::ReplicaId;
use crate::config::Config;
use crate::protocol::neo::message::{
    MulticastVerifyingKey, OrderedMulticast, Status, VerifiedOrderedMulticast,
};
use crate::transport::Receiver;

verus! {

/// What the parts of a replica that keep no state work with.
#[derive(Debug)]
pub struct Shared<A, K, M> {
    config: Config<A, K>,
    id: ReplicaId,
    multicast_key: MulticastVerifyingKey<M>,
    skip_size: u32,
}

/// The sequence numbers that a replica has come across.
#[derive(Clone, Copy, Debug, PartialEq, Eq)]
pub struct SequenceWindow {
    /// The smallest one received.
    pub sequence_start: u32,
    /// The greatest one with a good signature.
    pub max_signed: u32,
}

/// What is to be done about the signature of a message.
#[derive(Debug)]
pub enum Receipt {
    /// Nothing: the message goes on with its signature unchecked.
    Skipped(VerifiedOrderedMulticast),
    /// It has to be checked with the multicast key.
    Check(OrderedMulticast),
}

/// The outcome of checking a message with the multicast key.
#[derive(Clone, Copy, Debug, PartialEq, Eq, Structural)]
pub enum Authentication {
    /// The signature is good.
    Signed,
    /// There is no signature.
    Unsigned,
    /// The message is not authentic.
    Rejected,
}

impl SequenceWindow {
    /// Nothing was received yet.
    pub fn new() -> (window: Self)
        ensures
            window == (SequenceWindow { sequence_start: u32::MAX, max_signed: 0 }),
    {
        SequenceWindow { sequence_start: u32::MAX, max_signed: 0 }
    }

    /// The window after a message with this sequence number was received.
    pub open spec fn received(self, sequence_number: u32) -> Self {
        SequenceWindow {
            sequence_start: if sequence_number < self.sequence_start {
                sequence_number
            } else {
                self.sequence_start
            },
            ..self
        }
    }

    /// The window after the signature of such a message was found good.
    pub open spec fn signed(self, sequence_number: u32) -> Self {
        SequenceWindow {
            max_signed: if sequence_number > self.max_signed {
                sequence_number
            } else {
                self.max_signed
            },
            ..self
        }
    }
}

impl<A, K, M> Shared<A, K, M> {
    pub closed spec fn cluster(&self) -> Config<A, K> {
        self.config
    }

    pub closed spec fn replica_id(&self) -> ReplicaId {
        self.id
    }

    pub closed spec fn key(&self) -> MulticastVerifyingKey<M> {
        self.multicast_key
    }

    /// How far behind the newest good signature a signature is not worth
    /// checking.
    pub closed spec fn skipped_distance(&self) -> u32 {
        self.skip_size
    }

    #[verifier::type_invariant]
    spec fn replica_is_configured(self) -> bool {
        self.id < self.config.replica_address.len()
    }

    /// The signature of a message with this sequence number is not worth
    /// checking: checking is expensive, and newer good signatures are at hand
    /// or will soon be.
    pub open spec fn skips(&self, window: SequenceWindow, sequence_number: u32) -> bool {
        &&& self.key() is PublicKey
        &&& sequence_number <= window.max_signed + self.skipped_distance()
    }

    pub fn new(
        config: Config<A, K>,
        id: ReplicaId,
        multicast_key: MulticastVerifyingKey<M>,
        skip_size: u32,
    ) -> (shared: Self)
        requires
            id < config.replica_address.len(),
        ensures
            shared.cluster() == config,
            shared.replica_id() == id,
            shared.key() == multicast_key,
            shared.skipped_distance() == skip_size,
    {
        Shared { config, id, multicast_key, skip_size }
    }

    /// The replica's own id.
    pub fn id(&self) -> (id: ReplicaId)
        ensures
            id == self.replica_id(),
    {
        self.id
    }

    /// The cluster.
    pub fn config(&self) -> (config: &Config<A, K>)
        ensures
            *config == self.cluster(),
    {
        &self.config
    }

    /// The key that checks the multicast.
    pub fn multicast_key(&self) -> (key: &MulticastVerifyingKey<M>)
        ensures
            *key == self.key(),
    {
        &self.multicast_key
    }

    /// How far behind the newest good signature checking is skipped.
    pub fn skip_size(&self) -> (skip_size: u32)
        ensures
            skip_size == self.skipped_distance(),
    {
        self.skip_size
    }

    /// Notes that a message was received and decides whether its signature
    /// has to be checked.
    pub fn receive_multicast(
        &self,
        window: &mut SequenceWindow,
        multicast: OrderedMulticast,
    ) -> (receipt: Receipt)
        requires
            self.key() is PublicKey ==> old(window).max_signed + self.skipped_distance()
                <= u32::MAX,
        ensures
            *final(window) == old(window).received(multicast.sequence_number),
            final(window).sequence_start <= multicast.sequence_number,
            receipt == if self.skips(*old(window), multicast.sequence_number) {
                Receipt::Skipped(
                    VerifiedOrderedMulticast { meta: multicast, status: Status::Skipped },
                )
            } else {
                Receipt::Check(multicast)
            },
            receipt is Skipped <==> self.key() is PublicKey && multicast.sequence_number <= old(
                window,
            ).max_signed + self.skipped_distance(),
            final(window).max_signed == old(window).max_signed,
            final(window).sequence_start <= old(window).sequence_start,
    {
        if multicast.sequence_number < window.sequence_start {
            window.sequence_start = multicast.sequence_number;
        }
        if let MulticastVerifyingKey::PublicKey(_) = &self.multicast_key {
            if window.max_signed + self.skip_size >= multicast.sequence_number {
                return Receipt::Skipped(multicast.skip_verify());
            }
        }
        Receipt::Check(multicast)
    }

    /// Takes up a message whose signature was checked: what may enter the
    /// replica, if anything.
    pub fn conclude_multicast(
        &self,
        window: &mut SequenceWindow,
        multicast: OrderedMulticast,
        authentication: Authentication,
    ) -> (verified: Option<VerifiedOrderedMulticast>)
        ensures
            *final(window) == if authentication == Authentication::Signed {
                old(window).signed(multicast.sequence_number)
            } else {
                *old(window)
            },
            verified == match authentication {
                Authentication::Signed => Some(
                    VerifiedOrderedMulticast { meta: multicast, status: Status::Signed },
                ),
                Authentication::Unsigned => Some(
                    VerifiedOrderedMulticast { meta: multicast, status: Status::Unsigned },
                ),
                Authentication::Rejected => None,
            },
            final(window).sequence_start == old(window).sequence_start,
            final(window).max_signed >= old(window).max_signed,
            authentication == Authentication::Signed ==> final(window).max_signed
                >= multicast.sequence_number,
    {
        match authentication {
            Authentication::Signed => {
                if multicast.sequence_number > window.max_signed {
                    window.max_signed = multicast.sequence_number;
                }
                Some(VerifiedOrderedMulticast { meta: multicast, status: Status::Signed })
            },
            Authentication::Unsigned => Some(
                VerifiedOrderedMulticast { meta: multicast, status: Status::Unsigned },
            ),
            Authentication::Rejected => None,
        }
    }
}

impl<A, K, M> Receiver<A> for Shared<A, K, M> {
    open spec fn address(&self) -> A {
        self.cluster().replica_address[self.replica_id() as int]
    }

    fn get_address(&self) -> (address: &A) {
        proof {
            use_type_invariant(self);
        }
        self.config.replica(self.id)
    }
}

/// A signature is skipped only with a public key, and then exactly for the
/// sequence numbers up to the newest good signature and the skipped distance
/// beyond it. Whatever lies further ahead has to be checked, also while no
/// signature was found good yet.
pub proof fn law_signatures_ahead_are_checked<A, K, M>(
    shared: Shared<A, K, M>,
    window: SequenceWindow,
    sequence_number: u32,
)
    ensures
        shared.key() is HMac ==> !shared.skips(window, sequence_number),
        sequence_number > window.max_signed + shared.skipped_distance() ==> !shared.skips(
            window,
            sequence_number,
        ),
        shared.key() is PublicKey && sequence_number <= window.max_signed
            + shared.skipped_distance() ==> shared.skips(window, sequence_number),
{
}

/// Once the signature of a message was found good, the signatures of all
/// messages up to the skipped distance beyond it are skipped with a public
/// key, in whatever window. A message skipped once is skipped from then on.
pub proof fn law_good_signature_spares_others<A, K, M>(
    shared: Shared<A, K, M>,
    window: SequenceWindow,
    signed: u32,
    received: u32,
    sequence_number: u32,
)
    requires
        shared.key() is PublicKey,
    ensures
        sequence_number <= signed + shared.skipped_distance() ==> shared.skips(
            window.signed(signed),
            sequence_number,
        ),
        shared.skips(window, sequence_number) ==> shared.skips(
            window.signed(signed).received(received),
            sequence_number,
        ),
        shared.skips(window.received(received), sequence_number) == shared.skips(
            window,
            sequence_number,
        ),
{
}

/// Receiving a message makes the first sequence number the smaller of the two
/// and leaves the newest good signature; finding a signature good makes that
/// the greater of the two and leaves the first sequence number.
pub proof fn law_window_moves(window: SequenceWindow, sequence_number: u32)
    ensures
        ({
            let after = window.received(sequence_number);
            &&& after.sequence_start == vstd::math::min(
                window.sequence_start as int,
                sequence_number as int,
            )
            &&& after.max_signed == window.max_signed
        }),
        ({
            let after = window.signed(sequence_number);
            &&& after.max_signed == vstd::math::max(
                window.max_signed as int,
                sequence_number as int,
            )
            &&& after.sequence_start == window.sequence_start
        }),
{
}

/// Something that moves a window: a message is received, or its signature is
/// found good.
pub enum Sighting {
    Received(u32),
    Signed(u32),
}

impl SequenceWindow {
    /// `sightings` happen one after another.
    pub open spec fn after(self, sightings: Seq<Sighting>) -> Self
        decreases sightings.len(),
    {
        if sightings.len() == 0 {
            self
        } else {
            match sightings.last() {
                Sighting::Received(n) => self.after(sightings.drop_last()).received(n),
                Sighting::Signed(n) => self.after(sightings.drop_last()).signed(n),
            }
        }
    }
}

/// The window has the smallest sequence number ever received and the greatest
/// one whose signature was found good, counting those that it started with.
pub proof fn law_window_has_extremes(window: SequenceWindow, sightings: Seq<Sighting>)
    ensures
        ({
            let after = window.after(sightings);
            &&& after.sequence_start <= window.sequence_start
            &&& window.max_signed <= after.max_signed
            &&& forall|i: int|
                0 <= i < sightings.len() ==> match #[trigger] sightings[i] {
                    Sighting::Received(n) => after.sequence_start <= n,
                    Sighting::Signed(n) => n <= after.max_signed,
                }
            &&& after.sequence_start == window.sequence_start || sightings.contains(
                Sighting::Received(after.sequence_start),
            )
            &&& after.max_signed == window.max_signed || sightings.contains(
                Sighting::Signed(after.max_signed),
            )
        }),
    decreases sightings.len(),
{
    if sightings.len() > 0 {
        let earlier = sightings.drop_last();
        let before = window.after(earlier);
        let after = window.after(sightings);
        law_window_has_extremes(window, earlier);
        assert(sightings[sightings.len() - 1] == sightings.last());
        assert forall|i: int| 0 <= i < sightings.len() implies match #[trigger] sightings[i] {
            Sighting::Received(n) => after.sequence_start <= n,
            Sighting::Signed(n) => n <= after.max_signed,
        } by {
            if i < earlier.len() {
                assert(earlier[i] == sightings[i]);
            }
        }
        let start = Sighting::Received(before.sequence_start);
        let signed = Sighting::Signed(before.max_signed);
        if earlier.contains(start) {
            let i = choose|i: int| 0 <= i < earlier.len() && earlier[i] == start;
            assert(sightings[i] == start);
        }
        if earlier.contains(signed) {
            let i = choose|i: int| 0 <= i < earlier.len() && earlier[i] == signed;
            assert(sightings[i] == signed);
        }
    }
}

} // verus!
