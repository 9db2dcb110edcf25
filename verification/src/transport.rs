//! The network as the protocols see it. Transports are implemented elsewhere.

use std::hash::Hash;
use vstd::prelude::*;

use crate::common::ReplicaId;
use crate::config::Config;

verus! {

/// A network.
pub trait Transport where Self: 'static {
    type Address: Clone + Eq + Hash + Send + Sync;

    /// A received message, as bytes.
    type RxBuffer: Send;

    type SigningKey;

    /// Agents are shared between threads, so they have to be `Sync`.
    type TxAgent: TxAgent<Address = Self::Address, SigningKey = Self::SigningKey> + Clone + Send + Sync;

    /// An agent that sends messages.
    fn tx_agent(&self) -> Self::TxAgent;

    /// Lets `rx_agent` have the messages for `receiver`.
    fn register(
        &mut self,
        receiver: &impl Receiver<Self::Address>,
        rx_agent: impl Fn(Self::Address, Self::RxBuffer) + 'static + Send,
    ) where Self: Sized;

    /// Lets `rx_agent` have the messages for everybody.
    fn register_multicast(
        &mut self,
        rx_agent: impl Fn(Self::Address, Self::RxBuffer) + 'static + Send,
    );

    /// An address that nobody uses yet.
    fn ephemeral_address(&self) -> Self::Address;
}

/// Something that messages can be addressed to.
///
/// `address` exists for contracts only.
pub trait Receiver<A> {
    closed spec fn address(&self) -> A {
        arbitrary()
    }

    fn get_address(&self) -> (address: &A)
        ensures
            *address == self.address(),
    ;
}

/// Sends messages over a network.
///
/// A message is a function that writes itself into a buffer and returns its
/// length. `sends` says that a message was handed to the network. Like
/// `configuration`, it exists for contracts only.
pub trait TxAgent {
    type Address;

    type SigningKey;

    closed spec fn configuration(&self) -> Config<Self::Address, Self::SigningKey> {
        arbitrary()
    }

    closed spec fn sends<M>(
        &self,
        source: Self::Address,
        dest: Self::Address,
        message: M,
    ) -> bool {
        arbitrary()
    }

    fn config(&self) -> (config: &Config<Self::Address, Self::SigningKey>)
        ensures
            *config == self.configuration(),
    ;

    /// Sends `message` to `dest`.
    fn send_message<R: Receiver<Self::Address>, M: FnOnce(&mut [u8]) -> u16>(
        &self,
        source: &R,
        dest: &Self::Address,
        message: M,
    )
        ensures
            self.sends(source.address(), *dest, message),
    ;

    /// Sends `message` to replica `replica_id`.
    fn send_message_to_replica<R: Receiver<Self::Address>, M: FnOnce(&mut [u8]) -> u16>(
        &self,
        source: &R,
        replica_id: ReplicaId,
        message: M,
    )
        requires
            replica_id < self.configuration().replica_address.len(),
        ensures
            self.sends(
                source.address(),
                self.configuration().replica_address[replica_id as int],
                message,
            ),
    {
        self.send_message(source, self.config().replica(replica_id), message)
    }

    /// Sends `message` to all replicas.
    fn send_message_to_all<R: Receiver<Self::Address>, M: FnOnce(&mut [u8]) -> u16>(
        &self,
        source: &R,
        message: M,
    );

    /// Sends `message` to the address that reaches everybody.
    fn send_message_to_multicast<R: Receiver<Self::Address>, M: FnOnce(&mut [u8]) -> u16>(
        &self,
        source: &R,
        message: M,
    )
        requires
            self.configuration().multicast_address is Some,
        ensures
            self.sends(
                source.address(),
                self.configuration().multicast_address->0,
                message,
            ),
    {
        match &self.config().multicast_address {
            Some(address) => self.send_message(source, address, message),
            None => {},
        }
    }
}

} // verus!
