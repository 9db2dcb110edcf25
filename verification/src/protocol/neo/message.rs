//! Messages of the ordered multicast protocol.

use vstd::prelude::*;

use crate::common::{ClientId, Digest, OpNumber, Opaque, ReplicaId, RequestNumber, ViewNumber};

verus! {

/// A client's request.
#[derive(Debug)]
pub struct Request {
    pub client_id: ClientId,
    pub request_number: RequestNumber,
    pub op: Opaque,
}

/// A request that the network put in order.
///
/// `linked` is the digest of the preceding message, so one authentic message
/// vouches for its whole past. `digest` is the digest of this message.
#[derive(Debug)]
pub struct OrderedMulticast {
    pub sequence_number: u32,
    pub linked: Digest,
    pub digest: Digest,
    pub request: Request,
}

/// How a received message has been authenticated so far.
#[derive(Clone, Copy, Debug, PartialEq, Eq, Structural)]
pub enum Status {
    /// Its own signature was checked.
    Signed,
    /// It carries no signature: only a successor can vouch for it.
    Unsigned,
    /// It may carry a signature, which was not looked at.
    Skipped,
}

/// A message that may enter the replica, with what is known of its origin.
#[derive(Debug)]
pub struct VerifiedOrderedMulticast {
    pub meta: OrderedMulticast,
    pub status: Status,
}

/// The digest in a message does not match its predecessor.
#[derive(Debug)]
pub struct BrokenChain {}

impl OrderedMulticast {
    /// This message names `parent` as its predecessor.
    pub open spec fn links(self, parent: OrderedMulticast) -> bool {
        self.linked@ == parent.digest@
    }

    /// Lets this message vouch for the message before it.
    pub fn verify_parent(&self, parent: VerifiedOrderedMulticast) -> (verified: Result<
        VerifiedOrderedMulticast,
        BrokenChain,
    >)
        ensures
            verified is Ok <==> self.links(parent.meta),
            verified is Ok <==> self.linked@ == parent.meta.digest@,
            verified matches Ok(message) ==> message == parent,
    {
        if self.linked.same_as(&parent.meta.digest) {
            Ok(parent)
        } else {
            Err(BrokenChain {  })
        }
    }

    /// Admits the message without looking at its signature.
    pub fn skip_verify(self) -> (verified: VerifiedOrderedMulticast)
        ensures
            verified == (VerifiedOrderedMulticast { meta: self, status: Status::Skipped }),
    {
        VerifiedOrderedMulticast { meta: self, status: Status::Skipped }
    }
}

/// A replica's answer to a request.
#[derive(Debug)]
pub struct Reply {
    pub view_number: ViewNumber,
    pub replica_id: ReplicaId,
    pub op_number: OpNumber,
    pub log_hash: Digest,
    pub request_number: RequestNumber,
    pub result: Opaque,
}

/// The contents of a [`Reply`].
pub struct ReplyView {
    pub view_number: ViewNumber,
    pub replica_id: ReplicaId,
    pub op_number: OpNumber,
    pub log_hash: Seq<u8>,
    pub request_number: RequestNumber,
    pub result: Seq<u8>,
}

impl View for Reply {
    type V = ReplyView;

    open spec fn view(&self) -> ReplyView {
        ReplyView {
            view_number: self.view_number,
            replica_id: self.replica_id,
            op_number: self.op_number,
            log_hash: self.log_hash@,
            request_number: self.request_number,
            result: self.result@,
        }
    }
}

/// A reply with the replica's signature.
#[derive(Debug)]
pub struct SignedReply {
    pub reply: Reply,
    pub signature: Vec<u8>,
}

/// The contents of a [`SignedReply`].
pub struct SignedReplyView {
    pub reply: ReplyView,
    pub signature: Seq<u8>,
}

impl View for SignedReply {
    type V = SignedReplyView;

    open spec fn view(&self) -> SignedReplyView {
        SignedReplyView { reply: self.reply@, signature: self.signature@ }
    }
}

impl Clone for SignedReply {
    fn clone(&self) -> (copy: Self)
        ensures
            copy@ == self@,
            copy.signature@ == self.signature@,
            copy.reply.view_number == self.reply.view_number,
            copy.reply.replica_id == self.reply.replica_id,
            copy.reply.op_number == self.reply.op_number,
            copy.reply.log_hash@ == self.reply.log_hash@,
            copy.reply.request_number == self.reply.request_number,
            copy.reply.result@ == self.reply.result@,
    {
        let reply = Reply {
            view_number: self.reply.view_number,
            replica_id: self.reply.replica_id,
            op_number: self.reply.op_number,
            log_hash: self.reply.log_hash,
            request_number: self.reply.request_number,
            result: self.reply.result.clone(),
        };
        let signature = self.signature.clone();
        assert(reply.result@ =~= self.reply.result@);
        assert(signature@ =~= self.signature@);
        SignedReply { reply, signature }
    }
}

/// The key with which a replica checks the multicast.
#[derive(Debug)]
pub enum MulticastVerifyingKey<M> {
    /// A public key: checking a signature is expensive.
    PublicKey(M),
    /// A secret that the replica shares with the network: checking is cheap.
    HMac(M),
}

/// A message names just the messages that carry one digest: whatever else two
/// messages differ in, it names both or neither if they have the same digest,
/// and never both if they do not. Every digest can be named.
pub proof fn law_link_names_one_digest(
    child: OrderedMulticast,
    a: OrderedMulticast,
    b: OrderedMulticast,
)
    ensures
        child.links(a) && child.links(b) ==> a.digest@ == b.digest@,
        child.links(a) && a.digest@ == b.digest@ ==> child.links(b),
        (OrderedMulticast { linked: a.digest, ..child }).links(a),
{
}

} // verus!
