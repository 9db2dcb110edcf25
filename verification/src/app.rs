//! The replicated application.

use vstd::prelude::*;

use crate::common::{Opaque, OpNumber};

verus! {

/// One operation that an application carried out, and what it answered.
pub struct Execution {
    pub op_number: OpNumber,
    pub op: Seq<u8>,
    pub result: Seq<u8>,
}

/// A state machine that replicas drive: implementations carry out operations
/// one after another, in the order of the log.
///
/// `history` is the trace of the calls so far. It exists for contracts only,
/// so an implementation outside of proofs leaves it out, and it says nothing
/// of how a result comes about.
pub trait App {
    closed spec fn history(&self) -> Seq<Execution> {
        arbitrary()
    }

    fn execute(&mut self, op_number: OpNumber, op: Opaque) -> (result: Opaque)
        ensures
            final(self).history() == old(self).history().push(
                (Execution { op_number, op: op@, result: result@ }),
            ),
    ;
}

} // verus!
