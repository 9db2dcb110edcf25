//! Messages of the speculative protocol that a client sends and receives.

use vstd::prelude::*;

use crate::common::{ClientId, Opaque, RequestNumber, ViewNumber};

verus! {

/// A client's request.
#[derive(Debug)]
pub struct Request {
    pub op: Opaque,
    pub request_number: RequestNumber,
    pub client_id: ClientId,
}

/// What a replica says of a request that it executed speculatively.
#[derive(Clone, Copy, Debug)]
pub struct SpeculativeResponse {
    pub view_number: ViewNumber,
    pub request_number: RequestNumber,
}

} // verus!
