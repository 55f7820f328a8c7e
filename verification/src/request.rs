use vstd::prelude::*;

use crate::resp::RESP;

verus! {

/// A request of a client: the value it sent, and where the answer goes.
#[derive(Debug)]
pub struct Request<S> {
    pub value: RESP,
    pub sender: S,
}

} // verus!
