//! A message as the store hands it out.

use vstd::prelude::*;

verus! {

/// A message of the store: the id that the store gave it, and what was pushed.
#[derive(Debug)]
pub struct Message {
    /// Where the message stands in the store.
    pub id: u64,
    /// The bytes that were pushed.
    pub body: Vec<u8>,
}

impl Message {
    /// Where the message stands in the store.
    pub fn id(&self) -> (id: u64)
        ensures
            id == self.id,
    {
        self.id
    }

    /// The bytes that were pushed.
    pub fn body(&self) -> (body: &[u8])
        ensures
            body@ == self.body@,
    {
        self.body.as_slice()
    }
}

} // verus!
