//! The round-data store: an owned value holding the current generation of
//! round records. A refresh builds a whole new generation elsewhere and
//! swaps it in with `replace`; a `snapshot` is exactly the current
//! generation, so a reader never sees records of two generations mixed. The
//! lock that serialises readers and the swap wraps this store outside the
//! verified core; the store itself shows that the only mutation is the
//! wholesale swap.

use vstd::prelude::*;

use crate::api::structs::RoundTreeData;

verus! {

/// The store of the most recently computed per-round records.
pub struct RoundDataCache {
    pub rounds: Vec<RoundTreeData>,
}

impl RoundDataCache {
    /// An empty store: no refresh has happened yet.
    pub fn new() -> (r: RoundDataCache)
        ensures
            r.rounds@.len() == 0,
    {
        RoundDataCache { rounds: Vec::new() }
    }

    /// The atomic swap of a refresh: afterwards the store holds exactly the
    /// new generation — every record of it, and nothing of the old one.
    pub fn replace(&mut self, new_rounds: Vec<RoundTreeData>)
        ensures
            final(self).rounds@ == new_rounds@,
    {
        self.rounds = new_rounds;
    }

    /// The current generation, whole: what every query reads from.
    pub fn snapshot(&self) -> (r: &Vec<RoundTreeData>)
        ensures
            r@ == self.rounds@,
    {
        &self.rounds
    }
}

} // verus!
