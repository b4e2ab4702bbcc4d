use crate::aux_types::TxId;
use crate::hashed_order::hash_key;
use crate::hashed_order::hashed_key;
use crate::hashed_order::ranks_before;
use std::cmp::Ordering;
use vstd::prelude::*;
use vstd::std_specs::cmp::PartialOrdSpec;
use vstd::std_specs::cmp::PartialOrdSpecImpl;

verus! {

/// A transaction identifier together with the random number it is hashed
/// with. Such values are ordered by their key; between equal keys by the
/// identifier, and then by the random number.
#[derive(Clone, Copy, PartialEq, Eq, Structural, Debug)]
pub struct HashedTxId {
    pub id: TxId,
    pub random_number: u32,
}

impl HashedTxId {
    /// The key by which the transaction is ordered.
    pub fn key(&self) -> (key: u64)
        ensures
            key == hash_key(self.id, self.random_number),
    {
        hashed_key(self.id, self.random_number)
    }

    /// Under one random number the order of the hashed identifiers is the
    /// ascending order of the round.
    pub proof fn lemma_less_is_ranks_before(a: HashedTxId, b: HashedTxId)
        requires
            a.random_number == b.random_number,
        ensures
            PartialOrdSpec::partial_cmp_spec(&a, &b) == Some(Ordering::Less) <==> ranks_before(
                a.random_number,
                false,
                a.id,
                b.id,
            ),
    {
    }
}

impl PartialOrdSpecImpl for HashedTxId {
    open spec fn obeys_partial_cmp_spec() -> bool {
        true
    }

    open spec fn partial_cmp_spec(&self, other: &HashedTxId) -> Option<Ordering> {
        let mine = hash_key(self.id, self.random_number);
        let theirs = hash_key(other.id, other.random_number);
        if mine < theirs {
            Some(Ordering::Less)
        } else if mine > theirs {
            Some(Ordering::Greater)
        } else if self.id.0 < other.id.0 {
            Some(Ordering::Less)
        } else if self.id.0 > other.id.0 {
            Some(Ordering::Greater)
        } else if self.random_number < other.random_number {
            Some(Ordering::Less)
        } else if self.random_number > other.random_number {
            Some(Ordering::Greater)
        } else {
            Some(Ordering::Equal)
        }
    }
}

impl PartialOrd for HashedTxId {
    fn partial_cmp(&self, other: &HashedTxId) -> (order: Option<Ordering>) {
        let mine = self.key();
        let theirs = other.key();
        if mine < theirs {
            Some(Ordering::Less)
        } else if mine > theirs {
            Some(Ordering::Greater)
        } else if self.id.0 < other.id.0 {
            Some(Ordering::Less)
        } else if self.id.0 > other.id.0 {
            Some(Ordering::Greater)
        } else if self.random_number < other.random_number {
            Some(Ordering::Less)
        } else if self.random_number > other.random_number {
            Some(Ordering::Greater)
        } else {
            Some(Ordering::Equal)
        }
    }
}

} // verus!
