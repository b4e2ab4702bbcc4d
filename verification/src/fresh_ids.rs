use crate::aux_types::NodeId;
use crate::aux_types::TxId;
use crate::entropy::random_u32;
use vstd::prelude::*;
use vstd::set_lib::lemma_len_subset;

verus! {

/// How far `value` lies from `start`, counting upwards and going round
/// from the largest 32-bit number to zero.
pub open spec fn steps_from(start: u32, value: u32) -> int {
    if value >= start {
        value - start
    } else {
        value + 0x1_0000_0000 - start
    }
}

fn holds(used: &Vec<u32>, value: u32) -> (b: bool)
    ensures
        b == used@.contains(value),
{
    let mut i: usize = 0;
    while i < used.len()
        invariant
            i <= used@.len(),
            forall|j: int| 0 <= j < i ==> used@[j] != value,
        decreases used@.len() - i,
    {
        if used[i] == value {
            return true;
        }
        i += 1;
    }
    false
}

/// The first number, counting upwards from `start` and going round, that is
/// not among the used ones. There is one as long as fewer than 2^32
/// numbers are used.
pub fn unused_from(used: &Vec<u32>, start: u32) -> (fresh: u32)
    requires
        used@.len() < 0x1_0000_0000,
    ensures
        !used@.contains(fresh),
        forall|v: u32| steps_from(start, v) < steps_from(start, fresh) ==> used@.contains(v),
{
    let mut candidate: u32 = start;
    let ghost mut steps: int = 0;
    let ghost mut seen: Set<u32> = Set::empty();
    while holds(used, candidate)
        invariant
            used@.len() < 0x1_0000_0000,
            0 <= steps <= used@.len(),
            steps_from(start, candidate) == steps,
            seen.finite(),
            seen.len() == steps,
            forall|v: u32| seen.contains(v) <==> steps_from(start, v) < steps,
            forall|v: u32| seen.contains(v) ==> used@.contains(v),
        decreases used@.len() - steps,
    {
        proof {
            let more = seen.insert(candidate);
            assert(!seen.contains(candidate));
            assert(more.subset_of(used@.to_set()));
            used@.lemma_cardinality_of_set();
            lemma_len_subset(more, used@.to_set());
            assert(steps + 1 <= used@.len());
            assert forall|v: u32| more.contains(v) <==> steps_from(start, v) < steps + 1 by {
                if steps_from(start, v) == steps {
                    assert(v == candidate);
                }
            }
            seen = more;
            steps = steps + 1;
        }
        candidate = if candidate == u32::MAX {
            0
        } else {
            candidate + 1
        };
    }
    proof {
        assert forall|v: u32| steps_from(start, v) < steps_from(start, candidate) implies used@.contains(
            v,
        ) by {
            assert(seen.contains(v));
        }
    }
    candidate
}

/// As many distinct 32-bit numbers as asked for, each drawn from the
/// operating system's random number generator and, where the draw is
/// already taken, replaced by the next number that is not.
pub fn distinct_numbers(count: usize) -> (numbers: Vec<u32>)
    requires
        count <= 0x1_0000_0000,
    ensures
        numbers@.len() == count,
        numbers@.no_duplicates(),
{
    let mut numbers: Vec<u32> = Vec::new();
    while numbers.len() < count
        invariant
            numbers@.len() <= count <= 0x1_0000_0000,
            numbers@.no_duplicates(),
        decreases count - numbers@.len(),
    {
        let fresh = unused_from(&numbers, random_u32());
        numbers.push(fresh);
    }
    numbers
}

/// As many distinct transaction identifiers as asked for.
pub fn distinct_tx_ids(count: usize) -> (ids: Vec<TxId>)
    requires
        count <= 0x1_0000_0000,
    ensures
        ids@.len() == count,
        ids@.no_duplicates(),
{
    let numbers = distinct_numbers(count);
    let mut ids: Vec<TxId> = Vec::new();
    let mut i: usize = 0;
    while i < numbers.len()
        invariant
            i <= numbers@.len(),
            ids@.len() == i,
            forall|j: int| 0 <= j < i ==> ids@[j] == TxId(numbers@[j]),
        decreases numbers@.len() - i,
    {
        ids.push(TxId::from_u32(numbers[i]));
        i += 1;
    }
    ids
}

/// As many distinct node identifiers as asked for.
pub fn distinct_node_ids(count: usize) -> (ids: Vec<NodeId>)
    requires
        count <= 0x1_0000_0000,
    ensures
        ids@.len() == count,
        ids@.no_duplicates(),
{
    let numbers = distinct_numbers(count);
    let mut ids: Vec<NodeId> = Vec::new();
    let mut i: usize = 0;
    while i < numbers.len()
        invariant
            i <= numbers@.len(),
            ids@.len() == i,
            forall|j: int| 0 <= j < i ==> ids@[j] == NodeId(numbers@[j]),
        decreases numbers@.len() - i,
    {
        ids.push(NodeId(numbers[i]));
        i += 1;
    }
    ids
}

} // verus!
