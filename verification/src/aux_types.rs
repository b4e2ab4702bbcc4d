use crate::entropy::random_u32;
use crate::entropy::random_u64;
use vstd::prelude::*;
use vstd::seq_lib::lemma_multiset_commutative;
use vstd::seq_lib::to_multiset_update;

verus! {

/// Identifier of a transaction. The wrapped integer is what gets hashed.
#[derive(Clone, Copy, PartialEq, Eq, Structural, Debug, PartialOrd, Ord)]
pub struct TxId(pub u32);

impl TxId {
    pub fn get_u32(&self) -> (n: u32)
        ensures
            n == self.0,
    {
        self.0
    }

    pub fn from_u32(n: u32) -> (id: TxId)
        ensures
            id == TxId(n),
    {
        TxId(n)
    }

    /// An identifier drawn from the operating system's random number
    /// generator. It may be any identifier.
    pub fn generate() -> TxId {
        TxId(random_u32())
    }
}

/// Identifier of a node.
#[derive(Clone, Copy, PartialEq, Eq, Structural, Debug, PartialOrd, Ord)]
pub struct NodeId(pub u32);

impl NodeId {
    /// An identifier drawn from the operating system's random number
    /// generator. It may be any identifier.
    pub fn generate() -> NodeId {
        NodeId(random_u32())
    }
}

/// What a node thinks of one transaction.
#[derive(Debug, Clone, Copy, PartialEq, Eq, Structural)]
pub enum Opinion {
    /// No opinion has been formed yet.
    Unset,
    /// The current like and the number of consecutive rounds it has held.
    Pending(bool, u32),
    /// Terminal: the like never changes again.
    Final(bool),
}

impl Opinion {
    pub open spec fn like(self) -> bool {
        match self {
            Opinion::Final(like) => like,
            Opinion::Pending(like, _) => like,
            Opinion::Unset => false,
        }
    }

    pub fn is_like(&self) -> (b: bool)
        ensures
            b == self.like(),
    {
        match *self {
            Opinion::Final(like) => like,
            Opinion::Pending(like, _) => like,
            Opinion::Unset => false,
        }
    }

    pub fn is_none(&self) -> (b: bool)
        ensures
            b == (*self is Unset),
    {
        match *self {
            Opinion::Unset => true,
            _ => false,
        }
    }

    pub fn is_final(&self) -> (b: bool)
        ensures
            b == (*self is Final),
    {
        match *self {
            Opinion::Final(_) => true,
            _ => false,
        }
    }
}

#[derive(Debug, Clone, Copy)]
pub enum NodeGraphType {
    Complete,
}

#[derive(Debug, Clone, Copy)]
pub enum TxGraphType {
    Complete,
    Star,
}

#[derive(Debug, Clone, Copy, PartialEq, Eq, Structural)]
pub enum NodeStatus {
    NotFinalized,
    Finalized,
}

impl NodeStatus {
    pub fn finalized(&self) -> (b: bool)
        ensures
            b == (*self == NodeStatus::Finalized),
    {
        matches!(*self, NodeStatus::Finalized)
    }
}

#[derive(Debug, Clone, Copy, PartialEq, Eq, Structural)]
pub enum TxGlobalStatus {
    NotFinalized,
    Finalized,
}

impl TxGlobalStatus {
    pub fn finalized(&self) -> (b: bool)
        ensures
            b == (*self == TxGlobalStatus::Finalized),
    {
        matches!(*self, TxGlobalStatus::Finalized)
    }
}

/// The transactions that one transaction conflicts with.
#[derive(Debug)]
pub struct Conflicts(Vec<TxId>);

impl View for Conflicts {
    type V = Seq<TxId>;

    closed spec fn view(&self) -> Seq<TxId> {
        self.0@
    }
}

impl Clone for Conflicts {
    fn clone(&self) -> (copy: Self)
        ensures
            copy@ == self@,
    {
        Conflicts(copy_tx_ids(&self.0))
    }
}

/// A fresh vector with the same transaction identifiers in the same order.
pub(crate) fn copy_tx_ids(txs: &Vec<TxId>) -> (copy: Vec<TxId>)
    ensures
        copy@ == txs@,
{
    let mut copy: Vec<TxId> = Vec::new();
    let mut i: usize = 0;
    while i < txs.len()
        invariant
            i <= txs.len(),
            copy@ == txs@.take(i as int),
        decreases txs.len() - i,
    {
        copy.push(txs[i]);
        i += 1;
        assert(txs@.take(i as int) == txs@.take(i - 1).push(txs@[i - 1]));
    }
    assert(txs@.take(i as int) == txs@);
    copy
}

impl Conflicts {
    pub fn get(&self) -> (txs: &Vec<TxId>)
        ensures
            txs@ == self@,
    {
        &self.0
    }

    pub fn add(&mut self, tx: TxId)
        ensures
            final(self)@ == old(self)@.push(tx),
    {
        self.0.push(tx);
    }

    pub fn new() -> (conflicts: Self)
        ensures
            conflicts@ == Seq::<TxId>::empty(),
    {
        Conflicts(Vec::new())
    }

    pub fn new_from(txs: &Vec<TxId>) -> (conflicts: Self)
        ensures
            conflicts@ == txs@,
    {
        Conflicts(copy_tx_ids(txs))
    }

    pub fn iter(&self) -> (iterator: ConflictsIterator<'_>)
        ensures
            iterator.remaining() == self@,
    {
        let iterator = ConflictsIterator { conflicts: self, index: 0 };
        assert(iterator.remaining() =~= self@);
        iterator
    }
}

/// Walks the conflicts of a transaction from the first to the last.
pub struct ConflictsIterator<'a> {
    conflicts: &'a Conflicts,
    index: usize,
}

impl<'a> ConflictsIterator<'a> {
    /// What the iterator has not handed out yet.
    pub closed spec fn remaining(&self) -> Seq<TxId> {
        if self.index <= self.conflicts@.len() {
            self.conflicts@.skip(self.index as int)
        } else {
            Seq::empty()
        }
    }

    /// Hands out the next conflict, if one is left.
    pub fn next(&mut self) -> (item: Option<&'a TxId>)
        ensures
            match item {
                Some(tx) => old(self).remaining().len() > 0 && *tx == old(self).remaining()[0]
                    && final(self).remaining() == old(self).remaining().drop_first(),
                None => old(self).remaining().len() == 0 && final(self).remaining().len() == 0,
            },
    {
        if self.index < self.conflicts.0.len() {
            let result = Some(&self.conflicts.0[self.index]);
            self.index += 1;
            assert(self.remaining() =~= old(self).remaining().drop_first());
            result
        } else {
            None
        }
    }
}

/// Walks the nodes of a neighborhood from the first to the last.
pub struct NeighborhoodIterator<'a> {
    neighborhood: &'a Neighborhood,
    index: usize,
}

impl<'a> NeighborhoodIterator<'a> {
    /// What the iterator has not handed out yet.
    pub closed spec fn remaining(&self) -> Seq<NodeId> {
        if self.index <= self.neighborhood@.len() {
            self.neighborhood@.skip(self.index as int)
        } else {
            Seq::empty()
        }
    }

    /// Hands out the next node, if one is left.
    pub fn next(&mut self) -> (item: Option<&'a NodeId>)
        ensures
            match item {
                Some(node) => old(self).remaining().len() > 0 && *node == old(self).remaining()[0]
                    && final(self).remaining() == old(self).remaining().drop_first(),
                None => old(self).remaining().len() == 0 && final(self).remaining().len() == 0,
            },
    {
        if self.index < self.neighborhood.0.len() {
            let result = Some(&self.neighborhood.0[self.index]);
            self.index += 1;
            assert(self.remaining() =~= old(self).remaining().drop_first());
            result
        } else {
            None
        }
    }
}

/// Whether the two lists have a transaction in common.
pub open spec fn share_a_tx(a: Seq<TxId>, b: Seq<TxId>) -> bool {
    exists|i: int, j: int| 0 <= i < a.len() && 0 <= j < b.len() && a[i] == b[j]
}

pub fn intersects(vec1: &Vec<TxId>, vec2: &Vec<TxId>) -> (b: bool)
    ensures
        b == share_a_tx(vec1@, vec2@),
{
    let mut i: usize = 0;
    while i < vec1.len()
        invariant
            i <= vec1.len(),
            forall|p: int, q: int| 0 <= p < i && 0 <= q < vec2.len() ==> vec1[p] != vec2[q],
        decreases vec1.len() - i,
    {
        let mut j: usize = 0;
        while j < vec2.len()
            invariant
                i < vec1.len(),
                j <= vec2.len(),
                forall|q: int| 0 <= q < j ==> vec1[i as int] != vec2[q],
            decreases vec2.len() - j,
        {
            if vec1[i] == vec2[j] {
                return true;
            }
            j += 1;
        }
        i += 1;
    }
    false
}

/// The nodes that a node can query, in the order in which they joined.
#[derive(Debug)]
pub struct Neighborhood(Vec<NodeId>);

impl View for Neighborhood {
    type V = Seq<NodeId>;

    closed spec fn view(&self) -> Seq<NodeId> {
        self.0@
    }
}

impl Neighborhood {
    pub fn get(&self) -> (nodes: &Vec<NodeId>)
        ensures
            nodes@ == self@,
    {
        &self.0
    }

    pub fn add(&mut self, node: NodeId)
        ensures
            final(self)@ == old(self)@.push(node),
    {
        self.0.push(node);
    }

    pub fn new() -> (neighborhood: Self)
        ensures
            neighborhood@ == Seq::<NodeId>::empty(),
    {
        Neighborhood(Vec::new())
    }

    pub fn set_new(nodes: &Vec<NodeId>) -> (neighborhood: Self)
        ensures
            neighborhood@ == nodes@,
    {
        let mut copy: Vec<NodeId> = Vec::new();
        let mut i: usize = 0;
        while i < nodes.len()
            invariant
                i <= nodes.len(),
                copy@ == nodes@.take(i as int),
            decreases nodes.len() - i,
        {
            copy.push(nodes[i]);
            assert(nodes@.take(i + 1) == nodes@.take(i as int).push(nodes@[i as int]));
            i += 1;
        }
        assert(nodes@.take(i as int) == nodes@);
        Neighborhood(copy)
    }

    pub fn len(&self) -> (n: usize)
        ensures
            n == self@.len(),
    {
        self.0.len()
    }

    pub fn iter(&self) -> (iterator: NeighborhoodIterator<'_>)
        ensures
            iterator.remaining() == self@,
    {
        let iterator = NeighborhoodIterator { neighborhood: self, index: 0 };
        assert(iterator.remaining() =~= self@);
        iterator
    }

    /// The sample of `k` nodes that the given draws pick, without
    /// repetition. Where the neighborhood has no more than `k` nodes, the
    /// sample is the whole neighborhood and no draw is used.
    pub fn sample_with(&self, k: usize, draws: &Vec<u64>) -> (sample: Vec<NodeId>)
        requires
            k < self@.len() ==> draws@.len() >= k,
        ensures
            sample@ == drawn_sample(self@, k as nat, draws@),
    {
        let mut pool: Vec<NodeId> = Neighborhood::set_new(&self.0).0;
        let size: usize = pool.len();
        if k >= size {
            return pool;
        }
        let mut i: usize = 0;
        while i < k
            invariant
                i <= k < size,
                size == self@.len(),
                draws@.len() >= k,
                pool@.len() == size,
                pool@ == shuffled(self@, draws@, i as nat),
            decreases k - i,
        {
            let j: usize = i + pick_place(draws[i], size - i);
            let first = pool[i];
            let second = pool[j];
            pool[i] = second;
            pool[j] = first;
            i += 1;
        }
        pool.truncate(k);
        pool
    }

    /// Samples `k` nodes from the neighborhood, without repetition, with
    /// draws from the operating system's random number generator. Where
    /// the neighborhood has no more than `k` nodes, the sample is the whole
    /// neighborhood.
    pub fn sample(&self, k: usize) -> (sample: Vec<NodeId>)
        ensures
            exists|draws: Seq<u64>| sample@ == drawn_sample(self@, k as nat, draws),
            sample@.len() == if k <= self@.len() {
                k as nat
            } else {
                self@.len()
            },
            k >= self@.len() ==> sample@ == self@,
            sample@.to_multiset().subset_of(self@.to_multiset()),
            forall|i: int| 0 <= i < sample@.len() ==> self@.contains(#[trigger] sample@[i]),
            self@.no_duplicates() ==> sample@.no_duplicates(),
    {
        let mut draws: Vec<u64> = Vec::new();
        if k < self.0.len() {
            let mut i: usize = 0;
            while i < k
                invariant
                    i <= k,
                    draws@.len() == i,
                decreases k - i,
            {
                draws.push(random_u64());
                i += 1;
            }
        }
        let sample = self.sample_with(k, &draws);
        proof {
            lemma_drawn_sample(self@, k as nat, draws@);
        }
        sample
    }
}

/// The place that a 64-bit draw picks among `remaining` places:
/// `floor(draw · remaining / 2^64)`.
pub open spec fn picked_place(draw: u64, remaining: nat) -> nat {
    (draw as nat * remaining) / 0x1_0000_0000_0000_0000
}

/// Computes `picked_place`; the place is one of the remaining ones.
pub fn pick_place(draw: u64, remaining: usize) -> (place: usize)
    requires
        remaining > 0,
    ensures
        place == picked_place(draw, remaining as nat),
        place < remaining,
{
    proof {
        let d = draw as int;
        let r = remaining as int;
        assert(0 <= d * r <= 0xffff_ffff_ffff_ffff * r) by (nonlinear_arith)
            requires
                0 <= d <= 0xffff_ffff_ffff_ffff,
                0 <= r,
        ;
    }
    let product: u128 = draw as u128 * remaining as u128;
    let place: u128 = product / 0x1_0000_0000_0000_0000u128;
    place as usize
}

/// The sequence with the items at places `i` and `j` exchanged.
pub open spec fn exchanged(pool: Seq<NodeId>, i: int, j: int) -> Seq<NodeId> {
    pool.update(i, pool[j]).update(j, pool[i])
}

/// The pool after the first `steps` steps of a shuffle that is driven by
/// the draws: step `i` exchanges the item at place `i` with the one that
/// the draw picks among the places from `i` on.
pub open spec fn shuffled(pool: Seq<NodeId>, draws: Seq<u64>, steps: nat) -> Seq<NodeId>
    decreases steps,
{
    if steps == 0 {
        pool
    } else {
        let before = shuffled(pool, draws, (steps - 1) as nat);
        let i = steps - 1;
        exchanged(before, i, i + picked_place(draws[i], (pool.len() - i) as nat))
    }
}

/// The sample of `k` nodes that the draws pick from the pool: the whole
/// pool where it has no more than `k` nodes, else the first `k` after
/// `k` steps of the shuffle.
pub open spec fn drawn_sample(pool: Seq<NodeId>, k: nat, draws: Seq<u64>) -> Seq<NodeId> {
    if k >= pool.len() {
        pool
    } else {
        shuffled(pool, draws, k).take(k as int)
    }
}

/// Exchanging two items keeps the length and what the sequence holds.
pub proof fn lemma_exchanged(pool: Seq<NodeId>, i: int, j: int)
    requires
        0 <= i < pool.len(),
        0 <= j < pool.len(),
    ensures
        exchanged(pool, i, j).len() == pool.len(),
        exchanged(pool, i, j).to_multiset() == pool.to_multiset(),
{
    broadcast use vstd::multiset::group_multiset_axioms;

    let first = pool.update(i, pool[j]);
    to_multiset_update(pool, i, pool[j]);
    to_multiset_update(first, j, pool[i]);
    pool.to_multiset_ensures();
    assert(pool.to_multiset().count(pool[i]) > 0);
    assert(exchanged(pool, i, j).to_multiset() =~= pool.to_multiset());
}

/// A shuffle keeps the length and what the pool holds.
pub proof fn lemma_shuffled(pool: Seq<NodeId>, draws: Seq<u64>, steps: nat)
    requires
        steps <= pool.len(),
    ensures
        shuffled(pool, draws, steps).len() == pool.len(),
        shuffled(pool, draws, steps).to_multiset() == pool.to_multiset(),
    decreases steps,
{
    if steps > 0 {
        lemma_shuffled(pool, draws, (steps - 1) as nat);
        let before = shuffled(pool, draws, (steps - 1) as nat);
        let i = steps - 1;
        let remaining = (pool.len() - i) as nat;
        let d = draws[i] as int;
        assert(picked_place(draws[i], remaining) < remaining) by (nonlinear_arith)
            requires
                picked_place(draws[i], remaining) == (d * remaining) / 0x1_0000_0000_0000_0000,
                0 <= d < 0x1_0000_0000_0000_0000,
                remaining > 0,
        ;
        lemma_exchanged(before, i, i + picked_place(draws[i], remaining));
    }
}

/// A sample holds no node more often than the pool does: it is drawn
/// without replacement. It has `k` nodes, or all of the pool where that
/// has fewer.
pub proof fn lemma_drawn_sample(pool: Seq<NodeId>, k: nat, draws: Seq<u64>)
    ensures
        drawn_sample(pool, k, draws).len() == if k <= pool.len() {
            k
        } else {
            pool.len()
        },
        drawn_sample(pool, k, draws).to_multiset().subset_of(pool.to_multiset()),
        forall|i: int|
            0 <= i < drawn_sample(pool, k, draws).len() ==> pool.contains(
                #[trigger] drawn_sample(pool, k, draws)[i],
            ),
        pool.no_duplicates() ==> drawn_sample(pool, k, draws).no_duplicates(),
{
    broadcast use vstd::multiset::group_multiset_axioms;

    let sample = drawn_sample(pool, k, draws);
    if k < pool.len() {
        lemma_shuffled(pool, draws, k);
        let all = shuffled(pool, draws, k);
        assert(all =~= all.take(k as int) + all.skip(k as int));
        lemma_multiset_commutative(all.take(k as int), all.skip(k as int));
    }
    assert(sample.to_multiset().subset_of(pool.to_multiset()));
    assert forall|i: int| 0 <= i < sample.len() implies pool.contains(#[trigger] sample[i]) by {
        sample.to_multiset_ensures();
        pool.to_multiset_ensures();
        assert(sample.contains(sample[i]));
        assert(sample.to_multiset().count(sample[i]) > 0);
        assert(pool.to_multiset().count(sample[i]) > 0);
    }
    if pool.no_duplicates() {
        pool.lemma_multiset_has_no_duplicates();
        assert forall|x: NodeId| sample.to_multiset().count(x) <= 1 by {
            assert(sample.to_multiset().count(x) <= pool.to_multiset().count(x));
        }
        sample.lemma_multiset_has_no_duplicates_conv();
    }
}

/// What a vision holds, as a map: for each known transaction, the
/// transactions it conflicts with and the opinion on it.
pub type VisionMap = Map<TxId, (Seq<TxId>, Opinion)>;

/// Every opinion of the map is final.
pub open spec fn all_final(v: VisionMap) -> bool {
    forall|tx: TxId| v.contains_key(tx) ==> (#[trigger] v[tx]).1 is Final
}

/// The identifiers are listed in strictly increasing order.
pub open spec fn ascending(txs: Seq<TxId>) -> bool {
    forall|i: int, j: int| 0 <= i < j < txs.len() ==> txs[i].0 < txs[j].0
}

/// A node's view of the transaction universe: for every known transaction
/// its conflicts and the node's opinion on it. Entries are kept in
/// increasing order of identifier, each identifier once.
#[derive(Debug)]
pub struct Vision(Vec<(TxId, Conflicts, Opinion)>);

impl View for Vision {
    type V = VisionMap;

    closed spec fn view(&self) -> VisionMap {
        Map::new(
            |tx: TxId| exists|i: int| 0 <= i < self.0@.len() && self.0@[i].0 == tx,
            |tx: TxId|
                {
                    let i = choose|i: int| 0 <= i < self.0@.len() && self.0@[i].0 == tx;
                    (self.0@[i].1@, self.0@[i].2)
                },
        )
    }
}

impl Clone for Vision {
    fn clone(&self) -> (copy: Self)
        ensures
            self.wf() ==> copy.wf() && copy@ == self@ && copy.keys() == self.keys(),
    {
        let mut entries: Vec<(TxId, Conflicts, Opinion)> = Vec::new();
        let mut i: usize = 0;
        while i < self.0.len()
            invariant
                i <= self.0.len(),
                entries@.len() == i,
                forall|j: int|
                    0 <= j < i ==> entries@[j].0 == self.0@[j].0 && entries@[j].1@ == self.0@[j].1@
                        && entries@[j].2 == self.0@[j].2,
            decreases self.0.len() - i,
        {
            entries.push((self.0[i].0, self.0[i].1.clone(), self.0[i].2));
            i += 1;
        }
        let copy = Vision(entries);
        proof {
            if self.wf() {
                assert(copy.wf());
                assert(copy.keys() =~= self.keys());
                assert forall|t: TxId| copy@.contains_key(t) <==> self@.contains_key(t) by {
                    if copy@.contains_key(t) {
                        let j = choose|j: int| 0 <= j < copy.0@.len() && copy.0@[j].0 == t;
                        assert(self.0@[j].0 == t);
                    }
                    if self@.contains_key(t) {
                        let j = choose|j: int| 0 <= j < self.0@.len() && self.0@[j].0 == t;
                        assert(copy.0@[j].0 == t);
                    }
                }
                assert forall|t: TxId| copy@.contains_key(t) implies copy@[t] == self@[t] by {
                    let j = choose|j: int| 0 <= j < copy.0@.len() && copy.0@[j].0 == t;
                    copy.lemma_entry(j);
                    self.lemma_entry(j);
                }
                assert(copy@ =~= self@);
            }
        }
        copy
    }
}

impl Vision {
    /// The representation invariant: identifiers strictly increase.
    pub closed spec fn wf(&self) -> bool {
        forall|i: int, j: int| 0 <= i < j < self.0@.len() ==> self.0@[i].0.0 < self.0@[j].0.0
    }

    proof fn lemma_entry(&self, i: int)
        requires
            self.wf(),
            0 <= i < self.0@.len(),
        ensures
            self@.contains_key(self.0@[i].0),
            self@[self.0@[i].0] == (self.0@[i].1@, self.0@[i].2),
    {
        let tx = self.0@[i].0;
        let k = choose|k: int| 0 <= k < self.0@.len() && self.0@[k].0 == tx;
        assert(k == i) by {
            if k < i {
                assert(self.0@[k].0.0 < self.0@[i].0.0);
            } else if i < k {
                assert(self.0@[i].0.0 < self.0@[k].0.0);
            }
        }
    }

    proof fn lemma_opinion_replaced(before: Vision, after: Vision, i: int, tx: TxId, opinion: Opinion)
        requires
            before.wf(),
            0 <= i < before.0@.len(),
            before.0@[i].0 == tx,
            after.0@.len() == before.0@.len(),
            forall|j: int|
                0 <= j < before.0@.len() ==> after.0@[j].0 == before.0@[j].0 && after.0@[j].1
                    == before.0@[j].1 && (j != i ==> after.0@[j].2 == before.0@[j].2),
            after.0@[i].2 == opinion,
        ensures
            after.wf(),
            after@ == before@.insert(tx, (before@[tx].0, opinion)),
            after.keys() == before.keys(),
    {
        assert(after.keys() =~= before.keys());
        before.lemma_entry(i);
        let target = before@.insert(tx, (before@[tx].0, opinion));
        assert forall|t: TxId| after@.contains_key(t) <==> target.contains_key(t) by {
            if after@.contains_key(t) {
                let j = choose|j: int| 0 <= j < after.0@.len() && after.0@[j].0 == t;
                assert(before.0@[j].0 == t);
            }
            if target.contains_key(t) && t != tx {
                let j = choose|j: int| 0 <= j < before.0@.len() && before.0@[j].0 == t;
                assert(after.0@[j].0 == t);
            }
            if t == tx {
                assert(after.0@[i].0 == t);
            }
        }
        assert forall|t: TxId| after@.contains_key(t) implies after@[t] == target[t] by {
            let j = choose|j: int| 0 <= j < after.0@.len() && after.0@[j].0 == t;
            after.lemma_entry(j);
            before.lemma_entry(j);
        }
        assert(after@ =~= target);
    }

    /// Bisection: the number of entries whose identifier is below `tx`, and
    /// whether the entry at that place is the one of `tx`.
    fn locate(&self, tx: &TxId) -> (place: (usize, bool))
        requires
            self.wf(),
        ensures
            place.0 <= self.0@.len(),
            forall|i: int| 0 <= i < place.0 ==> self.0@[i].0.0 < tx.0,
            forall|i: int| place.0 <= i < self.0@.len() ==> tx.0 <= self.0@[i].0.0,
            place.1 == (place.0 < self.0@.len() && self.0@[place.0 as int].0 == *tx),
            place.1 == self@.contains_key(*tx),
    {
        let mut low: usize = 0;
        let mut high: usize = self.0.len();
        while low < high
            invariant
                self.wf(),
                low <= high <= self.0@.len(),
                forall|i: int| 0 <= i < low ==> self.0@[i].0.0 < tx.0,
                forall|i: int| high <= i < self.0@.len() ==> tx.0 <= self.0@[i].0.0,
            decreases high - low,
        {
            let mid: usize = low + (high - low) / 2;
            if self.0[mid].0.0 < tx.0 {
                low = mid + 1;
            } else {
                high = mid;
            }
        }
        let found = low < self.0.len() && self.0[low].0.0 == tx.0;
        proof {
            if found {
                self.lemma_entry(low as int);
            } else if self@.contains_key(*tx) {
                let k = choose|k: int| 0 <= k < self.0@.len() && self.0@[k].0 == *tx;
                if k > low {
                    assert(self.0@[low as int].0.0 < self.0@[k].0.0);
                }
            }
        }
        (low, found)
    }

    /// The place of `tx` among the entries.
    fn position(&self, tx: &TxId) -> (place: usize)
        requires
            self.wf(),
            self@.contains_key(*tx),
        ensures
            place < self.0@.len(),
            self.0@[place as int].0 == *tx,
            self@[*tx] == (self.0@[place as int].1@, self.0@[place as int].2),
    {
        let (at, _) = self.locate(tx);
        proof {
            self.lemma_entry(at as int);
        }
        at
    }

    /// Puts `tx` into the vision with the given conflicts and opinion; an
    /// entry that `tx` already had is replaced.
    fn insert(&mut self, tx: TxId, conflicts: Conflicts, opinion: Opinion)
        requires
            old(self).wf(),
        ensures
            final(self).wf(),
            final(self)@ == old(self)@.insert(tx, (conflicts@, opinion)),
    {
        let (at, found) = self.locate(&tx);
        let ghost before = *self;
        if found {
            self.0[at] = (tx, conflicts, opinion);
            assert(forall|j: int| 0 <= j < self.0@.len() ==> self.0@[j].0 == before.0@[j].0);
        } else {
            self.0.insert(at, (tx, conflicts, opinion));
            assert(forall|j: int| 0 <= j < at ==> self.0@[j] == before.0@[j]);
            assert(forall|j: int| at < j < self.0@.len() ==> self.0@[j] == before.0@[j - 1]);
        }
        proof {
            assert(self.wf());
            let shift = if found { 0int } else { 1int };
            let target = before@.insert(tx, (conflicts@, opinion));
            assert(self.0@[at as int].0 == tx);
            assert forall|t: TxId| self@.contains_key(t) <==> target.contains_key(t) by {
                if self@.contains_key(t) && t != tx {
                    let j = choose|j: int| 0 <= j < self.0@.len() && self.0@[j].0 == t;
                    if j < at {
                        assert(before.0@[j].0 == t);
                    } else {
                        assert(before.0@[j - shift].0 == t);
                    }
                }
                if target.contains_key(t) && t != tx {
                    let j = choose|j: int| 0 <= j < before.0@.len() && before.0@[j].0 == t;
                    if j < at {
                        assert(self.0@[j].0 == t);
                    } else {
                        assert(self.0@[j + shift].0 == t);
                    }
                }
            }
            assert forall|t: TxId| self@.contains_key(t) implies self@[t] == target[t] by {
                let j = choose|j: int| 0 <= j < self.0@.len() && self.0@[j].0 == t;
                self.lemma_entry(j);
                if t != tx {
                    if j < at {
                        before.lemma_entry(j);
                    } else {
                        before.lemma_entry(j - shift);
                    }
                } else {
                    self.lemma_entry(at as int);
                }
            }
            assert(self@ =~= target);
        }
    }

    pub fn new() -> (vision: Self)
        ensures
            vision.wf(),
            vision@ == Map::<TxId, (Seq<TxId>, Opinion)>::empty(),
    {
        let vision = Vision(Vec::new());
        assert(vision@ =~= Map::<TxId, (Seq<TxId>, Opinion)>::empty());
        vision
    }

    pub fn get_conflict_set(&self, tx: &TxId) -> (conflicts: &Conflicts)
        requires
            self.wf(),
            self@.contains_key(*tx),
        ensures
            conflicts@ == self@[*tx].0,
    {
        let i: usize = self.position(tx);
        &self.0[i].1
    }

    pub fn get_opinion_status(&self, tx: &TxId) -> (opinion: &Opinion)
        requires
            self.wf(),
            self@.contains_key(*tx),
        ensures
            *opinion == self@[*tx].1,
    {
        let i: usize = self.position(tx);
        &self.0[i].2
    }

    pub fn get_opinion(&self, tx: TxId) -> (like: bool)
        requires
            self.wf(),
            self@.contains_key(tx),
        ensures
            like == self@[tx].1.like(),
    {
        self.get_opinion_status(&tx).is_like()
    }

    pub fn set_opinion(&mut self, tx: &TxId, new_opinion: Opinion)
        requires
            old(self).wf(),
            old(self)@.contains_key(*tx),
        ensures
            final(self).wf(),
            final(self)@ == old(self)@.insert(*tx, (old(self)@[*tx].0, new_opinion)),
            final(self).keys() == old(self).keys(),
    {
        let i: usize = self.position(tx);
        let ghost before = *self;
        self.0[i].2 = new_opinion;
        proof {
            Self::lemma_opinion_replaced(before, *self, i as int, *tx, new_opinion);
        }
    }

    /// Whether `txs` lists the transactions of `v`, each once, in
    /// increasing order of identifier.
    pub open spec fn lists_keys(txs: Seq<TxId>, v: VisionMap) -> bool {
        &&& ascending(txs)
        &&& forall|tx: TxId| txs.contains(tx) <==> v.contains_key(tx)
    }

    /// The known transactions in increasing order of identifier.
    pub closed spec fn keys(&self) -> Seq<TxId> {
        Seq::new(self.0@.len(), |i: int| self.0@[i].0)
    }

    /// `keys` lists exactly the transactions of the view.
    pub proof fn lemma_keys(&self)
        requires
            self.wf(),
        ensures
            Self::lists_keys(self.keys(), self@),
    {
        let txs = self.keys();
        assert forall|tx: TxId| txs.contains(tx) <==> self@.contains_key(tx) by {
            if txs.contains(tx) {
                let j = choose|j: int| 0 <= j < txs.len() && txs[j] == tx;
                assert(self.0@[j].0 == tx);
            }
            if self@.contains_key(tx) {
                let j = choose|j: int| 0 <= j < self.0@.len() && self.0@[j].0 == tx;
                assert(txs[j] == tx);
            }
        }
    }

    pub fn get_txs(&self) -> (txs: Vec<TxId>)
        requires
            self.wf(),
        ensures
            txs@ == self.keys(),
            Self::lists_keys(txs@, self@),
    {
        let mut txs: Vec<TxId> = Vec::new();
        let mut i: usize = 0;
        while i < self.0.len()
            invariant
                i <= self.0.len(),
                txs@.len() == i,
                forall|j: int| 0 <= j < i ==> txs@[j] == self.0@[j].0,
            decreases self.0.len() - i,
        {
            txs.push(self.0[i].0);
            i += 1;
        }
        proof {
            assert(txs@ =~= self.keys());
            self.lemma_keys();
        }
        txs
    }

    pub fn has_finalized(&self) -> (b: bool)
        requires
            self.wf(),
        ensures
            b == all_final(self@),
    {
        let mut i: usize = 0;
        while i < self.0.len()
            invariant
                self.wf(),
                i <= self.0.len(),
                forall|j: int| 0 <= j < i ==> self.0@[j].2 is Final,
            decreases self.0.len() - i,
        {
            if !self.0[i].2.is_final() {
                proof {
                    self.lemma_entry(i as int);
                }
                return false;
            }
            i += 1;
        }
        proof {
            assert forall|tx: TxId| self@.contains_key(tx) implies (#[trigger] self@[tx]).1 is Final by {
                let j = choose|j: int| 0 <= j < self.0@.len() && self.0@[j].0 == tx;
                self.lemma_entry(j);
            }
        }
        true
    }

    /// The map that results from putting the entries in one after the
    /// other: where an identifier occurs twice, the later entry stands.
    pub open spec fn map_of(entries: Seq<(TxId, Conflicts, Opinion)>) -> VisionMap
        decreases entries.len(),
    {
        if entries.len() == 0 {
            Map::empty()
        } else {
            Self::map_of(entries.drop_last()).insert(
                entries.last().0,
                (entries.last().1@, entries.last().2),
            )
        }
    }

    /// Where no identifier occurs twice among the entries, the map holds
    /// each entry as it stands, and nothing else.
    pub proof fn lemma_map_of_distinct(entries: Seq<(TxId, Conflicts, Opinion)>)
        requires
            forall|i: int, j: int| 0 <= i < j < entries.len() ==> entries[i].0 != entries[j].0,
        ensures
            forall|i: int|
                0 <= i < entries.len() ==> Self::map_of(entries).contains_key(
                    (#[trigger] entries[i]).0,
                ) && Self::map_of(entries)[entries[i].0] == (entries[i].1@, entries[i].2),
            forall|tx: TxId|
                Self::map_of(entries).contains_key(tx) ==> exists|i: int|
                    0 <= i < entries.len() && (#[trigger] entries[i]).0 == tx,
        decreases entries.len(),
    {
        if entries.len() > 0 {
            let front = entries.drop_last();
            assert forall|i: int, j: int| 0 <= i < j < front.len() implies front[i].0
                != front[j].0 by {
                assert(front[i] == entries[i]);
                assert(front[j] == entries[j]);
            }
            Self::lemma_map_of_distinct(front);
            let last = entries.len() - 1;
            assert forall|i: int| 0 <= i < entries.len() implies Self::map_of(entries).contains_key(
                (#[trigger] entries[i]).0,
            ) && Self::map_of(entries)[entries[i].0] == (entries[i].1@, entries[i].2) by {
                if i < last {
                    assert(front[i] == entries[i]);
                    assert(entries[i].0 != entries[last].0);
                }
            }
            assert forall|tx: TxId| Self::map_of(entries).contains_key(tx) implies exists|i: int|
                0 <= i < entries.len() && (#[trigger] entries[i]).0 == tx by {
                if tx == entries[last].0 {
                    assert(entries[last].0 == tx);
                } else {
                    assert(Self::map_of(front).contains_key(tx));
                    let i = choose|i: int| 0 <= i < front.len() && (#[trigger] front[i]).0 == tx;
                    assert(front[i] == entries[i]);
                    assert(entries[i].0 == tx);
                }
            }
        }
    }

    pub fn new_from(vision: &Vec<(TxId, Conflicts, Opinion)>) -> (built: Self)
        ensures
            built.wf(),
            built@ == Self::map_of(vision@),
    {
        let mut built = Vision::new();
        let mut i: usize = 0;
        while i < vision.len()
            invariant
                i <= vision.len(),
                built.wf(),
                built@ == Self::map_of(vision@.take(i as int)),
            decreases vision.len() - i,
        {
            built.insert(vision[i].0, vision[i].1.clone(), vision[i].2);
            i += 1;
            assert(vision@.take(i as int).drop_last() == vision@.take(i - 1));
        }
        assert(vision@.take(i as int) == vision@);
        built
    }

    pub fn get_mut_opinion(&mut self, tx: &TxId) -> (opinion: &mut Opinion)
        requires
            old(self).wf(),
            old(self)@.contains_key(*tx),
        ensures
            *opinion == old(self)@[*tx].1,
            final(self).wf(),
            final(self)@ == old(self)@.insert(*tx, (old(self)@[*tx].0, *final(opinion))),
            final(self).keys() == old(self).keys(),
    {
        let i: usize = self.position(tx);
        proof {
            let before = *self;
            assert forall|after: Vision|
                #![trigger after.wf()]
                #![trigger after@]
                #![trigger after.keys()]
                after.0@.len() == before.0@.len() && (forall|j: int|
                    0 <= j < before.0@.len() ==> after.0@[j].0 == before.0@[j].0 && after.0@[j].1
                        == before.0@[j].1 && (j != i ==> after.0@[j].2
                        == before.0@[j].2)) implies after.wf() && after.keys() == before.keys()
                && after@ == before@.insert(*tx, (before@[*tx].0, after.0@[i as int].2)) by {
                Self::lemma_opinion_replaced(before, after, i as int, *tx, after.0@[i as int].2);
            }
        }
        &mut self.0[i].2
    }
}

} // verus!
