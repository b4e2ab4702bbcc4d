use crate::aux_types::all_final;
use crate::aux_types::drawn_sample;
use crate::aux_types::Neighborhood;
use crate::aux_types::NodeGraphType;
use crate::aux_types::NodeId;
use crate::aux_types::NodeStatus;
use crate::aux_types::Opinion;
use crate::aux_types::TxGraphType;
use crate::aux_types::TxId;
use crate::aux_types::Vision;
use crate::aux_types::VisionMap;
use crate::conflict_graph::complete_conflict_graph;
use crate::conflict_graph::fresh_tx_set;
use crate::conflict_graph::graph_map;
use crate::conflict_graph::star_conflict_graph;
use crate::constants::K;
use crate::constants::L;
use crate::finality::apply_opinion;
use crate::finality::apply_opinions;
use crate::finality::final_likes_independent;
use crate::finality::finality_kept;
use crate::finality::lemma_apply_opinions;
use crate::finality::lemma_finality_kept_twice;
use crate::finality::reject_conflicts;
use crate::finality::settled;
use crate::hashed_order::arranged;
use crate::hashed_order::distinct_txs;
use crate::hashed_order::in_hashed_order;
use crate::hashed_order::lemma_rearranged_same_txs;
use crate::hashed_order::same_txs;
use crate::hashed_order::sort_by_hash;
use crate::hashed_order::tx_ids;
use crate::liked_set::comp_pass;
use crate::liked_set::complete;
use crate::liked_set::conflict;
use crate::liked_set::coherent;
use crate::liked_set::elim_pass;
use crate::liked_set::independent;
use crate::liked_set::lemma_comp_independent;
use crate::liked_set::lemma_comp_keeps_maximal;
use crate::liked_set::lemma_comp_maximal;
use crate::liked_set::lemma_comp_shape;
use crate::liked_set::lemma_elim_independent;
use crate::liked_set::lemma_elim_keeps_independent;
use crate::liked_set::lemma_elim_shape;
use crate::liked_set::lemma_rearranged_sets;
use crate::liked_set::maximal;
use crate::liked_set::prune;
use crate::aux_types::TxGlobalStatus;
use crate::fresh_ids::distinct_node_ids;
use crate::fresh_ids::distinct_tx_ids;
use crate::seeding::expand;
use crate::seeding::expanded;
use crate::seeding::fill_opinions;
use crate::seeding::filled;
use crate::seeding::lemma_expanded_members;
use crate::seeding::like_proportions;
use crate::seeding::proportions;
use crate::seeding::seed_of;
use crate::seeding::seeded;
use crate::tally::distinct_ids;
use crate::tally::first_opinions;
use crate::tally::has_id;
use crate::tally::honest_places;
use crate::tally::opinions_of;
use crate::tally::honest_all_final;
use crate::tally::honest_count;
use crate::tally::honest_likes;
use crate::tally::lemma_honest_likes_bound;
use crate::tally::newly_final_nodes;
use crate::tally::newly_final_txs;
use crate::tally::lemma_tally_bound;
use crate::tally::node_with_id;
use crate::tally::queries;
use crate::tally::round_opinions;
use crate::tally::tally_of;
use crate::entropy::random_u32;
use crate::threshold::in_round_range;
use crate::unanimity::all_conflict;
use crate::unanimity::decided_on;
use crate::unanimity::ids_of;
use crate::unanimity::lemma_concentrated_start;
use crate::unanimity::lemma_unanimous_round;
use crate::unanimity::pending_on;
use crate::unanimity::unanimous;
use crate::threshold::round_random;
use crate::threshold::threshold;
use vstd::prelude::*;

verus! {

/// How a node behaves when it is queried.
#[derive(Debug, Clone, Copy, PartialEq, Eq, Structural)]
pub enum NodeType {
    /// Answers with the opinions of whoever asks.
    Malicious,
    /// Never answers and never updates.
    Faulty,
    /// Honest: answers with its own opinions.
    Regular,
}

/// How the initial likes are spread over the transactions.
#[derive(Debug, Clone, Copy, PartialEq, Eq, Structural)]
pub enum LikeDistributions {
    /// Every transaction carries initial likes.
    Equal,
    /// Only the first so many transactions carry initial likes.
    Concentrated(usize),
}

/// The number of transactions that carry initial likes.
pub open spec fn carrying_txs(distribution: LikeDistributions, tx_count: nat) -> nat {
    match distribution {
        LikeDistributions::Equal => tx_count,
        LikeDistributions::Concentrated(n) => n as nat,
    }
}

/// The kind of the node at place `i` where the honest nodes come first,
/// then the faulty ones, then the malicious ones.
pub open spec fn kind_at(honest: int, faulty: int, i: int) -> NodeType {
    if i < honest {
        NodeType::Regular
    } else if i < honest + faulty {
        NodeType::Faulty
    } else {
        NodeType::Malicious
    }
}

/// The status that goes with a vision: finalized exactly if every opinion
/// of it is final.
pub open spec fn status_for(v: VisionMap) -> NodeStatus {
    if all_final(v) {
        NodeStatus::Finalized
    } else {
        NodeStatus::NotFinalized
    }
}

/// The vision that the node at place `i` starts with: an honest node has
/// its seed liked and every other opinion filled in; any other node has no
/// opinion.
pub open spec fn initial_vision(
    keys: Seq<TxId>,
    common: VisionMap,
    seeds: Seq<TxId>,
    honest: int,
    i: int,
) -> VisionMap {
    if i < honest {
        filled(keys, seeded(common, seed_of(seeds, i)))
    } else {
        common
    }
}

/// What holds of a node before and after a round or a part of one: the
/// fields that no round changes are the same, and what was final in its
/// vision is kept.
pub open spec fn node_moved_on(before: Node, after: Node) -> bool {
    &&& after.id == before.id
    &&& after.node_type == before.node_type
    &&& after.neighborhood == before.neighborhood
    &&& after.vision.keys() == before.vision.keys()
    &&& finality_kept(before.vision@, after.vision@)
}

/// The node at `place` takes its turn in a round: it takes the round's
/// outcome, worked out from the nodes as they are just then and the given
/// sample, into its vision, and is finalized exactly if all its opinions
/// are final. Every other node stays as it is.
pub open spec fn turn(
    before: Seq<Node>,
    after: Seq<Node>,
    place: int,
    sample: Seq<NodeId>,
    random_number: u32,
) -> bool {
    &&& after.len() == before.len()
    &&& forall|j: int| 0 <= j < before.len() && j != place ==> #[trigger] after[j] == before[j]
    &&& node_moved_on(before[place], after[place])
    &&& after[place].vision@ == apply_opinions(
        before[place].vision@,
        round_opinions(before[place], before, sample, K as nat, random_number),
    )
    &&& after[place].status == status_for(after[place].vision@)
}

/// The honest nodes that are not published as finalized take a turn.
pub open spec fn takes_turn(entry: (NodeId, NodeType, NodeStatus)) -> bool {
    entry.1 == NodeType::Regular && entry.2 == NodeStatus::NotFinalized
}

/// Step `place` of a sweep over the nodes: the node there takes its turn
/// with a sample of its neighbours if it is to take one, else nothing
/// changes. `states[place]` are the nodes before the step and
/// `states[place + 1]` the nodes after it.
pub open spec fn sweep_step(
    states: Seq<Seq<Node>>,
    samples: Seq<Seq<NodeId>>,
    roster: Seq<(NodeId, NodeType, NodeStatus)>,
    random_number: u32,
    place: int,
) -> bool {
    if takes_turn(roster[place]) {
        &&& exists|draws: Seq<u64>|
            samples[place] == drawn_sample(
                states[place][place].neighborhood@,
                K as nat,
                draws,
            )
        &&& turn(states[place], states[place + 1], place, samples[place], random_number)
    } else {
        states[place + 1] == states[place]
    }
}

/// The nodes `end` come from the nodes `start` by a sweep in the order of
/// the roster, each node that takes a turn seeing what the nodes before it
/// made of the round.
pub open spec fn swept(
    start: Seq<Node>,
    end: Seq<Node>,
    roster: Seq<(NodeId, NodeType, NodeStatus)>,
    random_number: u32,
) -> bool {
    exists|states: Seq<Seq<Node>>, samples: Seq<Seq<NodeId>>|
        {
            &&& states.len() == start.len() + 1
            &&& samples.len() == start.len()
            &&& states[0] == start
            &&& states[start.len() as int] == end
            &&& forall|place: int|
                0 <= place < start.len() ==> #[trigger] sweep_step(
                    states,
                    samples,
                    roster,
                    random_number,
                    place,
                )
        }
}

/// Every opinion vector entry speaks of a transaction that the vision knows.
pub open spec fn known_txs(v: VisionMap, opinions: Seq<(TxId, bool)>) -> bool {
    forall|i: int| 0 <= i < opinions.len() ==> v.contains_key((#[trigger] opinions[i]).0)
}

/// Adds to each count one more like where the vision likes the transaction.
fn add_likes(eta: &mut Vec<(TxId, usize)>, vision: &Vision)
    requires
        vision.wf(),
        forall|t: int|
            0 <= t < old(eta)@.len() ==> vision@.contains_key((#[trigger] old(eta)@[t]).0) && old(
                eta,
            )@[t].1 < usize::MAX,
    ensures
        final(eta)@.len() == old(eta)@.len(),
        forall|t: int|
            0 <= t < old(eta)@.len() ==> #[trigger] final(eta)@[t] == (
                old(eta)@[t].0,
                (old(eta)@[t].1 + if vision@[old(eta)@[t].0].1.like() {
                    1int
                } else {
                    0int
                }) as usize,
            ),
{
    let ghost start = eta@;
    let mut t: usize = 0;
    while t < eta.len()
        invariant
            t <= eta@.len(),
            eta@.len() == start.len(),
            vision.wf(),
            forall|u: int|
                0 <= u < start.len() ==> vision@.contains_key((#[trigger] start[u]).0) && start[u].1
                    < usize::MAX,
            forall|u: int| t <= u < start.len() ==> #[trigger] eta@[u] == start[u],
            forall|u: int|
                0 <= u < t ==> #[trigger] eta@[u] == (
                    start[u].0,
                    (start[u].1 + if vision@[start[u].0].1.like() {
                        1int
                    } else {
                        0int
                    }) as usize,
                ),
        decreases eta@.len() - t,
    {
        let (tx, likes) = eta[t];
        assert(eta@[t as int] == start[t as int]);
        if vision.get_opinion_status(&tx).is_like() {
            eta[t] = (tx, likes + 1);
        }
        t += 1;
    }
}

/// A node: its public identifier, what it knows of the transactions, whom it
/// can query, whether all its opinions are final, and how it behaves.
#[derive(Debug)]
pub struct Node {
    pub id: NodeId,
    pub vision: Vision,
    pub neighborhood: Neighborhood,
    pub status: NodeStatus,
    pub node_type: NodeType,
}

impl Node {
    /// Samples `k` nodes without repetition from the neighborhood.
    pub fn sample_from_neighborhood(&self, k: usize) -> (sample: Vec<NodeId>)
        ensures
            exists|draws: Seq<u64>|
                sample@ == crate::aux_types::drawn_sample(self.neighborhood@, k as nat, draws),
            sample@.len() == queries(k as nat, self.neighborhood@.len()),
            k >= self.neighborhood@.len() ==> sample@ == self.neighborhood@,
            sample@.to_multiset().subset_of(self.neighborhood@.to_multiset()),
            forall|i: int|
                0 <= i < sample@.len() ==> self.neighborhood@.contains(#[trigger] sample@[i]),
            self.neighborhood@.no_duplicates() ==> sample@.no_duplicates(),
    {
        self.neighborhood.sample(k)
    }

    /// Counts, for every transaction of the vision, the likes that the
    /// sampled nodes report: an honest node its own, a malicious node those
    /// of this node, a faulty node none.
    pub fn count_likes(&self, sample: &Vec<NodeId>, database: &Database) -> (eta: Vec<(TxId, usize)>)
        requires
            self.vision.wf(),
            database.inv(),
            self.vision@.dom() == database.tx_ids().to_set(),
            forall|i: int| 0 <= i < sample@.len() ==> has_id(database.nodes(), #[trigger] sample@[i]),
        ensures
            eta@.len() == self.vision.keys().len(),
            forall|t: int|
                0 <= t < eta@.len() ==> #[trigger] eta@[t] == (
                    self.vision.keys()[t],
                    tally_of(
                        database.nodes(),
                        self.vision@,
                        sample@,
                        self.vision.keys()[t],
                    ) as usize,
                ),
    {
        let txs = self.vision.get_txs();
        let ghost keys = self.vision.keys();
        let ghost nodes = database.nodes();
        let ghost querier = self.vision@;
        let mut eta: Vec<(TxId, usize)> = Vec::new();
        let mut t: usize = 0;
        while t < txs.len()
            invariant
                t <= txs@.len(),
                eta@.len() == t,
                forall|u: int| 0 <= u < t ==> #[trigger] eta@[u] == (txs@[u], 0usize),
            decreases txs@.len() - t,
        {
            eta.push((txs[t], 0usize));
            t += 1;
        }
        let mut s: usize = 0;
        while s < sample.len()
            invariant
                s <= sample@.len(),
                self.vision.wf(),
                database.inv(),
                nodes == database.nodes(),
                querier == self.vision@,
                keys == self.vision.keys(),
                Vision::lists_keys(keys, querier),
                querier.dom() == database.tx_ids().to_set(),
                forall|i: int| 0 <= i < sample@.len() ==> has_id(nodes, #[trigger] sample@[i]),
                eta@.len() == keys.len(),
                forall|u: int|
                    0 <= u < eta@.len() ==> #[trigger] eta@[u] == (
                        keys[u],
                        tally_of(nodes, querier, sample@.take(s as int), keys[u]) as usize,
                    ),
            decreases sample@.len() - s,
        {
            let queried = sample[s];
            let ghost done = sample@.take(s as int);
            let ghost before = eta@;
            let place = database.position(&queried);
            let i: usize = place.unwrap();
            let node = &database.data[i];
            proof {
                assert(database.node_inv(i as int));
                assert(*node == node_with_id(nodes, queried)) by {
                    let c = choose|c: int| 0 <= c < nodes.len() && (#[trigger] nodes[c]).id == queried;
                    if c != i {
                        assert(nodes[c].id != nodes[i as int].id);
                    }
                }
                assert(sample@.take(s + 1).drop_last() == done);
                assert forall|u: int| 0 <= u < before.len() implies querier.contains_key(
                    (#[trigger] before[u]).0,
                ) && node.vision@.contains_key(before[u].0) && before[u].1 < usize::MAX by {
                    assert(keys.contains(keys[u]));
                    lemma_tally_bound(nodes, querier, done, keys[u]);
                }
            }
            if node.is_honest() {
                add_likes(&mut eta, &node.vision);
            } else if node.is_malicious() {
                add_likes(&mut eta, &self.vision);
            }
            proof {
                assert forall|u: int| 0 <= u < eta@.len() implies #[trigger] eta@[u] == (
                    keys[u],
                    tally_of(nodes, querier, sample@.take(s + 1), keys[u]) as usize,
                ) by {
                    lemma_tally_bound(nodes, querier, done, keys[u]);
                    assert(before[u] == (keys[u], tally_of(nodes, querier, done, keys[u]) as usize));
                }
            }
            s += 1;
        }
        assert(sample@.take(s as int) == sample@);
        eta
    }

    /// The outcome of a round for this node, given the nodes it sampled:
    /// likes are counted and held against the round's threshold, the liked
    /// set is pruned until it is independent and then completed until
    /// nothing can be added.
    pub fn opinions_from_sample(
        &self,
        sample: &Vec<NodeId>,
        k: usize,
        database: &Database,
        random_number: u32,
    ) -> (opinions: Vec<(TxId, bool)>)
        requires
            self.vision.wf(),
            database.inv(),
            self.vision@.dom() == database.tx_ids().to_set(),
            forall|i: int| 0 <= i < sample@.len() ==> has_id(database.nodes(), #[trigger] sample@[i]),
        ensures
            opinions@ == round_opinions(*self, database.nodes(), sample@, k as nat, random_number),
            opinions@.len() == self.vision.keys().len(),
            distinct_txs(opinions@),
            known_txs(self.vision@, opinions@),
            forall|tx: TxId| self.vision@.contains_key(tx) <==> tx_ids(opinions@).contains(tx),
            in_hashed_order(tx_ids(opinions@), random_number, false),
            maximal(self.vision@, opinions@),
            coherent(self.vision@) ==> independent(self.vision@, opinions@),
    {
        let eta = self.count_likes(sample, database);
        let number_of_queries: usize = if k <= self.neighborhood.len() {
            k
        } else {
            self.neighborhood.len()
        };
        let threshold: usize = threshold(random_number, number_of_queries);
        let ghost keys = self.vision.keys();
        let ghost first = first_opinions(
            keys,
            database.nodes(),
            self.vision@,
            sample@,
            threshold as nat,
        );
        let mut new_auxiliary_opinion: Vec<(TxId, bool)> = Vec::new();
        let mut t: usize = 0;
        while t < eta.len()
            invariant
                t <= eta@.len(),
                eta@.len() == keys.len(),
                first.len() == keys.len(),
                forall|u: int|
                    0 <= u < eta@.len() ==> #[trigger] eta@[u] == (
                        keys[u],
                        tally_of(database.nodes(), self.vision@, sample@, keys[u]) as usize,
                    ),
                forall|u: int|
                    0 <= u < first.len() ==> #[trigger] first[u] == (
                        keys[u],
                        tally_of(database.nodes(), self.vision@, sample@, keys[u]) > threshold,
                    ),
                new_auxiliary_opinion@ == first.take(t as int),
            decreases eta@.len() - t,
        {
            let (id, n) = eta[t];
            proof {
                lemma_tally_bound(database.nodes(), self.vision@, sample@, keys[t as int]);
                assert(sample@.len() == sample.len());
                assert(n == tally_of(database.nodes(), self.vision@, sample@, keys[t as int]));
                assert(first.take(t + 1) == first.take(t as int).push(first[t as int]));
            }
            if n > threshold {
                new_auxiliary_opinion.push((id, true));
            } else {
                new_auxiliary_opinion.push((id, false));
            }
            t += 1;
        }
        proof {
            assert(first.take(t as int) == first);
            self.vision.lemma_keys();
            assert forall|a: int, b: int| 0 <= a < b < first.len() implies first[a].0
                != first[b].0 by {
                assert(keys[a].0 < keys[b].0);
            }
            assert forall|u: int| 0 <= u < first.len() implies self.vision@.contains_key(
                (#[trigger] first[u]).0,
            ) by {
                assert(keys.contains(keys[u]));
            }
            assert forall|tx: TxId| self.vision@.contains_key(tx) <==> tx_ids(first).contains(tx) by {
                assert(keys.contains(tx) <==> self.vision@.contains_key(tx));
                if self.vision@.contains_key(tx) {
                    let u = choose|u: int| 0 <= u < keys.len() && keys[u] == tx;
                    assert(tx_ids(first)[u] == tx);
                }
                if tx_ids(first).contains(tx) {
                    let u = choose|u: int| 0 <= u < first.len() && tx_ids(first)[u] == tx;
                    assert(keys.contains(keys[u]));
                }
            }
        }
        self.elim(&mut new_auxiliary_opinion, random_number);
        self.comp(new_auxiliary_opinion, random_number)
    }

    /// Samples `k` neighbours and works out the round's outcome for this
    /// node from what they report. Whatever the sample, the outcome likes
    /// a maximal independent set of the node's transactions.
    pub fn collect_and_set_new_opinion(&self, k: usize, database: &Database, random_number: u32) -> (opinions:
        Vec<(TxId, bool)>)
        requires
            self.vision.wf(),
            database.inv(),
            self.vision@.dom() == database.tx_ids().to_set(),
            forall|i: int|
                0 <= i < self.neighborhood@.len() ==> has_id(
                    database.nodes(),
                    #[trigger] self.neighborhood@[i],
                ),
        ensures
            exists|sample: Seq<NodeId>|
                sample.len() == queries(k as nat, self.neighborhood@.len())
                    && sample.to_multiset().subset_of(self.neighborhood@.to_multiset()) && opinions@
                    == round_opinions(*self, database.nodes(), sample, k as nat, random_number),
            opinions@.len() == self.vision.keys().len(),
            distinct_txs(opinions@),
            known_txs(self.vision@, opinions@),
            forall|tx: TxId| self.vision@.contains_key(tx) <==> tx_ids(opinions@).contains(tx),
            in_hashed_order(tx_ids(opinions@), random_number, false),
            maximal(self.vision@, opinions@),
            coherent(self.vision@) ==> independent(self.vision@, opinions@),
    {
        let node_sample = self.sample_from_neighborhood(k);
        proof {
            assert forall|i: int| 0 <= i < node_sample@.len() implies has_id(
                database.nodes(),
                #[trigger] node_sample@[i],
            ) by {
                let j = choose|j: int|
                    0 <= j < self.neighborhood@.len() && self.neighborhood@[j] == node_sample@[i];
                assert(has_id(database.nodes(), self.neighborhood@[j]));
            }
        }
        self.opinions_from_sample(&node_sample, k, database, random_number)
    }

    /// The pruning step of a round: puts the opinions into descending order
    /// of their hashed transactions and then drops likes, in that order,
    /// until no two liked transactions conflict.
    pub fn elim(&self, auxiliary_opinion: &mut Vec<(TxId, bool)>, random_number: u32)
        requires
            self.vision.wf(),
            distinct_txs(old(auxiliary_opinion)@),
            known_txs(self.vision@, old(auxiliary_opinion)@),
        ensures
            final(auxiliary_opinion)@ == elim_pass(
                self.vision@,
                arranged(old(auxiliary_opinion)@, random_number, true),
            ),
            final(auxiliary_opinion)@.len() == old(auxiliary_opinion)@.len(),
            tx_ids(final(auxiliary_opinion)@) == tx_ids(
                arranged(old(auxiliary_opinion)@, random_number, true),
            ),
            in_hashed_order(tx_ids(final(auxiliary_opinion)@), random_number, true),
            distinct_txs(final(auxiliary_opinion)@),
            same_txs(old(auxiliary_opinion)@, final(auxiliary_opinion)@),
            known_txs(self.vision@, final(auxiliary_opinion)@),
            independent(self.vision@, final(auxiliary_opinion)@),
            independent(self.vision@, old(auxiliary_opinion)@) ==> final(auxiliary_opinion)@
                == arranged(old(auxiliary_opinion)@, random_number, true),
    {
        let ghost given = auxiliary_opinion@;
        sort_by_hash(auxiliary_opinion, random_number, true);
        let ghost sorted = auxiliary_opinion@;
        proof {
            assert forall|i: int| 0 <= i < sorted.len() implies self.vision@.contains_key(
                (#[trigger] sorted[i]).0,
            ) by {
                assert(sorted.contains(sorted[i]));
                let k = choose|k: int| 0 <= k < given.len() && given[k] == sorted[i];
                assert(self.vision@.contains_key(given[k].0));
            }
        }
        prune(&self.vision, auxiliary_opinion);
        proof {
            let g = self.vision@;
            lemma_elim_shape(g, sorted, 0);
            lemma_elim_independent(g, sorted);
            assert(tx_ids(auxiliary_opinion@) =~= tx_ids(sorted));
            lemma_rearranged_same_txs(given, sorted);
            assert forall|i: int, j: int|
                0 <= i < j < auxiliary_opinion@.len() implies auxiliary_opinion@[i].0
                != auxiliary_opinion@[j].0 by {
                assert(sorted[i].0 != sorted[j].0);
            }
            if independent(g, given) {
                lemma_rearranged_sets(g, given, sorted);
                lemma_elim_keeps_independent(g, sorted, 0);
            }
        }
    }

    /// The completing step of a round: puts the opinions into ascending
    /// order of their hashed transactions and then adds likes, in that
    /// order, until no transaction can be added to the liked set.
    pub fn comp(&self, auxiliary_opinion: Vec<(TxId, bool)>, random_number: u32) -> (completed: Vec<
        (TxId, bool),
    >)
        requires
            self.vision.wf(),
            distinct_txs(auxiliary_opinion@),
            known_txs(self.vision@, auxiliary_opinion@),
        ensures
            completed@ == comp_pass(self.vision@, arranged(auxiliary_opinion@, random_number, false)),
            completed@.len() == auxiliary_opinion@.len(),
            tx_ids(completed@) == tx_ids(arranged(auxiliary_opinion@, random_number, false)),
            in_hashed_order(tx_ids(completed@), random_number, false),
            distinct_txs(completed@),
            same_txs(auxiliary_opinion@, completed@),
            known_txs(self.vision@, completed@),
            maximal(self.vision@, completed@),
            coherent(self.vision@) && independent(self.vision@, auxiliary_opinion@) ==> independent(
                self.vision@,
                completed@,
            ),
            maximal(self.vision@, auxiliary_opinion@) ==> completed@ == arranged(
                auxiliary_opinion@,
                random_number,
                false,
            ),
    {
        let mut auxiliary_opinion = auxiliary_opinion;
        let ghost given = auxiliary_opinion@;
        sort_by_hash(&mut auxiliary_opinion, random_number, false);
        let ghost sorted = auxiliary_opinion@;
        proof {
            assert forall|i: int| 0 <= i < sorted.len() implies self.vision@.contains_key(
                (#[trigger] sorted[i]).0,
            ) by {
                assert(sorted.contains(sorted[i]));
                let k = choose|k: int| 0 <= k < given.len() && given[k] == sorted[i];
                assert(self.vision@.contains_key(given[k].0));
            }
        }
        complete(&self.vision, &mut auxiliary_opinion);
        proof {
            let g = self.vision@;
            lemma_comp_shape(g, sorted, 0);
            lemma_comp_maximal(g, sorted);
            assert(tx_ids(auxiliary_opinion@) =~= tx_ids(sorted));
            lemma_rearranged_same_txs(given, sorted);
            assert forall|i: int, j: int|
                0 <= i < j < auxiliary_opinion@.len() implies auxiliary_opinion@[i].0
                != auxiliary_opinion@[j].0 by {
                assert(sorted[i].0 != sorted[j].0);
            }
            lemma_rearranged_sets(g, given, sorted);
            if coherent(g) && independent(g, given) {
                lemma_comp_independent(g, sorted, 0);
            }
            if maximal(g, given) {
                lemma_comp_keeps_maximal(g, sorted, 0);
            }
        }
        auxiliary_opinion
    }

    /// Finally rejects every transaction that `tx` conflicts with.
    fn reject_conflicts_of(&mut self, tx: &TxId)
        requires
            old(self).vision.wf(),
            old(self).vision@.contains_key(*tx),
            forall|b: TxId| conflict(old(self).vision@, *tx, b) ==> old(self).vision@.contains_key(b),
        ensures
            final(self).vision.wf(),
            final(self).vision@ == reject_conflicts(old(self).vision@, *tx),
            final(self).vision.keys() == old(self).vision.keys(),
            final(self).id == old(self).id,
            final(self).neighborhood == old(self).neighborhood,
            final(self).status == old(self).status,
            final(self).node_type == old(self).node_type,
    {
        let conflicts = self.vision.get_conflict_set(tx).clone();
        let ghost start = self.vision@;
        let mut i: usize = 0;
        while i < conflicts.get().len()
            invariant
                i <= conflicts@.len(),
                conflicts@ == start[*tx].0,
                start.contains_key(*tx),
                forall|b: TxId| conflict(start, *tx, b) ==> start.contains_key(b),
                self.vision.wf(),
                self.vision.keys() == old(self).vision.keys(),
                self.vision@.dom() == start.dom(),
                forall|t: TxId|
                    start.contains_key(t) ==> #[trigger] self.vision@[t] == (if conflicts@.take(
                        i as int,
                    ).contains(t) {
                        (start[t].0, Opinion::Final(false))
                    } else {
                        start[t]
                    }),
                self.id == old(self).id,
                self.neighborhood == old(self).neighborhood,
                self.status == old(self).status,
                self.node_type == old(self).node_type,
            decreases conflicts@.len() - i,
        {
            let conflict_tx = conflicts.get()[i];
            let ghost before = self.vision@;
            let ghost done = conflicts@.take(i as int);
            proof {
                assert(conflicts@.contains(conflict_tx));
                assert(conflict(start, *tx, conflict_tx));
            }
            self.vision.set_opinion(&conflict_tx, Opinion::Final(false));
            proof {
                assert(self.vision@.dom() =~= start.dom());
                assert(conflicts@.take(i + 1) == done.push(conflict_tx));
                assert forall|t: TxId| start.contains_key(t) implies #[trigger] self.vision@[t] == (
                if conflicts@.take(i + 1).contains(t) {
                    (start[t].0, Opinion::Final(false))
                } else {
                    start[t]
                }) by {
                    vstd::seq_lib::lemma_seq_contains_after_push(done, conflict_tx, t);
                    assert(before[t] == (if done.contains(t) {
                        (start[t].0, Opinion::Final(false))
                    } else {
                        start[t]
                    }));
                }
            }
            i += 1;
        }
        proof {
            assert(conflicts@.take(i as int) == conflicts@);
            assert(self.vision@ =~= reject_conflicts(start, *tx));
        }
    }

    /// Takes the outcome of a round into the vision: each opinion moves on
    /// as the outcome for its transaction says, in the order of the vector.
    /// Afterwards the node is finalized exactly if all its opinions are final.
    pub fn update_opinions(&mut self, new_opinions: Vec<(TxId, bool)>)
        requires
            old(self).vision.wf(),
            coherent(old(self).vision@),
            settled(old(self).vision@),
            known_txs(old(self).vision@, new_opinions@),
        ensures
            final(self).vision.wf(),
            final(self).vision@ == apply_opinions(old(self).vision@, new_opinions@),
            finality_kept(old(self).vision@, final(self).vision@),
            coherent(final(self).vision@),
            settled(final(self).vision@),
            final(self).status == (if all_final(final(self).vision@) {
                NodeStatus::Finalized
            } else {
                NodeStatus::NotFinalized
            }),
            final(self).id == old(self).id,
            final(self).neighborhood == old(self).neighborhood,
            final(self).node_type == old(self).node_type,
            final(self).vision.keys() == old(self).vision.keys(),
    {
        let ghost start = self.vision@;
        let mut i: usize = 0;
        while i < new_opinions.len()
            invariant
                i <= new_opinions@.len(),
                coherent(start),
                settled(start),
                known_txs(start, new_opinions@),
                self.vision.wf(),
                self.vision@ == apply_opinions(start, new_opinions@.take(i as int)),
                self.vision.keys() == old(self).vision.keys(),
                self.id == old(self).id,
                self.neighborhood == old(self).neighborhood,
                self.node_type == old(self).node_type,
            decreases new_opinions@.len() - i,
        {
            let (id, new_opinion) = new_opinions[i];
            let ghost before = self.vision@;
            proof {
                let front = new_opinions@.take(i as int);
                assert forall|j: int| 0 <= j < front.len() implies start.contains_key(
                    (#[trigger] front[j]).0,
                ) by {
                    assert(front[j] == new_opinions@[j]);
                }
                lemma_apply_opinions(start, front);
                assert(before.contains_key(id));
                assert(new_opinions@.take(i + 1).drop_last() == front);
            }
            let opinion = *self.vision.get_opinion_status(&id);
            match opinion {
                Opinion::Pending(a, b) => {
                    if a && new_opinion && b >= L - 1 {
                        self.vision.set_opinion(&id, Opinion::Final(true));
                        proof {
                            let moved = self.vision@;
                            assert forall|t: TxId| conflict(moved, id, t) implies moved.contains_key(
                                t,
                            ) by {
                                assert(conflict(before, id, t));
                                assert(conflict(before, t, id));
                            }
                        }
                        self.reject_conflicts_of(&id);
                    } else if a == new_opinion {
                        let streak: u32 = if b < u32::MAX {
                            b + 1
                        } else {
                            b
                        };
                        self.vision.set_opinion(&id, Opinion::Pending(a, streak));
                    } else {
                        self.vision.set_opinion(&id, Opinion::Pending(new_opinion, 0));
                    }
                },
                _ => {
                    assert(before.insert(id, (before[id].0, before[id].1)) =~= before);
                },
            }
            assert(self.vision@ == apply_opinion(before, id, new_opinion));
            i += 1;
        }
        proof {
            assert(new_opinions@.take(i as int) == new_opinions@);
            lemma_apply_opinions(start, new_opinions@);
        }
        if self.vision.has_finalized() {
            self.status = NodeStatus::Finalized;
        } else {
            self.status = NodeStatus::NotFinalized;
        }
    }

    /// The opinions of the node, in increasing order of transaction identifier.
    pub fn opinions(&self) -> (list: Vec<(TxId, Opinion)>)
        requires
            self.vision.wf(),
        ensures
            list@ == opinions_of(*self),
    {
        let txs = self.vision.get_txs();
        let mut list: Vec<(TxId, Opinion)> = Vec::new();
        let mut t: usize = 0;
        while t < txs.len()
            invariant
                t <= txs@.len(),
                self.vision.wf(),
                txs@ == self.vision.keys(),
                Vision::lists_keys(txs@, self.vision@),
                list@.len() == t,
                forall|u: int| 0 <= u < t ==> list@[u] == opinions_of(*self)[u],
            decreases txs@.len() - t,
        {
            assert(txs@.contains(txs@[t as int]));
            list.push((txs[t], *self.vision.get_opinion_status(&txs[t])));
            t += 1;
        }
        assert(list@ =~= opinions_of(*self));
        list
    }

    pub fn is_faulty(&self) -> (b: bool)
        ensures
            b == (self.node_type == NodeType::Faulty),
    {
        self.node_type == NodeType::Faulty
    }

    pub fn is_honest(&self) -> (b: bool)
        ensures
            b == (self.node_type == NodeType::Regular),
    {
        self.node_type == NodeType::Regular
    }

    pub fn is_malicious(&self) -> (b: bool)
        ensures
            b == (self.node_type == NodeType::Malicious),
    {
        self.node_type == NodeType::Malicious
    }
}

/// What a round made known: the round's random number, the transactions
/// that became finalized in all honest nodes, each with the number of
/// honest nodes that like it and the number of honest nodes, and the honest
/// nodes that finalized all their transactions.
#[derive(Debug)]
pub struct RoundReport {
    pub random_number: u32,
    pub finalized_txs: Vec<(TxId, usize, usize)>,
    pub finalized_nodes: Vec<NodeId>,
}

/// The simulated network: all nodes, the transactions with their global
/// status, and the roster of nodes with their kind and published status.
/// Nodes and roster are in the order in which the nodes joined.
#[derive(Debug)]
pub struct Database {
    data: Vec<Node>,
    tx_set: Vec<(TxId, TxGlobalStatus)>,
    node_set: Vec<(NodeId, NodeType, NodeStatus)>,
}

impl Database {
    /// The nodes, in the order in which they joined.
    pub closed spec fn nodes(&self) -> Seq<Node> {
        self.data@
    }

    /// The transactions with their global status.
    pub closed spec fn txs(&self) -> Seq<(TxId, TxGlobalStatus)> {
        self.tx_set@
    }

    /// The roster: identifier, kind and published status of each node.
    pub closed spec fn roster(&self) -> Seq<(NodeId, NodeType, NodeStatus)> {
        self.node_set@
    }

    /// The identifiers of the nodes.
    pub open spec fn node_ids(&self) -> Seq<NodeId> {
        Seq::new(self.nodes().len(), |i: int| self.nodes()[i].id)
    }

    /// The identifiers of the transactions.
    pub open spec fn tx_ids(&self) -> Seq<TxId> {
        Seq::new(self.txs().len(), |k: int| self.txs()[k].0)
    }

    /// What holds of the node at place `i` at every moment: its vision is
    /// in order and knows exactly the transactions of the network, with the
    /// same conflicts as every other node; what it likes for good is
    /// settled; its neighbours are all the other nodes; the roster shows its
    /// identifier and kind; it is finalized exactly if all its opinions are
    /// final; and a node that is not honest has no opinion.
    pub open spec fn node_inv(&self, i: int) -> bool {
        let node = self.nodes()[i];
        &&& node.vision.wf()
        &&& coherent(node.vision@)
        &&& settled(node.vision@)
        &&& node.vision@.dom() == self.tx_ids().to_set()
        &&& node.vision.keys() == self.nodes()[0].vision.keys()
        &&& (forall|tx: TxId|
            node.vision@.contains_key(tx) ==> (#[trigger] node.vision@[tx]).0
                == self.nodes()[0].vision@[tx].0)
        &&& node.neighborhood@ == self.node_ids().remove(i)
        &&& node.id == self.roster()[i].0
        &&& node.node_type == self.roster()[i].1
        &&& (node.status == NodeStatus::Finalized <==> all_final(node.vision@))
        &&& (node.node_type != NodeType::Regular ==> forall|tx: TxId|
            node.vision@.contains_key(tx) ==> (#[trigger] node.vision@[tx]).1 is Unset)
    }

    /// Every honest node has a final opinion on `tx`.
    pub open spec fn final_everywhere(&self, tx: TxId) -> bool {
        honest_all_final(self.nodes(), tx)
    }

    /// What holds at every moment, also between the updates of two nodes
    /// within a round: every node is in order, identifiers are distinct,
    /// there is an honest node, and what is published as finalized is so.
    pub open spec fn inv(&self) -> bool {
        &&& self.roster().len() == self.nodes().len()
        &&& forall|i: int| 0 <= i < self.nodes().len() ==> self.node_inv(i)
        &&& distinct_ids(self.nodes())
        &&& self.tx_ids().no_duplicates()
        &&& exists|i: int|
            0 <= i < self.nodes().len() && (#[trigger] self.nodes()[i]).node_type
                == NodeType::Regular
        &&& forall|k: int|
            0 <= k < self.txs().len() && (#[trigger] self.txs()[k]).1 == TxGlobalStatus::Finalized
                ==> self.final_everywhere(self.txs()[k].0)
        &&& forall|i: int|
            0 <= i < self.nodes().len() && (#[trigger] self.roster()[i]).2 == NodeStatus::Finalized
                ==> self.nodes()[i].status == NodeStatus::Finalized
    }

    /// What holds between rounds: besides `inv`, a transaction is
    /// published as finalized exactly if every honest node holds a final
    /// opinion on it, and the roster shows each node's own status.
    pub open spec fn wf(&self) -> bool {
        &&& self.inv()
        &&& forall|k: int|
            0 <= k < self.txs().len() ==> ((#[trigger] self.txs()[k]).1 == TxGlobalStatus::Finalized
                <==> self.final_everywhere(self.txs()[k].0))
        &&& forall|i: int|
            0 <= i < self.nodes().len() ==> (#[trigger] self.roster()[i]).2 == self.nodes()[i].status
    }

    /// Every node is honest, every two transactions conflict, and every
    /// node stands on `tx`: it likes `tx`, pending with the given streak,
    /// and dislikes everything else, pending too.
    pub open spec fn stands_on(&self, tx: TxId, streak: u32) -> bool {
        forall|j: int|
            0 <= j < self.nodes().len() ==> {
                &&& (#[trigger] self.nodes()[j]).node_type == NodeType::Regular
                &&& all_conflict(self.nodes()[j].vision@)
                &&& pending_on(self.nodes()[j].vision@, tx, streak)
            }
    }

    /// Every node likes `tx` for good, rejects everything else for good and
    /// is finalized, in its own status and in the roster.
    pub open spec fn settled_on(&self, tx: TxId) -> bool {
        forall|j: int|
            0 <= j < self.nodes().len() ==> {
                &&& decided_on((#[trigger] self.nodes()[j]).vision@, tx)
                &&& self.nodes()[j].status == NodeStatus::Finalized
                &&& self.roster()[j].2 == NodeStatus::Finalized
            }
    }

    /// A network in order that stands on `tx` is unanimous: every node
    /// takes a turn in the next round and has all the others for neighbours.
    proof fn lemma_stands_on_unanimous(&self, tx: TxId, streak: u32)
        requires
            self.wf(),
            self.stands_on(tx, streak),
        ensures
            unanimous(self.nodes(), self.roster(), tx, streak),
    {
        assert(ids_of(self.nodes()) =~= self.node_ids());
        assert forall|j: int| 0 <= j < self.nodes().len() implies {
            &&& (#[trigger] self.nodes()[j]).node_type == NodeType::Regular
            &&& takes_turn(self.roster()[j])
            &&& self.nodes()[j].vision.wf()
            &&& coherent(self.nodes()[j].vision@)
            &&& all_conflict(self.nodes()[j].vision@)
            &&& pending_on(self.nodes()[j].vision@, tx, streak)
            &&& self.nodes()[j].vision@.dom() == self.nodes()[0].vision@.dom()
            &&& self.nodes()[j].neighborhood@ == ids_of(self.nodes()).remove(j)
        } by {
            assert(self.node_inv(j));
            assert(self.node_inv(0));
            let v = self.nodes()[j].vision@;
            assert(v[tx].1 is Pending);
            assert(!all_final(v));
            assert(self.roster()[j].2 == self.nodes()[j].status);
        }
    }

    /// A round brings a network that stands on `tx` one round further.
    proof fn lemma_round_on(before: Database, after: Database, random_number: u32, tx: TxId, streak: u32)
        requires
            before.wf(),
            after.wf(),
            swept(before.nodes(), after.nodes(), before.roster(), random_number),
            forall|i: int|
                0 <= i < before.nodes().len() ==> node_moved_on(
                    before.nodes()[i],
                    #[trigger] after.nodes()[i],
                ),
            before.stands_on(tx, streak),
            before.nodes().len() >= 2 || before.txs().len() == 1,
        ensures
            streak < L - 1 ==> after.stands_on(tx, (streak + 1) as u32),
            streak >= L - 1 ==> after.settled_on(tx),
    {
        before.lemma_stands_on_unanimous(tx, streak);
        if before.nodes().len() < 2 {
            assert(before.node_inv(0));
            let v = before.nodes()[0].vision@;
            assert forall|t: TxId| v.contains_key(t) implies t == tx by {
                assert(before.tx_ids().to_set().contains(t));
                assert(before.tx_ids().to_set().contains(tx));
                let a = choose|a: int| 0 <= a < before.tx_ids().len() && before.tx_ids()[a] == t;
                let b = choose|b: int| 0 <= b < before.tx_ids().len() && before.tx_ids()[b] == tx;
                assert(a == 0 && b == 0);
            }
        }
        lemma_unanimous_round(
            before.nodes(),
            after.nodes(),
            before.roster(),
            random_number,
            tx,
            streak,
        );
        assert forall|j: int| 0 <= j < after.nodes().len() implies (#[trigger] after.nodes()[j]).node_type
            == NodeType::Regular && all_conflict(after.nodes()[j].vision@) by {
            assert(node_moved_on(before.nodes()[j], after.nodes()[j]));
            let old_v = before.nodes()[j].vision@;
            let new_v = after.nodes()[j].vision@;
            assert(before.nodes()[j].node_type == NodeType::Regular);
            assert(all_conflict(old_v));
            assert forall|a: TxId, b: TxId|
                new_v.contains_key(a) && new_v.contains_key(b) && a != b implies #[trigger] conflict(
                new_v,
                a,
                b,
            ) by {
                assert(old_v.contains_key(a));
                assert(new_v[a].0 == old_v[a].0);
                assert(conflict(old_v, a, b));
            }
        }
    }

    /// The nodes, in the order in which they joined.
    pub fn data(&self) -> (nodes: &Vec<Node>)
        ensures
            nodes@ == self.nodes(),
    {
        &self.data
    }

    /// The transactions with their global status.
    pub fn tx_set(&self) -> (txs: &Vec<(TxId, TxGlobalStatus)>)
        ensures
            txs@ == self.txs(),
    {
        &self.tx_set
    }

    /// The roster: identifier, kind and published status of each node.
    pub fn node_set(&self) -> (roster: &Vec<(NodeId, NodeType, NodeStatus)>)
        ensures
            roster@ == self.roster(),
    {
        &self.node_set
    }

    /// What holds while the nodes join: each has the common vision, the
    /// nodes before and after it for neighbours, and its line in the roster.
    spec fn building(&self, common: Vision) -> bool {
        &&& common.wf()
        &&& self.node_set@.len() == self.data@.len()
        &&& distinct_ids(self.data@)
        &&& forall|i: int|
            0 <= i < self.data@.len() ==> {
                &&& (#[trigger] self.data@[i]).vision.wf()
                &&& self.data@[i].vision@ == common@
                &&& self.data@[i].vision.keys() == common.keys()
                &&& self.data@[i].status == status_for(common@)
                &&& self.data@[i].neighborhood@ == self.node_ids().remove(i)
                &&& self.node_set@[i] == (
                    self.data@[i].id,
                    self.data@[i].node_type,
                    self.data@[i].status,
                )
            }
    }

    /// Lets a node join: it gets a copy of the vision and all nodes that
    /// are there for neighbours, and each of them gets it for a neighbour.
    fn add_new_node(
        &mut self,
        new_node_id: NodeId,
        vision: &Vision,
        _node_graph_type: NodeGraphType,
        node_type: NodeType,
    )
        requires
            old(self).building(*vision),
            !has_id(old(self).data@, new_node_id),
        ensures
            final(self).building(*vision),
            final(self).tx_set@ == old(self).tx_set@,
            final(self).data@.len() == old(self).data@.len() + 1,
            forall|i: int|
                0 <= i < old(self).data@.len() ==> (#[trigger] final(self).data@[i]).id == old(
                    self,
                ).data@[i].id && final(self).data@[i].node_type == old(self).data@[i].node_type,
            final(self).data@[old(self).data@.len() as int].id == new_node_id,
            final(self).data@[old(self).data@.len() as int].node_type == node_type,
    {
        let ghost before = *self;
        let mut node_id_set: Vec<NodeId> = Vec::new();
        let mut n: usize = 0;
        while n < self.node_set.len()
            invariant
                n <= self.node_set@.len(),
                node_id_set@.len() == n,
                forall|j: int| 0 <= j < n ==> node_id_set@[j] == self.node_set@[j].0,
            decreases self.node_set@.len() - n,
        {
            node_id_set.push(self.node_set[n].0);
            n += 1;
        }
        let neighborhood = Neighborhood::set_new(&node_id_set);
        let mut i: usize = 0;
        while i < self.data.len()
            invariant
                i <= self.data@.len(),
                self.tx_set@ == before.tx_set@,
                self.node_set@ == before.node_set@,
                self.data@.len() == before.data@.len(),
                forall|j: int|
                    0 <= j < self.data@.len() ==> (#[trigger] self.data@[j]).id == before.data@[j].id
                        && self.data@[j].vision == before.data@[j].vision && self.data@[j].status
                        == before.data@[j].status && self.data@[j].node_type
                        == before.data@[j].node_type,
                forall|j: int|
                    0 <= j < i ==> (#[trigger] self.data@[j]).neighborhood@
                        == before.data@[j].neighborhood@.push(new_node_id),
                forall|j: int|
                    i <= j < self.data@.len() ==> (#[trigger] self.data@[j]).neighborhood@
                        == before.data@[j].neighborhood@,
            decreases self.data@.len() - i,
        {
            self.data[i].neighborhood.add(new_node_id);
            i += 1;
        }
        let copy = vision.clone();
        let status = if copy.has_finalized() {
            NodeStatus::Finalized
        } else {
            NodeStatus::NotFinalized
        };
        let ghost joined = self.data@;
        self.data.push(
            Node { id: new_node_id, vision: copy, neighborhood, status, node_type },
        );
        self.node_set.push((new_node_id, node_type, status));
        proof {
            let count = before.data@.len() as int;
            let ids = self.node_ids();
            let old_ids = before.node_ids();
            assert(node_id_set@ =~= old_ids) by {
                assert forall|j: int| 0 <= j < count implies node_id_set@[j] == old_ids[j] by {
                    assert(before.node_set@[j].0 == before.data@[j].id);
                }
            }
            assert(ids =~= old_ids.push(new_node_id)) by {
                assert forall|j: int| 0 <= j < count implies ids[j] == old_ids[j] by {
                    assert(self.data@[j] == joined[j]);
                }
            }
            assert forall|a: int, b: int| 0 <= a < b < self.data@.len() implies (
            #[trigger] self.data@[a]).id != (#[trigger] self.data@[b]).id by {
                assert(self.data@[a] == joined[a]);
                if b < count {
                    assert(self.data@[b] == joined[b]);
                    assert(before.data@[a].id != before.data@[b].id);
                } else {
                    assert(before.data@[a].id != new_node_id);
                }
            }
            assert forall|j: int| 0 <= j < self.data@.len() implies {
                &&& (#[trigger] self.data@[j]).vision.wf()
                &&& self.data@[j].vision@ == vision@
                &&& self.data@[j].vision.keys() == vision.keys()
                &&& self.data@[j].status == status_for(vision@)
                &&& self.data@[j].neighborhood@ == self.node_ids().remove(j)
                &&& self.node_set@[j] == (
                    self.data@[j].id,
                    self.data@[j].node_type,
                    self.data@[j].status,
                )
            } by {
                if j < count {
                    assert(self.data@[j] == joined[j]);
                    assert(before.data@[j].neighborhood@ == old_ids.remove(j));
                    assert(old_ids.remove(j).push(new_node_id) =~= ids.remove(j));
                    assert(self.node_set@[j] == before.node_set@[j]);
                } else {
                    assert(old_ids =~= ids.remove(j));
                }
            }
        }
    }

    /// Gives the honest nodes their first opinions: the seeds go to the
    /// honest nodes in the order of the roster, one each as far as they
    /// reach, and then every honest node fills in its other opinions.
    fn initialize_opinions(
        &mut self,
        like_proportions: Vec<(TxId, usize)>,
        Ghost(common): Ghost<Vision>,
        Ghost(honest): Ghost<int>,
    )
        requires
            old(self).building(common),
            coherent(common@),
            forall|tx: TxId| common@.contains_key(tx) ==> (#[trigger] common@[tx]).1 is Unset,
            common@.dom() == old(self).tx_ids().to_set(),
            old(self).tx_ids().no_duplicates(),
            forall|k: int|
                0 <= k < old(self).tx_set@.len() ==> (#[trigger] old(self).tx_set@[k]).1
                    == TxGlobalStatus::NotFinalized,
            0 < honest <= old(self).data@.len(),
            forall|i: int|
                0 <= i < old(self).data@.len() ==> ((#[trigger] old(self).data@[i]).node_type
                    == NodeType::Regular <==> i < honest),
            forall|p: int|
                0 <= p < like_proportions@.len() ==> common@.contains_key(
                    (#[trigger] like_proportions@[p]).0,
                ),
        ensures
            final(self).wf(),
            final(self).tx_set@ == old(self).tx_set@,
            final(self).node_set@ == old(self).node_set@,
            final(self).data@.len() == old(self).data@.len(),
            forall|i: int|
                0 <= i < old(self).data@.len() ==> {
                    &&& (#[trigger] final(self).data@[i]).id == old(self).data@[i].id
                    &&& final(self).data@[i].node_type == old(self).data@[i].node_type
                    &&& final(self).data@[i].status == old(self).data@[i].status
                    &&& final(self).data@[i].neighborhood == old(self).data@[i].neighborhood
                    &&& final(self).data@[i].vision.keys() == common.keys()
                    &&& final(self).data@[i].vision@ == initial_vision(
                        common.keys(),
                        common@,
                        expanded(like_proportions@),
                        honest,
                        i,
                    )
                },
    {
        let ghost before = *self;
        let ghost keys = common.keys();
        let seeds = expand(&like_proportions);
        proof {
            assert forall|j: int| 0 <= j < seeds@.len() implies common@.contains_key(
                #[trigger] seeds@[j],
            ) by {
                lemma_expanded_members(like_proportions@, j);
            }
        }
        let mut next: usize = 0;
        let mut place: usize = 0;
        while place < self.data.len()
            invariant
                place <= self.data@.len(),
                before.building(common),
                0 < honest <= before.data@.len(),
                forall|i: int|
                    0 <= i < before.data@.len() ==> ((#[trigger] before.data@[i]).node_type
                        == NodeType::Regular <==> i < honest),
                forall|j: int| 0 <= j < seeds@.len() ==> common@.contains_key(#[trigger] seeds@[j]),
                self.tx_set@ == before.tx_set@,
                self.node_set@ == before.node_set@,
                self.data@.len() == before.data@.len(),
                next <= seeds@.len(),
                next <= place,
                place <= honest ==> (next == place || next == seeds@.len()),
                place > honest ==> (next == honest || next == seeds@.len()),
                forall|i: int|
                    0 <= i < self.data@.len() ==> {
                        &&& (#[trigger] self.data@[i]).id == before.data@[i].id
                        &&& self.data@[i].node_type == before.data@[i].node_type
                        &&& self.data@[i].status == before.data@[i].status
                        &&& self.data@[i].neighborhood == before.data@[i].neighborhood
                        &&& self.data@[i].vision.wf()
                        &&& self.data@[i].vision.keys() == keys
                    },
                forall|i: int|
                    0 <= i < place && i < honest ==> (#[trigger] self.data@[i]).vision@ == seeded(
                        common@,
                        seed_of(seeds@, i),
                    ),
                forall|i: int|
                    0 <= i < self.data@.len() && (i >= place || i >= honest) ==> (
                    #[trigger] self.data@[i]).vision@ == common@,
            decreases self.data@.len() - place,
        {
            if self.data[place].is_honest() && next < seeds.len() {
                let id = seeds[next];
                self.data[place].vision.set_opinion(&id, Opinion::Pending(true, 0));
                next += 1;
            }
            place += 1;
        }
        let ghost sown = *self;
        let mut place: usize = 0;
        while place < self.data.len()
            invariant
                place <= self.data@.len(),
                0 < honest <= sown.data@.len(),
                forall|i: int|
                    0 <= i < sown.data@.len() ==> ((#[trigger] sown.data@[i]).node_type
                        == NodeType::Regular <==> i < honest),
                self.tx_set@ == sown.tx_set@,
                self.node_set@ == sown.node_set@,
                self.data@.len() == sown.data@.len(),
                forall|i: int|
                    0 <= i < sown.data@.len() ==> (#[trigger] sown.data@[i]).vision.wf()
                        && sown.data@[i].vision.keys() == keys,
                forall|i: int|
                    0 <= i < self.data@.len() ==> {
                        &&& (#[trigger] self.data@[i]).id == sown.data@[i].id
                        &&& self.data@[i].node_type == sown.data@[i].node_type
                        &&& self.data@[i].status == sown.data@[i].status
                        &&& self.data@[i].neighborhood == sown.data@[i].neighborhood
                        &&& self.data@[i].vision.wf()
                        &&& self.data@[i].vision.keys() == keys
                    },
                forall|i: int|
                    0 <= i < place && i < honest ==> (#[trigger] self.data@[i]).vision@ == filled(
                        keys,
                        sown.data@[i].vision@,
                    ),
                forall|i: int|
                    0 <= i < self.data@.len() && (i >= place || i >= honest) ==> (
                    #[trigger] self.data@[i]).vision@ == sown.data@[i].vision@,
            decreases self.data@.len() - place,
        {
            if self.data[place].is_honest() {
                fill_opinions(&mut self.data[place].vision);
            }
            place += 1;
        }
        proof {
            let seq = expanded(like_proportions@);
            assert(self.node_ids() =~= before.node_ids());
            assert(self.tx_ids() =~= before.tx_ids());
            common.lemma_keys();
            assert forall|i: int| 0 <= i < self.data@.len() implies (#[trigger] self.data@[i]).vision@
                == initial_vision(keys, common@, seq, honest, i) by {
                if i < honest {
                    assert(sown.data@[i].vision@ == seeded(common@, seed_of(seq, i)));
                } else {
                    assert(sown.data@[i].vision@ == common@);
                }
            }
            assert forall|i: int| 0 <= i < self.nodes().len() implies self.node_inv(i) by {
                let node = self.nodes()[i];
                let v = node.vision@;
                let seed = seed_of(seq, i);
                let s = seeded(common@, seed);
                assert(before.data@[i].vision@ == common@);
                assert(before.node_set@[i] == (
                    before.data@[i].id,
                    before.data@[i].node_type,
                    before.data@[i].status,
                ));
                if i < honest {
                    assert(v == filled(keys, s));
                    if seed is Some {
                        assert(common@.contains_key(seed->0));
                    }
                    assert(s.dom() =~= common@.dom());
                    assert(v.dom() =~= common@.dom());
                    assert forall|tx: TxId| v.contains_key(tx) implies (#[trigger] v[tx]).0
                        == common@[tx].0 && v[tx].1 is Pending by {
                        assert(common@[tx].1 is Unset);
                    }
                } else {
                    assert(v == common@);
                }
                assert forall|a: TxId, b: TxId| conflict(v, a, b) == conflict(common@, a, b) by {
                    if v.contains_key(a) {
                        assert(v[a].0 == common@[a].0);
                    }
                }
                assert(coherent(v)) by {
                    assert forall|a: TxId, b: TxId| #[trigger] conflict(v, a, b) implies a != b
                        && conflict(v, b, a) by {
                        assert(conflict(common@, a, b));
                    }
                }
                assert(settled(v)) by {
                    assert forall|a: TxId, b: TxId|
                        v.contains_key(a) && v[a].1 == Opinion::Final(true) && #[trigger] conflict(
                            v,
                            a,
                            b,
                        ) implies v[b].1 == Opinion::Final(false) by {
                        assert(!(v[a].1 is Final));
                    }
                }
                assert(node.status == NodeStatus::Finalized <==> all_final(v)) by {
                    if all_final(common@) {
                        assert forall|tx: TxId| v.contains_key(tx) implies (#[trigger] v[tx]).1 is Final by {
                            assert(common@.contains_key(tx));
                            assert(common@[tx].1 is Final);
                        }
                    }
                    if all_final(v) {
                        assert forall|tx: TxId| common@.contains_key(tx) implies (
                        #[trigger] common@[tx]).1 is Final by {
                            assert(v.contains_key(tx));
                            assert(v[tx].1 is Final);
                        }
                    }
                }
            }
            assert(self.nodes()[0].node_type == NodeType::Regular);
            assert forall|k: int| 0 <= k < self.txs().len() implies !self.final_everywhere(
                (#[trigger] self.txs()[k]).0,
            ) by {
                let tx = self.txs()[k].0;
                assert(self.tx_ids()[k] == tx);
                assert(self.tx_ids().to_set().contains(tx));
                assert(self.node_inv(0));
                let v = self.nodes()[0].vision@;
                assert(v.contains_key(tx));
                assert(common@.contains_key(tx));
                assert(common@[tx].1 is Unset);
                assert(!(v[tx].1 is Final));
            }
        }
    }

    /// Builds the network from given identifiers: the transactions with
    /// their conflict graph, the nodes with the honest ones first, then the
    /// faulty and then the malicious ones, each with every other node for
    /// a neighbour, and the first opinions of the honest nodes.
    pub fn with_ids(
        node_ids: &Vec<NodeId>,
        tx_ids: &Vec<TxId>,
        faulty_node_count: usize,
        malicious_node_count: usize,
        node_graph_type: NodeGraphType,
        tx_graph_type: TxGraphType,
        initial_distribution: LikeDistributions,
    ) -> (database: Database)
        requires
            node_ids@.no_duplicates(),
            tx_ids@.no_duplicates(),
            malicious_node_count + faulty_node_count < node_ids@.len(),
            carrying_txs(initial_distribution, tx_ids@.len()) > 0,
            tx_graph_type is Star ==> tx_ids@.len() >= 1,
        ensures
            database.wf(),
            database.txs() == fresh_tx_set(tx_ids@),
            database.node_ids() == node_ids@,
            database.nodes().len() == node_ids@.len(),
            forall|i: int|
                0 <= i < node_ids@.len() ==> {
                    let honest = node_ids@.len() - faulty_node_count - malicious_node_count;
                    let node = #[trigger] database.nodes()[i];
                    &&& node.node_type == kind_at(honest, faulty_node_count as int, i)
                    &&& node.vision@ == initial_vision(
                        node.vision.keys(),
                        graph_map(tx_graph_type, tx_ids@),
                        expanded(
                            proportions(
                                tx_ids@,
                                honest as nat,
                                carrying_txs(initial_distribution, tx_ids@.len()),
                            ),
                        ),
                        honest,
                        i,
                    )
                },
            faulty_node_count == 0 && malicious_node_count == 0 && tx_graph_type is Complete
                && initial_distribution == LikeDistributions::Concentrated(1) && tx_ids@.len() >= 1
                ==> database.stands_on(tx_ids@[0], 0),
    {
        let (tx_set, common_preliminary_vision) = match tx_graph_type {
            TxGraphType::Complete => complete_conflict_graph(tx_ids),
            TxGraphType::Star => star_conflict_graph(tx_ids),
        };
        let mut database = Database { data: Vec::new(), tx_set, node_set: Vec::new() };
        let total_node_count: usize = node_ids.len();
        let honest_node_count: usize = total_node_count - faulty_node_count - malicious_node_count;
        let mut i: usize = 0;
        while i < total_node_count
            invariant
                i <= total_node_count == node_ids@.len(),
                node_ids@.no_duplicates(),
                honest_node_count + faulty_node_count + malicious_node_count == total_node_count,
                database.building(common_preliminary_vision),
                database.tx_set@ == fresh_tx_set(tx_ids@),
                database.data@.len() == i,
                forall|j: int|
                    0 <= j < i ==> (#[trigger] database.data@[j]).id == node_ids@[j]
                        && database.data@[j].node_type == kind_at(
                        honest_node_count as int,
                        faulty_node_count as int,
                        j,
                    ),
            decreases total_node_count - i,
        {
            let node_type = if i < honest_node_count {
                NodeType::Regular
            } else if i < honest_node_count + faulty_node_count {
                NodeType::Faulty
            } else {
                NodeType::Malicious
            };
            proof {
                if has_id(database.data@, node_ids@[i as int]) {
                    let j = choose|j: int|
                        0 <= j < database.data@.len() && (#[trigger] database.data@[j]).id
                            == node_ids@[i as int];
                    assert(node_ids@[j] == node_ids@[i as int]);
                }
            }
            database.add_new_node(node_ids[i], &common_preliminary_vision, node_graph_type, node_type);
            i += 1;
        }
        let liked_tx_count: usize = match initial_distribution {
            LikeDistributions::Equal => tx_ids.len(),
            LikeDistributions::Concentrated(n) => n,
        };
        let like_proportions = like_proportions(&database.tx_set, honest_node_count, liked_tx_count);
        proof {
            let common = common_preliminary_vision@;
            assert(database.tx_ids() =~= tx_ids@);
            assert(Seq::new(database.tx_set@.len(), |k: int| database.tx_set@[k].0) =~= tx_ids@);
            assert forall|p: int| 0 <= p < like_proportions@.len() implies common.contains_key(
                (#[trigger] like_proportions@[p]).0,
            ) by {
                assert(tx_ids@.contains(tx_ids@[p]));
            }
            assert(common.dom() =~= tx_ids@.to_set());
        }
        database.initialize_opinions(
            like_proportions,
            Ghost(common_preliminary_vision),
            Ghost(honest_node_count as int),
        );
        proof {
            assert(database.node_ids() =~= node_ids@);
            if faulty_node_count == 0 && malicious_node_count == 0 && tx_graph_type is Complete
                && initial_distribution == LikeDistributions::Concentrated(1) && tx_ids@.len() >= 1 {
                assert forall|j: int| 0 <= j < database.nodes().len() implies {
                    &&& (#[trigger] database.nodes()[j]).node_type == NodeType::Regular
                    &&& all_conflict(database.nodes()[j].vision@)
                    &&& pending_on(database.nodes()[j].vision@, tx_ids@[0], 0)
                } by {
                    let node = database.nodes()[j];
                    assert(database.node_inv(j));
                    node.vision.lemma_keys();
                    let common = graph_map(TxGraphType::Complete, tx_ids@);
                    assert(common.dom() =~= tx_ids@.to_set());
                    assert(Vision::lists_keys(node.vision.keys(), common)) by {
                        assert forall|tx: TxId|
                            node.vision.keys().contains(tx) <==> common.contains_key(tx) by {
                            assert(node.vision@.contains_key(tx) <==> common.contains_key(tx));
                        }
                    }
                    lemma_concentrated_start(
                        node.vision.keys(),
                        tx_ids@,
                        honest_node_count as nat,
                        j,
                    );
                }
            }
        }
        database
    }

    /// Builds the network with identifiers drawn at random, all distinct.
    pub fn generate_new(
        total_node_count: usize,
        faulty_node_count: usize,
        malicious_node_count: usize,
        node_graph_type: NodeGraphType,
        tx_count: usize,
        tx_graph_type: TxGraphType,
        initial_distribution: LikeDistributions,
    ) -> (database: Database)
        requires
            malicious_node_count + faulty_node_count < total_node_count <= 0x1_0000_0000,
            tx_count <= 0x1_0000_0000,
            carrying_txs(initial_distribution, tx_count as nat) > 0,
            tx_graph_type is Star ==> tx_count >= 1,
        ensures
            database.wf(),
            database.nodes().len() == total_node_count,
            database.txs().len() == tx_count,
            forall|k: int|
                0 <= k < tx_count ==> (#[trigger] database.txs()[k]).1 == TxGlobalStatus::NotFinalized,
            forall|i: int|
                0 <= i < total_node_count ==> {
                    let honest = total_node_count - faulty_node_count - malicious_node_count;
                    let node = #[trigger] database.nodes()[i];
                    &&& node.node_type == kind_at(honest, faulty_node_count as int, i)
                    &&& node.vision@ == initial_vision(
                        node.vision.keys(),
                        graph_map(tx_graph_type, database.tx_ids()),
                        expanded(
                            proportions(
                                database.tx_ids(),
                                honest as nat,
                                carrying_txs(initial_distribution, tx_count as nat),
                            ),
                        ),
                        honest,
                        i,
                    )
                },
            faulty_node_count == 0 && malicious_node_count == 0 && tx_graph_type is Complete
                && initial_distribution == LikeDistributions::Concentrated(1) && tx_count >= 1
                ==> database.stands_on(database.txs()[0].0, 0),
    {
        let tx_ids = distinct_tx_ids(tx_count);
        let node_ids = distinct_node_ids(total_node_count);
        let database = Database::with_ids(
            &node_ids,
            &tx_ids,
            faulty_node_count,
            malicious_node_count,
            node_graph_type,
            tx_graph_type,
            initial_distribution,
        );
        proof {
            assert(database.tx_ids() =~= tx_ids@);
        }
        database
    }

    /// Whoever is among the neighbours of a node is a node of the network.
    proof fn lemma_sampled_are_nodes(&self, place: int, sample: Seq<NodeId>)
        requires
            self.inv(),
            0 <= place < self.nodes().len(),
            forall|i: int|
                0 <= i < sample.len() ==> self.nodes()[place].neighborhood@.contains(
                    #[trigger] sample[i],
                ),
        ensures
            forall|i: int| 0 <= i < sample.len() ==> has_id(self.nodes(), #[trigger] sample[i]),
    {
        assert forall|i: int| 0 <= i < sample.len() implies has_id(
            self.nodes(),
            #[trigger] sample[i],
        ) by {
            assert(self.node_inv(place));
            let others = self.node_ids().remove(place);
            assert(others.contains(sample[i]));
            let j = choose|j: int| 0 <= j < others.len() && others[j] == sample[i];
            if j < place {
                assert(self.nodes()[j].id == sample[i]);
            } else {
                assert(self.nodes()[j + 1].id == sample[i]);
            }
        }
    }

    /// One node's part of a round, given the nodes that it sampled: an
    /// honest node works out the round's outcome from what the sampled
    /// nodes report and takes it into its vision; any other node stays as
    /// it is.
    pub fn update_node(&mut self, place: usize, sample: &Vec<NodeId>, random_number: u32)
        requires
            old(self).inv(),
            place < old(self).nodes().len(),
            forall|i: int|
                0 <= i < sample@.len() ==> has_id(old(self).nodes(), #[trigger] sample@[i]),
        ensures
            final(self).inv(),
            final(self).txs() == old(self).txs(),
            final(self).roster() == old(self).roster(),
            final(self).nodes().len() == old(self).nodes().len(),
            forall|j: int|
                0 <= j < old(self).nodes().len() && j != place ==> #[trigger] final(self).nodes()[j]
                    == old(self).nodes()[j],
            node_moved_on(old(self).nodes()[place as int], final(self).nodes()[place as int]),
            old(self).nodes()[place as int].node_type == NodeType::Regular ==> turn(
                old(self).nodes(),
                final(self).nodes(),
                place as int,
                sample@,
                random_number,
            ),
            old(self).nodes()[place as int].node_type != NodeType::Regular ==> final(self).nodes()
                == old(self).nodes(),
    {
        if !self.data[place].is_honest() {
            assert(finality_kept(self.data@[place as int].vision@, self.data@[place as int].vision@));
            return ;
        }
        assert(self.node_inv(place as int));
        let new_opinions = self.data[place].opinions_from_sample(sample, K, self, random_number);
        let ghost before = *self;
        self.data[place].update_opinions(new_opinions);
        proof {
            let old_node = before.data@[place as int];
            let new_node = self.data@[place as int];
            assert(self.node_ids() =~= before.node_ids());
            assert(self.tx_ids() =~= before.tx_ids());
            assert forall|i: int| 0 <= i < self.nodes().len() implies self.node_inv(i) by {
                assert(before.node_inv(i));
                if i != place {
                    assert(self.nodes()[i] == before.nodes()[i]);
                }
            }
            assert forall|i: int, j: int| 0 <= i < j < self.nodes().len() implies (
            #[trigger] self.nodes()[i]).id != (#[trigger] self.nodes()[j]).id by {
                assert(before.nodes()[i].id != before.nodes()[j].id);
            }
            let h = choose|h: int|
                0 <= h < before.nodes().len() && (#[trigger] before.nodes()[h]).node_type
                    == NodeType::Regular;
            assert(self.nodes()[h].node_type == NodeType::Regular);
            assert forall|k: int|
                0 <= k < self.txs().len() && (#[trigger] self.txs()[k]).1
                    == TxGlobalStatus::Finalized implies self.final_everywhere(self.txs()[k].0) by {
                let tx = self.txs()[k].0;
                assert(before.final_everywhere(tx));
                assert forall|i: int|
                    0 <= i < self.nodes().len() && (#[trigger] self.nodes()[i]).node_type
                        == NodeType::Regular implies self.nodes()[i].vision@[tx].1 is Final by {
                    assert(before.nodes()[i].node_type == NodeType::Regular);
                    assert(before.nodes()[i].vision@[tx].1 is Final);
                    if i == place {
                        assert(before.tx_ids()[k] == tx);
                        assert(before.tx_ids().to_set().contains(tx));
                        assert(old_node.vision@.contains_key(tx));
                    }
                }
            }
            assert forall|i: int|
                0 <= i < self.nodes().len() && (#[trigger] self.roster()[i]).2
                    == NodeStatus::Finalized implies self.nodes()[i].status
                == NodeStatus::Finalized by {
                assert(before.nodes()[i].status == NodeStatus::Finalized);
                if i == place {
                    assert(all_final(old_node.vision@));
                    assert forall|tx: TxId| new_node.vision@.contains_key(tx) implies (
                    #[trigger] new_node.vision@[tx]).1 is Final by {
                        assert(old_node.vision@.contains_key(tx));
                        assert(old_node.vision@[tx].1 is Final);
                    }
                }
            }
        }
    }

    /// Whether every honest node holds a final opinion on the transaction
    /// at place `k`.
    fn final_in_all_honest(&self, k: usize) -> (b: bool)
        requires
            self.inv(),
            k < self.txs().len(),
        ensures
            b == self.final_everywhere(self.txs()[k as int].0),
    {
        let tx = self.tx_set[k].0;
        proof {
            assert(self.tx_ids()[k as int] == tx);
            assert(self.tx_ids().to_set().contains(tx));
        }
        let mut i: usize = 0;
        while i < self.data.len()
            invariant
                self.inv(),
                i <= self.data@.len(),
                k < self.txs().len(),
                tx == self.txs()[k as int].0,
                self.tx_ids().to_set().contains(tx),
                forall|j: int|
                    0 <= j < i && (#[trigger] self.data@[j]).node_type == NodeType::Regular
                        ==> self.data@[j].vision@[tx].1 is Final,
            decreases self.data@.len() - i,
        {
            assert(self.node_inv(i as int));
            if self.data[i].is_honest() && !self.data[i].vision.get_opinion_status(&tx).is_final() {
                assert(self.nodes()[i as int].node_type == NodeType::Regular);
                return false;
            }
            i += 1;
        }
        true
    }

    /// The number of honest nodes that like the transaction at place `k`,
    /// and the number of honest nodes.
    fn agreement(&self, k: usize) -> (counts: (usize, usize))
        requires
            self.inv(),
            k < self.txs().len(),
        ensures
            counts.0 == honest_likes(self.nodes(), self.txs()[k as int].0),
            counts.1 == honest_count(self.nodes()),
    {
        let tx = self.tx_set[k].0;
        proof {
            assert(self.tx_ids()[k as int] == tx);
            assert(self.tx_ids().to_set().contains(tx));
        }
        let mut likes: usize = 0;
        let mut honest: usize = 0;
        let mut i: usize = 0;
        while i < self.data.len()
            invariant
                self.inv(),
                i <= self.data@.len(),
                self.tx_ids().to_set().contains(tx),
                likes == honest_likes(self.data@.take(i as int), tx),
                honest == honest_count(self.data@.take(i as int)),
            decreases self.data@.len() - i,
        {
            proof {
                assert(self.node_inv(i as int));
                lemma_honest_likes_bound(self.data@.take(i as int), tx);
                assert(self.data@.take(i + 1).drop_last() == self.data@.take(i as int));
            }
            if self.data[i].is_honest() {
                honest += 1;
                if self.data[i].vision.get_opinion(tx) {
                    likes += 1;
                }
            }
            i += 1;
        }
        assert(self.data@.take(i as int) == self.data@);
        (likes, honest)
    }

    /// The close of a round: publishes each transaction on which every
    /// honest node now holds a final opinion as finalized, and each node's
    /// own status in the roster. Returns what became finalized: the
    /// transactions, each with the number of honest nodes that like it and
    /// the number of honest nodes, and the honest nodes.
    pub fn close_round(&mut self) -> (finalized: (Vec<(TxId, usize, usize)>, Vec<NodeId>))
        requires
            old(self).inv(),
        ensures
            final(self).wf(),
            final(self).nodes() == old(self).nodes(),
            final(self).tx_ids() == old(self).tx_ids(),
            final(self).roster().len() == old(self).roster().len(),
            forall|i: int|
                0 <= i < old(self).roster().len() ==> (#[trigger] final(self).roster()[i]).0 == old(
                    self,
                ).roster()[i].0 && final(self).roster()[i].1 == old(self).roster()[i].1,
            finalized.0@.len() == newly_final_txs(old(self).txs(), old(self).nodes()).len(),
            forall|j: int|
                0 <= j < finalized.0@.len() ==> #[trigger] finalized.0@[j] == (
                    newly_final_txs(old(self).txs(), old(self).nodes())[j],
                    honest_likes(
                        old(self).nodes(),
                        newly_final_txs(old(self).txs(), old(self).nodes())[j],
                    ) as usize,
                    honest_count(old(self).nodes()) as usize,
                ),
            finalized.1@ == newly_final_nodes(
                old(self).roster(),
                old(self).nodes(),
                old(self).nodes().len(),
            ),
    {
        let ghost start = *self;
        let ghost nodes = self.nodes();
        let mut finalized_txs: Vec<(TxId, usize, usize)> = Vec::new();
        let mut k: usize = 0;
        while k < self.tx_set.len()
            invariant
                self.inv(),
                start.inv(),
                nodes == start.nodes(),
                self.data == start.data,
                self.node_set == start.node_set,
                self.tx_set@.len() == start.tx_set@.len(),
                k <= self.tx_set@.len(),
                forall|j: int| 0 <= j < self.tx_set@.len() ==> (#[trigger] self.tx_set@[j]).0
                    == start.tx_set@[j].0,
                forall|j: int| k <= j < self.tx_set@.len() ==> #[trigger] self.tx_set@[j]
                    == start.tx_set@[j],
                forall|j: int|
                    0 <= j < k ==> ((#[trigger] self.tx_set@[j]).1 == TxGlobalStatus::Finalized
                        <==> honest_all_final(nodes, self.tx_set@[j].0)),
                finalized_txs@.len() == newly_final_txs(start.tx_set@.take(k as int), nodes).len(),
                forall|j: int|
                    0 <= j < finalized_txs@.len() ==> #[trigger] finalized_txs@[j] == (
                        newly_final_txs(start.tx_set@.take(k as int), nodes)[j],
                        honest_likes(
                            nodes,
                            newly_final_txs(start.tx_set@.take(k as int), nodes)[j],
                        ) as usize,
                        honest_count(nodes) as usize,
                    ),
            decreases self.tx_set@.len() - k,
        {
            let (txid, status) = self.tx_set[k];
            let ghost before = *self;
            proof {
                assert(start.tx_set@.take(k + 1).drop_last() == start.tx_set@.take(k as int));
                assert(self.tx_set@[k as int] == start.tx_set@[k as int]);
            }
            if !status.finalized() {
                if self.final_in_all_honest(k) {
                    let (likes, honest) = self.agreement(k);
                    self.tx_set[k] = (txid, TxGlobalStatus::Finalized);
                    finalized_txs.push((txid, likes, honest));
                    proof {
                        lemma_honest_likes_bound(nodes, txid);
                    }
                }
            }
            proof {
                assert(self.tx_ids() =~= before.tx_ids());
                assert(self.node_ids() =~= before.node_ids());
                assert forall|i: int| 0 <= i < self.nodes().len() implies self.node_inv(i) by {
                    assert(before.node_inv(i));
                }
                assert forall|j: int|
                    0 <= j < self.txs().len() && (#[trigger] self.txs()[j]).1
                        == TxGlobalStatus::Finalized implies self.final_everywhere(
                    self.txs()[j].0,
                ) by {
                    if j != k {
                        assert(before.txs()[j] == self.txs()[j]);
                    }
                }
                let h = choose|h: int|
                    0 <= h < before.nodes().len() && (#[trigger] before.nodes()[h]).node_type
                        == NodeType::Regular;
                assert(self.nodes()[h].node_type == NodeType::Regular);
                assert forall|j: int| 0 <= j < k + 1 implies ((#[trigger] self.tx_set@[j]).1
                    == TxGlobalStatus::Finalized <==> honest_all_final(nodes, self.tx_set@[j].0)) by {
                    if j < k {
                        assert(self.tx_set@[j] == before.tx_set@[j]);
                    } else {
                        if status == TxGlobalStatus::Finalized {
                            assert(before.txs()[k as int].1 == TxGlobalStatus::Finalized);
                            assert(before.final_everywhere(txid));
                        }
                    }
                }
            }
            k += 1;
        }
        assert(start.tx_set@.take(k as int) == start.tx_set@);
        let ghost mid = *self;
        let mut finalized_nodes: Vec<NodeId> = Vec::new();
        let mut i: usize = 0;
        while i < self.node_set.len()
            invariant
                self.inv(),
                mid.inv(),
                start.inv(),
                nodes == start.nodes(),
                self.data == start.data,
                self.tx_set == mid.tx_set,
                self.node_set@.len() == start.node_set@.len(),
                i <= self.node_set@.len(),
                forall|j: int|
                    0 <= j < self.node_set@.len() ==> (#[trigger] self.node_set@[j]).0
                        == start.node_set@[j].0 && self.node_set@[j].1 == start.node_set@[j].1,
                forall|j: int| i <= j < self.node_set@.len() ==> #[trigger] self.node_set@[j]
                    == start.node_set@[j],
                forall|j: int| 0 <= j < i ==> (#[trigger] self.node_set@[j]).2 == nodes[j].status,
                finalized_nodes@ == newly_final_nodes(start.node_set@, nodes, i as nat),
            decreases self.node_set@.len() - i,
        {
            let (id, node_type, old_status) = self.node_set[i];
            let ghost before = *self;
            let status = self.data[i].status;
            self.node_set[i] = (id, node_type, status);
            if node_type == NodeType::Regular && !old_status.finalized() && status.finalized() {
                finalized_nodes.push(id);
            }
            proof {
                assert(self.tx_ids() =~= before.tx_ids());
                assert(self.node_ids() =~= before.node_ids());
                assert forall|j: int| 0 <= j < self.nodes().len() implies self.node_inv(j) by {
                    assert(before.node_inv(j));
                }
                let h = choose|h: int|
                    0 <= h < before.nodes().len() && (#[trigger] before.nodes()[h]).node_type
                        == NodeType::Regular;
                assert(self.nodes()[h].node_type == NodeType::Regular);
                assert forall|j: int|
                    0 <= j < self.txs().len() && (#[trigger] self.txs()[j]).1
                        == TxGlobalStatus::Finalized implies self.final_everywhere(
                    self.txs()[j].0,
                ) by {
                    assert(before.txs()[j] == self.txs()[j]);
                }
                assert forall|j: int|
                    0 <= j < self.nodes().len() && (#[trigger] self.roster()[j]).2
                        == NodeStatus::Finalized implies self.nodes()[j].status
                    == NodeStatus::Finalized by {
                    if j != i {
                        assert(before.roster()[j] == self.roster()[j]);
                    }
                }
            }
            i += 1;
        }
        proof {
            assert(self.tx_ids() =~= start.tx_ids());
            assert forall|j: int| 0 <= j < self.txs().len() implies ((#[trigger] self.txs()[j]).1
                == TxGlobalStatus::Finalized <==> self.final_everywhere(self.txs()[j].0)) by {
                assert(self.tx_set@[j] == mid.tx_set@[j]);
            }
        }
        (finalized_txs, finalized_nodes)
    }

    /// One round: draws the round's random number, lets every honest node
    /// that is not yet published as finalized sample its neighbours and
    /// take the round's outcome into its vision, one node after the other
    /// in the order of the roster, each seeing what the nodes before it
    /// made of the round, and then closes the round. Whatever is drawn,
    /// every opinion that was final stays the same opinion; and where all
    /// nodes are honest and stand on one transaction that conflicts with
    /// every other, the round brings them all one round further, so that
    /// they are all finalized once the streak is long enough.
    pub fn run_fpcs_round(&mut self) -> (report: RoundReport)
        requires
            old(self).wf(),
        ensures
            final(self).wf(),
            in_round_range(report.random_number),
            final(self).nodes().len() == old(self).nodes().len(),
            final(self).tx_ids() == old(self).tx_ids(),
            final(self).roster().len() == old(self).roster().len(),
            forall|i: int|
                0 <= i < old(self).roster().len() ==> (#[trigger] final(self).roster()[i]).0 == old(
                    self,
                ).roster()[i].0 && final(self).roster()[i].1 == old(self).roster()[i].1,
            forall|i: int|
                0 <= i < old(self).nodes().len() ==> node_moved_on(
                    old(self).nodes()[i],
                    #[trigger] final(self).nodes()[i],
                ),
            forall|i: int|
                0 <= i < old(self).nodes().len() && (old(self).nodes()[i].node_type
                    != NodeType::Regular || old(self).nodes()[i].status == NodeStatus::Finalized)
                    ==> #[trigger] final(self).nodes()[i] == old(self).nodes()[i],
            swept(old(self).nodes(), final(self).nodes(), old(self).roster(), report.random_number),
            forall|tx: TxId, streak: u32|
                #[trigger] old(self).stands_on(tx, streak) && (old(self).nodes().len() >= 2 || old(
                    self,
                ).txs().len() == 1) ==> (streak < L - 1 ==> final(self).stands_on(
                    tx,
                    (streak + 1) as u32,
                )) && (streak >= L - 1 ==> final(self).settled_on(tx)),
            report.finalized_txs@.len() == newly_final_txs(old(self).txs(), final(self).nodes()).len(),
            forall|j: int|
                0 <= j < report.finalized_txs@.len() ==> #[trigger] report.finalized_txs@[j] == (
                    newly_final_txs(old(self).txs(), final(self).nodes())[j],
                    honest_likes(
                        final(self).nodes(),
                        newly_final_txs(old(self).txs(), final(self).nodes())[j],
                    ) as usize,
                    honest_count(final(self).nodes()) as usize,
                ),
            report.finalized_nodes@ == newly_final_nodes(
                old(self).roster(),
                final(self).nodes(),
                old(self).nodes().len(),
            ),
    {
        let random_number = round_random(random_u32());
        let ghost start = *self;
        let ghost mut states: Seq<Seq<Node>> = seq![self.nodes()];
        let ghost mut samples: Seq<Seq<NodeId>> = Seq::empty();
        let mut place: usize = 0;
        while place < self.node_set.len()
            invariant
                start.wf(),
                self.inv(),
                states.len() == place + 1,
                samples.len() == place,
                states[0] == start.nodes(),
                states[place as int] == self.nodes(),
                forall|p: int|
                    0 <= p < place ==> #[trigger] sweep_step(
                        states,
                        samples,
                        start.roster(),
                        random_number,
                        p,
                    ),
                self.tx_set@ == start.tx_set@,
                self.node_set@ == start.node_set@,
                self.data@.len() == start.data@.len(),
                place <= self.data@.len(),
                forall|i: int|
                    0 <= i < self.data@.len() ==> node_moved_on(
                        start.data@[i],
                        #[trigger] self.data@[i],
                    ),
                forall|i: int| place <= i < self.data@.len() ==> #[trigger] self.data@[i]
                    == start.data@[i],
                forall|i: int|
                    0 <= i < self.data@.len() && (start.data@[i].node_type != NodeType::Regular
                        || start.data@[i].status == NodeStatus::Finalized) ==> #[trigger] self.data@[i]
                        == start.data@[i],
            decreases self.data@.len() - place,
        {
            let (_, node_type, status) = self.node_set[place];
            let ghost before = *self;
            proof {
                assert(start.node_inv(place as int));
                assert(self.node_inv(place as int));
            }
            let ghost old_states = states;
            let ghost old_samples = samples;
            if !status.finalized() && node_type == NodeType::Regular {
                let sample = self.data[place].sample_from_neighborhood(K);
                proof {
                    self.lemma_sampled_are_nodes(place as int, sample@);
                }
                self.update_node(place, &sample, random_number);
                proof {
                    samples = old_samples.push(sample@);
                    states = old_states.push(self.nodes());
                    assert(states[place as int] == before.nodes());
                    assert(sweep_step(states, samples, start.roster(), random_number, place as int));
                    assert forall|i: int| 0 <= i < self.data@.len() implies node_moved_on(
                        start.data@[i],
                        #[trigger] self.data@[i],
                    ) by {
                        if i == place {
                            lemma_finality_kept_twice(
                                start.data@[i].vision@,
                                before.data@[i].vision@,
                                self.data@[i].vision@,
                            );
                        } else {
                            assert(self.nodes()[i] == before.nodes()[i]);
                        }
                    }
                    assert forall|i: int| place < i < self.data@.len() implies #[trigger] self.data@[i]
                        == start.data@[i] by {
                        assert(self.nodes()[i] == before.nodes()[i]);
                    }
                    assert forall|i: int|
                        0 <= i < self.data@.len() && (start.data@[i].node_type != NodeType::Regular
                            || start.data@[i].status
                            == NodeStatus::Finalized) implies #[trigger] self.data@[i]
                        == start.data@[i] by {
                        assert(self.nodes()[i] == before.nodes()[i]);
                    }
                }
            } else {
                proof {
                    samples = old_samples.push(Seq::empty());
                    states = old_states.push(self.nodes());
                    assert(sweep_step(states, samples, start.roster(), random_number, place as int));
                }
            }
            proof {
                assert forall|p: int| 0 <= p < place + 1 implies #[trigger] sweep_step(
                    states,
                    samples,
                    start.roster(),
                    random_number,
                    p,
                ) by {
                    if p < place {
                        assert(sweep_step(old_states, old_samples, start.roster(), random_number, p));
                        assert(states[p] == old_states[p]);
                        assert(states[p + 1] == old_states[p + 1]);
                        assert(samples[p] == old_samples[p]);
                    }
                }
            }
            place += 1;
        }
        let (finalized_txs, finalized_nodes) = self.close_round();
        proof {
            assert forall|tx: TxId, streak: u32|
                #[trigger] start.stands_on(tx, streak) && (start.nodes().len() >= 2
                    || start.txs().len() == 1) implies (streak < L - 1 ==> self.stands_on(
                tx,
                (streak + 1) as u32,
            )) && (streak >= L - 1 ==> self.settled_on(tx)) by {
                Self::lemma_round_on(start, *self, random_number, tx, streak);
            }
        }
        RoundReport { random_number, finalized_txs, finalized_nodes }
    }

    /// What there is to show of the network: for each honest node, in the
    /// order of the roster, its identifier, its status and its opinions.
    pub fn results(&self) -> (list: Vec<(NodeId, NodeStatus, Vec<(TxId, Opinion)>)>)
        requires
            self.inv(),
        ensures
            list@.len() == honest_places(self.nodes()).len(),
            forall|j: int|
                0 <= j < list@.len() ==> {
                    let node = self.nodes()[honest_places(self.nodes())[j]];
                    &&& (#[trigger] list@[j]).0 == node.id
                    &&& list@[j].1 == node.status
                    &&& list@[j].2@ == opinions_of(node)
                },
    {
        let mut list: Vec<(NodeId, NodeStatus, Vec<(TxId, Opinion)>)> = Vec::new();
        let mut i: usize = 0;
        while i < self.data.len()
            invariant
                self.inv(),
                i <= self.data@.len(),
                list@.len() == honest_places(self.data@.take(i as int)).len(),
                forall|j: int|
                    0 <= j < list@.len() ==> {
                        let place = honest_places(self.data@.take(i as int))[j];
                        &&& 0 <= place < i
                        &&& (#[trigger] list@[j]).0 == self.data@[place].id
                        &&& list@[j].1 == self.data@[place].status
                        &&& list@[j].2@ == opinions_of(self.data@[place])
                    },
            decreases self.data@.len() - i,
        {
            proof {
                assert(self.node_inv(i as int));
                assert(self.data@.take(i + 1).drop_last() == self.data@.take(i as int));
            }
            let node = &self.data[i];
            if node.is_honest() {
                let opinion = node.opinions();
                list.push((node.id, node.status, opinion));
            }
            i += 1;
        }
        assert(self.data@.take(i as int) == self.data@);
        list
    }

    /// In every node the transactions that are final and liked form an
    /// independent set: no two of them conflict.
    pub proof fn lemma_final_likes_independent(&self, i: int)
        requires
            self.inv(),
            0 <= i < self.nodes().len(),
        ensures
            final_likes_independent(self.nodes()[i].vision@),
    {
        assert(self.node_inv(i));
    }

    /// Every node knows exactly the transactions of the network, so any two
    /// nodes know the same ones.
    pub proof fn lemma_universal_vision(&self, i: int, j: int)
        requires
            self.inv(),
            0 <= i < self.nodes().len(),
            0 <= j < self.nodes().len(),
        ensures
            self.nodes()[i].vision@.dom() == self.tx_ids().to_set(),
            self.nodes()[i].vision@.dom() == self.nodes()[j].vision@.dom(),
    {
        assert(self.node_inv(i));
        assert(self.node_inv(j));
    }

    /// Whether every honest node is published as finalized.
    pub fn is_final(&self) -> (b: bool)
        ensures
            b == forall|i: int|
                0 <= i < self.roster().len() && (#[trigger] self.roster()[i]).1 == NodeType::Regular
                    ==> self.roster()[i].2 == NodeStatus::Finalized,
    {
        let mut i: usize = 0;
        while i < self.node_set.len()
            invariant
                i <= self.node_set@.len(),
                forall|j: int|
                    0 <= j < i && (#[trigger] self.node_set@[j]).1 == NodeType::Regular
                        ==> self.node_set@[j].2 == NodeStatus::Finalized,
            decreases self.node_set@.len() - i,
        {
            let (_, node_type, status) = self.node_set[i];
            if !status.finalized() && node_type == NodeType::Regular {
                return false;
            }
            i += 1;
        }
        true
    }

    /// The place of the node that has the identifier.
    pub fn position(&self, id: &NodeId) -> (place: Option<usize>)
        ensures
            match place {
                Some(i) => i < self.nodes().len() && self.nodes()[i as int].id == *id,
                None => !has_id(self.nodes(), *id),
            },
    {
        let mut i: usize = 0;
        while i < self.data.len()
            invariant
                i <= self.data@.len(),
                forall|j: int| 0 <= j < i ==> (#[trigger] self.data@[j]).id != *id,
            decreases self.data@.len() - i,
        {
            if self.data[i].id == *id {
                return Some(i);
            }
            i += 1;
        }
        None
    }
}

} // verus!
