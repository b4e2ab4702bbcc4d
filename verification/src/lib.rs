//! Fast probabilistic consensus on sets: a simulator core in which every node
//! votes, round by round, on each transaction of a conflict graph until the
//! liked transactions form a maximal independent set that is final.

pub mod aux_types;
pub mod conflict_graph;
pub mod constants;
pub mod entropy;
pub mod finality;
pub mod fpcs;
pub mod fresh_ids;
pub mod hashed_order;
pub mod hashed_tx_id;
pub mod liked_set;
pub mod seeding;
pub mod tally;
pub mod threshold;
pub mod unanimity;
