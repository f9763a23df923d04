//! The cursor of a sharded query in its long form: where the query stands
//! in every shard, and what it may still spend.

use vstd::prelude::*;
use crate::listmap::ListMap;

verus! {

/// Where a query stands in one segment of a shard.
#[derive(Debug, Clone)]
pub struct ShardPos {
    pub shard: u64,
    pub segment: String,
    pub block: u32,
    pub last_docid: u32,
}

/// What a query may still spend.
#[derive(Debug, Clone, Copy, PartialEq, Eq, Structural)]
pub struct Budgets {
    pub candidates: u64,
    pub verify_ms: u64,
}

/// The cursor of a sharded query. The pinned generations keep every page
/// of the query on the generation that its first page saw.
#[derive(Debug)]
pub struct SearchCursor {
    /// A hash of the pattern, the field and the flags of the query.
    pub matcher_hash: String,
    /// The generation each shard is pinned to.
    pub pin_gen: ListMap<u64, u64>,
    pub state: Vec<ShardPos>,
    pub budgets: Budgets,
}

} // verus!
