//! The data model: input deltas, per-round maps, cached round records, and
//! the query-facing result shapes.

use vstd::prelude::*;

use crate::api::amount_map::AmountMap;
use crate::api::field::FieldElement;
use crate::api::merkle_tree::MerkleTree;

verus! {

/// One input record: an address string and a base-10 amount string.
#[derive(Clone)]
pub struct JSONAllocation {
    pub address: String,
    pub amount: String,
}

/// All input records of one distribution round.
#[derive(Clone)]
pub struct RoundAmounts {
    pub round: u8,
    pub amounts: Vec<JSONAllocation>,
}

/// Per-round delta map and the cumulative map through that round.
pub struct RoundAmountMaps {
    pub round: u8,
    pub round_amounts: AmountMap,
    pub cumulative_amounts: AmountMap,
}

/// One Merkle leaf: an address and its cumulative allocation.
#[derive(Clone, Copy, PartialEq, Eq, Structural, Debug)]
pub struct CumulativeAllocation {
    pub address: FieldElement,
    pub cumulative_amount: u128,
}

/// The cached, queryable unit of one round.
pub struct RoundTreeData {
    pub round: u8,
    pub tree: MerkleTree,
    pub round_total_amount: u128,
    pub accumulated_total_amount: u128,
}

/// Proof call arguments: `0x`-hex field elements in verifier order.
#[derive(Debug)]
pub struct CairoCalldata {
    pub data: Vec<String>,
}

/// The root query answer: root in canonical hex, totals in decimal.
#[derive(Debug)]
pub struct RootQueryResult {
    pub root: String,
    pub accumulated_total_amount: String,
    pub round_total_amount: String,
}

/// A validated input file: its path and the round its name carries.
pub struct FileNameInfo {
    pub full_path: String,
    pub round: u8,
}

/// Errors surfaced to callers of the query layer.
#[derive(Clone, Copy, PartialEq, Eq, Structural, Debug)]
pub enum QueryError {
    /// Malformed or out-of-range field-element string.
    InvalidFieldElement,
    /// The store has never been filled.
    NoDataAvailable,
    /// An explicit round has no data.
    RoundNotFound,
    /// A proof was asked for an address with no leaf in the round's tree.
    AddressNotAllocated,
}

} // verus!
