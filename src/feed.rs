//! Feeds built by shepherds and the responses of sheep to them.

use crate::ids::ItemId;
use vstd::prelude::*;

verus! {

/// A sheep's response to one item of a [`Feed`]
#[derive(Copy, Clone, PartialEq, Eq, Debug, Structural)]
pub enum Response {
    /// A positive response to a feed item
    Positive,
    /// A neutral response to a feed item
    Neutral,
    /// A negative response to a feed item
    Negative,
}

/// The [`Response`]s of a sheep to a [`Feed`]
///
/// Each entry holds the item, the response, and the number of edges on the
/// shortest path from the sheep to the item, where such a path exists
#[derive(Clone, PartialEq, Eq, Debug)]
pub struct Responses(pub Vec<(ItemId, Response, Option<u32>)>);

/// The feed returned from a shepherd, prepared for a specific sheep
#[derive(Clone, PartialEq, Eq, Debug)]
pub struct Feed(pub Vec<ItemId>);

} // verus!
