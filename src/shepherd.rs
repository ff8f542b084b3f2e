//! The events exchanged with shepherds.

use crate::feed::{Feed, Responses};
use crate::ids::{EpochId, SheepId, TagId};
use crate::simulation::Epoch;
use vstd::prelude::*;

verus! {

/// An event sent from the simulation to a shepherd
#[derive(Clone, Debug)]
pub enum SimulationEvent {
    /// The start of an epoch, with the tags and items that it introduced
    BeginEpoch { id: EpochId, data: Epoch },
    /// A sheep of the simulation, with the tags it is associated with
    SheepIntroduction { sheep: SheepId, associated_tags: Vec<TagId> },
    /// A request for a feed for a sheep
    FeedRequest { sheep: SheepId },
    /// The responses of a sheep to the feed it was given
    Responses { sheep: SheepId, responses: Responses },
}

/// An event sent from a shepherd to the simulation
#[derive(Clone, Debug)]
pub enum ShepherdEvent {
    /// The feed built for the sheep of the last request
    Feed(Feed),
}

} // verus!
