//! Economy and turn engine of a turn-based colony-logistics game.
//!
//! - `resource`: resource kinds and bunches (an amount per kind) with their sum and containment.
//! - `construction`: the catalog of construction kinds (cost, request, output, cooldown).
//! - `map`: groups of nodes, the adjacency between groups, what each node holds, and the
//!   allocation policy that puts produced resources into stockpiles.
//! - `turn`: the consumption policy, one production cycle, and the resolution loop of a turn.
//! - `engine`: the game state, the end-of-turn step with survival and travel, the player's
//!   actions, and the playback queue of committed changes.
//! - `deploy`: the switches of the release tool.
use vstd::prelude::*;

pub mod resource;
pub mod construction;
pub mod map;
pub mod turn;
pub mod engine;
pub mod deploy;

verus! {

} // verus!
