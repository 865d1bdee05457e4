//! Deterministic core of the Wars of Ants colony simulation: the tile map,
//! dig-aware A* pathfinding, the entity roster and the colony's rules.
use vstd::prelude::*;

pub mod balance;
pub mod colony;
pub mod components;
pub mod path;
pub mod roster;
pub mod sim;
pub mod tick;
pub mod worker;
pub mod world;

pub use colony::{Brood, Colony};
pub use components::{Caste, Carrying, Food, FoodKind, Job, Layer, WorkerAi};
pub use path::{chebyshev, find_path, manhattan};
pub use roster::{EntityKind, KindClass, Roster};
pub use sim::{Config, DevSpawn, TPS};
pub use world::{Grid, World, DIRT, DRY, EMPTY, MOIST, ROCK};

verus! {

} // verus!
