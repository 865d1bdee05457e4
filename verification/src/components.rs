//! Plain data carried by the simulation's entities.
use vstd::prelude::*;

verus! {

/// The two map layers.
#[derive(Clone, Copy, PartialEq, Eq, Debug, Structural)]
pub enum Layer {
    Surface,
    Underground,
}

impl Layer {
    /// The layer on the other side of the nest entrance.
    pub fn other(self) -> (o: Layer)
        ensures
            o != self,
    {
        match self {
            Layer::Surface => Layer::Underground,
            Layer::Underground => Layer::Surface,
        }
    }

    /// Wire code of the layer: surface 0, underground 1.
    pub fn code(self) -> (c: u8)
        ensures
            c == (if self == Layer::Surface { 0u8 } else { 1u8 }),
    {
        match self {
            Layer::Surface => 0,
            Layer::Underground => 1,
        }
    }
}

#[derive(Clone, Copy, PartialEq, Eq, Debug, Structural)]
pub enum Caste {
    Queen,
    Worker,
    Soldier,
}

#[derive(Clone, Copy, PartialEq, Eq, Debug, Structural)]
pub enum FoodKind {
    Green,
    Super,
}

impl FoodKind {
    /// Wire code of the food kind: green 0, super 1.
    pub fn code(self) -> (c: u8)
        ensures
            c == (if self == FoodKind::Green { 0u8 } else { 1u8 }),
    {
        match self {
            FoodKind::Green => 0,
            FoodKind::Super => 1,
        }
    }
}

/// What a worker's AI is busy with.
#[derive(Clone, Copy, PartialEq, Eq, Debug, Structural)]
pub enum Job {
    /// Under the player's control: the AI only picks up and hands over food.
    Manual,
    /// Looking for work.
    Idle,
    /// Fetching food from the pile with this id.
    Fetch(u32),
    /// Carrying food to the queen.
    Deliver,
    /// Digging out this underground tile.
    DigTile(u32, u32),
}

/// A worker's AI memory.
#[derive(Clone, Copy, Debug)]
pub struct WorkerAi {
    pub job: Job,
    /// Ticks to wait before thinking again.
    pub retry: u32,
    /// Where to continue after passing through the entrance.
    pub pending: Option<(Layer, (u32, u32))>,
    /// Entity to attack once it is reached.
    pub attack_after: Option<u32>,
}

/// Food held by an ant.
#[derive(Clone, Copy, PartialEq, Eq, Debug, Structural)]
pub struct Carrying {
    pub amount: u32,
    pub kind: FoodKind,
}

/// A food pile.
#[derive(Clone, Copy, PartialEq, Eq, Debug, Structural)]
pub struct Food {
    pub amount: u32,
    pub kind: FoodKind,
}

} // verus!
