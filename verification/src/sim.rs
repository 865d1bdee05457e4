//! Simulation set-up: configuration, developer spawn kinds and the
//! command rules that do not depend on continuous positions.
use vstd::prelude::*;

use crate::components::{Caste, Layer};
use crate::path::{chebyshev, chebyshev_spec, connects, find_path, is_cheapest, searchable};
use crate::world::{Grid, World, soft_kind, DIRT, DRY, MOIST};

verus! {

broadcast use vstd::string::group_string_axioms;

/// Simulation ticks per second.
pub const TPS: u32 = 20;

/// World size and population limits.
#[derive(Clone, Copy, PartialEq, Eq, Debug, Structural)]
pub struct Config {
    pub width: u32,
    pub height: u32,
    pub start_workers: u32,
    pub food_clusters: u32,
    pub max_ants: u32,
    pub spiders: u32,
}

impl Default for Config {
    fn default() -> (c: Config)
        ensures
            c == (Config {
                width: 96,
                height: 96,
                start_workers: 3,
                food_clusters: 6,
                max_ants: 24,
                spiders: 2,
            }),
    {
        Config {
            width: 96,
            height: 96,
            start_workers: 3,
            food_clusters: 6,
            max_ants: 24,
            spiders: 2,
        }
    }
}

/// Spawnable entities for dev tools. Natural layers: spiders and food on the
/// surface, ants and eggs underground.
#[derive(Clone, Copy, PartialEq, Eq, Debug, Structural)]
pub enum DevSpawn {
    Worker,
    Soldier,
    EggWorker,
    EggSoldier,
    Spider,
    Food,
    SuperFood,
}

/// The dev-tool name of each spawn kind.
pub open spec fn dev_spawn_spec(s: Seq<char>) -> Option<DevSpawn> {
    if s == seq!['w', 'o', 'r', 'k', 'e', 'r'] {
        Some(DevSpawn::Worker)
    } else if s == seq!['s', 'o', 'l', 'd', 'i', 'e', 'r'] {
        Some(DevSpawn::Soldier)
    } else if s == seq!['e', 'g', 'g'] {
        Some(DevSpawn::EggWorker)
    } else if s == seq!['e', 'g', 'g', '-', 's', 'o', 'l', 'd', 'i', 'e', 'r'] {
        Some(DevSpawn::EggSoldier)
    } else if s == seq!['s', 'p', 'i', 'd', 'e', 'r'] {
        Some(DevSpawn::Spider)
    } else if s == seq!['f', 'o', 'o', 'd'] {
        Some(DevSpawn::Food)
    } else if s == seq!['s', 'u', 'p', 'e', 'r'] {
        Some(DevSpawn::SuperFood)
    } else {
        None
    }
}

fn chars_of(s: &str) -> (v: Vec<char>)
    ensures
        v@ == s@,
{
    let mut v: Vec<char> = Vec::new();
    for ch in it: s.chars()
        invariant
            it.seq() == s@,
            v@ == s@.take(it.index() as int),
    {
        v.push(ch);
        assert(s@.take(it.index() as int + 1) =~= v@);
    }
    assert(v@ =~= s@);
    v
}

fn same_chars(a: &Vec<char>, b: &[char]) -> (r: bool)
    ensures
        r == (a@ == b@),
{
    if a.len() != b.len() {
        return false;
    }
    let mut i: usize = 0;
    while i < a.len()
        invariant
            a@.len() == b@.len(),
            i <= a@.len(),
            forall|j: int| 0 <= j < i ==> a@[j] == b@[j],
        decreases a@.len() - i,
    {
        if a[i] != b[i] {
            return false;
        }
        i = i + 1;
    }
    assert(a@ =~= b@);
    true
}

impl DevSpawn {
    /// Parses a dev-tool spawn name.
    pub fn parse(s: &str) -> (r: Option<DevSpawn>)
        ensures
            r == dev_spawn_spec(s@),
    {
        let v = chars_of(s);
        if same_chars(&v, &['w', 'o', 'r', 'k', 'e', 'r']) {
            Some(DevSpawn::Worker)
        } else if same_chars(&v, &['s', 'o', 'l', 'd', 'i', 'e', 'r']) {
            Some(DevSpawn::Soldier)
        } else if same_chars(&v, &['e', 'g', 'g']) {
            Some(DevSpawn::EggWorker)
        } else if same_chars(&v, &['e', 'g', 'g', '-', 's', 'o', 'l', 'd', 'i', 'e', 'r']) {
            Some(DevSpawn::EggSoldier)
        } else if same_chars(&v, &['s', 'p', 'i', 'd', 'e', 'r']) {
            Some(DevSpawn::Spider)
        } else if same_chars(&v, &['f', 'o', 'o', 'd']) {
            Some(DevSpawn::Food)
        } else if same_chars(&v, &['s', 'u', 'p', 'e', 'r']) {
            Some(DevSpawn::SuperFood)
        } else {
            None
        }
    }
}

/// A dig order is carried out only by a worker underground, on a soft tile
/// that is its own or one of its eight neighbours.
pub open spec fn dig_allowed_spec(
    caste: Caste,
    layer: Layer,
    g: Grid,
    ant_tile: (u32, u32),
    tx: u32,
    ty: u32,
) -> bool {
    &&& caste == Caste::Worker
    &&& layer == Layer::Underground
    &&& g.inside(tx as int, ty as int)
    &&& soft_kind(g.kind_at(tx as int, ty as int))
    &&& chebyshev_spec(ant_tile, (tx, ty)) <= 1
}

/// A dig order is accepted exactly from a worker underground, for a tile on
/// the map that is dirt, moist or dry, at most one column and one row away
/// from the ant's own tile (its own tile included).
pub proof fn lemma_dig_order_rule(
    caste: Caste,
    layer: Layer,
    g: Grid,
    ant_tile: (u32, u32),
    tx: u32,
    ty: u32,
)
    ensures
        dig_allowed_spec(caste, layer, g, ant_tile, tx, ty) <==> {
            let k = g.kind_at(tx as int, ty as int);
            &&& caste == Caste::Worker
            &&& layer == Layer::Underground
            &&& tx < g.w && ty < g.h
            &&& (k == DIRT || k == MOIST || k == DRY)
            &&& -1 <= tx - ant_tile.0 <= 1
            &&& -1 <= ty - ant_tile.1 <= 1
        },
{
}

/// Whether a dig order for tile `(tx, ty)` is accepted from this ant.
pub fn dig_allowed(
    caste: Caste,
    layer: Layer,
    g: &Grid,
    ant_tile: (u32, u32),
    tx: u32,
    ty: u32,
) -> (b: bool)
    requires
        g.wf(),
    ensures
        b == dig_allowed_spec(caste, layer, *g, ant_tile, tx, ty),
{
    if caste != Caste::Worker || layer != Layer::Underground || !g.in_bounds(tx, ty) {
        return false;
    }
    if !Grid::is_soft(g.get(tx, ty)) {
        return false;
    }
    chebyshev(ant_tile, (tx, ty)) <= 1
}

/// A walk planned on the ant's own layer: the tiles to follow, whether the
/// ant changes layer when it arrives (at the entrance), and the destination
/// kept for after the change.
pub struct Leg {
    pub path: Vec<(u32, u32)>,
    pub then_swap: bool,
    pub pending: Option<(Layer, (u32, u32))>,
}

/// Where the first leg of a route ends: the destination itself on the same
/// layer, the entrance otherwise.
pub open spec fn leg_goal(
    from: Layer,
    to: Layer,
    dest: (u32, u32),
    entrance: (u32, u32),
) -> (u32, u32) {
    if from == to {
        dest
    } else {
        entrance
    }
}

/// A route's first leg ends at the destination itself when the ant stays on
/// its layer, and at the nest entrance when it has to change layer.
pub proof fn lemma_leg_goal(from: Layer, to: Layer, dest: (u32, u32), entrance: (u32, u32))
    ensures
        from == to ==> leg_goal(from, to, dest, entrance) == dest,
        from != to ==> leg_goal(from, to, dest, entrance) == entrance,
{
}

/// Plans the walk of an ant standing on `start_tile` of `start_layer` towards
/// `dest` on `dest_layer`. Workers may walk through soft earth. Gives `None`
/// when the first leg has no walk.
pub fn plan_route(
    world: &World,
    is_worker: bool,
    start_layer: Layer,
    start_tile: (u32, u32),
    dest_layer: Layer,
    dest: (u32, u32),
) -> (r: Option<Leg>)
    requires
        world.wf(),
    ensures
        r is Some <==> (searchable(
            world.layer_grid(start_layer),
            is_worker,
            start_tile,
            leg_goal(start_layer, dest_layer, dest, world.entrance),
        ) && exists|q: Seq<(u32, u32)>|
            #[trigger] connects(
                world.layer_grid(start_layer),
                is_worker,
                q,
                start_tile,
                leg_goal(start_layer, dest_layer, dest, world.entrance),
            )),
        r matches Some(leg) ==> is_cheapest(
            world.layer_grid(start_layer),
            is_worker,
            leg.path@,
            start_tile,
            leg_goal(start_layer, dest_layer, dest, world.entrance),
        ),
        r matches Some(leg) ==> leg.then_swap == (start_layer != dest_layer),
        r matches Some(leg) ==> leg.pending == (if start_layer == dest_layer {
            None
        } else {
            Some((dest_layer, dest))
        }),
{
    let same = start_layer == dest_layer;
    let goal = if same {
        dest
    } else {
        world.entrance
    };
    assert(goal == leg_goal(start_layer, dest_layer, dest, world.entrance));
    let g = world.grid(start_layer);
    match find_path(g, start_tile, goal, is_worker) {
        Some(path) => {
            let pending = if same {
                None
            } else {
                Some((dest_layer, dest))
            };
            Some(Leg { path, then_swap: !same, pending })
        },
        None => None,
    }
}

} // verus!
