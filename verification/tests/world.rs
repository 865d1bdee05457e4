use woa_core::components::Layer;
use woa_core::sim::{dig_allowed, plan_route, Config, DevSpawn};
use woa_core::world::{carve_underground, rock_roll_site, scatter, Grid, World, DIRT, EMPTY, MOIST, ROCK};
use woa_core::{Caste, TPS};

#[test]
fn grid_basics() {
    let mut g = Grid::filled(4, 3, DIRT);
    assert_eq!(g.tiles.len(), 12);
    assert!(g.in_bounds(3, 2));
    assert!(!g.in_bounds(4, 0));
    g.set(1, 2, ROCK);
    assert_eq!(g.get(1, 2), ROCK);
    assert_eq!(g.tiles[9], ROCK);
    assert!(Grid::is_soft(MOIST));
    assert!(!Grid::is_soft(ROCK));
    assert_eq!(Grid::pass_cost(EMPTY, false), Some(1000));
    assert_eq!(Grid::pass_cost(DIRT, true), Some(10000));
    assert_eq!(Grid::pass_cost(DIRT, false), None);
    assert_eq!(Grid::pass_cost(ROCK, true), None);
}

#[test]
fn generated_underground_has_frame_shaft_and_rolled_rocks() {
    let (w, h) = (20u32, 12u32);
    let rolls: Vec<bool> = (0..w * h).map(|i| i % 7 == 0).collect();
    let g = carve_underground(w, h, &rolls);
    assert_eq!(g.get(0, 5), ROCK);
    assert_eq!(g.get(19, 11), ROCK);
    assert_eq!(g.get(10, 0), EMPTY); // entrance
    for y in 1..=3 {
        for x in 9..=11 {
            assert_eq!(g.get(x, y), EMPTY);
        }
    }
    // (3, 10) is a roll site: index 203 is a multiple of 7
    assert!(rock_roll_site(w, h, 3, 10));
    assert_eq!(g.get(3, 10), ROCK);
    assert!(!rock_roll_site(w, h, 8, 5)); // near the entrance, kept clear
    assert_eq!(g.get(8, 5), DIRT);
    assert_eq!(g.get(1, 10), DIRT); // index 201 is not a multiple of 7
}

#[test]
fn world_layers() {
    let rolls = vec![false; 96 * 96];
    let mut wd = World::generate(96, 96, &rolls);
    assert_eq!(wd.entrance, (48, 0));
    assert_eq!(wd.tile_at(Layer::Surface, 5, 5), EMPTY);
    assert_eq!(wd.tile_at(Layer::Underground, 51, 2), DIRT);
    wd.dig_out(51, 2);
    assert_eq!(wd.tile_at(Layer::Underground, 51, 2), EMPTY);
    assert_eq!(wd.tiles(Layer::Underground).len(), 96 * 96);
}

#[test]
fn scatter_clamps() {
    assert_eq!(scatter(48, 0, 20, 2, 93), 28);
    assert_eq!(scatter(3, 1, 20, 2, 93), 2);
    assert_eq!(scatter(90, 40, 20, 2, 93), 93);
}

#[test]
fn config_defaults() {
    let c = Config::default();
    assert_eq!((c.width, c.height, c.start_workers, c.food_clusters, c.max_ants, c.spiders), (96, 96, 3, 6, 24, 2));
    assert_eq!(TPS, 20);
}

#[test]
fn dev_spawn_names() {
    assert_eq!(DevSpawn::parse("worker"), Some(DevSpawn::Worker));
    assert_eq!(DevSpawn::parse("soldier"), Some(DevSpawn::Soldier));
    assert_eq!(DevSpawn::parse("egg"), Some(DevSpawn::EggWorker));
    assert_eq!(DevSpawn::parse("egg-soldier"), Some(DevSpawn::EggSoldier));
    assert_eq!(DevSpawn::parse("spider"), Some(DevSpawn::Spider));
    assert_eq!(DevSpawn::parse("food"), Some(DevSpawn::Food));
    assert_eq!(DevSpawn::parse("super"), Some(DevSpawn::SuperFood));
    assert_eq!(DevSpawn::parse("Worker"), None);
    assert_eq!(DevSpawn::parse(""), None);
}

#[test]
fn dig_orders() {
    let mut g = Grid::filled(6, 6, DIRT);
    g.set(2, 2, EMPTY);
    g.set(4, 4, ROCK);
    assert!(dig_allowed(Caste::Worker, Layer::Underground, &g, (2, 2), 3, 3));
    assert!(!dig_allowed(Caste::Soldier, Layer::Underground, &g, (2, 2), 3, 3));
    assert!(!dig_allowed(Caste::Worker, Layer::Surface, &g, (2, 2), 3, 3));
    assert!(!dig_allowed(Caste::Worker, Layer::Underground, &g, (2, 2), 2, 2)); // not soft
    assert!(!dig_allowed(Caste::Worker, Layer::Underground, &g, (2, 2), 4, 2)); // too far
    assert!(!dig_allowed(Caste::Worker, Layer::Underground, &g, (3, 3), 4, 4)); // rock
    assert!(!dig_allowed(Caste::Worker, Layer::Underground, &g, (5, 5), 6, 6)); // outside
}

#[test]
fn layers_swap() {
    assert_eq!(Layer::Surface.other(), Layer::Underground);
    assert_eq!(Layer::Underground.other(), Layer::Surface);
    assert_eq!(Layer::Underground.code(), 1);
}

#[test]
fn route_changes_layer_through_the_entrance() {
    let (w, h) = (20u32, 12u32);
    let rolls: Vec<bool> = vec![false; (w * h) as usize];
    let world = World::generate(w, h, &rolls);
    // Same layer: the leg ends at the destination and nothing is pending.
    let leg = plan_route(&world, true, Layer::Underground, (10, 3), Layer::Underground, (10, 5))
        .expect("soft earth is walkable for workers");
    assert_eq!(leg.path.first(), Some(&(10, 3)));
    assert_eq!(leg.path.last(), Some(&(10, 5)));
    assert!(!leg.then_swap);
    assert_eq!(leg.pending, None);
    // Other layer: the leg ends at the entrance and the destination waits.
    let leg = plan_route(&world, false, Layer::Surface, (3, 7), Layer::Underground, (10, 2))
        .expect("open ground");
    assert_eq!(leg.path.last(), Some(&world.entrance));
    assert!(leg.then_swap);
    assert_eq!(leg.pending, Some((Layer::Underground, (10, 2))));
    // A soldier cannot dig its way through earth.
    assert!(plan_route(&world, false, Layer::Underground, (10, 3), Layer::Underground, (10, 6)).is_none());
}
