use woa_core::colony::{free_egg_tile, has_empty_neighbor, pick_dig_target, Brood, Colony};
use woa_core::world::{Grid, DIRT, EMPTY, ROCK};
use woa_core::{Caste, FoodKind};

fn nest() -> Grid {
    // 9x9 dirt with a rock frame and a 3x3 chamber around (4, 4)
    let mut g = Grid::filled(9, 9, DIRT);
    for i in 0..9 {
        g.set(i, 0, ROCK);
        g.set(i, 8, ROCK);
        g.set(0, i, ROCK);
        g.set(8, i, ROCK);
    }
    for y in 3..=5 {
        for x in 3..=5 {
            g.set(x, y, EMPTY);
        }
    }
    g
}

#[test]
fn fresh_colony_stores() {
    let c = Colony::new(7);
    assert_eq!((c.food, c.food_super, c.delivered, c.eggs_laid), (5, 0, 0, 0));
    assert!(!c.dead);
    assert_eq!(c.queen_id, 7);
    assert!(c.dig_queue.is_empty());
}

#[test]
fn deliveries_fill_the_right_store() {
    let mut c = Colony::new(0);
    c.deliver(FoodKind::Green);
    c.deliver(FoodKind::Super);
    c.deliver(FoodKind::Super);
    assert_eq!((c.food, c.food_super, c.delivered), (6, 2, 3));
    c.eat();
    assert_eq!(c.food, 5);
}

#[test]
fn soldier_eggs_need_super_food_and_workers() {
    let mut c = Colony::new(0);
    c.food = 3;
    c.food_super = 2;
    // cap: one soldier per two workers, counting soldiers, their eggs and the new egg
    assert_eq!(c.egg_choice(2, 0, 0), Some(Caste::Soldier));
    assert_eq!(c.egg_choice(4, 1, 0), Some(Caste::Soldier));
    assert_eq!(c.egg_choice(3, 1, 0), None);
    assert_eq!(c.egg_choice(4, 1, 1), None);
    assert_eq!(c.egg_choice(4, 0, 1), Some(Caste::Soldier));
    assert_eq!(c.egg_choice(1, 0, 0), None);
    c.food = 5;
    assert_eq!(c.egg_choice(3, 1, 0), Some(Caste::Worker));
    c.food_super = 1;
    assert_eq!(c.egg_choice(10, 0, 0), Some(Caste::Worker));
    c.food = 4;
    assert_eq!(c.egg_choice(10, 0, 0), None);
}

#[test]
fn soldier_eggs_in_flight_count_against_the_cap() {
    let g = nest();
    let mut c = Colony::new(0);
    c.food = 20;
    c.food_super = 8;
    // four workers and one soldier: one more soldier egg fits, a second does not
    assert_eq!(c.brood_step(&g, (4, 4), 4, 1, 0, &vec![]), Brood::Lay(4, 4, Caste::Soldier));
    assert_eq!(c.brood_step(&g, (4, 4), 4, 1, 1, &vec![(4, 4)]), Brood::Lay(3, 3, Caste::Worker));
    assert_eq!((c.food, c.food_super, c.eggs_laid), (12, 6, 2));
}

#[test]
fn eggs_cost_their_price() {
    let mut c = Colony::new(0);
    c.food = 10;
    c.food_super = 4;
    c.pay_for_egg(Caste::Soldier);
    assert_eq!((c.food, c.food_super, c.eggs_laid), (7, 2, 1));
    c.pay_for_egg(Caste::Worker);
    assert_eq!((c.food, c.food_super, c.eggs_laid), (2, 2, 2));
}

#[test]
fn queen_death_kills_the_colony() {
    let mut c = Colony::new(3);
    c.note_death(4);
    assert!(!c.dead);
    c.note_death(3);
    assert!(c.dead);
}

#[test]
fn egg_goes_on_the_queen_tile_first_then_ring_order() {
    let g = nest();
    assert_eq!(free_egg_tile(&g, (4, 4), &vec![]), Some((4, 4)));
    assert_eq!(free_egg_tile(&g, (4, 4), &vec![(4, 4)]), Some((3, 3)));
    assert_eq!(free_egg_tile(&g, (4, 4), &vec![(4, 4), (3, 3)]), Some((4, 3)));
    let all: Vec<(u32, u32)> = (3..=5).flat_map(|y| (3..=5).map(move |x| (x, y))).collect();
    assert_eq!(free_egg_tile(&g, (4, 4), &all), None);
}

#[test]
fn dig_sites_touch_open_ground() {
    let g = nest();
    assert!(has_empty_neighbor(&g, 2, 4));
    assert!(!has_empty_neighbor(&g, 2, 2));
    assert!(!has_empty_neighbor(&g, 0, 0));
    // ring 1 around (4, 4) is all open; ring 2 starts at (2, 2), which only
    // touches open ground diagonally, so (3, 2) is the first site.
    assert_eq!(pick_dig_target(&g, (4, 4)), Some((3, 2)));
    let solid = Grid::filled(9, 9, DIRT);
    assert_eq!(pick_dig_target(&solid, (4, 4)), None);
}

#[test]
fn brood_step_lays_or_queues_a_dig() {
    let g = nest();
    let mut c = Colony::new(0);
    c.food = 12;
    assert_eq!(c.brood_step(&g, (4, 4), 3, 0, 0, &vec![]), Brood::Lay(4, 4, Caste::Worker));
    assert_eq!((c.food, c.eggs_laid), (7, 1));
    let all: Vec<(u32, u32)> = (3..=5).flat_map(|y| (3..=5).map(move |x| (x, y))).collect();
    assert_eq!(c.brood_step(&g, (4, 4), 3, 0, 0, &all), Brood::Dig(3, 2));
    assert_eq!(c.dig_queue, vec![(3, 2)]);
    assert_eq!(c.food, 7);
    c.dig_queue = vec![(1, 1), (1, 2), (1, 3)];
    assert_eq!(c.brood_step(&g, (4, 4), 3, 0, 0, &all), Brood::Rest);
    assert_eq!(c.dig_queue.len(), 3);
    c.food = 2;
    assert_eq!(c.brood_step(&g, (4, 4), 3, 0, 0, &vec![]), Brood::Rest);
    assert_eq!(c.take_dig(), Some((1, 3)));
}
