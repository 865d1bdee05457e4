use woa_core::colony::Colony;
use woa_core::tick::worker_tick;
use woa_core::worker::{best_food, delivery_kind, food_on_tile, worker_plan, FoodSite, WorkerAction, WorkerView};
use woa_core::world::{Grid, DIRT, EMPTY};
use woa_core::{Carrying, FoodKind, Job, Layer, WorkerAi};

fn ai(job: Job) -> WorkerAi {
    WorkerAi { job, retry: 0, pending: None, attack_after: None }
}

fn empty_hands() -> Carrying {
    Carrying { amount: 0, kind: FoodKind::Green }
}

fn view(layer: Layer, tile: (u32, u32), carrying: Carrying, ai: WorkerAi) -> WorkerView {
    WorkerView { layer, tile, carrying, ai }
}

fn piles() -> Vec<FoodSite> {
    vec![
        FoodSite { id: 3, tile: (10, 10), amount: 4, kind: FoodKind::Green },
        FoodSite { id: 5, tile: (40, 40), amount: 8, kind: FoodKind::Super },
        FoodSite { id: 8, tile: (6, 2), amount: 1, kind: FoodKind::Green },
    ]
}

#[test]
fn super_food_ranks_first_then_distance() {
    let p = piles();
    assert_eq!(best_food(&p, (5, 0)).map(|f| f.id), Some(5));
    let greens: Vec<FoodSite> = p.iter().copied().filter(|f| f.kind == FoodKind::Green).collect();
    assert_eq!(best_food(&greens, (5, 0)).map(|f| f.id), Some(8));
    assert!(best_food(&vec![], (5, 0)).is_none());
    assert_eq!(food_on_tile(&p, (6, 2)).map(|f| f.id), Some(8));
    assert!(food_on_tile(&p, (6, 3)).is_none());
}

#[test]
fn countdown_only_ticks() {
    let g = Grid::filled(8, 8, DIRT);
    let mut c = Colony::new(0);
    let mut a = ai(Job::Idle);
    a.retry = 3;
    let p = worker_plan(&mut c, view(Layer::Underground, (2, 2), empty_hands(), a), None, (3, 3), &piles(), (4, 0), &g);
    assert_eq!(p.ai.retry, 2);
    assert_eq!(p.ai.job, Job::Idle);
    assert!(matches!(p.action, WorkerAction::Stay));
}

#[test]
fn idle_worker_takes_queued_dig_before_food() {
    let g = Grid::filled(8, 8, DIRT);
    let mut c = Colony::new(0);
    c.dig_queue = vec![(1, 1), (2, 5)];
    let p = worker_plan(&mut c, view(Layer::Underground, (2, 2), empty_hands(), ai(Job::Idle)), None, (3, 3), &piles(), (4, 0), &g);
    assert_eq!(p.ai.job, Job::DigTile(2, 5));
    assert_eq!(c.dig_queue, vec![(1, 1)]);
    c.dig_queue.clear();
    let p = worker_plan(&mut c, view(Layer::Underground, (2, 2), empty_hands(), ai(Job::Idle)), None, (3, 3), &piles(), (4, 0), &g);
    assert_eq!(p.ai.job, Job::Fetch(5));
    let p = worker_plan(&mut c, view(Layer::Underground, (2, 2), empty_hands(), ai(Job::Idle)), None, (3, 3), &vec![], (4, 0), &g);
    assert_eq!(p.ai.retry, 50);
}

#[test]
fn fetcher_picks_up_at_the_pile_and_routes_otherwise() {
    let g = Grid::filled(8, 8, DIRT);
    let mut c = Colony::new(0);
    let p = worker_plan(&mut c, view(Layer::Surface, (10, 10), empty_hands(), ai(Job::Fetch(3))), None, (3, 3), &piles(), (4, 0), &g);
    assert_eq!(p.take_food, Some(3));
    assert_eq!(p.carrying.amount, 1);
    assert_eq!(p.ai.job, Job::Deliver);
    let p = worker_plan(&mut c, view(Layer::Surface, (9, 10), empty_hands(), ai(Job::Fetch(3))), None, (3, 3), &piles(), (4, 0), &g);
    assert!(matches!(p.action, WorkerAction::Route(Layer::Surface, (10, 10))));
    assert_eq!(p.on_fail.retry, 60);
    assert_eq!(p.on_fail.job, Job::Idle);
    let p = worker_plan(&mut c, view(Layer::Surface, (9, 10), empty_hands(), ai(Job::Fetch(99))), None, (3, 3), &piles(), (4, 0), &g);
    assert_eq!(p.ai.job, Job::Idle);
}

#[test]
fn deliverer_hands_food_to_the_queen() {
    let g = Grid::filled(8, 8, DIRT);
    let mut c = Colony::new(0);
    let load = Carrying { amount: 1, kind: FoodKind::Super };
    let p = worker_plan(&mut c, view(Layer::Underground, (4, 4), load, ai(Job::Deliver)), None, (3, 3), &piles(), (4, 0), &g);
    assert_eq!(p.carrying.amount, 0);
    assert_eq!(p.ai.job, Job::Idle);
    assert_eq!((c.food, c.food_super, c.delivered), (5, 1, 1));
    let p = worker_plan(&mut c, view(Layer::Surface, (4, 4), load, ai(Job::Deliver)), None, (3, 3), &piles(), (4, 0), &g);
    assert!(matches!(p.action, WorkerAction::Route(Layer::Underground, (3, 3))));
    assert_eq!(c.delivered, 1);
}

#[test]
fn digger_digs_when_adjacent() {
    let mut g = Grid::filled(8, 8, DIRT);
    g.set(2, 2, EMPTY);
    let mut c = Colony::new(0);
    let p = worker_plan(&mut c, view(Layer::Underground, (2, 2), empty_hands(), ai(Job::DigTile(3, 3))), None, (3, 3), &piles(), (4, 0), &g);
    assert!(matches!(p.action, WorkerAction::Dig(3, 3)));
    let p = worker_plan(&mut c, view(Layer::Underground, (2, 2), empty_hands(), ai(Job::DigTile(2, 2))), None, (3, 3), &piles(), (4, 0), &g);
    assert_eq!(p.ai.job, Job::Idle);
    let p = worker_plan(&mut c, view(Layer::Underground, (0, 0), empty_hands(), ai(Job::DigTile(5, 5))), None, (3, 3), &piles(), (4, 0), &g);
    assert!(matches!(p.action, WorkerAction::Route(Layer::Underground, (5, 5))));
}

#[test]
fn attack_orders() {
    let g = Grid::filled(8, 8, DIRT);
    let mut c = Colony::new(0);
    let mut a = ai(Job::Manual);
    a.attack_after = Some(9);
    a.pending = Some((Layer::Surface, (1, 1)));
    let p = worker_plan(&mut c, view(Layer::Surface, (2, 2), empty_hands(), a), Some((Layer::Surface, (5, 5))), (3, 3), &piles(), (4, 0), &g);
    assert!(matches!(p.action, WorkerAction::Fight(9)));
    assert!(p.ai.attack_after.is_none() && p.ai.pending.is_none());
    let p = worker_plan(&mut c, view(Layer::Underground, (2, 2), empty_hands(), a), Some((Layer::Surface, (5, 5))), (3, 3), &piles(), (4, 0), &g);
    assert!(matches!(p.action, WorkerAction::Route(Layer::Surface, (5, 5))));
    assert!(p.on_fail.attack_after.is_none());
    assert_eq!(p.on_fail.retry, 60);
    let p = worker_plan(&mut c, view(Layer::Underground, (2, 2), empty_hands(), a), None, (3, 3), &piles(), (4, 0), &g);
    assert!(p.ai.attack_after.is_none());
    assert!(matches!(p.action, WorkerAction::Stay));
}

#[test]
fn manual_worker_picks_up_one_unit() {
    let g = Grid::filled(8, 8, DIRT);
    let mut c = Colony::new(0);
    let p = worker_plan(&mut c, view(Layer::Surface, (6, 2), empty_hands(), ai(Job::Manual)), None, (3, 3), &piles(), (4, 0), &g);
    assert_eq!(p.take_food, Some(8));
    assert_eq!(p.carrying, Carrying { amount: 1, kind: FoodKind::Green });
    assert_eq!(p.ai.job, Job::Manual);
}

#[test]
fn delivery_kind_names_the_load_handed_over() {
    let load = Carrying { amount: 1, kind: FoodKind::Super };
    let deliver = ai(Job::Deliver);
    assert_eq!(delivery_kind(view(Layer::Underground, (4, 4), load, deliver), (3, 3)), Some(FoodKind::Super));
    assert_eq!(delivery_kind(view(Layer::Underground, (5, 5), load, deliver), (3, 3)), None);
    assert_eq!(delivery_kind(view(Layer::Surface, (4, 4), load, deliver), (3, 3)), None);
    assert_eq!(delivery_kind(view(Layer::Underground, (4, 4), empty_hands(), deliver), (3, 3)), None);
    assert_eq!(delivery_kind(view(Layer::Underground, (4, 4), load, ai(Job::Idle)), (3, 3)), None);
    let busy = WorkerAi { retry: 2, ..deliver };
    assert_eq!(delivery_kind(view(Layer::Underground, (4, 4), load, busy), (3, 3)), None);
}

#[test]
fn a_tick_shares_piles_between_workers() {
    let g = Grid::filled(8, 8, DIRT);
    let mut c = Colony::new(0);
    let mut foods = vec![FoodSite { id: 8, tile: (6, 2), amount: 1, kind: FoodKind::Green }];
    let load = Carrying { amount: 1, kind: FoodKind::Green };
    let workers = vec![
        (view(Layer::Surface, (6, 2), empty_hands(), ai(Job::Fetch(8))), None),
        (view(Layer::Surface, (6, 2), empty_hands(), ai(Job::Manual)), None),
        (view(Layer::Underground, (4, 4), load, ai(Job::Deliver)), None),
    ];
    let plans = worker_tick(&mut c, &workers, (3, 3), &mut foods, (4, 0), &g);
    assert_eq!(plans.len(), 3);
    // the first worker empties the pile; the second finds nothing left
    assert_eq!(plans[0].take_food, Some(8));
    assert_eq!(plans[0].carrying.amount, 1);
    assert_eq!(plans[1].take_food, None);
    assert_eq!(plans[1].carrying.amount, 0);
    assert_eq!(foods[0].amount, 0);
    // the third hands its load to the queen
    assert_eq!(plans[2].carrying.amount, 0);
    assert_eq!((c.food, c.delivered), (6, 1));
}
