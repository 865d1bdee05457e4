//! The worker ants' AI: what an idle worker does next.
use vstd::prelude::*;

use crate::balance::{RETRY_AFTER_FAIL, RETRY_WHEN_IDLE};
use crate::colony::Colony;
use crate::components::{Carrying, FoodKind, Job, Layer, WorkerAi};
use crate::path::{chebyshev, chebyshev_spec, manhattan_wide, manhattan_spec};
use crate::world::{Grid, soft_kind, DIRT, DRY, MOIST};

verus! {

/// A food pile as the workers see it: its id, tile, units left and kind.
#[derive(Clone, Copy, Debug)]
pub struct FoodSite {
    pub id: u32,
    pub tile: (u32, u32),
    pub amount: u32,
    pub kind: FoodKind,
}

/// Piles are ranked super food first, then by taxicab distance from the nest
/// entrance, then by id.
pub open spec fn food_rank(f: FoodSite, entrance: (u32, u32)) -> (int, int, int) {
    (if f.kind == FoodKind::Super { 0int } else { 1int }, manhattan_spec(f.tile, entrance), f.id as int)
}

pub open spec fn rank_lt(a: (int, int, int), b: (int, int, int)) -> bool {
    a.0 < b.0 || (a.0 == b.0 && (a.1 < b.1 || (a.1 == b.1 && a.2 < b.2)))
}

/// The best-ranked pile of `s`; of equal ranks the earliest.
pub open spec fn best_site(s: Seq<FoodSite>, entrance: (u32, u32)) -> Option<FoodSite>
    decreases s.len(),
{
    if s.len() == 0 {
        None
    } else {
        match best_site(s.drop_last(), entrance) {
            None => Some(s.last()),
            Some(b) => if rank_lt(food_rank(s.last(), entrance), food_rank(b, entrance)) {
                Some(s.last())
            } else {
                Some(b)
            },
        }
    }
}

/// The first pile of `s` lying on `tile`.
pub open spec fn first_on_tile(s: Seq<FoodSite>, tile: (u32, u32)) -> Option<FoodSite>
    decreases s.len(),
{
    if s.len() == 0 {
        None
    } else if s[0].tile == tile {
        Some(s[0])
    } else {
        first_on_tile(s.drop_first(), tile)
    }
}

/// The first pile of `s` with this id.
pub open spec fn site_with_id(s: Seq<FoodSite>, id: u32) -> Option<FoodSite>
    decreases s.len(),
{
    if s.len() == 0 {
        None
    } else if s[0].id == id {
        Some(s[0])
    } else {
        site_with_id(s.drop_first(), id)
    }
}

/// The best pile is in the list and no pile ranks strictly better.
pub proof fn lemma_best_site_minimal(s: Seq<FoodSite>, entrance: (u32, u32))
    ensures
        best_site(s, entrance) is None <==> s.len() == 0,
        best_site(s, entrance) matches Some(b) ==> s.contains(b) && forall|j: int|
            0 <= j < s.len() ==> !rank_lt(
                #[trigger] food_rank(s[j], entrance),
                food_rank(b, entrance),
            ),
    decreases s.len(),
{
    if s.len() > 0 {
        lemma_best_site_minimal(s.drop_last(), entrance);
        let b = best_site(s, entrance).unwrap();
        assert forall|j: int| 0 <= j < s.len() implies !rank_lt(
            #[trigger] food_rank(s[j], entrance),
            food_rank(b, entrance),
        ) by {
            if j < s.len() - 1 {
                assert(s.drop_last()[j] == s[j]);
            }
        }
        if b != s.last() {
            let k = choose|k: int| 0 <= k < s.drop_last().len() && s.drop_last()[k] == b;
            assert(s[k] == b);
        } else {
            assert(s[s.len() - 1] == b);
        }
    }
}

/// The pile a worker looking for food should fetch from.
pub fn best_food(foods: &Vec<FoodSite>, entrance: (u32, u32)) -> (r: Option<FoodSite>)
    ensures
        r == best_site(foods@, entrance),
{
    let mut best: Option<FoodSite> = None;
    let mut i: usize = 0;
    while i < foods.len()
        invariant
            i <= foods@.len(),
            best == best_site(foods@.take(i as int), entrance),
        decreases foods@.len() - i,
    {
        let f = foods[i];
        let better = match best {
            None => true,
            Some(b) => {
                let kf: u8 = if f.kind == FoodKind::Super { 0 } else { 1 };
                let kb: u8 = if b.kind == FoodKind::Super { 0 } else { 1 };
                let df = manhattan_wide(f.tile, entrance);
                let db = manhattan_wide(b.tile, entrance);
                kf < kb || (kf == kb && (df < db || (df == db && f.id < b.id)))
            },
        };
        if better {
            best = Some(f);
        }
        proof {
            assert(foods@.take(i + 1).drop_last() =~= foods@.take(i as int));
        }
        i = i + 1;
    }
    proof {
        assert(foods@.take(i as int) =~= foods@);
    }
    best
}

/// The first pile lying on `tile`.
pub fn food_on_tile(foods: &Vec<FoodSite>, tile: (u32, u32)) -> (r: Option<FoodSite>)
    ensures
        r == first_on_tile(foods@, tile),
{
    let mut i: usize = 0;
    assert(foods@.skip(0) =~= foods@);
    while i < foods.len()
        invariant
            i <= foods@.len(),
            first_on_tile(foods@, tile) == first_on_tile(foods@.skip(i as int), tile),
        decreases foods@.len() - i,
    {
        let f = foods[i];
        proof {
            assert(foods@.skip(i as int).drop_first() =~= foods@.skip(i + 1));
        }
        if f.tile.0 == tile.0 && f.tile.1 == tile.1 {
            return Some(f);
        }
        i = i + 1;
    }
    None
}

/// The pile with id `id`.
pub fn food_by_id(foods: &Vec<FoodSite>, id: u32) -> (r: Option<FoodSite>)
    ensures
        r == site_with_id(foods@, id),
{
    let mut i: usize = 0;
    assert(foods@.skip(0) =~= foods@);
    while i < foods.len()
        invariant
            i <= foods@.len(),
            site_with_id(foods@, id) == site_with_id(foods@.skip(i as int), id),
        decreases foods@.len() - i,
    {
        let f = foods[i];
        proof {
            assert(foods@.skip(i as int).drop_first() =~= foods@.skip(i + 1));
        }
        if f.id == id {
            return Some(f);
        }
        i = i + 1;
    }
    None
}


/// What an idle worker knows about itself.
#[derive(Clone, Copy, Debug)]
pub struct WorkerView {
    pub layer: Layer,
    pub tile: (u32, u32),
    pub carrying: Carrying,
    pub ai: WorkerAi,
}

/// What the worker does about its decision this tick.
#[derive(Clone, Copy, Debug)]
pub enum WorkerAction {
    /// Nothing beyond updating its memory.
    Stay,
    /// Start fighting the entity with this id.
    Fight(u32),
    /// Start digging out this underground tile.
    Dig(u32, u32),
    /// Walk to this tile of this layer (through the entrance if needed).
    Route(Layer, (u32, u32)),
}

/// A worker's decision: its new memory, the memory to fall back to when the
/// route it asks for cannot be found, what it carries afterwards, the food
/// pile it takes one unit from, and the action.
#[derive(Clone, Copy, Debug)]
pub struct WorkerPlan {
    pub ai: WorkerAi,
    pub on_fail: WorkerAi,
    pub carrying: Carrying,
    pub take_food: Option<u32>,
    pub action: WorkerAction,
}

pub open spec fn with_retry(ai: WorkerAi, retry: u32) -> WorkerAi {
    WorkerAi { retry, ..ai }
}

pub open spec fn with_job(ai: WorkerAi, job: Job) -> WorkerAi {
    WorkerAi { job, ..ai }
}

pub open spec fn stay(ai: WorkerAi, c: Carrying) -> WorkerPlan {
    WorkerPlan { ai, on_fail: ai, carrying: c, take_food: None, action: WorkerAction::Stay }
}

pub open spec fn go(ai: WorkerAi, on_fail: WorkerAi, c: Carrying, layer: Layer, t: (u32, u32)) -> WorkerPlan {
    WorkerPlan { ai, on_fail, carrying: c, take_food: None, action: WorkerAction::Route(layer, t) }
}

/// The worker has no countdown, no attack and no pending leg: its job decides.
pub open spec fn job_decides(ai: WorkerAi) -> bool {
    ai.retry == 0 && ai.attack_after is None && ai.pending is None
}

/// The kind of food the worker hands to the queen this tick, if any.
pub open spec fn delivery(v: WorkerView, queen: (u32, u32)) -> Option<FoodKind> {
    if job_decides(v.ai) && v.layer == Layer::Underground && v.carrying.amount > 0
        && chebyshev_spec(v.tile, queen) <= 1 && (v.ai.job == Job::Manual || v.ai.job
        == Job::Deliver) {
        Some(v.carrying.kind)
    } else {
        None
    }
}

/// The kind of food this worker hands to the queen on its next decision, if
/// any: what a caller checks the colony's stores against before
/// `worker_plan`.
pub fn delivery_kind(v: WorkerView, queen: (u32, u32)) -> (k: Option<FoodKind>)
    ensures
        k == delivery(v, queen),
{
    let ai = v.ai;
    if ai.retry == 0 && ai.attack_after.is_none() && ai.pending.is_none() && v.layer
        == Layer::Underground && v.carrying.amount > 0 && chebyshev(v.tile, queen) <= 1 && (
    ai.job == Job::Manual || ai.job == Job::Deliver) {
        Some(v.carrying.kind)
    } else {
        None
    }
}

/// Whether the worker takes the queen's most recent dig site.
pub open spec fn takes_dig(v: WorkerView, next_dig: Option<(u32, u32)>) -> bool {
    job_decides(v.ai) && v.ai.job == Job::Idle && v.carrying.amount == 0 && next_dig is Some
}

/// The decision of an idle worker.
pub open spec fn plan_spec(
    v: WorkerView,
    target: Option<(Layer, (u32, u32))>,
    queen: (u32, u32),
    foods: Seq<FoodSite>,
    entrance: (u32, u32),
    g: Grid,
    next_dig: Option<(u32, u32)>,
) -> WorkerPlan {
    let ai = v.ai;
    let c = v.carrying;
    if ai.retry > 0 {
        stay(with_retry(ai, (ai.retry - 1) as u32), c)
    } else if ai.attack_after is Some {
        let tid = ai.attack_after->0;
        match target {
            Some((tl, tt)) => if tl == Layer::Surface && v.layer == Layer::Surface {
                WorkerPlan {
                    ai: WorkerAi { pending: None, attack_after: None, ..ai },
                    on_fail: WorkerAi { pending: None, attack_after: None, ..ai },
                    carrying: c,
                    take_food: None,
                    action: WorkerAction::Fight(tid),
                }
            } else {
                go(ai, WorkerAi { attack_after: None, retry: RETRY_AFTER_FAIL, ..ai }, c, tl, tt)
            },
            None => stay(WorkerAi { attack_after: None, ..ai }, c),
        }
    } else if ai.pending is Some {
        let (l, t) = ai.pending->0;
        let a2 = WorkerAi { pending: None, ..ai };
        go(a2, with_retry(a2, RETRY_AFTER_FAIL), c, l, t)
    } else {
        match ai.job {
            Job::Manual => if v.layer == Layer::Surface && c.amount == 0 {
                match first_on_tile(foods, v.tile) {
                    Some(f) => if f.amount > 0 {
                        WorkerPlan {
                            ai,
                            on_fail: ai,
                            carrying: Carrying { amount: 1, kind: f.kind },
                            take_food: Some(f.id),
                            action: WorkerAction::Stay,
                        }
                    } else {
                        stay(ai, c)
                    },
                    None => stay(ai, c),
                }
            } else if v.layer == Layer::Underground && c.amount > 0 && chebyshev_spec(v.tile, queen)
                <= 1 {
                stay(ai, Carrying { amount: 0, ..c })
            } else {
                stay(ai, c)
            },
            Job::Idle => if c.amount > 0 {
                stay(with_job(ai, Job::Deliver), c)
            } else if next_dig is Some {
                let t = next_dig->0;
                stay(with_job(ai, Job::DigTile(t.0, t.1)), c)
            } else {
                match best_site(foods, entrance) {
                    Some(f) => stay(with_job(ai, Job::Fetch(f.id)), c),
                    None => stay(with_retry(ai, RETRY_WHEN_IDLE), c),
                }
            },
            Job::DigTile(tx, ty) => if !soft_kind(g.kind_at(tx as int, ty as int)) {
                stay(with_job(ai, Job::Idle), c)
            } else if v.layer == Layer::Underground && chebyshev_spec(v.tile, (tx, ty)) <= 1 {
                WorkerPlan {
                    ai,
                    on_fail: ai,
                    carrying: c,
                    take_food: None,
                    action: WorkerAction::Dig(tx, ty),
                }
            } else {
                go(
                    ai,
                    with_retry(with_job(ai, Job::Idle), RETRY_AFTER_FAIL),
                    c,
                    Layer::Underground,
                    (tx, ty),
                )
            },
            Job::Fetch(fid) => match site_with_id(foods, fid) {
                None => stay(with_job(ai, Job::Idle), c),
                Some(f) => if v.layer == Layer::Surface {
                    if v.tile == f.tile {
                        if f.amount > 0 {
                            WorkerPlan {
                                ai: with_job(ai, Job::Deliver),
                                on_fail: with_job(ai, Job::Deliver),
                                carrying: Carrying { amount: 1, kind: f.kind },
                                take_food: Some(fid),
                                action: WorkerAction::Stay,
                            }
                        } else {
                            stay(with_job(ai, Job::Idle), c)
                        }
                    } else {
                        go(
                            ai,
                            with_job(with_retry(ai, RETRY_AFTER_FAIL), Job::Idle),
                            c,
                            Layer::Surface,
                            f.tile,
                        )
                    }
                } else {
                    go(ai, with_retry(ai, RETRY_AFTER_FAIL), c, Layer::Surface, f.tile)
                },
            },
            Job::Deliver => if c.amount == 0 {
                stay(with_job(ai, Job::Idle), c)
            } else if v.layer == Layer::Underground && chebyshev_spec(v.tile, queen) <= 1 {
                stay(with_job(ai, Job::Idle), Carrying { amount: 0, ..c })
            } else {
                go(ai, with_retry(ai, RETRY_AFTER_FAIL), c, Layer::Underground, queen)
            },
        }
    }
}

/// Decides what an idle worker does this tick, handing any food it carries
/// to the colony and taking the queen's latest dig site when it picks one up.
///
/// In order: a running countdown only ticks down; an attack order turns into
/// a fight when both are on the surface, else into a route to the target
/// (dropping the order if it cannot be routed, or if the target is gone); a
/// pending leg after the entrance is walked; otherwise the job decides:
/// a manual worker picks up food on its tile and hands it over next to the
/// queen; an idle one delivers, digs, fetches the best food or waits; a
/// digger digs when next to its soft tile; a fetcher takes one unit at the
/// pile; a deliverer hands its load over next to the queen.
pub fn worker_plan(
    colony: &mut Colony,
    v: WorkerView,
    target: Option<(Layer, (u32, u32))>,
    queen: (u32, u32),
    foods: &Vec<FoodSite>,
    entrance: (u32, u32),
    g: &Grid,
) -> (p: WorkerPlan)
    requires
        g.wf(),
        job_decides(v.ai) && v.ai.job is DigTile ==> g.inside(
            v.ai.job->DigTile_0 as int,
            v.ai.job->DigTile_1 as int,
        ),
        delivery(v, queen) is Some ==> old(colony).delivered < u32::MAX,
        delivery(v, queen) == Some(FoodKind::Green) ==> old(colony).food < u32::MAX,
        delivery(v, queen) == Some(FoodKind::Super) ==> old(colony).food_super < u32::MAX,
    ensures
        p == plan_spec(
            v,
            target,
            queen,
            foods@,
            entrance,
            *g,
            if old(colony).dig_queue@.len() > 0 {
                Some(old(colony).dig_queue@.last())
            } else {
                None
            },
        ),
        final(colony).delivered == old(colony).delivered + if delivery(v, queen) is Some {
            1int
        } else {
            0int
        },
        final(colony).food == old(colony).food + if delivery(v, queen) == Some(FoodKind::Green) {
            1int
        } else {
            0int
        },
        final(colony).food_super == old(colony).food_super + if delivery(v, queen) == Some(
            FoodKind::Super,
        ) {
            1int
        } else {
            0int
        },
        final(colony).dig_queue@ == if takes_dig(
            v,
            if old(colony).dig_queue@.len() > 0 {
                Some(old(colony).dig_queue@.last())
            } else {
                None
            },
        ) {
            old(colony).dig_queue@.drop_last()
        } else {
            old(colony).dig_queue@
        },
        final(colony).eggs_laid == old(colony).eggs_laid,
        final(colony).dead == old(colony).dead,
        final(colony).queen_id == old(colony).queen_id,
{
    let ai = v.ai;
    let c = v.carrying;
    if ai.retry > 0 {
        let a2 = WorkerAi { retry: ai.retry - 1, ..ai };
        return WorkerPlan { ai: a2, on_fail: a2, carrying: c, take_food: None, action: WorkerAction::Stay };
    }
    if let Some(tid) = ai.attack_after {
        return match target {
            Some((tl, tt)) => {
                if tl == Layer::Surface && v.layer == Layer::Surface {
                    let a2 = WorkerAi { pending: None, attack_after: None, ..ai };
                    WorkerPlan { ai: a2, on_fail: a2, carrying: c, take_food: None, action: WorkerAction::Fight(tid) }
                } else {
                    let fail = WorkerAi { attack_after: None, retry: RETRY_AFTER_FAIL, ..ai };
                    WorkerPlan { ai, on_fail: fail, carrying: c, take_food: None, action: WorkerAction::Route(tl, tt) }
                }
            },
            None => {
                let a2 = WorkerAi { attack_after: None, ..ai };
                WorkerPlan { ai: a2, on_fail: a2, carrying: c, take_food: None, action: WorkerAction::Stay }
            },
        };
    }
    if let Some((l, t)) = ai.pending {
        let a2 = WorkerAi { pending: None, ..ai };
        let fail = WorkerAi { retry: RETRY_AFTER_FAIL, ..a2 };
        return WorkerPlan { ai: a2, on_fail: fail, carrying: c, take_food: None, action: WorkerAction::Route(l, t) };
    }
    let keep = WorkerPlan { ai, on_fail: ai, carrying: c, take_food: None, action: WorkerAction::Stay };
    match ai.job {
        Job::Manual => {
            if v.layer == Layer::Surface && c.amount == 0 {
                match food_on_tile(foods, v.tile) {
                    Some(f) => {
                        if f.amount > 0 {
                            WorkerPlan {
                                ai,
                                on_fail: ai,
                                carrying: Carrying { amount: 1, kind: f.kind },
                                take_food: Some(f.id),
                                action: WorkerAction::Stay,
                            }
                        } else {
                            keep
                        }
                    },
                    None => keep,
                }
            } else if v.layer == Layer::Underground && c.amount > 0 && chebyshev(v.tile, queen) <= 1 {
                colony.deliver(c.kind);
                let c2 = Carrying { amount: 0, ..c };
                WorkerPlan { ai, on_fail: ai, carrying: c2, take_food: None, action: WorkerAction::Stay }
            } else {
                keep
            }
        },
        Job::Idle => {
            if c.amount > 0 {
                let a2 = WorkerAi { job: Job::Deliver, ..ai };
                WorkerPlan { ai: a2, on_fail: a2, carrying: c, take_food: None, action: WorkerAction::Stay }
            } else if let Some(t) = colony.take_dig() {
                let a2 = WorkerAi { job: Job::DigTile(t.0, t.1), ..ai };
                WorkerPlan { ai: a2, on_fail: a2, carrying: c, take_food: None, action: WorkerAction::Stay }
            } else {
                match best_food(foods, entrance) {
                    Some(f) => {
                        let a2 = WorkerAi { job: Job::Fetch(f.id), ..ai };
                        WorkerPlan { ai: a2, on_fail: a2, carrying: c, take_food: None, action: WorkerAction::Stay }
                    },
                    None => {
                        let a2 = WorkerAi { retry: RETRY_WHEN_IDLE, ..ai };
                        WorkerPlan { ai: a2, on_fail: a2, carrying: c, take_food: None, action: WorkerAction::Stay }
                    },
                }
            }
        },
        Job::DigTile(tx, ty) => {
            if !Grid::is_soft(g.get(tx, ty)) {
                let a2 = WorkerAi { job: Job::Idle, ..ai };
                WorkerPlan { ai: a2, on_fail: a2, carrying: c, take_food: None, action: WorkerAction::Stay }
            } else if v.layer == Layer::Underground && chebyshev(v.tile, (tx, ty)) <= 1 {
                WorkerPlan { ai, on_fail: ai, carrying: c, take_food: None, action: WorkerAction::Dig(tx, ty) }
            } else {
                let fail = WorkerAi { job: Job::Idle, retry: RETRY_AFTER_FAIL, ..ai };
                WorkerPlan {
                    ai,
                    on_fail: fail,
                    carrying: c,
                    take_food: None,
                    action: WorkerAction::Route(Layer::Underground, (tx, ty)),
                }
            }
        },
        Job::Fetch(fid) => {
            match food_by_id(foods, fid) {
                None => {
                    let a2 = WorkerAi { job: Job::Idle, ..ai };
                    WorkerPlan { ai: a2, on_fail: a2, carrying: c, take_food: None, action: WorkerAction::Stay }
                },
                Some(f) => {
                    if v.layer == Layer::Surface {
                        if v.tile.0 == f.tile.0 && v.tile.1 == f.tile.1 {
                            if f.amount > 0 {
                                let a2 = WorkerAi { job: Job::Deliver, ..ai };
                                WorkerPlan {
                                    ai: a2,
                                    on_fail: a2,
                                    carrying: Carrying { amount: 1, kind: f.kind },
                                    take_food: Some(fid),
                                    action: WorkerAction::Stay,
                                }
                            } else {
                                let a2 = WorkerAi { job: Job::Idle, ..ai };
                                WorkerPlan { ai: a2, on_fail: a2, carrying: c, take_food: None, action: WorkerAction::Stay }
                            }
                        } else {
                            let fail = WorkerAi { job: Job::Idle, retry: RETRY_AFTER_FAIL, ..ai };
                            WorkerPlan {
                                ai,
                                on_fail: fail,
                                carrying: c,
                                take_food: None,
                                action: WorkerAction::Route(Layer::Surface, f.tile),
                            }
                        }
                    } else {
                        let fail = WorkerAi { retry: RETRY_AFTER_FAIL, ..ai };
                        WorkerPlan {
                            ai,
                            on_fail: fail,
                            carrying: c,
                            take_food: None,
                            action: WorkerAction::Route(Layer::Surface, f.tile),
                        }
                    }
                },
            }
        },
        Job::Deliver => {
            if c.amount == 0 {
                let a2 = WorkerAi { job: Job::Idle, ..ai };
                WorkerPlan { ai: a2, on_fail: a2, carrying: c, take_food: None, action: WorkerAction::Stay }
            } else if v.layer == Layer::Underground && chebyshev(v.tile, queen) <= 1 {
                colony.deliver(c.kind);
                let a2 = WorkerAi { job: Job::Idle, ..ai };
                let c2 = Carrying { amount: 0, ..c };
                WorkerPlan { ai: a2, on_fail: a2, carrying: c2, take_food: None, action: WorkerAction::Stay }
            } else {
                let fail = WorkerAi { retry: RETRY_AFTER_FAIL, ..ai };
                WorkerPlan {
                    ai,
                    on_fail: fail,
                    carrying: c,
                    take_food: None,
                    action: WorkerAction::Route(Layer::Underground, queen),
                }
            }
        },
    }
}


proof fn lemma_site_with_id_first(s: Seq<FoodSite>, id: u32, k: int)
    requires
        0 <= k < s.len(),
        s[k].id == id,
        forall|j: int| 0 <= j < k ==> s[j].id != id,
    ensures
        site_with_id(s, id) == Some(s[k]),
    decreases k,
{
    if k > 0 {
        assert(s[0].id != id);
        lemma_site_with_id_first(s.drop_first(), id, k - 1);
    }
}

proof fn lemma_site_with_id_absent(s: Seq<FoodSite>, id: u32)
    requires
        forall|j: int| 0 <= j < s.len() ==> s[j].id != id,
    ensures
        site_with_id(s, id) is None,
    decreases s.len(),
{
    if s.len() > 0 {
        lemma_site_with_id_absent(s.drop_first(), id);
    }
}

proof fn lemma_site_with_id_member(s: Seq<FoodSite>, id: u32)
    ensures
        site_with_id(s, id) matches Some(f) ==> f.id == id && exists|k: int|
            0 <= k < s.len() && s[k] == f,
    decreases s.len(),
{
    if s.len() > 0 && s[0].id != id {
        lemma_site_with_id_member(s.drop_first(), id);
        if site_with_id(s, id) is Some {
            let k = choose|k: int|
                0 <= k < s.drop_first().len() && s.drop_first()[k] == site_with_id(s, id)->0;
            assert(s[k + 1] == s.drop_first()[k]);
        }
    } else if s.len() > 0 {
        assert(s[0] == site_with_id(s, id)->0);
    }
}

proof fn lemma_first_on_tile_member(s: Seq<FoodSite>, t: (u32, u32))
    ensures
        first_on_tile(s, t) matches Some(f) ==> f.tile == t && exists|k: int|
            0 <= k < s.len() && s[k] == f,
    decreases s.len(),
{
    if s.len() > 0 && s[0].tile != t {
        lemma_first_on_tile_member(s.drop_first(), t);
        if first_on_tile(s, t) is Some {
            let k = choose|k: int|
                0 <= k < s.drop_first().len() && s.drop_first()[k] == first_on_tile(s, t)->0;
            assert(s[k + 1] == s.drop_first()[k]);
        }
    } else if s.len() > 0 {
        assert(s[0] == first_on_tile(s, t)->0);
    }
}

/// A running countdown only ticks down by one. Otherwise an attack order
/// comes first: it is dropped when the target is gone, becomes a fight when
/// the worker and its target both stand on the surface, and a route to the
/// target's layer and tile otherwise. With no countdown or attack order, a
/// pending leg is walked as it is.
pub proof fn lemma_worker_countdown_and_legs(
    v: WorkerView,
    target: Option<(Layer, (u32, u32))>,
    queen: (u32, u32),
    foods: Seq<FoodSite>,
    entrance: (u32, u32),
    g: Grid,
    nd: Option<(u32, u32)>,
)
    ensures
        v.ai.retry > 0 ==> plan_spec(v, target, queen, foods, entrance, g, nd).action == WorkerAction::Stay && plan_spec(v, target, queen, foods, entrance, g, nd).ai.retry == v.ai.retry - 1
            && plan_spec(v, target, queen, foods, entrance, g, nd).carrying == v.carrying && plan_spec(v, target, queen, foods, entrance, g, nd).take_food is None,
        (v.ai.retry == 0 && v.ai.attack_after is None && v.ai.pending is Some) ==> plan_spec(v, target, queen, foods, entrance, g, nd).action
            == WorkerAction::Route((v.ai.pending->0).0, (v.ai.pending->0).1) && plan_spec(v, target, queen, foods, entrance, g, nd).ai.pending
            is None,
        (v.ai.retry == 0 && v.ai.attack_after is Some && target is None) ==> plan_spec(v, target, queen, foods, entrance, g, nd).action
            == WorkerAction::Stay && plan_spec(v, target, queen, foods, entrance, g, nd).ai.attack_after is None,
        (v.ai.retry == 0 && v.ai.attack_after is Some && target is Some && v.layer
            == Layer::Surface && (target->0).0 == Layer::Surface) ==> plan_spec(v, target, queen, foods, entrance, g, nd).action
            == WorkerAction::Fight(v.ai.attack_after->0),
        (v.ai.retry == 0 && v.ai.attack_after is Some && target is Some && !(v.layer
            == Layer::Surface && (target->0).0 == Layer::Surface)) ==> plan_spec(v, target, queen, foods, entrance, g, nd).action
            == WorkerAction::Route((target->0).0, (target->0).1),
{
}

/// A fetcher routes only to its pile (the first with its id), on the
/// surface, whatever layer it stands on; with its pile gone it drops the job.
pub proof fn lemma_worker_fetch_rule(
    v: WorkerView,
    target: Option<(Layer, (u32, u32))>,
    queen: (u32, u32),
    foods: Seq<FoodSite>,
    entrance: (u32, u32),
    g: Grid,
    nd: Option<(u32, u32)>,
)
    ensures
        forall|k: int|
            (job_decides(v.ai) && 0 <= k < foods.len() && v.ai.job == Job::Fetch(foods[k].id)
                && (forall|j: int| 0 <= j < k ==> foods[j].id != foods[k].id)
                && plan_spec(v, target, queen, foods, entrance, g, nd).action is Route) ==> plan_spec(v, target, queen, foods, entrance, g, nd).action == WorkerAction::Route(
                Layer::Surface,
                foods[k].tile,
            ),
        (job_decides(v.ai) && v.ai.job is Fetch && forall|j: int|
            0 <= j < foods.len() ==> foods[j].id != v.ai.job->Fetch_0) ==> plan_spec(v, target, queen, foods, entrance, g, nd).action
            == WorkerAction::Stay && plan_spec(v, target, queen, foods, entrance, g, nd).ai.job == Job::Idle,
{
    if v.ai.job is Fetch {
        let fid = v.ai.job->Fetch_0;
        assert forall|k: int|
            (job_decides(v.ai) && 0 <= k < foods.len() && v.ai.job == Job::Fetch(foods[k].id)
                && (forall|j: int| 0 <= j < k ==> foods[j].id != foods[k].id)
                && plan_spec(v, target, queen, foods, entrance, g, nd).action is Route) implies plan_spec(v, target, queen, foods, entrance, g, nd).action == WorkerAction::Route(
            Layer::Surface,
            foods[k].tile,
        ) by {
            lemma_site_with_id_first(foods, fid, k);
        }
        if forall|j: int| 0 <= j < foods.len() ==> foods[j].id != fid {
            lemma_site_with_id_absent(foods, fid);
        }
    }
}

/// A deliverer with a load routes only to the queen, underground. Food is
/// handed over exactly by a manual worker or deliverer with no countdown or
/// orders, underground, with a load, at most one step from the queen; it is
/// the load's kind, and the load leaves the worker's hands.
pub proof fn lemma_worker_delivery_rule(
    v: WorkerView,
    target: Option<(Layer, (u32, u32))>,
    queen: (u32, u32),
    foods: Seq<FoodSite>,
    entrance: (u32, u32),
    g: Grid,
    nd: Option<(u32, u32)>,
)
    ensures
        (job_decides(v.ai) && v.ai.job == Job::Deliver && v.carrying.amount > 0
            && plan_spec(v, target, queen, foods, entrance, g, nd).action is Route) ==> plan_spec(v, target, queen, foods, entrance, g, nd).action == WorkerAction::Route(Layer::Underground, queen),
        (delivery(v, queen) is Some) <==> (job_decides(v.ai) && (v.ai.job == Job::Manual
            || v.ai.job == Job::Deliver) && v.layer == Layer::Underground && v.carrying.amount > 0
            && -1 <= v.tile.0 - queen.0 <= 1 && -1 <= v.tile.1 - queen.1 <= 1),
        delivery(v, queen) is Some ==> delivery(v, queen) == Some(v.carrying.kind)
            && plan_spec(v, target, queen, foods, entrance, g, nd).carrying.amount == 0,
{
}

/// A digger routes only to its site, underground, and digs only that site,
/// when it is soft and at most one step away.
pub proof fn lemma_worker_dig_rule(
    v: WorkerView,
    target: Option<(Layer, (u32, u32))>,
    queen: (u32, u32),
    foods: Seq<FoodSite>,
    entrance: (u32, u32),
    g: Grid,
    nd: Option<(u32, u32)>,
)
    ensures
        (job_decides(v.ai) && v.ai.job is DigTile && plan_spec(v, target, queen, foods, entrance, g, nd).action is Route) ==> plan_spec(v, target, queen, foods, entrance, g, nd).action
            == WorkerAction::Route(
            Layer::Underground,
            (v.ai.job->DigTile_0, v.ai.job->DigTile_1),
        ),
        plan_spec(v, target, queen, foods, entrance, g, nd).action is Dig ==> {
            let tx = plan_spec(v, target, queen, foods, entrance, g, nd).action->Dig_0;
            let ty = plan_spec(v, target, queen, foods, entrance, g, nd).action->Dig_1;
            let k = g.kind_at(tx as int, ty as int);
            &&& job_decides(v.ai)
            &&& v.ai.job == Job::DigTile(tx, ty)
            &&& v.layer == Layer::Underground
            &&& -1 <= tx - v.tile.0 <= 1
            &&& -1 <= ty - v.tile.1 <= 1
            &&& (k == DIRT || k == MOIST || k == DRY)
        },
{
}

/// Food is picked up only on the surface (by a manual worker only
/// empty-handed), from a pile with food on the worker's own tile: the worker
/// then holds one unit of that pile's kind. A fight
/// starts only on the surface, against the ordered target standing there.
pub proof fn lemma_worker_pickup_and_fight(
    v: WorkerView,
    target: Option<(Layer, (u32, u32))>,
    queen: (u32, u32),
    foods: Seq<FoodSite>,
    entrance: (u32, u32),
    g: Grid,
    nd: Option<(u32, u32)>,
)
    ensures
        plan_spec(v, target, queen, foods, entrance, g, nd).take_food is Some ==> {
            &&& v.layer == Layer::Surface
            &&& v.ai.job is Manual ==> v.carrying.amount == 0
            &&& plan_spec(v, target, queen, foods, entrance, g, nd).carrying.amount == 1
            &&& exists|k: int|
                0 <= k < foods.len() && foods[k].id == plan_spec(v, target, queen, foods, entrance, g, nd).take_food->0 && foods[k].tile
                    == v.tile && foods[k].amount > 0 && plan_spec(v, target, queen, foods, entrance, g, nd).carrying.kind == foods[k].kind
        },
        plan_spec(v, target, queen, foods, entrance, g, nd).action is Fight ==> v.layer == Layer::Surface && v.ai.retry == 0
            && v.ai.attack_after == Some(plan_spec(v, target, queen, foods, entrance, g, nd).action->Fight_0) && target is Some
            && (target->0).0 == Layer::Surface,
{
    let p = plan_spec(v, target, queen, foods, entrance, g, nd);
    lemma_first_on_tile_member(foods, v.tile);
    if p.take_food is Some {
        if v.ai.job is Fetch {
            let fid = v.ai.job->Fetch_0;
            lemma_site_with_id_member(foods, fid);
            let f = site_with_id(foods, fid)->0;
            let k = choose|k: int| 0 <= k < foods.len() && foods[k] == f;
            assert(foods[k].id == p.take_food->0 && foods[k].tile == v.tile);
        } else {
            let f = first_on_tile(foods, v.tile)->0;
            let k = choose|k: int| 0 <= k < foods.len() && foods[k] == f;
            assert(foods[k].id == p.take_food->0 && foods[k].tile == v.tile);
        }
    }
}

/// The pile chosen for fetching: super food before green; of one kind, the
/// nearest to the entrance by taxicab distance; of equal distance, the
/// lowest id.
pub proof fn lemma_best_food_order(s: Seq<FoodSite>, entrance: (u32, u32), j: int)
    requires
        0 <= j < s.len(),
    ensures
        best_site(s, entrance) is Some,
        ({
            let b = best_site(s, entrance)->0;
            let db = (if b.tile.0 >= entrance.0 { b.tile.0 - entrance.0 } else { entrance.0 - b.tile.0 })
                + (if b.tile.1 >= entrance.1 { b.tile.1 - entrance.1 } else { entrance.1 - b.tile.1 });
            let f = s[j];
            let df = (if f.tile.0 >= entrance.0 { f.tile.0 - entrance.0 } else { entrance.0 - f.tile.0 })
                + (if f.tile.1 >= entrance.1 { f.tile.1 - entrance.1 } else { entrance.1 - f.tile.1 });
            &&& s.contains(b)
            &&& f.kind == FoodKind::Super ==> b.kind == FoodKind::Super
            &&& f.kind == b.kind ==> db <= df
            &&& f.kind == b.kind && db == df ==> b.id <= f.id
        }),
{
    lemma_best_site_minimal(s, entrance);
    assert(!rank_lt(food_rank(s[j], entrance), food_rank(best_site(s, entrance)->0, entrance)));
}

/// An idle worker with no countdown or orders keeps its place this tick and
/// picks its next job: delivering when it carries food; else the queen's
/// latest dig site; else fetching from one of the piles; else a countdown of
/// 50 ticks when there is no food anywhere.
pub proof fn lemma_worker_idle_rule(
    v: WorkerView,
    target: Option<(Layer, (u32, u32))>,
    queen: (u32, u32),
    foods: Seq<FoodSite>,
    entrance: (u32, u32),
    g: Grid,
    nd: Option<(u32, u32)>,
)
    requires
        job_decides(v.ai),
        v.ai.job == Job::Idle,
    ensures
        plan_spec(v, target, queen, foods, entrance, g, nd).action == WorkerAction::Stay,
        plan_spec(v, target, queen, foods, entrance, g, nd).take_food is None,
        v.carrying.amount > 0 ==> plan_spec(v, target, queen, foods, entrance, g, nd).ai.job == Job::Deliver,
        v.carrying.amount == 0 && nd is Some ==> plan_spec(v, target, queen, foods, entrance, g, nd).ai.job == Job::DigTile(
            (nd->0).0,
            (nd->0).1,
        ),
        v.carrying.amount == 0 && nd is None && foods.len() > 0 ==> exists|k: int|
            0 <= k < foods.len() && plan_spec(v, target, queen, foods, entrance, g, nd).ai.job == Job::Fetch(foods[k].id),
        v.carrying.amount == 0 && nd is None && foods.len() == 0 ==> plan_spec(v, target, queen, foods, entrance, g, nd).ai.retry == 50
            && plan_spec(v, target, queen, foods, entrance, g, nd).ai.job == Job::Idle,
{
    lemma_best_site_minimal(foods, entrance);
    if v.carrying.amount == 0 && nd is None && foods.len() > 0 {
        let b = best_site(foods, entrance)->0;
        let k = choose|k: int| 0 <= k < foods.len() && foods[k] == b;
        assert(plan_spec(v, target, queen, foods, entrance, g, nd).ai.job == Job::Fetch(foods[k].id));
    }
}

/// A worker neither makes nor loses food: what it held plus what it takes
/// from a pile equals what it holds afterwards plus what it hands to the
/// queen.
pub proof fn lemma_worker_conserves_food(
    v: WorkerView,
    target: Option<(Layer, (u32, u32))>,
    queen: (u32, u32),
    foods: Seq<FoodSite>,
    entrance: (u32, u32),
    g: Grid,
    next_dig: Option<(u32, u32)>,
)
    requires
        v.carrying.amount <= 1,
        v.ai.job is Fetch ==> v.carrying.amount == 0,
    ensures
        v.carrying.amount + (if plan_spec(v, target, queen, foods, entrance, g, next_dig).take_food is Some {
            1int
        } else {
            0int
        }) == plan_spec(v, target, queen, foods, entrance, g, next_dig).carrying.amount + (if delivery(
            v,
            queen,
        ) is Some {
            1int
        } else {
            0int
        }),
{
}

} // verus!
