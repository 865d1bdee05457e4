//! The worker AI over a whole tick: the idle workers decide in turn, each
//! seeing the colony and the food piles as the workers before it left them.
use vstd::prelude::*;

use crate::colony::Colony;
use crate::components::{FoodKind, Layer};
use crate::worker::{
    delivery, lemma_worker_conserves_food, plan_spec, site_with_id, first_on_tile, takes_dig,
    worker_plan, FoodSite, WorkerPlan, WorkerView,
};
use crate::world::Grid;

verus! {

/// The part of the colony a worker step changes: the delivery count, the
/// green and super stores, and the queue of dig sites.
pub open spec fn stores_of(c: Colony) -> (int, int, int, Seq<(u32, u32)>) {
    (c.delivered as int, c.food as int, c.food_super as int, c.dig_queue@)
}

/// The dig site a worker would take next: the most recently queued one.
pub open spec fn next_dig_of(q: Seq<(u32, u32)>) -> Option<(u32, u32)> {
    if q.len() > 0 {
        Some(q.last())
    } else {
        None
    }
}

pub open spec fn one_if(b: bool) -> int {
    if b {
        1
    } else {
        0
    }
}

/// One unit leaves the first pile with this id.
pub open spec fn take_unit(s: Seq<FoodSite>, id: u32) -> Seq<FoodSite>
    decreases s.len(),
{
    if s.len() == 0 {
        s
    } else if s[0].id == id {
        s.update(0, FoodSite { amount: (s[0].amount - 1) as u32, ..s[0] })
    } else {
        seq![s[0]] + take_unit(s.drop_first(), id)
    }
}

/// No two piles share an id.
pub open spec fn distinct_ids(s: Seq<FoodSite>) -> bool {
    forall|a: int, b: int| 0 <= a < b < s.len() ==> s[a].id != s[b].id
}

/// One worker's decision and what it leaves behind: the colony's stores and
/// the piles.
pub open spec fn worker_step(
    st: (int, int, int, Seq<(u32, u32)>),
    foods: Seq<FoodSite>,
    w: (WorkerView, Option<(Layer, (u32, u32))>),
    queen: (u32, u32),
    entrance: (u32, u32),
    g: Grid,
) -> (WorkerPlan, (int, int, int, Seq<(u32, u32)>), Seq<FoodSite>) {
    let v = w.0;
    let nd = next_dig_of(st.3);
    let p = plan_spec(v, w.1, queen, foods, entrance, g, nd);
    let d = delivery(v, queen);
    (
        p,
        (
            st.0 + one_if(d is Some),
            st.1 + one_if(d == Some(FoodKind::Green)),
            st.2 + one_if(d == Some(FoodKind::Super)),
            if takes_dig(v, nd) {
                st.3.drop_last()
            } else {
                st.3
            },
        ),
        match p.take_food {
            Some(id) => take_unit(foods, id),
            None => foods,
        },
    )
}

/// The workers `ws` decide one after the other: their plans, the stores and
/// the piles at the end.
pub open spec fn tick_spec(
    st: (int, int, int, Seq<(u32, u32)>),
    foods: Seq<FoodSite>,
    ws: Seq<(WorkerView, Option<(Layer, (u32, u32))>)>,
    queen: (u32, u32),
    entrance: (u32, u32),
    g: Grid,
) -> (Seq<WorkerPlan>, (int, int, int, Seq<(u32, u32)>), Seq<FoodSite>)
    decreases ws.len(),
{
    if ws.len() == 0 {
        (Seq::empty(), st, foods)
    } else {
        let prev = tick_spec(st, foods, ws.drop_last(), queen, entrance, g);
        let s = worker_step(prev.1, prev.2, ws.last(), queen, entrance, g);
        (prev.0.push(s.0), s.1, s.2)
    }
}

/// How many of the workers hand food of kind `kind` to the queen (of any
/// kind for `None`).
pub open spec fn deliveries(
    ws: Seq<(WorkerView, Option<(Layer, (u32, u32))>)>,
    queen: (u32, u32),
    kind: Option<FoodKind>,
) -> int
    decreases ws.len(),
{
    if ws.len() == 0 {
        0
    } else {
        deliveries(ws.drop_last(), queen, kind) + one_if(
            match kind {
                None => delivery(ws.last().0, queen) is Some,
                Some(k) => delivery(ws.last().0, queen) == Some(k),
            },
        )
    }
}

/// Food left in the piles.
pub open spec fn pile_total(s: Seq<FoodSite>) -> int
    decreases s.len(),
{
    if s.len() == 0 {
        0
    } else {
        s[0].amount + pile_total(s.drop_first())
    }
}

/// Food the workers carry before they decide.
pub open spec fn carried_before(ws: Seq<(WorkerView, Option<(Layer, (u32, u32))>)>) -> int
    decreases ws.len(),
{
    if ws.len() == 0 {
        0
    } else {
        carried_before(ws.drop_last()) + ws.last().0.carrying.amount
    }
}

/// Food the workers carry after they decide.
pub open spec fn carried_after(ps: Seq<WorkerPlan>) -> int
    decreases ps.len(),
{
    if ps.len() == 0 {
        0
    } else {
        carried_after(ps.drop_last()) + ps.last().carrying.amount
    }
}

/// A worker that can carry at most one unit, and none while fetching.
pub open spec fn sane_load(v: WorkerView) -> bool {
    &&& v.carrying.amount <= 1
    &&& v.ai.job is Fetch ==> v.carrying.amount == 0
}

/// What taking a unit leaves alone: a pile's id, tile and kind.
pub open spec fn pile_key(f: FoodSite) -> (u32, (u32, u32), FoodKind) {
    (f.id, f.tile, f.kind)
}

proof fn lemma_take_unit_shape(s: Seq<FoodSite>, id: u32)
    ensures
        take_unit(s, id).len() == s.len(),
        forall|k: int| 0 <= k < s.len() ==> pile_key(#[trigger] take_unit(s, id)[k]) == pile_key(s[k]),
    decreases s.len(),
{
    if s.len() > 0 {
        if s[0].id != id {
            let t = take_unit(s.drop_first(), id);
            lemma_take_unit_shape(s.drop_first(), id);
            assert(take_unit(s, id) == seq![s[0]] + t);
            assert forall|k: int| 0 <= k < s.len() implies pile_key(#[trigger] take_unit(s, id)[k])
                == pile_key(s[k]) by {
                if k > 0 {
                    assert(take_unit(s, id)[k] == t[k - 1]);
                    assert(s.drop_first()[k - 1] == s[k]);
                }
            }
        }
    }
}

proof fn lemma_take_unit_total(s: Seq<FoodSite>, id: u32)
    requires
        site_with_id(s, id) matches Some(f) && f.amount > 0,
    ensures
        pile_total(take_unit(s, id)) == pile_total(s) - 1,
    decreases s.len(),
{
    if s[0].id == id {
        assert(take_unit(s, id).drop_first() =~= s.drop_first());
    } else {
        lemma_take_unit_total(s.drop_first(), id);
        assert(take_unit(s, id).drop_first() =~= take_unit(s.drop_first(), id));
    }
}

/// The first pile on a tile is also the first pile with its id.
proof fn lemma_first_on_tile_id(s: Seq<FoodSite>, t: (u32, u32))
    requires
        distinct_ids(s),
        first_on_tile(s, t) is Some,
    ensures
        site_with_id(s, first_on_tile(s, t)->0.id) == first_on_tile(s, t),
        exists|k: int| 0 <= k < s.len() && s[k] == first_on_tile(s, t)->0,
    decreases s.len(),
{
    if s[0].tile != t {
        let r = s.drop_first();
        assert(distinct_ids(r)) by {
            assert forall|a: int, b: int| 0 <= a < b < r.len() implies r[a].id != r[b].id by {
                assert(r[a] == s[a + 1] && r[b] == s[b + 1]);
            }
        }
        lemma_first_on_tile_id(r, t);
        let k = choose|k: int| 0 <= k < r.len() && r[k] == first_on_tile(r, t)->0;
        assert(s[k + 1] == r[k]);
        assert(s[0].id != s[k + 1].id);
    } else {
        assert(s[0] == first_on_tile(s, t)->0);
    }
}

/// A worker takes a unit only from a pile that has one.
proof fn lemma_take_is_backed(
    v: WorkerView,
    target: Option<(Layer, (u32, u32))>,
    queen: (u32, u32),
    foods: Seq<FoodSite>,
    entrance: (u32, u32),
    g: Grid,
    nd: Option<(u32, u32)>,
)
    requires
        distinct_ids(foods),
    ensures
        plan_spec(v, target, queen, foods, entrance, g, nd).take_food matches Some(id) ==> (
        site_with_id(foods, id) matches Some(f) && f.amount > 0),
{
    if first_on_tile(foods, v.tile) is Some {
        lemma_first_on_tile_id(foods, v.tile);
    }
}

proof fn lemma_take_unit_distinct(s: Seq<FoodSite>, id: u32)
    requires
        distinct_ids(s),
    ensures
        distinct_ids(take_unit(s, id)),
{
    lemma_take_unit_shape(s, id);
    let t = take_unit(s, id);
    assert forall|a: int, b: int| 0 <= a < b < t.len() implies t[a].id != t[b].id by {
        assert(pile_key(t[a]) == pile_key(s[a]));
        assert(pile_key(t[b]) == pile_key(s[b]));
    }
}

/// Over a whole tick no food is made or lost: what the piles hold, what the
/// workers carry and what the queen has stored add up to the same before
/// and after, and every unit the queen gained was a delivery.
pub proof fn lemma_tick_conserves_food(
    st: (int, int, int, Seq<(u32, u32)>),
    foods: Seq<FoodSite>,
    ws: Seq<(WorkerView, Option<(Layer, (u32, u32))>)>,
    queen: (u32, u32),
    entrance: (u32, u32),
    g: Grid,
)
    requires
        distinct_ids(foods),
        forall|i: int| 0 <= i < ws.len() ==> sane_load(#[trigger] ws[i].0),
    ensures
        ({
            let r = tick_spec(st, foods, ws, queen, entrance, g);
            &&& pile_total(r.2) + carried_after(r.0) + r.1.1 + r.1.2 == pile_total(foods)
                + carried_before(ws) + st.1 + st.2
            &&& r.1.0 - st.0 == (r.1.1 + r.1.2) - (st.1 + st.2)
            &&& distinct_ids(r.2)
            &&& r.0.len() == ws.len()
        }),
    decreases ws.len(),
{
    if ws.len() > 0 {
        let prefix = ws.drop_last();
        assert forall|i: int| 0 <= i < prefix.len() implies sane_load(#[trigger] prefix[i].0) by {
            assert(prefix[i] == ws[i]);
        }
        lemma_tick_conserves_food(st, foods, prefix, queen, entrance, g);
        let prev = tick_spec(st, foods, prefix, queen, entrance, g);
        let w = ws.last();
        assert(sane_load(ws[ws.len() - 1].0));
        let nd = next_dig_of(prev.1.3);
        lemma_worker_conserves_food(w.0, w.1, queen, prev.2, entrance, g, nd);
        lemma_take_is_backed(w.0, w.1, queen, prev.2, entrance, g, nd);
        let p = plan_spec(w.0, w.1, queen, prev.2, entrance, g, nd);
        if let Some(id) = p.take_food {
            lemma_take_unit_total(prev.2, id);
            lemma_take_unit_distinct(prev.2, id);
        }
        let r = tick_spec(st, foods, ws, queen, entrance, g);
        assert(r.0.drop_last() =~= prev.0);
    }
}

proof fn lemma_deliveries_prefix(
    ws: Seq<(WorkerView, Option<(Layer, (u32, u32))>)>,
    queen: (u32, u32),
    kind: Option<FoodKind>,
    i: int,
)
    requires
        0 <= i <= ws.len(),
    ensures
        0 <= deliveries(ws.take(i), queen, kind) <= deliveries(ws, queen, kind),
    decreases ws.len(),
{
    if i == ws.len() {
        assert(ws.take(i) =~= ws);
        lemma_deliveries_nonneg(ws, queen, kind);
    } else {
        lemma_deliveries_prefix(ws.drop_last(), queen, kind, i);
        assert(ws.drop_last().take(i) =~= ws.take(i));
    }
}

proof fn lemma_deliveries_nonneg(
    ws: Seq<(WorkerView, Option<(Layer, (u32, u32))>)>,
    queen: (u32, u32),
    kind: Option<FoodKind>,
)
    ensures
        deliveries(ws, queen, kind) >= 0,
    decreases ws.len(),
{
    if ws.len() > 0 {
        lemma_deliveries_nonneg(ws.drop_last(), queen, kind);
    }
}

/// Takes one unit from the first pile with id `id`.
fn take_one(foods: &mut Vec<FoodSite>, id: u32)
    requires
        site_with_id(old(foods)@, id) matches Some(f) && f.amount > 0,
    ensures
        final(foods)@ == take_unit(old(foods)@, id),
{
    let ghost s = foods@;
    let n = foods.len();
    let mut k: usize = 0;
    assert(s.skip(0) =~= s);
    while foods[k].id != id
        invariant
            foods@ == s,
            n == s.len(),
            k < s.len(),
            site_with_id(s, id) == site_with_id(s.skip(k as int), id),
            site_with_id(s, id) is Some,
            take_unit(s, id) == s.take(k as int) + take_unit(s.skip(k as int), id),
        decreases s.len() - k,
    {
        proof {
            assert(s.skip(k as int).drop_first() =~= s.skip(k + 1));
            assert(s.take(k as int) + seq![s[k as int]] =~= s.take(k + 1));
            assert(s.take(k as int) + take_unit(s.skip(k as int), id) =~= s.take(k + 1)
                + take_unit(s.skip(k + 1), id));
            assert(site_with_id(s.skip(k + 1), id) is Some);
            assert(k + 1 < s.len());
        }
        k = k + 1;
    }
    let f = foods[k];
    proof {
        assert(site_with_id(s.skip(k as int), id) == Some(s[k as int]));
    }
    foods.set(k, FoodSite { amount: f.amount - 1, ..f });
    proof {
        assert(foods@ =~= s.take(k as int) + take_unit(s.skip(k as int), id));
    }
}

/// The worker AI for one tick: each of `workers` (its view and where its
/// attack target stands) decides in turn with `worker_plan`, and a unit it
/// picks up leaves its pile in `foods`. Returns the plans in order.
pub fn worker_tick(
    colony: &mut Colony,
    workers: &Vec<(WorkerView, Option<(Layer, (u32, u32))>)>,
    queen: (u32, u32),
    foods: &mut Vec<FoodSite>,
    entrance: (u32, u32),
    g: &Grid,
) -> (plans: Vec<WorkerPlan>)
    requires
        g.wf(),
        distinct_ids(old(foods)@),
        forall|i: int|
            0 <= i < workers@.len() ==> {
                let v = #[trigger] workers@[i].0;
                v.ai.retry == 0 && v.ai.attack_after is None && v.ai.pending is None
                    && v.ai.job is DigTile ==> g.inside(
                    v.ai.job->DigTile_0 as int,
                    v.ai.job->DigTile_1 as int,
                )
            },
        old(colony).delivered + deliveries(workers@, queen, None) <= u32::MAX,
        old(colony).food + deliveries(workers@, queen, Some(FoodKind::Green)) <= u32::MAX,
        old(colony).food_super + deliveries(workers@, queen, Some(FoodKind::Super)) <= u32::MAX,
    ensures
        (plans@, stores_of(*final(colony)), final(foods)@) == tick_spec(
            stores_of(*old(colony)),
            old(foods)@,
            workers@,
            queen,
            entrance,
            *g,
        ),
        final(colony).eggs_laid == old(colony).eggs_laid,
        final(colony).dead == old(colony).dead,
        final(colony).queen_id == old(colony).queen_id,
{
    let ghost c0 = stores_of(*colony);
    let ghost f0 = foods@;
    let ghost ws = workers@;
    let mut plans: Vec<WorkerPlan> = Vec::new();
    let mut i: usize = 0;
    assert(ws.take(0) =~= Seq::<(WorkerView, Option<(Layer, (u32, u32))>)>::empty());
    while i < workers.len()
        invariant
            g.wf(),
            ws == workers@,
            i <= ws.len(),
            (plans@, stores_of(*colony), foods@) == tick_spec(
                c0,
                f0,
                ws.take(i as int),
                queen,
                entrance,
                *g,
            ),
            distinct_ids(foods@),
            colony.delivered == c0.0 + deliveries(ws.take(i as int), queen, None),
            colony.food == c0.1 + deliveries(ws.take(i as int), queen, Some(FoodKind::Green)),
            colony.food_super == c0.2 + deliveries(ws.take(i as int), queen, Some(FoodKind::Super)),
            c0.0 + deliveries(ws, queen, None) <= u32::MAX,
            c0.1 + deliveries(ws, queen, Some(FoodKind::Green)) <= u32::MAX,
            c0.2 + deliveries(ws, queen, Some(FoodKind::Super)) <= u32::MAX,
            forall|j: int|
                0 <= j < ws.len() ==> {
                    let v = #[trigger] ws[j].0;
                    v.ai.retry == 0 && v.ai.attack_after is None && v.ai.pending is None
                        && v.ai.job is DigTile ==> g.inside(
                        v.ai.job->DigTile_0 as int,
                        v.ai.job->DigTile_1 as int,
                    )
                },
            colony.eggs_laid == old(colony).eggs_laid,
            colony.dead == old(colony).dead,
            colony.queen_id == old(colony).queen_id,
        decreases ws.len() - i,
    {
        let w = workers[i];
        proof {
            assert(ws.take(i + 1).drop_last() =~= ws.take(i as int));
            assert(ws.take(i + 1).last() == ws[i as int]);
            lemma_deliveries_prefix(ws, queen, None, i + 1);
            lemma_deliveries_prefix(ws, queen, Some(FoodKind::Green), i + 1);
            lemma_deliveries_prefix(ws, queen, Some(FoodKind::Super), i + 1);
            assert(ws[i as int] == w);
        }
        let ghost fb = foods@;
        let ghost nd = next_dig_of(colony.dig_queue@);
        let p = worker_plan(colony, w.0, w.1, queen, foods, entrance, g);
        proof {
            lemma_take_is_backed(w.0, w.1, queen, fb, entrance, *g, nd);
        }
        match p.take_food {
            Some(id) => {
                take_one(foods, id);
                proof {
                    lemma_take_unit_distinct(fb, id);
                }
            },
            None => {},
        }
        plans.push(p);
        i = i + 1;
    }
    proof {
        assert(ws.take(i as int) =~= ws);
    }
    plans
}

} // verus!
