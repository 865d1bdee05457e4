//! The colony's economy and the queen's brood rules.
use vstd::prelude::*;

use crate::balance::{
    DIG_QUEUE_MAX, EGG_COST, SOLDIER_COST_GREEN, SOLDIER_COST_SUPER, START_FOOD,
};
use crate::components::{Caste, FoodKind};
use crate::world::{Grid, DIRT, DRY, EMPTY, MOIST, soft_kind};

verus! {

/// The colony's stores and vital state.
pub struct Colony {
    pub food: u32,
    pub food_super: u32,
    pub delivered: u32,
    pub eggs_laid: u32,
    pub dead: bool,
    pub queen_id: u32,
    /// Tiles the queen wants dug out to make room for brood, most recent last.
    pub dig_queue: Vec<(u32, u32)>,
}

/// The caste of the next egg the queen would lay, if the stores allow one.
/// Soldiers come first while super food lasts, capped at one soldier per two
/// workers: the soldiers alive, the soldier eggs not yet hatched and the new
/// egg together number at most half the workers.
pub open spec fn egg_choice_spec(
    food: u32,
    food_super: u32,
    workers: u32,
    soldiers: u32,
    soldier_eggs: u32,
) -> Option<Caste> {
    if food >= SOLDIER_COST_GREEN && food_super >= SOLDIER_COST_SUPER && 2 * (soldiers
        + soldier_eggs + 1) <= workers {
        Some(Caste::Soldier)
    } else if food >= EGG_COST {
        Some(Caste::Worker)
    } else {
        None
    }
}

/// Soldiers are capped at one per two workers: a soldier egg is chosen only
/// when the stores hold its full price, and with it the soldiers alive and in
/// eggs are at most half the workers.
pub proof fn lemma_soldier_cap(
    food: u32,
    food_super: u32,
    workers: u32,
    soldiers: u32,
    soldier_eggs: u32,
)
    ensures
        egg_choice_spec(food, food_super, workers, soldiers, soldier_eggs) == Some(Caste::Soldier)
            ==> {
            &&& food >= egg_cost_spec(Caste::Soldier).0
            &&& food_super >= egg_cost_spec(Caste::Soldier).1
            &&& 2 * (soldiers + soldier_eggs + 1) <= workers
        },
        egg_choice_spec(food, food_super, workers, soldiers, soldier_eggs) == Some(Caste::Worker)
            ==> food >= egg_cost_spec(Caste::Worker).0,
{
}

/// The queen's choice in full: a soldier egg exactly when the stores hold 3
/// green and 2 super food and the soldiers, their unhatched eggs and the new
/// egg together are at most half the workers; otherwise a worker egg exactly
/// when 5 green food is stored; otherwise none. More workers never turn a
/// soldier choice into anything else.
pub proof fn lemma_egg_choice_rule(
    food: u32,
    food_super: u32,
    workers: u32,
    soldiers: u32,
    soldier_eggs: u32,
)
    ensures
        (egg_choice_spec(food, food_super, workers, soldiers, soldier_eggs) == Some(Caste::Soldier))
            <==> (food >= 3 && food_super >= 2 && 2 * (soldiers + soldier_eggs + 1) <= workers),
        (egg_choice_spec(food, food_super, workers, soldiers, soldier_eggs) == Some(Caste::Worker))
            <==> (!(food >= 3 && food_super >= 2 && 2 * (soldiers + soldier_eggs + 1) <= workers)
            && food >= 5),
        egg_choice_spec(food, food_super, workers, soldiers, soldier_eggs) != Some(Caste::Queen),
        workers < u32::MAX && egg_choice_spec(food, food_super, workers, soldiers, soldier_eggs)
            == Some(Caste::Soldier) ==> egg_choice_spec(
            food,
            food_super,
            (workers + 1) as u32,
            soldiers,
            soldier_eggs,
        ) == Some(Caste::Soldier),
        egg_cost_spec(Caste::Soldier) == (3u32, 2u32),
        egg_cost_spec(Caste::Worker) == (5u32, 0u32),
{
}

/// Green and super food an egg of this caste costs.
pub open spec fn egg_cost_spec(caste: Caste) -> (u32, u32) {
    match caste {
        Caste::Soldier => (SOLDIER_COST_GREEN, SOLDIER_COST_SUPER),
        Caste::Worker => (EGG_COST, 0),
        Caste::Queen => (0, 0),
    }
}

impl Colony {
    /// A fresh colony around the queen with this id.
    pub fn new(queen_id: u32) -> (c: Colony)
        ensures
            c.food == START_FOOD,
            c.food_super == 0,
            c.delivered == 0,
            c.eggs_laid == 0,
            !c.dead,
            c.queen_id == queen_id,
            c.dig_queue@.len() == 0,
    {
        Colony {
            food: START_FOOD,
            food_super: 0,
            delivered: 0,
            eggs_laid: 0,
            dead: false,
            queen_id,
            dig_queue: Vec::new(),
        }
    }

    /// One unit of food handed to the queen goes to its store.
    pub fn deliver(&mut self, kind: FoodKind)
        requires
            old(self).delivered < u32::MAX,
            kind == FoodKind::Green ==> old(self).food < u32::MAX,
            kind == FoodKind::Super ==> old(self).food_super < u32::MAX,
        ensures
            final(self).delivered == old(self).delivered + 1,
            final(self).food == old(self).food + (if kind == FoodKind::Green { 1int } else { 0int }),
            final(self).food_super == old(self).food_super + (if kind == FoodKind::Super {
                1int
            } else {
                0int
            }),
            final(self).eggs_laid == old(self).eggs_laid,
            final(self).dead == old(self).dead,
            final(self).queen_id == old(self).queen_id,
            final(self).dig_queue@ == old(self).dig_queue@,
    {
        match kind {
            FoodKind::Green => self.food = self.food + 1,
            FoodKind::Super => self.food_super = self.food_super + 1,
        }
        self.delivered = self.delivered + 1;
    }

    /// Records the death of entity `id`: the colony dies with its queen.
    pub fn note_death(&mut self, id: u32)
        ensures
            final(self).dead == (old(self).dead || id == old(self).queen_id),
            final(self).food == old(self).food,
            final(self).food_super == old(self).food_super,
            final(self).delivered == old(self).delivered,
            final(self).eggs_laid == old(self).eggs_laid,
            final(self).queen_id == old(self).queen_id,
            final(self).dig_queue@ == old(self).dig_queue@,
    {
        if id == self.queen_id {
            self.dead = true;
        }
    }

    /// The queen eats one unit of green food.
    pub fn eat(&mut self)
        requires
            old(self).food > 0,
        ensures
            final(self).food == old(self).food - 1,
            final(self).food_super == old(self).food_super,
            final(self).delivered == old(self).delivered,
            final(self).eggs_laid == old(self).eggs_laid,
            final(self).dead == old(self).dead,
            final(self).queen_id == old(self).queen_id,
            final(self).dig_queue@ == old(self).dig_queue@,
    {
        self.food = self.food - 1;
    }

    /// The caste of the next egg, if the stores allow one.
    pub fn egg_choice(&self, workers: u32, soldiers: u32, soldier_eggs: u32) -> (c: Option<Caste>)
        ensures
            c == egg_choice_spec(self.food, self.food_super, workers, soldiers, soldier_eggs),
    {
        if self.food >= SOLDIER_COST_GREEN && self.food_super >= SOLDIER_COST_SUPER && 2 * (
        soldiers as u64 + soldier_eggs as u64 + 1) <= workers as u64 {
            Some(Caste::Soldier)
        } else if self.food >= EGG_COST {
            Some(Caste::Worker)
        } else {
            None
        }
    }

    /// Pays for an egg of `caste` out of the stores and counts it.
    pub fn pay_for_egg(&mut self, caste: Caste)
        requires
            old(self).food >= egg_cost_spec(caste).0,
            old(self).food_super >= egg_cost_spec(caste).1,
            old(self).eggs_laid < u32::MAX,
        ensures
            final(self).food == old(self).food - egg_cost_spec(caste).0,
            final(self).food_super == old(self).food_super - egg_cost_spec(caste).1,
            final(self).eggs_laid == old(self).eggs_laid + 1,
            final(self).delivered == old(self).delivered,
            final(self).dead == old(self).dead,
            final(self).queen_id == old(self).queen_id,
            final(self).dig_queue@ == old(self).dig_queue@,
    {
        match caste {
            Caste::Soldier => {
                self.food = self.food - SOLDIER_COST_GREEN;
                self.food_super = self.food_super - SOLDIER_COST_SUPER;
            },
            Caste::Worker => self.food = self.food - EGG_COST,
            Caste::Queen => {},
        }
        self.eggs_laid = self.eggs_laid + 1;
    }

    /// Hands the most recently queued dig site to a worker.
    pub fn take_dig(&mut self) -> (t: Option<(u32, u32)>)
        ensures
            old(self).dig_queue@.len() == 0 ==> t is None && final(self).dig_queue@ == old(
                self,
            ).dig_queue@,
            old(self).dig_queue@.len() > 0 ==> t == Some(old(self).dig_queue@.last())
                && final(self).dig_queue@ == old(self).dig_queue@.drop_last(),
            final(self).food == old(self).food,
            final(self).food_super == old(self).food_super,
            final(self).delivered == old(self).delivered,
            final(self).eggs_laid == old(self).eggs_laid,
            final(self).dead == old(self).dead,
            final(self).queen_id == old(self).queen_id,
    {
        self.dig_queue.pop()
    }
}

// ---------------------------------------------------------------------------
// Searching the rings around the queen
// ---------------------------------------------------------------------------

/// Ring index of an offset: its Chebyshev length.
pub open spec fn ring_of(dx: int, dy: int) -> int {
    let ax = if dx < 0 { -dx } else { dx };
    let ay = if dy < 0 { -dy } else { dy };
    if ax >= ay { ax } else { ay }
}

/// Offsets are searched ring by ring outwards, each ring row by row from the
/// top, each row from the left.
pub open spec fn offset_before(a: (int, int), b: (int, int)) -> bool {
    let ra = ring_of(a.0, a.1);
    let rb = ring_of(b.0, b.1);
    ra < rb || (ra == rb && (a.1 < b.1 || (a.1 == b.1 && a.0 < b.0)))
}

/// The tile at offset `d` from `c` lies inside the grid's rock frame.
pub open spec fn in_frame(g: Grid, c: (u32, u32), d: (int, int)) -> bool {
    let x = c.0 + d.0;
    let y = c.1 + d.1;
    1 <= x < g.w - 1 && 1 <= y < g.h - 1
}

/// A soft tile that touches open ground orthogonally: a dig that grows the nest.
pub open spec fn expansion_site(g: Grid, x: int, y: int) -> bool {
    &&& soft_kind(g.kind_at(x, y))
    &&& empty_neighbor_spec(g, x, y)
}

pub open spec fn empty_neighbor_spec(g: Grid, x: int, y: int) -> bool {
    ||| (g.inside(x + 1, y) && g.kind_at(x + 1, y) == EMPTY)
    ||| (g.inside(x - 1, y) && g.kind_at(x - 1, y) == EMPTY)
    ||| (g.inside(x, y + 1) && g.kind_at(x, y + 1) == EMPTY)
    ||| (g.inside(x, y - 1) && g.kind_at(x, y - 1) == EMPTY)
}

/// A tile touches open ground when any of its four orthogonal neighbours on
/// the map is empty, whichever side it lies on.
pub proof fn lemma_empty_neighbor_sides(g: Grid, x: int, y: int)
    ensures
        empty_neighbor_spec(g, x, y) <==> (
        (x + 1 < g.w && 0 <= y < g.h && 0 <= x + 1 && g.kind_at(x + 1, y) == EMPTY)
            || (1 <= x && x - 1 < g.w && 0 <= y < g.h && g.kind_at(x - 1, y) == EMPTY)
            || (0 <= x < g.w && 0 <= y + 1 && y + 1 < g.h && g.kind_at(x, y + 1) == EMPTY)
            || (0 <= x < g.w && 1 <= y && y - 1 < g.h && g.kind_at(x, y - 1) == EMPTY)),
{
}

/// A dig site chosen around the queen is a soft tile (dirt, moist or dry)
/// inside the rock frame, one to three tiles from her in each direction at
/// most, with an empty orthogonal neighbour; and no such tile lies on a
/// nearer ring.
pub proof fn lemma_dig_site_rule(g: Grid, c: (u32, u32), t: (u32, u32), u: (u32, u32))
    requires
        first_site(SiteRule::Dig, g, Seq::empty(), c, t),
    ensures
        ({
            let k = g.kind_at(t.0 as int, t.1 as int);
            k == DIRT || k == MOIST || k == DRY
        }),
        1 <= t.0 && t.0 + 1 < g.w && 1 <= t.1 && t.1 + 1 < g.h,
        1 <= ring_of(t.0 - c.0, t.1 - c.1) <= 3,
        (t.0 + 1 < g.w && g.kind_at(t.0 + 1, t.1 as int) == EMPTY) || (1 <= t.0 && g.kind_at(
            t.0 - 1,
            t.1 as int,
        ) == EMPTY) || (t.1 + 1 < g.h && g.kind_at(t.0 as int, t.1 + 1) == EMPTY) || (1 <= t.1
            && g.kind_at(t.0 as int, t.1 - 1) == EMPTY),
        ({
            let ku = g.kind_at(u.0 as int, u.1 as int);
            &&& 1 <= u.0 && u.0 + 1 < g.w && 1 <= u.1 && u.1 + 1 < g.h
            &&& (ku == DIRT || ku == MOIST || ku == DRY)
            &&& 1 <= ring_of(u.0 - c.0, u.1 - c.1)
            &&& (g.kind_at(u.0 + 1, u.1 as int) == EMPTY || g.kind_at(u.0 - 1, u.1 as int) == EMPTY
                || g.kind_at(u.0 as int, u.1 + 1) == EMPTY || g.kind_at(u.0 as int, u.1 - 1)
                == EMPTY)
        }) ==> {
            let rt = ring_of(t.0 - c.0, t.1 - c.1);
            let ru = ring_of(u.0 - c.0, u.1 - c.1);
            rt < ru || (rt == ru && (t.1 < u.1 || (t.1 == u.1 && t.0 <= u.0)))
        },
{
    let d = choose|d: (int, int)|
        #![trigger rule_holds(SiteRule::Dig, g, Seq::empty(), c, d)]
        rule_holds(SiteRule::Dig, g, Seq::empty(), c, d) && t.0 == c.0 + d.0 && t.1 == c.1 + d.1
            && forall|e: (int, int)|
            #![trigger rule_holds(SiteRule::Dig, g, Seq::empty(), c, e)]
            rule_holds(SiteRule::Dig, g, Seq::empty(), c, e) && e != d ==> offset_before(d, e);
    let e = (u.0 - c.0, u.1 - c.1);
    let ku = g.kind_at(u.0 as int, u.1 as int);
    if 1 <= u.0 && u.0 + 1 < g.w && 1 <= u.1 && u.1 + 1 < g.h && (ku == DIRT || ku == MOIST || ku
        == DRY) && 1 <= ring_of(e.0, e.1) && (g.kind_at(u.0 + 1, u.1 as int) == EMPTY || g.kind_at(
        u.0 - 1,
        u.1 as int,
    ) == EMPTY || g.kind_at(u.0 as int, u.1 + 1) == EMPTY || g.kind_at(u.0 as int, u.1 - 1)
        == EMPTY) {
        if ring_of(e.0, e.1) <= 3 {
            assert(rule_holds(SiteRule::Dig, g, Seq::empty(), c, e));
        }
    }
}

/// An egg goes on an empty tile without an egg inside the rock frame, at most
/// three tiles from the queen in each direction; no such tile comes earlier
/// in ring order (nearer ring, then upper row, then left).
pub proof fn lemma_egg_site_rule(
    g: Grid,
    occupied: Seq<(u32, u32)>,
    c: (u32, u32),
    t: (u32, u32),
    u: (u32, u32),
)
    requires
        first_site(SiteRule::Brood, g, occupied, c, t),
    ensures
        g.kind_at(t.0 as int, t.1 as int) == EMPTY,
        !occupied.contains(t),
        1 <= t.0 && t.0 + 1 < g.w && 1 <= t.1 && t.1 + 1 < g.h,
        ring_of(t.0 - c.0, t.1 - c.1) <= 3,
        (1 <= u.0 && u.0 + 1 < g.w && 1 <= u.1 && u.1 + 1 < g.h && g.kind_at(u.0 as int, u.1 as int)
            == EMPTY && !occupied.contains(u)) ==> {
            let rt = ring_of(t.0 - c.0, t.1 - c.1);
            let ru = ring_of(u.0 - c.0, u.1 - c.1);
            rt < ru || (rt == ru && (t.1 < u.1 || (t.1 == u.1 && t.0 <= u.0)))
        },
{
    let d = choose|d: (int, int)|
        #![trigger rule_holds(SiteRule::Brood, g, occupied, c, d)]
        rule_holds(SiteRule::Brood, g, occupied, c, d) && t.0 == c.0 + d.0 && t.1 == c.1 + d.1
            && forall|e: (int, int)|
            #![trigger rule_holds(SiteRule::Brood, g, occupied, c, e)]
            rule_holds(SiteRule::Brood, g, occupied, c, e) && e != d ==> offset_before(d, e);
    let e = (u.0 - c.0, u.1 - c.1);
    if 1 <= u.0 && u.0 + 1 < g.w && 1 <= u.1 && u.1 + 1 < g.h && g.kind_at(u.0 as int, u.1 as int)
        == EMPTY && !occupied.contains(u) && ring_of(e.0, e.1) <= 3 {
        assert(((c.0 + e.0) as u32, (c.1 + e.1) as u32) == u);
        assert(rule_holds(SiteRule::Brood, g, occupied, c, e));
    }
}

/// An open tile with no egg on it.
pub open spec fn brood_site(g: Grid, occupied: Seq<(u32, u32)>, x: int, y: int) -> bool {
    &&& g.kind_at(x, y) == EMPTY
    &&& !occupied.contains((x as u32, y as u32))
}

/// Offset `d` from the queen tile `c` is a candidate for a dig site.
pub open spec fn dig_candidate(g: Grid, c: (u32, u32), d: (int, int)) -> bool {
    &&& 1 <= ring_of(d.0, d.1) <= 3
    &&& in_frame(g, c, d)
    &&& expansion_site(g, c.0 + d.0, c.1 + d.1)
}

/// Offset `d` from the queen tile `c` is a candidate for laying an egg.
pub open spec fn egg_candidate(g: Grid, occupied: Seq<(u32, u32)>, c: (u32, u32), d: (int, int)) -> bool {
    &&& 0 <= ring_of(d.0, d.1) <= 3
    &&& in_frame(g, c, d)
    &&& brood_site(g, occupied, c.0 + d.0, c.1 + d.1)
}

/// Whether an orthogonal neighbour of `(x, y)` is open ground.
pub fn has_empty_neighbor(g: &Grid, x: u32, y: u32) -> (b: bool)
    requires
        g.wf(),
    ensures
        b == empty_neighbor_spec(*g, x as int, y as int),
{
    if x < u32::MAX && g.in_bounds(x + 1, y) && g.get(x + 1, y) == EMPTY {
        return true;
    }
    if x > 0 && g.in_bounds(x - 1, y) && g.get(x - 1, y) == EMPTY {
        return true;
    }
    if y < u32::MAX && g.in_bounds(x, y + 1) && g.get(x, y + 1) == EMPTY {
        return true;
    }
    if y > 0 && g.in_bounds(x, y - 1) && g.get(x, y - 1) == EMPTY {
        return true;
    }
    false
}

fn occupied_contains(occupied: &Vec<(u32, u32)>, t: (u32, u32)) -> (b: bool)
    ensures
        b == occupied@.contains(t),
{
    let mut i: usize = 0;
    while i < occupied.len()
        invariant
            i <= occupied@.len(),
            forall|j: int| 0 <= j < i ==> occupied@[j] != t,
        decreases occupied@.len() - i,
    {
        let o = occupied[i];
        if o.0 == t.0 && o.1 == t.1 {
            return true;
        }
        i = i + 1;
    }
    false
}

/// Which rule a ring search applies to its candidates.
#[derive(Clone, Copy, PartialEq, Eq, Debug, Structural)]
pub enum SiteRule {
    /// A soft tile next to open ground, one to three rings out.
    Dig,
    /// A free open tile, on the queen's own tile or up to three rings out.
    Brood,
}

spec fn rule_lo(rule: SiteRule) -> int {
    match rule {
        SiteRule::Dig => 1,
        SiteRule::Brood => 0,
    }
}

pub open spec fn rule_holds(
    rule: SiteRule,
    g: Grid,
    occupied: Seq<(u32, u32)>,
    c: (u32, u32),
    d: (int, int),
) -> bool {
    match rule {
        SiteRule::Dig => dig_candidate(g, c, d),
        SiteRule::Brood => egg_candidate(g, occupied, c, d),
    }
}

/// `t` is the first tile around `c`, in ring order, that satisfies `rule`.
pub open spec fn first_site(
    rule: SiteRule,
    g: Grid,
    occupied: Seq<(u32, u32)>,
    c: (u32, u32),
    t: (u32, u32),
) -> bool {
    exists|d: (int, int)|
        #![trigger rule_holds(rule, g, occupied, c, d)]
        rule_holds(rule, g, occupied, c, d) && t.0 == c.0 + d.0 && t.1 == c.1 + d.1 && forall|
            e: (int, int),
        |
            #![trigger rule_holds(rule, g, occupied, c, e)]
            rule_holds(rule, g, occupied, c, e) && e != d ==> offset_before(d, e)
}

/// No tile around `c` satisfies `rule`.
pub open spec fn no_site(rule: SiteRule, g: Grid, occupied: Seq<(u32, u32)>, c: (u32, u32)) -> bool {
    forall|e: (int, int)| !#[trigger] rule_holds(rule, g, occupied, c, e)
}

/// The first offset, in ring order, whose tile satisfies `rule`.
fn ring_search(g: &Grid, c: (u32, u32), rule: SiteRule, occupied: &Vec<(u32, u32)>) -> (r: Option<(u32, u32)>)
    requires
        g.wf(),
    ensures
        r matches Some(t) ==> first_site(rule, *g, occupied@, c, t),
        r is None ==> no_site(rule, *g, occupied@, c),
{
    let lo: i64 = match rule {
        SiteRule::Dig => 1,
        SiteRule::Brood => 0,
    };
    let cx = c.0 as i64;
    let cy = c.1 as i64;
    let w = g.w as i64;
    let h = g.h as i64;
    let mut r: i64 = lo;
    while r <= 3
        invariant
            lo == rule_lo(rule),
            lo <= r <= 4,
            cx == c.0,
            cy == c.1,
            w == g.w,
            h == g.h,
            g.wf(),
            forall|e: (int, int)|
                ring_of(e.0, e.1) < r ==> !#[trigger] rule_holds(rule, *g, occupied@, c, e),
        decreases 4 - r,
    {
        let mut dy: i64 = -r;
        while dy <= r
            invariant
                lo == rule_lo(rule),
                lo <= r <= 3,
                -r <= dy <= r + 1,
                cx == c.0,
                cy == c.1,
                w == g.w,
                h == g.h,
                g.wf(),
                forall|e: (int, int)|
                    ring_of(e.0, e.1) < r ==> !#[trigger] rule_holds(rule, *g, occupied@, c, e),
                forall|e: (int, int)|
                    ring_of(e.0, e.1) == r && e.1 < dy ==> !#[trigger] rule_holds(
                        rule,
                        *g,
                        occupied@,
                        c,
                        e,
                    ),
            decreases r + 1 - dy,
        {
            let mut dx: i64 = -r;
            while dx <= r
                invariant
                    lo == rule_lo(rule),
                    lo <= r <= 3,
                    -r <= dy <= r,
                    -r <= dx <= r + 1,
                    cx == c.0,
                    cy == c.1,
                    w == g.w,
                    h == g.h,
                    g.wf(),
                    forall|e: (int, int)|
                        ring_of(e.0, e.1) < r ==> !#[trigger] rule_holds(rule, *g, occupied@, c, e),
                    forall|e: (int, int)|
                        ring_of(e.0, e.1) == r && (e.1 < dy || (e.1 == dy && e.0 < dx))
                            ==> !#[trigger] rule_holds(rule, *g, occupied@, c, e),
                decreases r + 1 - dx,
            {
                let ax = if dx < 0 { -dx } else { dx };
                let ay = if dy < 0 { -dy } else { dy };
                if ax == r || ay == r {
                    let x = cx + dx;
                    let y = cy + dy;
                    if x >= 1 && y >= 1 && x < w - 1 && y < h - 1 {
                        let tx = x as u32;
                        let ty = y as u32;
                        let ok = match rule {
                            SiteRule::Dig => Grid::is_soft(g.get(tx, ty)) && has_empty_neighbor(
                                g,
                                tx,
                                ty,
                            ),
                            SiteRule::Brood => g.get(tx, ty) == EMPTY && !occupied_contains(
                                occupied,
                                (tx, ty),
                            ),
                        };
                        if ok {
                            proof {
                                let d = (dx as int, dy as int);
                                assert(rule_holds(rule, *g, occupied@, c, d));
                                assert forall|e: (int, int)|
                                    #![trigger rule_holds(rule, *g, occupied@, c, e)]
                                    rule_holds(rule, *g, occupied@, c, e) && e != d implies offset_before(
                                    d,
                                    e,
                                ) by {}
                            }
                            return Some((tx, ty));
                        }
                    }
                }
                dx = dx + 1;
            }
            dy = dy + 1;
        }
        r = r + 1;
    }
    proof {
        assert forall|e: (int, int)| !#[trigger] rule_holds(rule, *g, occupied@, c, e) by {
            if rule_holds(rule, *g, occupied@, c, e) {
                assert(ring_of(e.0, e.1) < 4);
            }
        }
    }
    None
}


/// Where the queen wants the nest dug out next: the first soft tile next to
/// open ground, searched ring by ring around her tile.
pub fn pick_dig_target(g: &Grid, queen: (u32, u32)) -> (r: Option<(u32, u32)>)
    requires
        g.wf(),
    ensures
        r matches Some(t) ==> first_site(SiteRule::Dig, *g, Seq::empty(), queen, t),
        r is None ==> no_site(SiteRule::Dig, *g, Seq::empty(), queen),
{
    let none: Vec<(u32, u32)> = Vec::new();
    proof {
        assert(none@ =~= Seq::<(u32, u32)>::empty());
    }
    ring_search(g, queen, SiteRule::Dig, &none)
}

/// Where the queen lays her next egg: the first open tile without an egg,
/// searched ring by ring from her own tile.
pub fn free_egg_tile(g: &Grid, queen: (u32, u32), occupied: &Vec<(u32, u32)>) -> (r: Option<
    (u32, u32),
>)
    requires
        g.wf(),
    ensures
        r matches Some(t) ==> first_site(SiteRule::Brood, *g, occupied@, queen, t),
        r is None ==> no_site(SiteRule::Brood, *g, occupied@, queen),
{
    ring_search(g, queen, SiteRule::Brood, occupied)
}

/// What the queen does once her laying cooldown is over.
#[derive(Clone, Copy, PartialEq, Eq, Debug, Structural)]
pub enum Brood {
    /// An egg of this caste is laid on this tile (already paid for).
    Lay(u32, u32, Caste),
    /// No room for the egg she can afford; a dig site was queued instead.
    Dig(u32, u32),
    /// Nothing happens.
    Rest,
}

impl Colony {
    /// The queen's laying decision. If the stores afford an egg
    /// (`egg_choice`), she lays it on the first free open tile around her and
    /// pays for it; when there is no such tile and fewer than three dig sites
    /// are queued, the first expansion site around her is queued for digging.
    pub fn brood_step(
        &mut self,
        g: &Grid,
        queen: (u32, u32),
        workers: u32,
        soldiers: u32,
        soldier_eggs: u32,
        occupied: &Vec<(u32, u32)>,
    ) -> (b: Brood)
        requires
            g.wf(),
            egg_choice_spec(old(self).food, old(self).food_super, workers, soldiers, soldier_eggs)
                is Some ==> old(self).eggs_laid < u32::MAX,
        ensures
            final(self).delivered == old(self).delivered,
            final(self).dead == old(self).dead,
            final(self).queen_id == old(self).queen_id,
            egg_choice_spec(old(self).food, old(self).food_super, workers, soldiers, soldier_eggs) is None ==> b
                == Brood::Rest && final(self).food == old(self).food && final(self).food_super == old(
                self,
            ).food_super && final(self).eggs_laid == old(self).eggs_laid && final(self).dig_queue@
                == old(self).dig_queue@,
            b matches Brood::Lay(x, y, caste) ==> {
                &&& egg_choice_spec(old(self).food, old(self).food_super, workers, soldiers, soldier_eggs)
                    == Some(caste)
                &&& first_site(SiteRule::Brood, *g, occupied@, queen, (x, y))
                &&& final(self).food == old(self).food - egg_cost_spec(caste).0
                &&& final(self).food_super == old(self).food_super - egg_cost_spec(caste).1
                &&& final(self).eggs_laid == old(self).eggs_laid + 1
                &&& final(self).dig_queue@ == old(self).dig_queue@
            },
            egg_choice_spec(old(self).food, old(self).food_super, workers, soldiers, soldier_eggs) is Some
                && !no_site(SiteRule::Brood, *g, occupied@, queen) ==> b is Lay,
            b !is Lay ==> final(self).food == old(self).food && final(self).food_super == old(
                self,
            ).food_super && final(self).eggs_laid == old(self).eggs_laid,
            b matches Brood::Dig(x, y) ==> {
                &&& egg_choice_spec(old(self).food, old(self).food_super, workers, soldiers, soldier_eggs) is Some
                &&& no_site(SiteRule::Brood, *g, occupied@, queen)
                &&& old(self).dig_queue@.len() < DIG_QUEUE_MAX
                &&& first_site(SiteRule::Dig, *g, Seq::empty(), queen, (x, y))
                &&& final(self).dig_queue@ == old(self).dig_queue@.push((x, y))
            },
            b == Brood::Rest ==> final(self).dig_queue@ == old(self).dig_queue@,
            egg_choice_spec(old(self).food, old(self).food_super, workers, soldiers, soldier_eggs) is Some
                && no_site(SiteRule::Brood, *g, occupied@, queen) && old(self).dig_queue@.len()
                < DIG_QUEUE_MAX && !no_site(SiteRule::Dig, *g, Seq::empty(), queen) ==> b is Dig,
            old(self).dig_queue@.len() <= DIG_QUEUE_MAX ==> final(self).dig_queue@.len()
                <= DIG_QUEUE_MAX,
    {
        match self.egg_choice(workers, soldiers, soldier_eggs) {
            None => Brood::Rest,
            Some(caste) => match free_egg_tile(g, queen, occupied) {
                Some(tile) => {
                    self.pay_for_egg(caste);
                    Brood::Lay(tile.0, tile.1, caste)
                },
                None => {
                    if self.dig_queue.len() < DIG_QUEUE_MAX {
                        if let Some(t) = pick_dig_target(g, queen) {
                            self.dig_queue.push(t);
                            return Brood::Dig(t.0, t.1);
                        }
                    }
                    Brood::Rest
                },
            },
        }
    }
}

} // verus!
