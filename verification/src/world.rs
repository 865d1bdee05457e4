//! Two-layer tile map: grids of tile kinds and their passability rules.
use vstd::prelude::*;

use crate::components::Layer;

verus! {

/// Open ground (a dug tunnel underground, or the surface itself).
pub const EMPTY: u8 = 0;
/// Diggable soil.
pub const DIRT: u8 = 1;
/// Diggable soil, humid.
pub const MOIST: u8 = 2;
/// Diggable soil, dry.
pub const DRY: u8 = 3;
/// Undiggable stone.
pub const ROCK: u8 = 4;

/// Cost of a straight step onto an empty tile.
pub const STEP_EMPTY: u32 = 1000;
/// Cost of a straight step onto a soft tile (it has to be dug first).
pub const STEP_SOFT: u32 = 10000;

/// Whether a tile kind can be dug out.
pub open spec fn soft_kind(kind: u8) -> bool {
    kind == DIRT || kind == MOIST || kind == DRY
}

/// Cost of entering a tile of this kind with a straight step, or `None` when
/// the tile blocks movement. Soft tiles are passable only for diggers.
pub open spec fn pass_cost_spec(kind: u8, soft_passable: bool) -> Option<u32> {
    if kind == EMPTY {
        Some(STEP_EMPTY)
    } else if soft_passable && soft_kind(kind) {
        Some(STEP_SOFT)
    } else {
        None
    }
}

/// A `w` x `h` rectangle of tile kinds, stored row by row.
pub struct Grid {
    pub w: u32,
    pub h: u32,
    pub tiles: Vec<u8>,
}

impl Grid {
    /// The tile store matches the dimensions, and every index fits in 32 bits.
    pub open spec fn wf(&self) -> bool {
        &&& self.tiles@.len() == self.w as int * self.h as int
        &&& self.w as int * self.h as int <= u32::MAX as int
    }

    pub open spec fn inside(&self, x: int, y: int) -> bool {
        0 <= x < self.w && 0 <= y < self.h
    }

    /// Row-major index of a tile.
    pub open spec fn index_of(&self, x: int, y: int) -> int {
        y * self.w + x
    }

    /// The kind of the tile at `(x, y)`.
    pub open spec fn kind_at(&self, x: int, y: int) -> u8 {
        self.tiles@[self.index_of(x, y)]
    }

    /// A grid of the given size with every tile set to `kind`.
    pub fn filled(w: u32, h: u32, kind: u8) -> (g: Grid)
        requires
            w as int * h as int <= u32::MAX as int,
        ensures
            g.wf(),
            g.w == w,
            g.h == h,
            forall|i: int| 0 <= i < g.tiles@.len() ==> g.tiles@[i] == kind,
    {
        let n = w * h;
        let mut tiles: Vec<u8> = Vec::new();
        let mut k: u32 = 0;
        while k < n
            invariant
                k <= n,
                n == w * h,
                tiles@.len() == k,
                forall|i: int| 0 <= i < k ==> tiles@[i] == kind,
            decreases n - k,
        {
            tiles.push(kind);
            k = k + 1;
        }
        Grid { w, h, tiles }
    }

    pub fn get(&self, x: u32, y: u32) -> (kind: u8)
        requires
            self.wf(),
            self.inside(x as int, y as int),
        ensures
            kind == self.kind_at(x as int, y as int),
    {
        proof {
            lemma_index_in_range(self, x as int, y as int);
        }
        self.tiles[(y * self.w + x) as usize]
    }

    pub fn set(&mut self, x: u32, y: u32, kind: u8)
        requires
            old(self).wf(),
            old(self).inside(x as int, y as int),
        ensures
            final(self).wf(),
            final(self).w == old(self).w,
            final(self).h == old(self).h,
            final(self).tiles@ == old(self).tiles@.update(old(self).index_of(x as int, y as int), kind),
            final(self).kind_at(x as int, y as int) == kind,
            forall|a: int, b: int|
                old(self).inside(a, b) && (a != x || b != y) ==> #[trigger] final(self).kind_at(a, b)
                    == old(self).kind_at(a, b),
    {
        proof {
            lemma_index_in_range(self, x as int, y as int);
        }
        let i = (y * self.w + x) as usize;
        self.tiles.set(i, kind);
        proof {
            assert forall|a: int, b: int|
                old(self).inside(a, b) && (a != x || b != y) implies #[trigger] self.kind_at(a, b)
                == old(self).kind_at(a, b) by {
                lemma_index_in_range(&*old(self), a, b);
                lemma_index_distinct(old(self).w as int, a, b, x as int, y as int);
            }
        }
    }

    pub fn in_bounds(&self, x: u32, y: u32) -> (b: bool)
        ensures
            b == self.inside(x as int, y as int),
    {
        x < self.w && y < self.h
    }

    pub fn is_soft(kind: u8) -> (b: bool)
        ensures
            b == soft_kind(kind),
    {
        kind == DIRT || kind == MOIST || kind == DRY
    }

    /// Scale: a straight step onto empty terrain costs 1000; diagonals cost
    /// `cost * 1414 / 1000` in the path search (integer-exact for these values).
    pub fn pass_cost(kind: u8, soft_passable: bool) -> (c: Option<u32>)
        ensures
            c == pass_cost_spec(kind, soft_passable),
    {
        if kind == EMPTY {
            Some(STEP_EMPTY)
        } else if soft_passable && (kind == DIRT || kind == MOIST || kind == DRY) {
            Some(STEP_SOFT)
        } else {
            None
        }
    }
}

/// A tile inside the grid has an index inside the tile store.
pub proof fn lemma_index_in_range(g: &Grid, x: int, y: int)
    requires
        g.wf(),
        g.inside(x, y),
    ensures
        0 <= g.index_of(x, y) < g.w as int * g.h as int,
        g.index_of(x, y) <= u32::MAX,
{
    let w = g.w as int;
    let h = g.h as int;
    assert(0 <= y * w + x < w * h) by (nonlinear_arith)
        requires
            0 <= x < w,
            0 <= y < h,
    ;
}

/// Distinct tiles of a row-major grid have distinct indices.
proof fn lemma_index_distinct(w: int, a: int, b: int, x: int, y: int)
    requires
        0 <= a < w,
        0 <= x < w,
        0 <= b,
        0 <= y,
        a != x || b != y,
    ensures
        b * w + a != y * w + x,
{
    if b == y {
    } else if b < y {
        assert(b * w + a < y * w + x) by (nonlinear_arith)
            requires
                b < y,
                0 <= a < w,
                0 <= x,
        {
            assert(b * w + w <= y * w);
        }
    } else {
        assert(y * w + x < b * w + a) by (nonlinear_arith)
            requires
                y < b,
                0 <= x < w,
                0 <= a,
        {
            assert(y * w + w <= b * w);
        }
    }
}

/// Both layers of the map and the tile where they connect.
pub struct World {
    pub surface: Grid,
    pub underground: Grid,
    pub entrance: (u32, u32),
}

/// The column of the nest entrance: the middle of the map.
pub open spec fn entrance_column(w: int) -> int {
    w / 2
}

/// The open shaft below the entrance (three rows, three tiles wide) and the
/// entrance tile itself in the top row.
pub open spec fn in_shaft(w: int, x: int, y: int) -> bool {
    let e = entrance_column(w);
    let lo = if e >= 1 { e - 1 } else { 0 };
    (1 <= y <= 3 && lo <= x <= e + 1) || (x == e && y == 0)
}

/// The outermost ring of tiles.
pub open spec fn on_frame(w: int, h: int, x: int, y: int) -> bool {
    x == 0 || y == 0 || x == w - 1 || y == h - 1
}

/// Interior tiles that may turn to rock at random; the area around the nest
/// entrance (the top seven rows, four columns either side) is kept clear.
pub open spec fn rock_roll_site_spec(w: int, h: int, x: int, y: int) -> bool {
    let e = entrance_column(w);
    let d = if x >= e { x - e } else { e - x };
    &&& 1 <= x < w - 1
    &&& 1 <= y < h - 1
    &&& !(y < 8 && d <= 4)
}

/// The kind of an underground tile at generation, given the random rock
/// rolls indexed by tile.
pub open spec fn underground_kind(w: int, h: int, rolls: Seq<bool>, x: int, y: int) -> u8 {
    if in_shaft(w, x, y) {
        EMPTY
    } else if on_frame(w, h, x, y) {
        ROCK
    } else if rock_roll_site_spec(w, h, x, y) && rolls[y * w + x] {
        ROCK
    } else {
        DIRT
    }
}

/// The generated underground, tile by tile: the entrance `(w / 2, 0)` and the
/// three-wide shaft in rows 1 to 3 below it are empty; every other tile of the
/// outer ring is rock; inside, away from the cleared area around the entrance
/// (rows above 8, within four columns of it), a tile is rock exactly when its
/// roll came up; every remaining tile is dirt.
pub proof fn lemma_underground_layout(w: int, h: int, rolls: Seq<bool>, x: int, y: int)
    requires
        w >= 3,
        h >= 4,
        0 <= x < w,
        0 <= y < h,
    ensures
        (x == w / 2 && y == 0) || (1 <= y <= 3 && w / 2 - 1 <= x <= w / 2 + 1) ==> underground_kind(
            w,
            h,
            rolls,
            x,
            y,
        ) == EMPTY,
        !((x == w / 2 && y == 0) || (1 <= y <= 3 && w / 2 - 1 <= x <= w / 2 + 1)) && (x == 0 || y
            == 0 || x == w - 1 || y == h - 1) ==> underground_kind(w, h, rolls, x, y) == ROCK,
        !((x == w / 2 && y == 0) || (1 <= y <= 3 && w / 2 - 1 <= x <= w / 2 + 1)) && 0 < x < w - 1
            && 0 < y < h - 1 ==> underground_kind(w, h, rolls, x, y) == (if !(y < 8 && -4 <= x - w
            / 2 <= 4) && rolls[y * w + x] {
            ROCK
        } else {
            DIRT
        }),
{
}

/// Whether tile `(x, y)` of a `w` x `h` underground gets a random rock roll.
pub fn rock_roll_site(w: u32, h: u32, x: u32, y: u32) -> (b: bool)
    ensures
        b == rock_roll_site_spec(w as int, h as int, x as int, y as int),
{
    let e = w / 2;
    let d = if x >= e { x - e } else { e - x };
    x >= 1 && (x as u64) + 1 < w as u64 && y >= 1 && (y as u64) + 1 < h as u64 && !(y < 8 && d <= 4)
}

/// The underground at generation: a rock frame, the open nest shaft below the
/// entrance, rock wherever a roll came up, dirt everywhere else.
pub fn carve_underground(w: u32, h: u32, rolls: &Vec<bool>) -> (g: Grid)
    requires
        w >= 3,
        h >= 4,
        w as int * h as int <= u32::MAX as int,
        rolls@.len() == w as int * h as int,
    ensures
        g.wf(),
        g.w == w,
        g.h == h,
        forall|x: int, y: int|
            0 <= x < w && 0 <= y < h ==> #[trigger] g.kind_at(x, y) == underground_kind(
                w as int,
                h as int,
                rolls@,
                x,
                y,
            ),
{
    let e = w / 2;
    let lo = if e >= 1 { e - 1 } else { 0 };
    let mut tiles: Vec<u8> = Vec::new();
    let mut y: u32 = 0;
    while y < h
        invariant
            y <= h,
            e == w / 2,
            lo == (if e >= 1 { e - 1 } else { 0 }),
            w >= 3,
            w as int * h as int <= u32::MAX as int,
            rolls@.len() == w as int * h as int,
            tiles@.len() == y as int * w as int,
            forall|yy: int, xx: int|
                0 <= yy < y && 0 <= xx < w ==> #[trigger] tiles@[yy * w + xx] == underground_kind(
                    w as int,
                    h as int,
                    rolls@,
                    xx,
                    yy,
                ),
        decreases h - y,
    {
        let mut x: u32 = 0;
        while x < w
            invariant
                x <= w,
                y < h,
                e == w / 2,
                lo == (if e >= 1 { e - 1 } else { 0 }),
                w >= 3,
                w as int * h as int <= u32::MAX as int,
                rolls@.len() == w as int * h as int,
                tiles@.len() == y as int * w as int + x,
                forall|yy: int, xx: int|
                    0 <= yy < y && 0 <= xx < w ==> #[trigger] tiles@[yy * w + xx]
                        == underground_kind(w as int, h as int, rolls@, xx, yy),
                forall|xx: int|
                    0 <= xx < x ==> #[trigger] tiles@[y * w + xx] == underground_kind(
                        w as int,
                        h as int,
                        rolls@,
                        xx,
                        y as int,
                    ),
            decreases w - x,
        {
            assert(y as int * w as int + x < w as int * h as int) by (nonlinear_arith)
                requires
                    x < w,
                    y < h,
            {
                assert(y as int * w as int + w as int <= h as int * w as int);
            }
            let i = (y * w + x) as usize;
            let shaft = (y >= 1 && y <= 3 && x >= lo && x <= e + 1) || (x == e && y == 0);
            let frame = x == 0 || y == 0 || x == w - 1 || y == h - 1;
            let kind = if shaft {
                EMPTY
            } else if frame {
                ROCK
            } else if rock_roll_site(w, h, x, y) && rolls[i] {
                ROCK
            } else {
                DIRT
            };
            let ghost before = tiles@;
            tiles.push(kind);
            proof {
                assert forall|yy: int, xx: int|
                    0 <= yy < y && 0 <= xx < w implies #[trigger] tiles@[yy * w + xx]
                    == underground_kind(w as int, h as int, rolls@, xx, yy) by {
                    assert(yy * w + xx < y as int * w as int) by (nonlinear_arith)
                        requires
                            0 <= yy < y,
                            0 <= xx < w,
                    {
                        assert(yy * w + w <= y as int * w as int);
                    }
                    assert(tiles@[yy * w + xx] == before[yy * w + xx]);
                }
            }
            x = x + 1;
        }
        proof {
            assert((y as int + 1) * w as int == y as int * w as int + w as int) by (nonlinear_arith);
            assert forall|yy: int, xx: int|
                0 <= yy < y + 1 && 0 <= xx < w implies #[trigger] tiles@[yy * w + xx]
                == underground_kind(w as int, h as int, rolls@, xx, yy) by {
                if yy < y {
                } else {
                    assert(tiles@[y * w + xx] == underground_kind(
                        w as int,
                        h as int,
                        rolls@,
                        xx,
                        y as int,
                    ));
                }
            }
        }
        y = y + 1;
    }
    assert(tiles@.len() == w as int * h as int) by (nonlinear_arith)
        requires
            tiles@.len() == y as int * w as int,
            y == h,
    ;
    Grid { w, h, tiles }
}


impl World {
    /// Both layers are well formed and of the same size, and the entrance
    /// lies on them.
    pub open spec fn wf(&self) -> bool {
        &&& self.surface.wf()
        &&& self.underground.wf()
        &&& self.surface.w == self.underground.w
        &&& self.surface.h == self.underground.h
        &&& self.underground.inside(self.entrance.0 as int, self.entrance.1 as int)
    }

    pub open spec fn layer_grid(&self, layer: Layer) -> Grid {
        match layer {
            Layer::Surface => self.surface,
            Layer::Underground => self.underground,
        }
    }

    /// A fresh map: open ground on the surface, the carved underground below,
    /// and the entrance in the middle of the top row.
    pub fn generate(w: u32, h: u32, rolls: &Vec<bool>) -> (world: World)
        requires
            w >= 3,
            h >= 4,
            w as int * h as int <= u32::MAX as int,
            rolls@.len() == w as int * h as int,
        ensures
            world.wf(),
            world.surface.w == w && world.surface.h == h,
            forall|i: int| 0 <= i < world.surface.tiles@.len() ==> world.surface.tiles@[i] == EMPTY,
            world.underground.w == w && world.underground.h == h,
            forall|x: int, y: int|
                0 <= x < w && 0 <= y < h ==> #[trigger] world.underground.kind_at(x, y)
                    == underground_kind(w as int, h as int, rolls@, x, y),
            world.entrance == (w / 2, 0u32),
    {
        let surface = Grid::filled(w, h, EMPTY);
        let underground = carve_underground(w, h, rolls);
        World { surface, underground, entrance: (w / 2, 0) }
    }

    /// The grid of one layer.
    pub fn grid(&self, layer: Layer) -> (g: &Grid)
        ensures
            *g == self.layer_grid(layer),
    {
        match layer {
            Layer::Surface => &self.surface,
            Layer::Underground => &self.underground,
        }
    }

    /// The kind of a tile of one layer.
    pub fn tile_at(&self, layer: Layer, x: u32, y: u32) -> (k: u8)
        requires
            self.wf(),
            self.layer_grid(layer).inside(x as int, y as int),
        ensures
            k == self.layer_grid(layer).kind_at(x as int, y as int),
    {
        self.grid(layer).get(x, y)
    }

    /// The tiles of one layer, row by row.
    pub fn tiles(&self, layer: Layer) -> (t: &Vec<u8>)
        ensures
            t@ == self.layer_grid(layer).tiles@,
    {
        &self.grid(layer).tiles
    }

    /// A finished dig leaves open ground behind.
    pub fn dig_out(&mut self, x: u32, y: u32)
        requires
            old(self).wf(),
            old(self).underground.inside(x as int, y as int),
        ensures
            final(self).wf(),
            final(self).surface == old(self).surface,
            final(self).entrance == old(self).entrance,
            final(self).underground.w == old(self).underground.w,
            final(self).underground.h == old(self).underground.h,
            final(self).underground.tiles@ == old(self).underground.tiles@.update(
                old(self).underground.index_of(x as int, y as int),
                EMPTY,
            ),
    {
        self.underground.set(x, y, EMPTY);
    }
}

pub open spec fn clamp_spec(v: int, lo: int, hi: int) -> int {
    if v < lo {
        lo
    } else if v > hi {
        hi
    } else {
        v
    }
}

/// A scattered coordinate always lies in `lo..=hi`, and is
/// `center + offset - spread` itself whenever that lies there.
pub proof fn lemma_scatter_range(center: u32, offset: u32, spread: u32, lo: u32, hi: u32)
    requires
        lo <= hi,
    ensures
        lo <= clamp_spec(center + offset - spread, lo as int, hi as int) <= hi,
        lo <= center + offset - spread <= hi ==> clamp_spec(center + offset - spread, lo as int, hi as int)
            == center + offset - spread,
        center + offset - spread < lo ==> clamp_spec(center + offset - spread, lo as int, hi as int) == lo,
        center + offset - spread > hi ==> clamp_spec(center + offset - spread, lo as int, hi as int) == hi,
{
}

/// The coordinate `center + offset - spread`, kept within `lo..=hi`: how food
/// clusters and their piles are scattered from a random offset.
pub fn scatter(center: u32, offset: u32, spread: u32, lo: u32, hi: u32) -> (c: u32)
    requires
        lo <= hi,
    ensures
        c == clamp_spec(center + offset - spread, lo as int, hi as int),
{
    let v = center as i64 + offset as i64 - spread as i64;
    if v < lo as i64 {
        lo
    } else if v > hi as i64 {
        hi
    } else {
        v as u32
    }
}

} // verus!
