//! Cellular-automata cave growth: randomly seed the interior with Floor,
//! iterate the automaton rule, then prune everything unreachable from a
//! starting Floor cell found by scanning left from the map's center.

use vstd::prelude::*;

use std::collections::VecDeque;

use crate::algorithms::Param;
use crate::common::all_tile;
use crate::common::grid_complete;
use crate::common::grid_matches;
use crate::common::history_complete;
use crate::common::tile_at;
use crate::connectivity::floor_at;
use crate::connectivity::in_grid;
use crate::connectivity::reachable;
use crate::connectivity::remove_unreachable_areas_returning_most_distant;
use crate::grid::Grid;
use crate::grid::TileType;
use crate::grid::lemma_coords_to_index;
use crate::rng::RandomSource;

verus! {

/// 1 if the cell at `(x, y)` holds Wall, else 0.
pub open spec fn wall_bit(t: Seq<Option<TileType>>, w: int, x: int, y: int) -> int {
    if t[y * w + x] == Some(TileType::Wall) {
        1int
    } else {
        0int
    }
}

/// How many of the eight neighbours of `(x, y)` hold Wall.
pub open spec fn wall_neighbors(t: Seq<Option<TileType>>, w: int, x: int, y: int) -> int {
    wall_bit(t, w, x - 1, y) + wall_bit(t, w, x + 1, y) + wall_bit(t, w, x - 1, y - 1) + wall_bit(
        t,
        w,
        x,
        y - 1,
    ) + wall_bit(t, w, x + 1, y - 1) + wall_bit(t, w, x - 1, y + 1) + wall_bit(t, w, x, y + 1)
        + wall_bit(t, w, x + 1, y + 1)
}

/// The automaton rule for one interior cell: it becomes Wall if more than
/// four of its neighbours are Wall, or none is — the zero-neighbour branch
/// reverts isolated cells on purpose — and Floor otherwise.
pub open spec fn ca_rule(t: Seq<Option<TileType>>, w: int, x: int, y: int) -> Option<TileType> {
    if wall_neighbors(t, w, x, y) > 4 || wall_neighbors(t, w, x, y) == 0 {
        Some(TileType::Wall)
    } else {
        Some(TileType::Floor)
    }
}

/// One synchronous automaton pass over the whole tile array: interior
/// cells follow the rule, border cells keep their tile.
pub open spec fn ca_pass(t: Seq<Option<TileType>>, w: int, h: int) -> Seq<Option<TileType>> {
    Seq::new(
        t.len(),
        |i: int|
            if 1 <= i % w && i % w < w - 1 && 1 <= i / w && i / w < h - 1 {
                ca_rule(t, w, i % w, i / w)
            } else {
                t[i]
            },
    )
}

/// The number of automaton passes a run performs: negative requests run
/// none.
pub open spec fn ca_iters(iters: int) -> int {
    if iters >= 0 {
        iters
    } else {
        0
    }
}

/// The last snapshot before pruning: the state the flood rewrites.
pub open spec fn ca_pre(snaps: Seq<Grid>, iters: int) -> Seq<Option<TileType>> {
    snaps[1 + ca_iters(iters)].tiles@
}

/// The observable shape of one finished run: the history holds the Wall
/// fill, the random seeding, one snapshot per automaton pass — each
/// following from the one before it by `ca_pass` — and the pruned map;
/// the final map is the last pre-pruning snapshot rewritten by the capped
/// flood from the start found by scanning left from the center.
pub open spec fn ca_run_ok(map: Grid, snaps: Seq<Grid>, w: int, h: int, iters: int) -> bool {
    &&& snaps.len() == 3 + ca_iters(iters)
    &&& forall|k: int|
        0 <= k < ca_iters(iters) ==> (#[trigger] snaps[k + 2]).tiles@ == ca_pass(
            snaps[k + 1].tiles@,
            w,
            h,
        )
    &&& snaps.last().tiles@ == map.tiles@
    &&& exists|sx: int|
        {
            &&& 0 <= sx <= w / 2
            &&& (#[trigger] floor_at(ca_pre(snaps, iters), w, sx, h / 2) || sx == 0)
            &&& forall|x: int|
                sx < x <= w / 2 ==> !(#[trigger] floor_at(ca_pre(snaps, iters), w, x, h / 2))
            &&& forall|x: int, y: int|
                in_grid(w, h, x, y) ==> #[trigger] tile_at(map, x, y) == (if floor_at(
                    ca_pre(snaps, iters),
                    w,
                    x,
                    y,
                ) {
                    if reachable(ca_pre(snaps, iters), w, h, sx, h / 2, x, y) {
                        Some(TileType::Floor)
                    } else {
                        Some(TileType::Wall)
                    }
                } else {
                    ca_pre(snaps, iters)[y * w + x]
                })
        }
}

pub struct CellularAutomataBuilder {
    pub map: Grid,
    pub snapshots: Vec<Grid>,
}

impl Default for CellularAutomataBuilder {
    fn default() -> (r: CellularAutomataBuilder)
        ensures
            r.map.width == 0,
            r.map.height == 0,
            r.map.tiles@.len() == 0,
            r.snapshots@.len() == 0,
    {
        CellularAutomataBuilder { map: Grid::default(), snapshots: Vec::new() }
    }
}

impl CellularAutomataBuilder {
    /// Appends an independent copy of the live map to the history.
    pub fn take_snapshot(&mut self)
        ensures
            final(self).map == old(self).map,
            final(self).snapshots@.len() == old(self).snapshots@.len() + 1,
            forall|k: int|
                0 <= k < old(self).snapshots@.len() ==> final(self).snapshots@[k] == old(
                    self,
                ).snapshots@[k],
            grid_matches(final(self).snapshots@.last(), old(self).map),
    {
        let snap = self.map.clone();
        self.snapshots.push(snap);
    }

    /// The current map, by value.
    pub fn get_map(&self) -> (g: Grid)
        ensures
            grid_matches(g, self.map),
    {
        self.map.clone()
    }

    /// The ordered history of snapshots, by value, oldest first.
    pub fn get_snapshot_history(&self) -> (h: VecDeque<Grid>)
        ensures
            h@.len() == self.snapshots@.len(),
            forall|k: int|
                0 <= k < h@.len() ==> grid_matches(#[trigger] h@[k], self.snapshots@[k]),
    {
        let mut h: VecDeque<Grid> = VecDeque::new();
        let mut i: usize = 0;
        let n = self.snapshots.len();
        while i < n
            invariant
                i <= n,
                n == self.snapshots@.len(),
                h@.len() == i,
                forall|k: int|
                    0 <= k < i ==> grid_matches(#[trigger] h@[k], self.snapshots@[k]),
            decreases n - i,
        {
            let snap = self.snapshots[i].clone();
            h.push_back(snap);
            i = i + 1;
        }
        h
    }

    /// Runs the whole generation. The options are, in order: the Floor
    /// seeding percentage and the number of automaton passes. After the
    /// final pruning pass every Floor tile is reachable from one start.
    pub fn build_map(&mut self, width: i32, height: i32, options: &[Param], rng: &mut RandomSource)
        requires
            old(self).snapshots@.len() == 0,
            3 <= width,
            3 <= height,
            width * height <= i32::MAX,
            options@.len() >= 2,
        ensures
            grid_complete(final(self).map, width as int, height as int),
            history_complete(final(self).snapshots@, width as int, height as int),
            final(self).snapshots@.len() >= 1,
            all_tile(final(self).snapshots@[0].tiles@, TileType::Wall),
            ca_run_ok(
                final(self).map,
                final(self).snapshots@,
                width as int,
                height as int,
                options@[1].value as int,
            ),
            exists|sx: int, sy: int|
                in_grid(width as int, height as int, sx, sy) && forall|x: int, y: int|
                    in_grid(width as int, height as int, x, y) && #[trigger] floor_at(
                        final(self).map.tiles@,
                        width as int,
                        x,
                        y,
                    ) ==> reachable(
                        final(self).map.tiles@,
                        width as int,
                        height as int,
                        sx,
                        sy,
                        x,
                        y,
                    ),
    {
        self.map = Grid::new(width, height);
        self.build(options[0].value, options[1].value, rng);
    }

    fn build(&mut self, floor_percent: i32, iterations: i32, rng: &mut RandomSource)
        requires
            old(self).snapshots@.len() == 0,
            old(self).map.wf(),
            3 <= old(self).map.width,
            3 <= old(self).map.height,
        ensures
            grid_complete(final(self).map, old(self).map.width as int, old(self).map.height as int),
            history_complete(
                final(self).snapshots@,
                old(self).map.width as int,
                old(self).map.height as int,
            ),
            final(self).snapshots@.len() >= 1,
            all_tile(final(self).snapshots@[0].tiles@, TileType::Wall),
            ca_run_ok(
                final(self).map,
                final(self).snapshots@,
                old(self).map.width as int,
                old(self).map.height as int,
                iterations as int,
            ),
            exists|sx: int, sy: int|
                in_grid(old(self).map.width as int, old(self).map.height as int, sx, sy)
                    && forall|x: int, y: int|
                    in_grid(old(self).map.width as int, old(self).map.height as int, x, y)
                        && #[trigger] floor_at(
                        final(self).map.tiles@,
                        old(self).map.width as int,
                        x,
                        y,
                    ) ==> reachable(
                        final(self).map.tiles@,
                        old(self).map.width as int,
                        old(self).map.height as int,
                        sx,
                        sy,
                        x,
                        y,
                    ),
    {
        let w = self.map.width;
        let h = self.map.height;
        let ghost wi = w as int;
        let ghost hi = h as int;
        let len = self.map.tiles.len();

        // Fill the whole map with Wall.
        let mut i: usize = 0;
        while i < len
            invariant
                self.map.wf(),
                self.map.width == w,
                self.map.height == h,
                wi == w as int,
                hi == h as int,
                len == self.map.tiles@.len(),
                i <= len,
                forall|k: int| 0 <= k < i ==> self.map.tiles@[k] == Some(TileType::Wall),
                self.snapshots@.len() == 0,
            decreases len - i,
        {
            self.map.tiles[i] = Some(TileType::Wall);
            i = i + 1;
        }
        proof {
            assert forall|xx: int, yy: int|
                self.map.spec_in_bounds(xx, yy) implies (#[trigger] tile_at(self.map, xx, yy))
                is Some by {
                lemma_coords_to_index(wi, hi, xx, yy);
            }
            crate::common::lemma_full_from_coords(self.map);
        }
        self.take_snapshot();
        let ghost snap0 = self.snapshots@[0];

        // Randomize the interior, seeding Floor at the given percentage.
        let mut y: i32 = 1;
        while y < h - 1
            invariant
                self.map.wf(),
                self.map.width == w,
                self.map.height == h,
                wi == w as int,
                hi == h as int,
                3 <= w,
                3 <= h,
                1 <= y <= h - 1,
                self.map.fully_assigned(),
                self.snapshots@.len() == 1,
                self.snapshots@[0] == snap0,
                history_complete(self.snapshots@, wi, hi),
            decreases h - 1 - y,
        {
            let mut x: i32 = 1;
            while x < w - 1
                invariant
                    self.map.wf(),
                    self.map.width == w,
                    self.map.height == h,
                    wi == w as int,
                    hi == h as int,
                    3 <= w,
                    3 <= h,
                    1 <= x <= w - 1,
                    1 <= y <= h - 2,
                    self.map.fully_assigned(),
                    self.snapshots@.len() == 1,
                    self.snapshots@[0] == snap0,
                    history_complete(self.snapshots@, wi, hi),
                decreases w - 1 - x,
            {
                let roll = rng.percent_roll(floor_percent);
                let idx = self.map.xy_idx(x, y);
                if roll {
                    self.map.tiles[idx] = Some(TileType::Floor);
                } else {
                    self.map.tiles[idx] = Some(TileType::Wall);
                }
                x = x + 1;
            }
            y = y + 1;
        }
        self.take_snapshot();

        // Iteratively apply the automaton rule.
        let mut pass: i32 = 0;
        while pass < iterations
            invariant
                self.map.wf(),
                self.map.width == w,
                self.map.height == h,
                wi == w as int,
                hi == h as int,
                3 <= w,
                3 <= h,
                self.map.fully_assigned(),
                0 <= pass,
                pass as int <= ca_iters(iterations as int),
                self.snapshots@.len() == 2 + pass,
                self.snapshots@[0] == snap0,
                history_complete(self.snapshots@, wi, hi),
                self.snapshots@.last().tiles@ == self.map.tiles@,
                forall|k: int|
                    0 <= k < pass ==> (#[trigger] self.snapshots@[k + 2]).tiles@ == ca_pass(
                        self.snapshots@[k + 1].tiles@,
                        wi,
                        hi,
                    ),
            decreases iterations - pass,
        {
            let newtiles = self.automata_pass();
            proof {
                assert(newtiles@ == ca_pass(self.snapshots@[pass as int + 1].tiles@, wi, hi));
            }
            self.map.tiles = newtiles;
            self.take_snapshot();
            pass = pass + 1;
        }
        let ghost n_passes: int = if iterations >= 0 {
            iterations as int
        } else {
            0
        };
        proof {
            assert(pass as int == n_passes);
            assert(self.snapshots@.len() == 2 + n_passes);
        }

        // Find a starting point: walk left from the middle until an open
        // tile appears; the left border stops the scan at a Wall tile, and
        // pruning then clears the whole map.
        let mut sx = w / 2;
        let sy = h / 2;
        let mut start_idx = self.map.xy_idx(sx, sy);
        let mut found = match self.map.tiles[start_idx] {
            Some(TileType::Floor) => true,
            _ => false,
        };
        while !found && sx > 0
            invariant
                self.map.wf(),
                self.map.width == w,
                self.map.height == h,
                wi == w as int,
                hi == h as int,
                0 <= sx <= w / 2,
                sy == h / 2,
                0 <= sy < h,
                w / 2 < w,
                start_idx < self.map.tiles@.len(),
                start_idx as int == sy as int * wi + sx as int,
                found == floor_at(self.map.tiles@, wi, sx as int, sy as int),
                forall|x: int|
                    (sx as int) < x <= (w / 2) as int ==> !(#[trigger] floor_at(
                        self.map.tiles@,
                        wi,
                        x,
                        sy as int,
                    )),
            decreases sx,
        {
            sx = sx - 1;
            start_idx = self.map.xy_idx(sx, sy);
            found = match self.map.tiles[start_idx] {
                Some(TileType::Floor) => true,
                _ => false,
            };
        }

        // Remove everything we cannot reach from the starting point.
        let ghost pre = self.map;
        let _exit = remove_unreachable_areas_returning_most_distant(&mut self.map, start_idx);
        proof {
            let psx = start_idx as int % wi;
            let psy = start_idx as int / wi;
            crate::grid::lemma_flat_index_coords(wi, hi, start_idx as int);
            assert(in_grid(wi, hi, psx, psy));
            assert forall|xx: int, yy: int|
                self.map.spec_in_bounds(xx, yy) implies (#[trigger] tile_at(self.map, xx, yy))
                is Some by {
                lemma_coords_to_index(wi, hi, xx, yy);
                assert(tile_at(self.map, xx, yy) == (if floor_at(pre.tiles@, wi, xx, yy) {
                    if reachable(pre.tiles@, wi, hi, psx, psy, xx, yy) {
                        Some(TileType::Floor)
                    } else {
                        Some(TileType::Wall)
                    }
                } else {
                    tile_at(pre, xx, yy)
                }));
                assert(pre.tiles@[yy * wi + xx] is Some);
            }
            crate::common::lemma_full_from_coords(self.map);
        }
        self.take_snapshot();
        proof {
            let snaps = self.snapshots@;
            assert(snaps.len() == 3 + n_passes);
            assert(ca_pre(snaps, iterations as int) == pre.tiles@);
            lemma_coords_to_index(wi, hi, sx as int, sy as int);
            let psx = start_idx as int % wi;
            assert(psx == sx as int);
            assert({
                &&& 0 <= sx as int <= wi / 2
                &&& (floor_at(ca_pre(snaps, iterations as int), wi, sx as int, hi / 2) || sx as int
                    == 0)
                &&& forall|x: int|
                    (sx as int) < x <= wi / 2 ==> !(#[trigger] floor_at(
                        ca_pre(snaps, iterations as int),
                        wi,
                        x,
                        hi / 2,
                    ))
                &&& forall|x: int, y: int|
                    in_grid(wi, hi, x, y) ==> #[trigger] tile_at(self.map, x, y) == (if floor_at(
                        ca_pre(snaps, iterations as int),
                        wi,
                        x,
                        y,
                    ) {
                        if reachable(ca_pre(snaps, iterations as int), wi, hi, sx as int, hi / 2, x, y) {
                            Some(TileType::Floor)
                        } else {
                            Some(TileType::Wall)
                        }
                    } else {
                        ca_pre(snaps, iterations as int)[y * wi + x]
                    })
            });
            assert(ca_run_ok(self.map, self.snapshots@, wi, hi, iterations as int));
        }
    }

    /// One pass of the automaton: every interior cell follows the rule,
    /// border cells keep their tile.
    fn automata_pass(&self) -> (r: Vec<Option<TileType>>)
        requires
            self.map.wf(),
            3 <= self.map.width,
            3 <= self.map.height,
            self.map.fully_assigned(),
        ensures
            r@ == ca_pass(self.map.tiles@, self.map.width as int, self.map.height as int),
            r@.len() == self.map.tiles@.len(),
            forall|x: int, y: int|
                self.map.spec_in_bounds(x, y) ==> #[trigger] r@[y * self.map.width as int + x] == (
                if 1 <= x < self.map.width as int - 1 && 1 <= y < self.map.height as int - 1 {
                    ca_rule(self.map.tiles@, self.map.width as int, x, y)
                } else {
                    self.map.tiles@[y * self.map.width as int + x]
                }),
            forall|i: int| 0 <= i < r@.len() ==> (#[trigger] r@[i]) is Some,
    {
        let w = self.map.width;
        let h = self.map.height;
        let ghost wi = w as int;
        let ghost hi = h as int;
        let len = self.map.tiles.len();

        let mut newtiles: Vec<Option<TileType>> = Vec::new();
        let mut i: usize = 0;
        while i < len
            invariant
                i <= len,
                len == self.map.tiles@.len(),
                newtiles@.len() == i,
                forall|k: int| 0 <= k < i ==> newtiles@[k] == self.map.tiles@[k],
            decreases len - i,
        {
            let t = self.map.tiles[i];
            newtiles.push(t);
            i = i + 1;
        }
        proof {
            assert forall|xx: int, yy: int|
                self.map.spec_in_bounds(xx, yy) implies #[trigger] newtiles@[yy * wi + xx]
                == self.map.tiles@[yy * wi + xx] by {
                lemma_coords_to_index(wi, hi, xx, yy);
            }
        }

        let mut y: i32 = 1;
        while y < h - 1
            invariant
                self.map.wf(),
                self.map.width == w,
                self.map.height == h,
                wi == w as int,
                hi == h as int,
                3 <= w,
                3 <= h,
                self.map.fully_assigned(),
                1 <= y <= h - 1,
                newtiles@.len() == self.map.tiles@.len(),
                forall|xx: int, yy: int|
                    self.map.spec_in_bounds(xx, yy) ==> #[trigger] newtiles@[yy * wi + xx] == (
                    if 1 <= xx < wi - 1 && 1 <= yy < hi - 1 && yy < y {
                        ca_rule(self.map.tiles@, wi, xx, yy)
                    } else {
                        self.map.tiles@[yy * wi + xx]
                    }),
            decreases h - 1 - y,
        {
            let mut x: i32 = 1;
            while x < w - 1
                invariant
                    self.map.wf(),
                    self.map.width == w,
                    self.map.height == h,
                    wi == w as int,
                    hi == h as int,
                    3 <= w,
                    3 <= h,
                    self.map.fully_assigned(),
                    1 <= x <= w - 1,
                    1 <= y <= h - 2,
                    newtiles@.len() == self.map.tiles@.len(),
                    forall|xx: int, yy: int|
                        self.map.spec_in_bounds(xx, yy) ==> #[trigger] newtiles@[yy * wi + xx] == (
                        if 1 <= xx < wi - 1 && 1 <= yy < hi - 1 && (yy < y || (yy == y && xx < x)) {
                            ca_rule(self.map.tiles@, wi, xx, yy)
                        } else {
                            self.map.tiles@[yy * wi + xx]
                        }),
                decreases w - 1 - x,
            {
                let mut neighbors: i32 = 0;
                if self.is_wall_cell(x - 1, y) {
                    neighbors = neighbors + 1;
                }
                if self.is_wall_cell(x + 1, y) {
                    neighbors = neighbors + 1;
                }
                if self.is_wall_cell(x - 1, y - 1) {
                    neighbors = neighbors + 1;
                }
                if self.is_wall_cell(x, y - 1) {
                    neighbors = neighbors + 1;
                }
                if self.is_wall_cell(x + 1, y - 1) {
                    neighbors = neighbors + 1;
                }
                if self.is_wall_cell(x - 1, y + 1) {
                    neighbors = neighbors + 1;
                }
                if self.is_wall_cell(x, y + 1) {
                    neighbors = neighbors + 1;
                }
                if self.is_wall_cell(x + 1, y + 1) {
                    neighbors = neighbors + 1;
                }
                proof {
                    assert(neighbors as int == wall_neighbors(self.map.tiles@, wi, x as int, y as int));
                }
                let ghost before = newtiles@;
                let idx = self.map.xy_idx(x, y);
                if neighbors > 4 || neighbors == 0 {
                    newtiles[idx] = Some(TileType::Wall);
                } else {
                    newtiles[idx] = Some(TileType::Floor);
                }
                proof {
                    assert forall|xx: int, yy: int|
                        self.map.spec_in_bounds(xx, yy) implies #[trigger] newtiles@[yy * wi + xx]
                        == (if 1 <= xx < wi - 1 && 1 <= yy < hi - 1 && (yy < y || (yy == y && xx < x
                            + 1)) {
                            ca_rule(self.map.tiles@, wi, xx, yy)
                        } else {
                            self.map.tiles@[yy * wi + xx]
                        }) by {
                        lemma_coords_to_index(wi, hi, xx, yy);
                        lemma_coords_to_index(wi, hi, x as int, y as int);
                        if xx != x as int || yy != y as int {
                            assert(yy * wi + xx != y as int * wi + x as int);
                            assert(newtiles@[yy * wi + xx] == before[yy * wi + xx]);
                        }
                    }
                }
                x = x + 1;
            }
            y = y + 1;
        }
        proof {
            assert forall|i2: int| 0 <= i2 < newtiles@.len() implies (#[trigger] newtiles@[i2])
                is Some by {
                crate::grid::lemma_flat_index_coords(wi, hi, i2);
                assert(newtiles@[(i2 / wi) * wi + (i2 % wi)] == newtiles@[i2]);
                assert(self.map.tiles@[i2] is Some);
            }
            assert(newtiles@ =~= ca_pass(self.map.tiles@, wi, hi)) by {
                assert forall|i2: int| 0 <= i2 < newtiles@.len() implies newtiles@[i2] == ca_pass(
                    self.map.tiles@,
                    wi,
                    hi,
                )[i2] by {
                    crate::grid::lemma_flat_index_coords(wi, hi, i2);
                    assert(newtiles@[(i2 / wi) * wi + (i2 % wi)] == newtiles@[i2]);
                }
            }
        }
        newtiles
    }

    /// True iff the in-bounds cell `(x, y)` holds Wall.
    fn is_wall_cell(&self, x: i32, y: i32) -> (r: bool)
        requires
            self.map.wf(),
            self.map.spec_in_bounds(x as int, y as int),
        ensures
            r == (wall_bit(self.map.tiles@, self.map.width as int, x as int, y as int) == 1),
    {
        let idx = self.map.xy_idx(x, y);
        match self.map.tiles[idx] {
            Some(TileType::Wall) => true,
            _ => false,
        }
    }
}

} // verus!
