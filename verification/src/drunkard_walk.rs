//! Drunkard's-walk carving: diggers take random unit steps from their
//! spawn, turning the Wall tiles they visit to Floor, until the Floor
//! fraction reaches the target; a final pass prunes everything unreachable
//! from the fixed center start.

use vstd::prelude::*;

use std::collections::VecDeque;

use crate::algorithms::Param;
use crate::common::all_tile;
use crate::common::grid_complete;
use crate::common::grid_matches;
use crate::common::history_complete;
use crate::common::tile_at;
use crate::connectivity::floor_at;
use crate::connectivity::in_grid;
use crate::connectivity::reachable;
use crate::connectivity::reachable_n;
use crate::connectivity::remove_unreachable_areas_returning_most_distant;
use crate::grid::Grid;
use crate::grid::TileType;
use crate::grid::lemma_coords_to_index;
use crate::rng::RandomSource;

verus! {

/// A ceiling on the number of diggers in one run: with sane settings the
/// Floor target is reached far earlier, and the ceiling turns a
/// misconfigured run into a finished one instead of an endless one.
pub const MAX_DIGGERS: i32 = 10000;

/// Where each digger after the first one spawns.
#[derive(PartialEq, Eq, Structural, Copy, Clone, Debug)]
pub enum DrunkSpawnMode {
    StartingPoint,
    Random,
}

/// The tunables of one drunkard's-walk run. The Floor target is a
/// percentage of all tiles.
#[derive(Copy, Clone, Debug)]
pub struct DrunkardSettings {
    pub spawn_mode: DrunkSpawnMode,
    pub drunken_lifetime: i32,
    pub floor_percent: i32,
}

/// Cells the diggers' clamp keeps them away from: the two outermost
/// columns and rows on the left and top, one on the right and bottom.
pub open spec fn off_walk(w: int, h: int, x: int, y: int) -> bool {
    x < 2 || x > w - 2 || y < 2 || y > h - 2
}

/// Every cell outside the diggers' reach holds Wall.
pub open spec fn edges_wall(g: Grid, w: int, h: int) -> bool {
    forall|x: int, y: int|
        in_grid(w, h, x, y) && off_walk(w, h, x, y) ==> #[trigger] tile_at(g, x, y) == Some(
            TileType::Wall,
        )
}

/// Every snapshot of the history keeps its out-of-reach cells Wall.
pub open spec fn history_edges_wall(s: Seq<Grid>, w: int, h: int) -> bool {
    forall|k: int| 0 <= k < s.len() ==> edges_wall(#[trigger] s[k], w, h)
}

pub struct DrunkardsWalkBuilder {
    pub map: Grid,
    pub snapshots: Vec<Grid>,
    pub starting_position: (i32, i32),
    pub settings: DrunkardSettings,
}

impl DrunkardsWalkBuilder {
    pub fn new(settings: DrunkardSettings) -> (r: DrunkardsWalkBuilder)
        ensures
            r.map.width == 0,
            r.map.height == 0,
            r.map.tiles@.len() == 0,
            r.snapshots@.len() == 0,
            r.starting_position.0 == 0,
            r.starting_position.1 == 0,
            r.settings == settings,
    {
        DrunkardsWalkBuilder {
            map: Grid::default(),
            starting_position: (0, 0),
            snapshots: Vec::new(),
            settings,
        }
    }

    /// A large open cavern: diggers always restart from the center.
    pub fn open_area() -> (r: DrunkardsWalkBuilder)
        ensures
            r.map.width == 0,
            r.map.height == 0,
            r.map.tiles@.len() == 0,
            r.snapshots@.len() == 0,
            r.starting_position.0 == 0,
            r.starting_position.1 == 0,
            r.settings.spawn_mode == DrunkSpawnMode::StartingPoint,
            r.settings.drunken_lifetime == 400,
            r.settings.floor_percent == 50,
    {
        DrunkardsWalkBuilder {
            map: Grid::default(),
            starting_position: (0, 0),
            snapshots: Vec::new(),
            settings: DrunkardSettings {
                spawn_mode: DrunkSpawnMode::StartingPoint,
                drunken_lifetime: 400,
                floor_percent: 50,
            },
        }
    }

    /// Open halls: diggers spawn at random interior points.
    pub fn open_halls() -> (r: DrunkardsWalkBuilder)
        ensures
            r.map.width == 0,
            r.map.height == 0,
            r.map.tiles@.len() == 0,
            r.snapshots@.len() == 0,
            r.starting_position.0 == 0,
            r.starting_position.1 == 0,
            r.settings.spawn_mode == DrunkSpawnMode::Random,
            r.settings.drunken_lifetime == 400,
            r.settings.floor_percent == 50,
    {
        DrunkardsWalkBuilder {
            map: Grid::default(),
            starting_position: (0, 0),
            snapshots: Vec::new(),
            settings: DrunkardSettings {
                spawn_mode: DrunkSpawnMode::Random,
                drunken_lifetime: 400,
                floor_percent: 50,
            },
        }
    }

    /// Winding passages: short-lived random-spawn diggers and a lower
    /// Floor target.
    pub fn winding_passages() -> (r: DrunkardsWalkBuilder)
        ensures
            r.map.width == 0,
            r.map.height == 0,
            r.map.tiles@.len() == 0,
            r.snapshots@.len() == 0,
            r.starting_position.0 == 0,
            r.starting_position.1 == 0,
            r.settings.spawn_mode == DrunkSpawnMode::Random,
            r.settings.drunken_lifetime == 100,
            r.settings.floor_percent == 40,
    {
        DrunkardsWalkBuilder {
            map: Grid::default(),
            starting_position: (0, 0),
            snapshots: Vec::new(),
            settings: DrunkardSettings {
                spawn_mode: DrunkSpawnMode::Random,
                drunken_lifetime: 100,
                floor_percent: 40,
            },
        }
    }

    /// Appends an independent copy of the live map to the history.
    pub fn take_snapshot(&mut self)
        ensures
            final(self).map == old(self).map,
            final(self).settings == old(self).settings,
            final(self).starting_position == old(self).starting_position,
            final(self).snapshots@.len() == old(self).snapshots@.len() + 1,
            forall|k: int|
                0 <= k < old(self).snapshots@.len() ==> final(self).snapshots@[k] == old(
                    self,
                ).snapshots@[k],
            grid_matches(final(self).snapshots@.last(), old(self).map),
    {
        let snap = self.map.clone();
        self.snapshots.push(snap);
    }

    /// The current map, by value.
    pub fn get_map(&self) -> (g: Grid)
        ensures
            grid_matches(g, self.map),
    {
        self.map.clone()
    }

    /// The ordered history of snapshots, by value, oldest first.
    pub fn get_snapshot_history(&self) -> (h: VecDeque<Grid>)
        ensures
            h@.len() == self.snapshots@.len(),
            forall|k: int|
                0 <= k < h@.len() ==> grid_matches(#[trigger] h@[k], self.snapshots@[k]),
    {
        let mut h: VecDeque<Grid> = VecDeque::new();
        let mut i: usize = 0;
        let n = self.snapshots.len();
        while i < n
            invariant
                i <= n,
                n == self.snapshots@.len(),
                h@.len() == i,
                forall|k: int|
                    0 <= k < i ==> grid_matches(#[trigger] h@[k], self.snapshots@[k]),
            decreases n - i,
        {
            let snap = self.snapshots[i].clone();
            h.push_back(snap);
            i = i + 1;
        }
        h
    }

    /// Runs the whole generation; the settings come from the constructor,
    /// so the option list is not read. After the final pruning pass every
    /// Floor tile is reachable from the fixed center start.
    pub fn build_map(
        &mut self,
        width: i32,
        height: i32,
        _options: &[Param],
        rng: &mut RandomSource,
    )
        requires
            old(self).snapshots@.len() == 0,
            4 <= width,
            4 <= height,
            width * height <= i32::MAX,
            old(self).settings.drunken_lifetime >= 0,
            old(self).settings.floor_percent >= 0,
        ensures
            grid_complete(final(self).map, width as int, height as int),
            history_complete(final(self).snapshots@, width as int, height as int),
            final(self).snapshots@.len() >= 1,
            all_tile(final(self).snapshots@[0].tiles@, TileType::Wall),
            final(self).starting_position.0 == width / 2,
            final(self).starting_position.1 == height / 2,
            edges_wall(final(self).map, width as int, height as int),
            history_edges_wall(final(self).snapshots@, width as int, height as int),
            old(self).settings.drunken_lifetime >= 1 && (width as int * height as int) * old(
                self,
            ).settings.floor_percent as int / 100 >= 1 ==> floor_at(
                final(self).map.tiles@,
                width as int,
                width as int / 2,
                height as int / 2,
            ),
            forall|x: int, y: int|
                in_grid(width as int, height as int, x, y) && #[trigger] floor_at(
                    final(self).map.tiles@,
                    width as int,
                    x,
                    y,
                ) ==> reachable(
                    final(self).map.tiles@,
                    width as int,
                    height as int,
                    width as int / 2,
                    height as int / 2,
                    x,
                    y,
                ),
    {
        self.map = Grid::new(width, height);
        self.build(rng);
    }

    fn build(&mut self, rng: &mut RandomSource)
        requires
            old(self).snapshots@.len() == 0,
            old(self).map.wf(),
            4 <= old(self).map.width,
            4 <= old(self).map.height,
            old(self).settings.drunken_lifetime >= 0,
            old(self).settings.floor_percent >= 0,
        ensures
            grid_complete(final(self).map, old(self).map.width as int, old(self).map.height as int),
            history_complete(
                final(self).snapshots@,
                old(self).map.width as int,
                old(self).map.height as int,
            ),
            final(self).snapshots@.len() >= 1,
            all_tile(final(self).snapshots@[0].tiles@, TileType::Wall),
            final(self).settings == old(self).settings,
            final(self).starting_position.0 == old(self).map.width / 2,
            final(self).starting_position.1 == old(self).map.height / 2,
            edges_wall(final(self).map, old(self).map.width as int, old(self).map.height as int),
            history_edges_wall(
                final(self).snapshots@,
                old(self).map.width as int,
                old(self).map.height as int,
            ),
            old(self).settings.drunken_lifetime >= 1 && (old(self).map.width as int * old(
                self,
            ).map.height as int) * old(self).settings.floor_percent as int / 100 >= 1
                ==> floor_at(
                final(self).map.tiles@,
                old(self).map.width as int,
                old(self).map.width as int / 2,
                old(self).map.height as int / 2,
            ),
            forall|x: int, y: int|
                in_grid(old(self).map.width as int, old(self).map.height as int, x, y)
                    && #[trigger] floor_at(
                    final(self).map.tiles@,
                    old(self).map.width as int,
                    x,
                    y,
                ) ==> reachable(
                    final(self).map.tiles@,
                    old(self).map.width as int,
                    old(self).map.height as int,
                    old(self).map.width as int / 2,
                    old(self).map.height as int / 2,
                    x,
                    y,
                ),
    {
        let w = self.map.width;
        let h = self.map.height;
        let ghost wi = w as int;
        let ghost hi = h as int;
        let len = self.map.tiles.len();
        let lifetime = self.settings.drunken_lifetime;
        let spawn_random = match self.settings.spawn_mode {
            DrunkSpawnMode::Random => true,
            DrunkSpawnMode::StartingPoint => false,
        };

        // Fill the whole map with Wall.
        let mut i: usize = 0;
        while i < len
            invariant
                self.map.wf(),
                self.map.width == w,
                self.map.height == h,
                wi == w as int,
                hi == h as int,
                len == self.map.tiles@.len(),
                i <= len,
                forall|k: int| 0 <= k < i ==> self.map.tiles@[k] == Some(TileType::Wall),
                self.snapshots@.len() == 0,
                self.settings == old(self).settings,
            decreases len - i,
        {
            self.map.tiles[i] = Some(TileType::Wall);
            i = i + 1;
        }
        proof {
            assert forall|xx: int, yy: int|
                self.map.spec_in_bounds(xx, yy) implies #[trigger] tile_at(self.map, xx, yy)
                == Some(TileType::Wall) by {
                lemma_coords_to_index(wi, hi, xx, yy);
            }
            crate::common::lemma_full_from_coords(self.map);
            assert(edges_wall(self.map, wi, hi));
        }
        self.take_snapshot();
        let ghost snap0 = self.snapshots@[0];
        proof {
            assert forall|xx: int, yy: int|
                in_grid(wi, hi, xx, yy) && off_walk(wi, hi, xx, yy) implies #[trigger] tile_at(
                snap0,
                xx,
                yy,
            ) == Some(TileType::Wall) by {
                assert(snap0.tiles@ == self.map.tiles@ && snap0.width == self.map.width);
                assert(tile_at(self.map, xx, yy) == Some(TileType::Wall));
            }
            assert(history_edges_wall(self.snapshots@, wi, hi));
        }

        self.starting_position = (w / 2, h / 2);
        let start_x = w / 2;
        let start_y = h / 2;
        let start_idx = self.map.xy_idx(start_x, start_y);

        let pct = self.settings.floor_percent;
        proof {
            assert(len <= i32::MAX);
            assert((len as int) * (pct as int) <= 0x7fffffff * 0x7fffffff) by (nonlinear_arith)
                requires
                    0 <= len <= 0x7fffffff,
                    0 <= pct <= 0x7fffffff,
            ;
        }
        let desired_floor_tiles: u64 = (len as u64) * (pct as u64) / 100;
        proof {
            assert(desired_floor_tiles as int == ((wi * hi) * (pct as int)) / 100);
        }
        let mut floor_tile_count = count_floor(&self.map);
        proof {
            assert(floor_tile_count == 0);
        }
        let mut digger_count: i32 = 0;

        while floor_tile_count < desired_floor_tiles && digger_count < MAX_DIGGERS
            invariant
                self.map.wf(),
                self.map.width == w,
                self.map.height == h,
                wi == w as int,
                hi == h as int,
                4 <= w,
                4 <= h,
                0 <= digger_count,
                lifetime >= 0,
                lifetime == old(self).settings.drunken_lifetime,
                pct == old(self).settings.floor_percent,
                0 <= pct,
                len == self.map.tiles@.len(),
                desired_floor_tiles as int == ((wi * hi) * (pct as int)) / 100,
                start_x == w / 2,
                start_y == h / 2,
                self.map.fully_assigned(),
                self.snapshots@.len() >= 1,
                self.snapshots@[0] == snap0,
                history_complete(self.snapshots@, wi, hi),
                self.settings == old(self).settings,
                self.starting_position.0 == w / 2,
                self.starting_position.1 == h / 2,
                edges_wall(self.map, wi, hi),
                history_edges_wall(self.snapshots@, wi, hi),
                digger_count == 0 ==> floor_tile_count == 0,
                digger_count >= 1 && lifetime >= 1 ==> floor_at(
                    self.map.tiles@,
                    wi,
                    wi / 2,
                    hi / 2,
                ),
            decreases MAX_DIGGERS - digger_count,
        {
            let mut did_something = false;
            let mut drunk_x: i32;
            let mut drunk_y: i32;
            if spawn_random && digger_count > 0 {
                drunk_x = rng.rand_range(1, w - 2) + 1;
                drunk_y = rng.rand_range(1, h - 2) + 1;
            } else {
                drunk_x = start_x;
                drunk_y = start_y;
            }
            let ghost sx0 = drunk_x as int;
            let ghost sy0 = drunk_y as int;
            let mut drunk_life = lifetime;

            while drunk_life > 0
                invariant
                    self.map.wf(),
                    self.map.width == w,
                    self.map.height == h,
                    wi == w as int,
                    hi == h as int,
                    4 <= w,
                    4 <= h,
                    2 <= drunk_x <= w - 2,
                    2 <= drunk_y <= h - 2,
                    2 <= sx0 <= wi - 2,
                    2 <= sy0 <= hi - 2,
                    drunk_life <= lifetime,
                    drunk_life == lifetime ==> drunk_x as int == sx0 && drunk_y as int == sy0,
                    self.map.fully_assigned(),
                    self.snapshots@.len() >= 1,
                    self.snapshots@[0] == snap0,
                    history_complete(self.snapshots@, wi, hi),
                    self.settings == old(self).settings,
                    self.starting_position.0 == w / 2,
                    self.starting_position.1 == h / 2,
                    edges_wall(self.map, wi, hi),
                    history_edges_wall(self.snapshots@, wi, hi),
                    drunk_life < lifetime ==> floor_at(self.map.tiles@, wi, sx0, sy0),
                    digger_count >= 1 && lifetime >= 1 ==> floor_at(
                        self.map.tiles@,
                        wi,
                        wi / 2,
                        hi / 2,
                    ),
                decreases drunk_life,
            {
                let drunk_idx = self.map.xy_idx(drunk_x, drunk_y);
                let was_wall = match self.map.tiles[drunk_idx] {
                    Some(TileType::Wall) => true,
                    _ => false,
                };
                if was_wall {
                    did_something = true;
                }
                let ghost pre = self.map;
                self.map.tiles[drunk_idx] = Some(TileType::Floor);
                proof {
                    lemma_coords_to_index(wi, hi, drunk_x as int, drunk_y as int);
                    assert forall|xx: int, yy: int|
                        in_grid(wi, hi, xx, yy) && off_walk(wi, hi, xx, yy) implies #[trigger] tile_at(
                        self.map,
                        xx,
                        yy,
                    ) == Some(TileType::Wall) by {
                        lemma_coords_to_index(wi, hi, xx, yy);
                        assert(tile_at(pre, xx, yy) == Some(TileType::Wall));
                        assert(yy * wi + xx != drunk_y as int * wi + drunk_x as int);
                    }
                    assert(floor_at(self.map.tiles@, wi, drunk_x as int, drunk_y as int));
                    if drunk_life == lifetime {
                        assert(floor_at(self.map.tiles@, wi, sx0, sy0));
                    } else {
                        lemma_coords_to_index(wi, hi, sx0, sy0);
                        if sx0 != drunk_x as int || sy0 != drunk_y as int {
                            assert(self.map.tiles@[sy0 * wi + sx0] == pre.tiles@[sy0 * wi + sx0]);
                        }
                        assert(floor_at(self.map.tiles@, wi, sx0, sy0));
                    }
                    if digger_count >= 1 && lifetime >= 1 {
                        lemma_coords_to_index(wi, hi, wi / 2, hi / 2);
                        if wi / 2 != drunk_x as int || hi / 2 != drunk_y as int {
                            assert(self.map.tiles@[(hi / 2) * wi + wi / 2] == pre.tiles@[(hi / 2)
                                * wi + wi / 2]);
                        }
                    }
                }

                let stagger_direction = rng.rand_range(1, 5);
                if stagger_direction == 1 {
                    if drunk_x > 2 {
                        drunk_x = drunk_x - 1;
                    }
                } else if stagger_direction == 2 {
                    if drunk_x < w - 2 {
                        drunk_x = drunk_x + 1;
                    }
                } else if stagger_direction == 3 {
                    if drunk_y > 2 {
                        drunk_y = drunk_y - 1;
                    }
                } else {
                    if drunk_y < h - 2 {
                        drunk_y = drunk_y + 1;
                    }
                }

                drunk_life = drunk_life - 1;
            }
            if did_something {
                self.take_snapshot();
                proof {
                    let snap = self.snapshots@.last();
                    assert forall|xx: int, yy: int|
                        in_grid(wi, hi, xx, yy) && off_walk(wi, hi, xx, yy) implies #[trigger] tile_at(
                        snap,
                        xx,
                        yy,
                    ) == Some(TileType::Wall) by {
                        assert(snap.tiles@ == self.map.tiles@ && snap.width == self.map.width);
                        assert(tile_at(self.map, xx, yy) == Some(TileType::Wall));
                    }
                    assert(history_edges_wall(self.snapshots@, wi, hi));
                }
            }

            digger_count = digger_count + 1;
            floor_tile_count = count_floor(&self.map);
        }
        proof {
            if lifetime >= 1 && (wi * hi) * (pct as int) / 100 >= 1 {
                assert(floor_tile_count >= desired_floor_tiles || digger_count >= MAX_DIGGERS);
                assert(digger_count >= 1);
                assert(floor_at(self.map.tiles@, wi, wi / 2, hi / 2));
            }
        }
        self.take_snapshot();
        proof {
            let snap = self.snapshots@.last();
            assert forall|xx: int, yy: int|
                in_grid(wi, hi, xx, yy) && off_walk(wi, hi, xx, yy) implies #[trigger] tile_at(
                snap,
                xx,
                yy,
            ) == Some(TileType::Wall) by {
                assert(snap.tiles@ == self.map.tiles@ && snap.width == self.map.width);
                assert(tile_at(self.map, xx, yy) == Some(TileType::Wall));
            }
            assert(history_edges_wall(self.snapshots@, wi, hi));
        }

        // Remove everything we cannot reach from the center.
        let ghost pre = self.map;
        let _exit = remove_unreachable_areas_returning_most_distant(&mut self.map, start_idx);
        proof {
            lemma_coords_to_index(wi, hi, start_x as int, start_y as int);
            assert(start_idx as int % wi == start_x as int);
            assert(start_idx as int / wi == start_y as int);
            assert forall|xx: int, yy: int|
                self.map.spec_in_bounds(xx, yy) implies (#[trigger] tile_at(self.map, xx, yy))
                is Some by {
                lemma_coords_to_index(wi, hi, xx, yy);
                assert(tile_at(self.map, xx, yy) == (if floor_at(pre.tiles@, wi, xx, yy) {
                    if reachable(pre.tiles@, wi, hi, start_x as int, start_y as int, xx, yy) {
                        Some(TileType::Floor)
                    } else {
                        Some(TileType::Wall)
                    }
                } else {
                    tile_at(pre, xx, yy)
                }));
                assert(pre.tiles@[yy * wi + xx] is Some);
            }
            crate::common::lemma_full_from_coords(self.map);
            assert forall|xx: int, yy: int|
                in_grid(wi, hi, xx, yy) && off_walk(wi, hi, xx, yy) implies #[trigger] tile_at(
                self.map,
                xx,
                yy,
            ) == Some(TileType::Wall) by {
                lemma_coords_to_index(wi, hi, xx, yy);
                assert(tile_at(pre, xx, yy) == Some(TileType::Wall));
                assert(!floor_at(pre.tiles@, wi, xx, yy));
            }
            assert(edges_wall(self.map, wi, hi));
            if lifetime >= 1 && (wi * hi) * (pct as int) / 100 >= 1 {
                let cx = wi / 2;
                let cy = hi / 2;
                assert(floor_at(pre.tiles@, wi, cx, cy));
                assert(in_grid(wi, hi, cx, cy));
                assert(reachable_n(pre.tiles@, wi, hi, cx, cy, cx, cy, 0));
                crate::connectivity::lemma_reachable_mono(
                    pre.tiles@,
                    wi,
                    hi,
                    cx,
                    cy,
                    cx,
                    cy,
                    0,
                    crate::connectivity::MAX_FLOOD_DEPTH as nat,
                );
                assert(tile_at(self.map, cx, cy) == Some(TileType::Floor));
                lemma_coords_to_index(wi, hi, cx, cy);
                assert(floor_at(self.map.tiles@, wi, cx, cy));
            }
        }
        self.take_snapshot();
        proof {
            let snap = self.snapshots@.last();
            assert forall|xx: int, yy: int|
                in_grid(wi, hi, xx, yy) && off_walk(wi, hi, xx, yy) implies #[trigger] tile_at(
                snap,
                xx,
                yy,
            ) == Some(TileType::Wall) by {
                assert(snap.tiles@ == self.map.tiles@ && snap.width == self.map.width);
                assert(tile_at(self.map, xx, yy) == Some(TileType::Wall));
            }
            assert(history_edges_wall(self.snapshots@, wi, hi));
        }
    }
}

/// Counts the Floor tiles of the grid.
fn count_floor(g: &Grid) -> (r: u64)
    ensures
        r <= g.tiles@.len(),
        (forall|i: int| 0 <= i < g.tiles@.len() ==> g.tiles@[i] != Some(TileType::Floor)) ==> r
            == 0,
{
    let mut count: u64 = 0;
    let mut i: usize = 0;
    let n = g.tiles.len();
    while i < n
        invariant
            i <= n,
            n == g.tiles@.len(),
            count <= i,
            (forall|k: int| 0 <= k < g.tiles@.len() ==> g.tiles@[k] != Some(TileType::Floor))
                ==> count == 0,
        decreases n - i,
    {
        let is_floor = match g.tiles[i] {
            Some(TileType::Floor) => true,
            _ => false,
        };
        if is_floor {
            count = count + 1;
        }
        i = i + 1;
    }
    count
}

} // verus!
